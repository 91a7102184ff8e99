use vstd::prelude::*;

verus! {

/// A procedure URI (or URI pattern) as its sequence of dot-separated segments.
/// In a wildcard pattern an empty segment stands for any single segment.
pub struct Uri {
    pub segments: Vec<Vec<u8>>,
}

impl View for Uri {
    type V = Seq<Seq<u8>>;

    open spec fn view(&self) -> Seq<Seq<u8>> {
        self.segments@.map_values(|s: Vec<u8>| s@)
    }
}

/// `p` is a leading run of segments of `c` (possibly all of `c`).
pub open spec fn prefix_covers(p: Seq<Seq<u8>>, c: Seq<Seq<u8>>) -> bool {
    p.len() <= c.len() && c.subrange(0, p.len() as int) == p
}

/// `p` has as many segments as `c`, and each of its segments is empty or
/// equal to the segment of `c` at the same place.
pub open spec fn wildcard_covers(p: Seq<Seq<u8>>, c: Seq<Seq<u8>>) -> bool {
    &&& p.len() == c.len()
    &&& forall|i: int| 0 <= i < p.len() ==> (#[trigger] p[i]).len() == 0 || p[i] == c[i]
}

/// Number of leading non-empty segments of `p`, counted from position `k`.
pub open spec fn literal_run(p: Seq<Seq<u8>>, k: int) -> int
    decreases p.len() - k,
{
    if k < 0 || k >= p.len() || p[k].len() == 0 {
        0
    } else {
        1 + literal_run(p, k + 1)
    }
}

/// How specific a pattern is: the length of its literal leading part.
pub open spec fn specificity(p: Seq<Seq<u8>>) -> int {
    literal_run(p, 0)
}

/// The segments joined with dots between them.
pub open spec fn join_dots(segs: Seq<Seq<u8>>) -> Seq<u8>
    decreases segs.len(),
{
    if segs.len() == 0 {
        Seq::<u8>::empty()
    } else if segs.len() == 1 {
        segs[0]
    } else {
        join_dots(segs.drop_last()) + seq![DOT] + segs.last()
    }
}

pub const DOT: u8 = 46;

impl Uri {
    /// Splits a dotted URI into its segments: they hold no dot, and joined
    /// with dots they give back `text`.
    pub fn parse(text: &Vec<u8>) -> (r: Uri)
        ensures
            r@.len() >= 1,
            join_dots(r@) == text@,
            forall|k: int| 0 <= k < r@.len() ==> !(#[trigger] r@[k]).contains(DOT),
    {
        let mut done: Vec<Vec<u8>> = Vec::new();
        let mut cur: Vec<u8> = Vec::new();
        let mut i: usize = 0;
        while i < text.len()
            invariant
                i <= text@.len(),
                join_dots(done@.map_values(|v: Vec<u8>| v@).push(cur@)) == text@.subrange(0, i as int),
                forall|k: int| 0 <= k < done@.len() ==> !(#[trigger] done@[k]@).contains(DOT),
                !cur@.contains(DOT),
            decreases text@.len() - i,
        {
            let ghost segs = done@.map_values(|v: Vec<u8>| v@);
            let b = text[i];
            if b == DOT {
                let mut seg: Vec<u8> = Vec::new();
                std::mem::swap(&mut cur, &mut seg);
                done.push(seg);
                proof {
                    let next = done@.map_values(|v: Vec<u8>| v@);
                    assert(next =~= segs.push(seg@));
                    let all = next.push(cur@);
                    assert(all.drop_last() =~= next);
                    assert(cur@ =~= Seq::<u8>::empty());
                    assert(join_dots(all) =~= join_dots(next) + seq![DOT]);
                    assert(text@.subrange(0, i + 1) =~= text@.subrange(0, i as int) + seq![DOT]);
                }
            } else {
                let ghost old_cur = cur@;
                cur.push(b);
                proof {
                    let before = segs.push(old_cur);
                    let after = segs.push(cur@);
                    assert(after.drop_last() =~= segs);
                    assert(before.drop_last() =~= segs);
                    assert(join_dots(after) =~= join_dots(before) + seq![b]);
                    assert(text@.subrange(0, i + 1) =~= text@.subrange(0, i as int) + seq![b]);
                    assert forall|j: int| 0 <= j < cur@.len() implies cur@[j] != DOT by {
                        if j < old_cur.len() {
                            assert(cur@[j] == old_cur[j]);
                        }
                    }
                }
            }
            i += 1;
        }
        let ghost segs = done@.map_values(|v: Vec<u8>| v@);
        done.push(cur);
        let r = Uri { segments: done };
        proof {
            assert(r@ =~= segs.push(cur@));
            assert(text@.subrange(0, text@.len() as int) =~= text@);
        }
        r
    }

    pub fn len(&self) -> (r: usize)
        ensures
            r == self@.len(),
    {
        self.segments.len()
    }

    /// The length of the leading run of non-empty segments.
    pub fn specificity(&self) -> (r: usize)
        ensures
            r as int == specificity(self@),
    {
        let ghost p = self@;
        let mut k: usize = 0;
        while k < self.segments.len() && self.segments[k].len() != 0
            invariant
                k <= p.len(),
                p == self@,
                literal_run(p, 0) == k + literal_run(p, k as int),
            decreases p.len() - k,
        {
            assert(literal_run(p, k as int) == 1 + literal_run(p, k + 1));
            k += 1;
        }
        k
    }
}

fn bytes_eq(a: &Vec<u8>, b: &Vec<u8>) -> (r: bool)
    ensures
        r == (a@ == b@),
{
    if a.len() != b.len() {
        return false;
    }
    let mut i: usize = 0;
    while i < a.len()
        invariant
            i <= a.len(),
            a.len() == b.len(),
            forall|j: int| 0 <= j < i ==> a@[j] == b@[j],
        decreases a.len() - i,
    {
        if a[i] != b[i] {
            return false;
        }
        i += 1;
    }
    assert(a@ =~= b@);
    true
}

/// Whether two URIs have the same segments.
pub fn same_uri(a: &Uri, b: &Uri) -> (r: bool)
    ensures
        r == (a@ == b@),
{
    if a.segments.len() != b.segments.len() {
        return false;
    }
    let mut i: usize = 0;
    while i < a.segments.len()
        invariant
            i <= a@.len(),
            a@.len() == b@.len(),
            forall|j: int| 0 <= j < i ==> a@[j] == b@[j],
        decreases a@.len() - i,
    {
        if !bytes_eq(&a.segments[i], &b.segments[i]) {
            assert(a@[i as int] != b@[i as int]);
            return false;
        }
        i += 1;
    }
    assert(a@ =~= b@);
    true
}

/// Whether the pattern `p` is a leading run of segments of `c`.
pub fn is_prefix_match(p: &Uri, c: &Uri) -> (r: bool)
    ensures
        r == prefix_covers(p@, c@),
{
    if p.segments.len() > c.segments.len() {
        return false;
    }
    let mut i: usize = 0;
    while i < p.segments.len()
        invariant
            i <= p@.len(),
            p@.len() <= c@.len(),
            forall|j: int| 0 <= j < i ==> p@[j] == c@[j],
        decreases p@.len() - i,
    {
        if !bytes_eq(&p.segments[i], &c.segments[i]) {
            assert(c@.subrange(0, p@.len() as int)[i as int] != p@[i as int]);
            return false;
        }
        i += 1;
    }
    assert(c@.subrange(0, p@.len() as int) =~= p@);
    true
}

/// Whether the wildcard pattern `p` covers `c`.
pub fn is_wildcard_match(p: &Uri, c: &Uri) -> (r: bool)
    ensures
        r == wildcard_covers(p@, c@),
{
    if p.segments.len() != c.segments.len() {
        return false;
    }
    let mut i: usize = 0;
    while i < p.segments.len()
        invariant
            i <= p@.len(),
            p@.len() == c@.len(),
            forall|j: int| 0 <= j < i ==> (#[trigger] p@[j]).len() == 0 || p@[j] == c@[j],
        decreases p@.len() - i,
    {
        if p.segments[i].len() != 0 && !bytes_eq(&p.segments[i], &c.segments[i]) {
            assert(!((p@[i as int]).len() == 0 || p@[i as int] == c@[i as int]));
            return false;
        }
        i += 1;
    }
    true
}

} // verus!
