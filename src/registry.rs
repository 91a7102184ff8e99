use vstd::prelude::*;
use crate::uri::{
    Uri, prefix_covers, wildcard_covers, specificity, same_uri, is_prefix_match,
    is_wildcard_match,
};

verus! {

/// How a registration's URI is matched against a call URI.
#[derive(Clone, Copy, PartialEq, Eq, Structural, Debug)]
pub enum MatchingPolicy {
    Strict,
    Prefix,
    Wildcard,
}

/// How one of several registrants of the same exact URI is chosen.
/// `Single` admits no second registrant.
#[derive(Clone, Copy, PartialEq, Eq, Structural, Debug)]
pub enum InvocationPolicy {
    Single,
    First,
    Last,
    RoundRobin,
    Random,
}

/// Why a registry operation failed.
#[derive(Clone, Copy, PartialEq, Eq, Structural, Debug)]
pub enum Reason {
    ProcedureAlreadyExists,
    NoSuchProcedure,
}

pub struct Registration {
    pub id: u64,
    pub uri: Uri,
    pub policy: MatchingPolicy,
    pub invocation: InvocationPolicy,
    pub registrant: u64,
    /// In a round-robin set: the cursor of the set stands on this one.
    pub next_up: bool,
}

/// The mathematical value of a registration.
pub struct RegSpec {
    pub id: u64,
    pub uri: Seq<Seq<u8>>,
    pub policy: MatchingPolicy,
    pub invocation: InvocationPolicy,
    pub registrant: u64,
    pub next_up: bool,
}

impl View for Registration {
    type V = RegSpec;

    open spec fn view(&self) -> RegSpec {
        RegSpec {
            id: self.id,
            uri: self.uri@,
            policy: self.policy,
            invocation: self.invocation,
            registrant: self.registrant,
            next_up: self.next_up,
        }
    }
}

pub open spec fn shareable(p: InvocationPolicy) -> bool {
    p != InvocationPolicy::Single
}

/// A strict registration on exactly `c`.
pub open spec fn strict_on(r: RegSpec, c: Seq<Seq<u8>>) -> bool {
    r.policy == MatchingPolicy::Strict && r.uri == c
}

/// The registration matches a call on `c`.
pub open spec fn covers(r: RegSpec, c: Seq<Seq<u8>>) -> bool {
    match r.policy {
        MatchingPolicy::Strict => r.uri == c,
        MatchingPolicy::Prefix => prefix_covers(r.uri, c),
        MatchingPolicy::Wildcard => wildcard_covers(r.uri, c),
    }
}

/// A prefix or wildcard registration that matches a call on `c`.
pub open spec fn pattern_covers(r: RegSpec, c: Seq<Seq<u8>>) -> bool {
    r.policy != MatchingPolicy::Strict && covers(r, c)
}

/// Registering `uri` under `policy` and `inv` clashes with a live registration:
/// a strict one on the same URI that does not share with it.
pub open spec fn conflicts(
    regs: Seq<RegSpec>,
    uri: Seq<Seq<u8>>,
    policy: MatchingPolicy,
    inv: InvocationPolicy,
) -> bool {
    policy == MatchingPolicy::Strict && exists|i: int|
        0 <= i < regs.len() && #[trigger] strict_on(regs[i], uri) && !(shareable(inv)
            && regs[i].invocation == inv)
}

/// Well-formed registrations: ids are distinct, and strict registrations of
/// one URI are alone or agree on a shareable invocation policy.
pub open spec fn regs_wf(regs: Seq<RegSpec>) -> bool {
    &&& forall|i: int, j: int|
        0 <= i < regs.len() && 0 <= j < regs.len() && i != j ==> #[trigger] regs[i].id
            != #[trigger] regs[j].id
    &&& forall|i: int, j: int|
        0 <= i < regs.len() && 0 <= j < regs.len() && i != j && #[trigger] strict_on(
            regs[i],
            regs[j].uri,
        ) && #[trigger] strict_on(regs[j], regs[i].uri) ==> shareable(regs[i].invocation)
            && regs[i].invocation == regs[j].invocation
}

/// Positions, in registration order, of the strict registrations on `c`
/// among the first `n`.
pub open spec fn members(regs: Seq<RegSpec>, c: Seq<Seq<u8>>, n: int) -> Seq<int>
    decreases n,
{
    if n <= 0 {
        seq![]
    } else if strict_on(regs[n - 1], c) {
        members(regs, c, n - 1).push(n - 1)
    } else {
        members(regs, c, n - 1)
    }
}

/// Among the first `n`, the position of the most specific prefix or wildcard
/// registration that matches `c`, the earliest one on a tie; -1 if none does.
pub open spec fn best_pattern(regs: Seq<RegSpec>, c: Seq<Seq<u8>>, n: int) -> int
    decreases n,
{
    if n <= 0 {
        -1
    } else {
        let b = best_pattern(regs, c, n - 1);
        if pattern_covers(regs[n - 1], c) && (b < 0 || specificity(regs[n - 1].uri)
            > specificity(regs[b].uri)) {
            n - 1
        } else {
            b
        }
    }
}

/// The strict registrations on `c`, in registration order.
pub open spec fn shared_set(regs: Seq<RegSpec>, c: Seq<Seq<u8>>) -> Seq<int> {
    members(regs, c, regs.len() as int)
}

/// From position `k` of the set `m`, the first position whose registration
/// carries the cursor; 0 when none from there does.
pub open spec fn cursor_from(regs: Seq<RegSpec>, m: Seq<int>, k: int) -> int
    decreases m.len() - k,
{
    if k < 0 || k >= m.len() {
        0
    } else if regs[m[k]].next_up {
        k
    } else {
        cursor_from(regs, m, k + 1)
    }
}

/// The position, within the strict set on `c`, that a round-robin call serves.
pub open spec fn rr_cursor(regs: Seq<RegSpec>, c: Seq<Seq<u8>>) -> int {
    cursor_from(regs, shared_set(regs, c), 0)
}

/// The position of the registration that a call on `c` goes to, or -1.
/// A strict match wins, chosen in its set by the set's invocation policy
/// (`pick` is the random draw for `Random`); otherwise the best pattern match.
pub open spec fn chosen(regs: Seq<RegSpec>, c: Seq<Seq<u8>>, pick: u64) -> int {
    let m = shared_set(regs, c);
    if m.len() > 0 {
        match regs[m[0]].invocation {
            InvocationPolicy::Last => m[m.len() - 1],
            InvocationPolicy::Random => m[(pick as int) % (m.len() as int)],
            InvocationPolicy::RoundRobin => m[rr_cursor(regs, c)],
            _ => m[0],
        }
    } else {
        best_pattern(regs, c, regs.len() as int)
    }
}

/// The registration `r` with its cursor mark set to `b`.
pub open spec fn marked(r: RegSpec, b: bool) -> RegSpec {
    RegSpec {
        id: r.id,
        uri: r.uri,
        policy: r.policy,
        invocation: r.invocation,
        registrant: r.registrant,
        next_up: b,
    }
}

/// The registrations after a call on `c`: a round-robin set moves its cursor
/// from the registration it served to the next one of the set, in
/// registration order and cyclically. Nothing else changes.
pub open spec fn after_call(regs: Seq<RegSpec>, c: Seq<Seq<u8>>) -> Seq<RegSpec> {
    let m = shared_set(regs, c);
    if m.len() > 0 && regs[m[0]].invocation == InvocationPolicy::RoundRobin {
        let p = rr_cursor(regs, c);
        let q = (p + 1) % (m.len() as int);
        let s = regs.update(m[p], marked(regs[m[p]], false));
        s.update(m[q], marked(s[m[q]], true))
    } else {
        regs
    }
}

/// `a` and `b` hold the same registrations in the same order, cursor marks aside.
pub open spec fn same_but_marks(a: Seq<RegSpec>, b: Seq<RegSpec>) -> bool {
    a.len() == b.len() && forall|i: int| 0 <= i < a.len() ==> #[trigger] marked(a[i], false)
        == marked(b[i], false)
}

/// The registrations that do not belong to `who`, in their order.
pub open spec fn without_registrant(regs: Seq<RegSpec>, who: u64) -> Seq<RegSpec>
    decreases regs.len(),
{
    if regs.len() == 0 {
        regs
    } else {
        let rest = without_registrant(regs.drop_last(), who);
        if regs.last().registrant == who {
            rest
        } else {
            rest.push(regs.last())
        }
    }
}

/// The registration table of a realm, in registration order.
pub struct Registry {
    pub regs: Vec<Registration>,
}

impl View for Registry {
    type V = Seq<RegSpec>;

    open spec fn view(&self) -> Seq<RegSpec> {
        self.regs@.map_values(|r: Registration| r@)
    }
}

impl Registry {
    pub open spec fn wf(&self) -> bool {
        regs_wf(self@)
    }

    pub open spec fn has_id(&self, id: u64) -> bool {
        exists|i: int| 0 <= i < self@.len() && #[trigger] self@[i].id == id
    }

    pub fn new() -> (r: Registry)
        ensures
            r@ == Seq::<RegSpec>::empty(),
            r.wf(),
    {
        Registry { regs: Vec::new() }
    }
}

proof fn lemma_remove_wf(regs: Seq<RegSpec>, k: int)
    requires
        regs_wf(regs),
        0 <= k < regs.len(),
    ensures
        regs_wf(regs.remove(k)),
{
    let s = regs.remove(k);
    assert forall|i: int| 0 <= i < s.len() implies s[i] == regs[if i < k { i } else { i + 1 }] by {}
    assert forall|i: int, j: int| 0 <= i < s.len() && 0 <= j < s.len() && i != j implies #[trigger] s[i].id != #[trigger] s[j].id by {
        let fi = if i < k { i } else { i + 1 };
        let fj = if j < k { j } else { j + 1 };
        assert(regs[fi].id != regs[fj].id);
    }
    assert forall|i: int, j: int|
        0 <= i < s.len() && 0 <= j < s.len() && i != j && #[trigger] strict_on(s[i], s[j].uri)
            && #[trigger] strict_on(s[j], s[i].uri) implies shareable(s[i].invocation)
        && s[i].invocation == s[j].invocation by {
        let fi = if i < k { i } else { i + 1 };
        let fj = if j < k { j } else { j + 1 };
        assert(strict_on(regs[fi], regs[fj].uri) && strict_on(regs[fj], regs[fi].uri));
    }
}

proof fn lemma_marks_wf(a: Seq<RegSpec>, b: Seq<RegSpec>)
    requires
        regs_wf(a),
        same_but_marks(a, b),
    ensures
        regs_wf(b),
{
    assert forall|i: int| 0 <= i < b.len() implies #[trigger] marked(b[i], false) == marked(a[i], false)
        && b[i].id == a[i].id && b[i].uri == a[i].uri && b[i].policy == a[i].policy
        && b[i].invocation == a[i].invocation by {
        assert(marked(a[i], false) == marked(b[i], false));
    }
    assert forall|i: int, j: int|
        0 <= i < b.len() && 0 <= j < b.len() && i != j implies #[trigger] b[i].id
        != #[trigger] b[j].id by {
        assert(marked(b[i], false) == marked(a[i], false));
        assert(marked(b[j], false) == marked(a[j], false));
        assert(a[i].id != a[j].id);
    }
    assert forall|i: int, j: int|
        0 <= i < b.len() && 0 <= j < b.len() && i != j && #[trigger] strict_on(b[i], b[j].uri)
            && #[trigger] strict_on(b[j], b[i].uri) implies shareable(b[i].invocation)
        && b[i].invocation == b[j].invocation by {
        assert(marked(b[i], false) == marked(a[i], false));
        assert(marked(b[j], false) == marked(a[j], false));
        assert(strict_on(a[i], a[j].uri) && strict_on(a[j], a[i].uri));
    }
}

impl Registry {
    /// Adds a registration under the fresh id `id`, unless a strict
    /// registration of the same URI refuses to share with it.
    pub fn register(
        &mut self,
        uri: Uri,
        registrant: u64,
        policy: MatchingPolicy,
        invocation: InvocationPolicy,
        id: u64,
    ) -> (r: Result<u64, Reason>)
        requires
            old(self).wf(),
            !old(self).has_id(id),
        ensures
            final(self).wf(),
            r is Err <==> conflicts(old(self)@, uri@, policy, invocation),
            r is Err ==> r == Err::<u64, Reason>(Reason::ProcedureAlreadyExists) && final(self)@
                == old(self)@,
            r is Ok ==> r == Ok::<u64, Reason>(id) && final(self)@ == old(self)@.push(
                (RegSpec { id, uri: uri@, policy, invocation, registrant, next_up: false }),
            ),
    {
        let ghost regs = self@;
        if policy == MatchingPolicy::Strict {
            let mut i: usize = 0;
            while i < self.regs.len()
                invariant
                    i <= regs.len(),
                    self@ == regs,
                    regs == old(self)@,
                    regs_wf(regs),
                    policy == MatchingPolicy::Strict,
                    forall|j: int|
                        0 <= j < i ==> !(#[trigger] strict_on(regs[j], uri@) && !(shareable(
                            invocation,
                        ) && regs[j].invocation == invocation)),
                decreases regs.len() - i,
            {
                let same = same_uri(&self.regs[i].uri, &uri);
                if self.regs[i].policy == MatchingPolicy::Strict && same && !(invocation
                    != InvocationPolicy::Single && self.regs[i].invocation == invocation) {
                    assert(strict_on(regs[i as int], uri@) && !(shareable(invocation)
                        && regs[i as int].invocation == invocation));
                    return Err(Reason::ProcedureAlreadyExists);
                }
                i += 1;
            }
        }
        let ghost added = RegSpec { id, uri: uri@, policy, invocation, registrant, next_up: false };
        self.regs.push(Registration { id, uri, policy, invocation, registrant, next_up: false });
        assert(self@ =~= regs.push(added));
        assert forall|i: int| 0 <= i < regs.len() implies #[trigger] regs[i].id != id by {
        }
        Ok(id)
    }

    /// Removes the registration with id `id` owned by `who`.
    pub fn unregister(&mut self, id: u64, who: u64) -> (r: Result<u64, Reason>)
        requires
            old(self).wf(),
        ensures
            final(self).wf(),
            r is Ok <==> exists|i: int|
                0 <= i < old(self)@.len() && #[trigger] old(self)@[i].id == id && old(self)@[i].registrant
                    == who,
            r is Err ==> r == Err::<u64, Reason>(Reason::NoSuchProcedure) && final(self)@ == old(
                self,
            )@,
            r is Ok ==> r == Ok::<u64, Reason>(id) && exists|i: int|
                0 <= i < old(self)@.len() && #[trigger] old(self)@[i].id == id && old(self)@[i].registrant
                    == who && final(self)@ == old(self)@.remove(i),
    {
        let ghost regs = self@;
        let mut i: usize = 0;
        while i < self.regs.len()
            invariant
                i <= regs.len(),
                self@ == regs,
                regs == old(self)@,
                regs_wf(regs),
                forall|j: int| 0 <= j < i ==> !(#[trigger] regs[j].id == id && regs[j].registrant == who),
            decreases regs.len() - i,
        {
            if self.regs[i].id == id && self.regs[i].registrant == who {
                assert(regs[i as int].id == id && regs[i as int].registrant == who);
                self.regs.remove(i);
                assert(self@ =~= regs.remove(i as int));
                proof {
                    lemma_remove_wf(regs, i as int);
                }
                return Ok(id);
            }
            i += 1;
        }
        Err(Reason::NoSuchProcedure)
    }
}

impl Registry {
    /// Finds the registration that a call on `c` goes to (see `chosen`;
    /// `pick` is the random draw for a `Random` set). A round-robin set then
    /// moves its cursor on to the next registration of the set (see
    /// `after_call`); the table keeps its registration order.
    pub fn resolve(&mut self, c: &Uri, pick: u64) -> (r: Result<(u64, u64, MatchingPolicy), Reason>)
        requires
            old(self).wf(),
        ensures
            final(self).wf(),
            final(self)@ == after_call(old(self)@, c@),
            same_but_marks(old(self)@, final(self)@),
            chosen(old(self)@, c@, pick) < 0 ==> r == Err::<(u64, u64, MatchingPolicy), Reason>(
                Reason::NoSuchProcedure,
            ),
            chosen(old(self)@, c@, pick) >= 0 ==> r == Ok::<(u64, u64, MatchingPolicy), Reason>(
                (
                    old(self)@[chosen(old(self)@, c@, pick)].registrant,
                    old(self)@[chosen(old(self)@, c@, pick)].id,
                    old(self)@[chosen(old(self)@, c@, pick)].policy,
                ),
            ),
    {
        let ghost regs = self@;
        let mut m: Vec<usize> = Vec::new();
        let mut best: usize = 0;
        let mut found: bool = false;
        let mut best_depth: usize = 0;
        let mut i: usize = 0;
        while i < self.regs.len()
            invariant
                i <= regs.len(),
                self@ == regs,
                regs == old(self)@,
                m@.len() == members(regs, c@, i as int).len(),
                forall|k: int| 0 <= k < m@.len() ==> m@[k] as int == #[trigger] members(regs, c@, i as int)[k],
                forall|k: int| 0 <= k < m@.len() ==> #[trigger] m@[k] < i,
                found ==> best < i && best_pattern(regs, c@, i as int) == best as int
                    && best_depth as int == specificity(regs[best as int].uri),
                !found ==> best_pattern(regs, c@, i as int) == -1,
            decreases regs.len() - i,
        {
            let reg = &self.regs[i];
            if reg.policy == MatchingPolicy::Strict {
                if same_uri(&reg.uri, c) {
                    m.push(i);
                }
            } else {
                let hit = if reg.policy == MatchingPolicy::Prefix {
                    is_prefix_match(&reg.uri, c)
                } else {
                    is_wildcard_match(&reg.uri, c)
                };
                if hit {
                    let d = reg.uri.specificity();
                    if !found || d > best_depth {
                        best = i;
                        best_depth = d;
                        found = true;
                    }
                }
            }
            i += 1;
        }
        if m.len() > 0 {
            let first = m[0];
            let n: usize = m.len();
            let ghost ms = shared_set(regs, c@);
            let mut j: usize = 0;
            while j < n && !self.regs[m[j]].next_up
                invariant
                    j <= n,
                    n == m@.len(),
                    n == ms.len(),
                    self@ == regs,
                    regs == old(self)@,
                    i == regs.len(),
                    forall|k: int| 0 <= k < m@.len() ==> m@[k] as int == #[trigger] ms[k],
                    forall|k: int| 0 <= k < m@.len() ==> #[trigger] m@[k] < i,
                    cursor_from(regs, ms, 0) == cursor_from(regs, ms, j as int),
                decreases n - j,
            {
                j += 1;
            }
            let p: usize = if j == n {
                0
            } else {
                j
            };
            assert(p as int == rr_cursor(regs, c@));
            let k: usize = match self.regs[first].invocation {
                InvocationPolicy::Last => m[n - 1],
                InvocationPolicy::Random => m[(pick % (n as u64)) as usize],
                InvocationPolicy::RoundRobin => m[p],
                _ => first,
            };
            let out = (self.regs[k].registrant, self.regs[k].id, self.regs[k].policy);
            if self.regs[first].invocation == InvocationPolicy::RoundRobin {
                let q: usize = (p + 1) % n;
                let at_p = m[p];
                let at_q = m[q];
                let ghost s1 = regs.update(at_p as int, marked(regs[at_p as int], false));
                self.regs[at_p].next_up = false;
                assert(self@ =~= s1);
                self.regs[at_q].next_up = true;
                assert(self@ =~= s1.update(at_q as int, marked(s1[at_q as int], true)));
                proof {
                    assert forall|x: int| 0 <= x < regs.len() implies #[trigger] marked(regs[x], false)
                        == marked(self@[x], false) by {}
                    lemma_marks_wf(regs, self@);
                }
            }
            Ok(out)
        } else if found {
            Ok((self.regs[best].registrant, self.regs[best].id, self.regs[best].policy))
        } else {
            Err(Reason::NoSuchProcedure)
        }
    }

    /// Removes every registration owned by `who`.
    pub fn remove_registrant(&mut self, who: u64)
        requires
            old(self).wf(),
        ensures
            final(self).wf(),
            final(self)@ == without_registrant(old(self)@, who),
    {
        let ghost regs = self@;
        let mut i: usize = 0;
        let mut j: usize = 0;
        let n: usize = self.regs.len();
        assert(regs.len() == n);
        while j < self.regs.len()
            invariant
                regs == old(self)@,
                regs_wf(self@),
                i <= regs.len() <= usize::MAX,
                self@ == without_registrant(regs.subrange(0, i as int), who) + regs.subrange(
                    i as int,
                    regs.len() as int,
                ),
                j as int == without_registrant(regs.subrange(0, i as int), who).len(),
            decreases regs.len() - i,
        {
            let ghost prev = self@;
            let ghost kept = without_registrant(regs.subrange(0, i as int), who);
            assert(i < regs.len());
            assert(regs.subrange(0, i + 1).drop_last() =~= regs.subrange(0, i as int));
            assert(prev[j as int] == regs[i as int]);
            if self.regs[j].registrant == who {
                self.regs.remove(j);
                proof {
                    lemma_remove_wf(prev, j as int);
                }
                assert(self@ =~= prev.remove(j as int));
                assert(self@ =~= kept + regs.subrange(i + 1, regs.len() as int));
            } else {
                j += 1;
                assert(self@ =~= kept.push(regs[i as int]) + regs.subrange(i + 1, regs.len() as int));
            }
            i += 1;
        }
        assert(regs.subrange(0, regs.len() as int) =~= regs);
        assert(self@ =~= without_registrant(regs, who));
    }
}

/// What is left after removing `who`'s registrations came from `regs` and
/// belongs to someone else.
pub proof fn lemma_without_registrant(regs: Seq<RegSpec>, who: u64)
    ensures
        forall|k: int|
            0 <= k < without_registrant(regs, who).len() ==> (#[trigger] without_registrant(
                regs,
                who,
            )[k]).registrant != who && regs.contains(without_registrant(regs, who)[k]),
    decreases regs.len(),
{
    if regs.len() > 0 {
        let d = regs.drop_last();
        lemma_without_registrant(d, who);
        let rest = without_registrant(d, who);
        let w = without_registrant(regs, who);
        assert forall|k: int| 0 <= k < w.len() implies (#[trigger] w[k]).registrant != who
            && regs.contains(w[k]) by {
            if k < rest.len() {
                assert(w[k] == rest[k]);
                let j = choose|j: int| 0 <= j < d.len() && d[j] == rest[k];
                assert(regs[j] == d[j]);
            } else {
                assert(w[k] == regs[regs.len() - 1]);
            }
        }
    }
}

/// The positions in `members` lie below `n` and hold strict registrations
/// on `c`; there is one whenever such a registration stands below `n`.
pub proof fn lemma_members_bounds(regs: Seq<RegSpec>, c: Seq<Seq<u8>>, n: int)
    requires
        n <= regs.len(),
    ensures
        forall|k: int|
            0 <= k < members(regs, c, n).len() ==> 0 <= #[trigger] members(regs, c, n)[k] < n
                && strict_on(regs[members(regs, c, n)[k]], c),
        (exists|i: int| 0 <= i < n && #[trigger] strict_on(regs[i], c)) ==> members(
            regs,
            c,
            n,
        ).len() > 0,
        forall|a: int, b: int|
            0 <= a < b < members(regs, c, n).len() ==> #[trigger] members(regs, c, n)[a]
                < #[trigger] members(regs, c, n)[b],
    decreases n,
{
    if n > 0 {
        lemma_members_bounds(regs, c, n - 1);
        let prev = members(regs, c, n - 1);
        assert forall|a: int, b: int|
            0 <= a < b < members(regs, c, n).len() implies #[trigger] members(regs, c, n)[a]
            < #[trigger] members(regs, c, n)[b] by {
            assert(members(regs, c, n)[a] == prev[a]);
            if b < prev.len() {
                assert(members(regs, c, n)[b] == prev[b]);
            }
        }
        assert forall|k: int| 0 <= k < members(regs, c, n).len() implies 0 <= #[trigger] members(
            regs,
            c,
            n,
        )[k] < n && strict_on(regs[members(regs, c, n)[k]], c) by {
            if k < prev.len() {
                assert(members(regs, c, n)[k] == prev[k]);
            }
        }
        if exists|i: int| 0 <= i < n && #[trigger] strict_on(regs[i], c) {
            let i = choose|i: int| 0 <= i < n && #[trigger] strict_on(regs[i], c);
            if i < n - 1 {
                assert(strict_on(regs[i], c));
            }
        }
    }
}

/// `best_pattern` names a matching pattern registration below `n` that no
/// other one there outranks, or is -1 when none matches.
pub proof fn lemma_best_pattern(regs: Seq<RegSpec>, c: Seq<Seq<u8>>, n: int)
    requires
        0 <= n <= regs.len(),
    ensures
        -1 <= best_pattern(regs, c, n) < n,
        best_pattern(regs, c, n) == -1 <==> forall|j: int|
            0 <= j < n ==> !#[trigger] pattern_covers(regs[j], c),
        best_pattern(regs, c, n) >= 0 ==> pattern_covers(regs[best_pattern(regs, c, n)], c)
            && forall|j: int|
            0 <= j < n && #[trigger] pattern_covers(regs[j], c) ==> specificity(regs[j].uri)
                <= specificity(regs[best_pattern(regs, c, n)].uri),
    decreases n,
{
    if n > 0 {
        lemma_best_pattern(regs, c, n - 1);
    }
}

/// The cursor found from `k` lies in the set, and no registration of the set
/// between `k` and it carries the mark; it carries the mark itself unless
/// none from `k` on does.
pub proof fn lemma_cursor(regs: Seq<RegSpec>, m: Seq<int>, k: int)
    requires
        0 <= k <= m.len(),
    ensures
        m.len() > 0 ==> 0 <= cursor_from(regs, m, k) < m.len(),
        forall|j: int| k <= j < cursor_from(regs, m, k) ==> !(#[trigger] regs[m[j]]).next_up,
        (k <= cursor_from(regs, m, k) < m.len() && regs[m[cursor_from(regs, m, k)]].next_up)
            || (cursor_from(regs, m, k) == 0 && forall|j: int|
            k <= j < m.len() ==> !(#[trigger] regs[m[j]]).next_up),
    decreases m.len() - k,
{
    if k < m.len() && !regs[m[k]].next_up {
        lemma_cursor(regs, m, k + 1);
        assert forall|j: int| k <= j < cursor_from(regs, m, k) implies !(#[trigger] regs[m[j]]).next_up by {
            if j > k {
            }
        }
    }
}

/// A cursor mark at position `r` with none before it from `k` is what
/// `cursor_from` finds.
pub proof fn lemma_cursor_at(regs: Seq<RegSpec>, m: Seq<int>, k: int, r: int)
    requires
        0 <= k <= r < m.len(),
        regs[m[r]].next_up,
        forall|j: int| k <= j < r ==> !(#[trigger] regs[m[j]]).next_up,
    ensures
        cursor_from(regs, m, k) == r,
    decreases r - k,
{
    if k < r {
        assert(!regs[m[k]].next_up);
        lemma_cursor_at(regs, m, k + 1, r);
    }
}

} // verus!
