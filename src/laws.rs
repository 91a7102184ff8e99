use vstd::prelude::*;
use crate::registry::{
    RegSpec, MatchingPolicy, InvocationPolicy, regs_wf, strict_on, covers, pattern_covers,
    conflicts, shareable, members, best_pattern, shared_set, chosen, without_registrant,
    after_call, rr_cursor, marked, same_but_marks, lemma_cursor, lemma_cursor_at,
    lemma_members_bounds, lemma_best_pattern, lemma_without_registrant,
};
use crate::uri::specificity;
use crate::calls::{ActiveCall, has_invocation, calls_without, involves, lemma_calls_without};

verus! {

/// Two distinct strict registrations on one URI.
pub open spec fn strict_pair(regs: Seq<RegSpec>, i: int, j: int) -> bool {
    &&& 0 <= i < regs.len()
    &&& 0 <= j < regs.len()
    &&& i != j
    &&& strict_on(regs[i], regs[j].uri)
    &&& strict_on(regs[j], regs[i].uri)
}

/// The registration that a successful `register` appends.
pub open spec fn registered(
    id: u64,
    uri: Seq<Seq<u8>>,
    policy: MatchingPolicy,
    invocation: InvocationPolicy,
    who: u64,
) -> RegSpec {
    RegSpec { id, uri, policy, invocation, registrant: who, next_up: false }
}

proof fn lemma_members_push(regs: Seq<RegSpec>, x: RegSpec, c: Seq<Seq<u8>>, n: int)
    requires
        0 <= n <= regs.len(),
    ensures
        members(regs.push(x), c, n) == members(regs, c, n),
    decreases n,
{
    if n > 0 {
        lemma_members_push(regs, x, c, n - 1);
        assert(regs.push(x)[n - 1] == regs[n - 1]);
    }
}

/// Strict registrations of one URI never coexist unless both share: this
/// holds of every well-formed registry, and a registration that `register`
/// accepts keeps the registry well-formed.
pub proof fn law_strict_registrations_unique(
    regs: Seq<RegSpec>,
    id: u64,
    uri: Seq<Seq<u8>>,
    policy: MatchingPolicy,
    invocation: InvocationPolicy,
    who: u64,
)
    requires
        regs_wf(regs),
        forall|i: int| 0 <= i < regs.len() ==> #[trigger] regs[i].id != id,
        !conflicts(regs, uri, policy, invocation),
    ensures
        forall|i: int, j: int|
            #[trigger] strict_pair(regs, i, j) ==> shareable(regs[i].invocation) && shareable(
                regs[j].invocation,
            ),
        regs_wf(regs.push(registered(id, uri, policy, invocation, who))),
{
    let s = regs.push(registered(id, uri, policy, invocation, who));
    assert forall|i: int, j: int| #[trigger] strict_pair(regs, i, j) implies shareable(
        regs[i].invocation,
    ) && shareable(regs[j].invocation) by {
        assert(strict_on(regs[j], regs[i].uri) && strict_on(regs[i], regs[j].uri));
    }
    assert forall|i: int, j: int|
        0 <= i < s.len() && 0 <= j < s.len() && i != j implies #[trigger] s[i].id
        != #[trigger] s[j].id by {
        if i < regs.len() && j < regs.len() {
            assert(regs[i].id != regs[j].id);
        } else if i < regs.len() {
            assert(regs[i].id != id);
        } else {
            assert(regs[j].id != id);
        }
    }
    assert forall|i: int, j: int|
        0 <= i < s.len() && 0 <= j < s.len() && i != j && #[trigger] strict_on(s[i], s[j].uri)
            && #[trigger] strict_on(s[j], s[i].uri) implies shareable(s[i].invocation)
        && s[i].invocation == s[j].invocation by {
        if i < regs.len() && j < regs.len() {
            assert(strict_on(regs[i], regs[j].uri) && strict_on(regs[j], regs[i].uri));
        } else if i < regs.len() {
            assert(strict_on(regs[i], uri));
        } else {
            assert(strict_on(regs[j], uri));
        }
    }
}

/// Nothing below `n` covers `c`: no call on `c` finds a registration there.
proof fn lemma_nothing_covers(regs: Seq<RegSpec>, c: Seq<Seq<u8>>, n: int)
    requires
        0 <= n <= regs.len(),
        forall|j: int| 0 <= j < n ==> !#[trigger] covers(regs[j], c),
    ensures
        members(regs, c, n).len() == 0,
        best_pattern(regs, c, n) == -1,
    decreases n,
{
    if n > 0 {
        assert(!covers(regs[n - 1], c));
        lemma_nothing_covers(regs, c, n - 1);
    }
}

/// A strict registration that `register` accepts under `Single` is what a
/// call on its URI then reaches; once it is removed again, a call on a URI
/// that nothing else covers finds nothing.
pub proof fn law_resolve_after_register(
    regs: Seq<RegSpec>,
    id: u64,
    uri: Seq<Seq<u8>>,
    who: u64,
    pick: u64,
)
    requires
        regs_wf(regs),
        !conflicts(regs, uri, MatchingPolicy::Strict, InvocationPolicy::Single),
    ensures
        ({
            let s = regs.push(registered(id, uri, MatchingPolicy::Strict, InvocationPolicy::Single, who));
            &&& chosen(s, uri, pick) == regs.len()
            &&& s[chosen(s, uri, pick)].registrant == who
            &&& s.remove(regs.len() as int) == regs
        }),
        (forall|j: int| 0 <= j < regs.len() ==> !#[trigger] covers(regs[j], uri)) ==> chosen(
            regs,
            uri,
            pick,
        ) < 0,
{
    let x = registered(id, uri, MatchingPolicy::Strict, InvocationPolicy::Single, who);
    let s = regs.push(x);
    let n = regs.len() as int;
    lemma_members_push(regs, x, uri, n);
    assert forall|j: int| 0 <= j < n implies !#[trigger] strict_on(regs[j], uri) by {
        if strict_on(regs[j], uri) {
            assert(!(shareable(InvocationPolicy::Single) && regs[j].invocation
                == InvocationPolicy::Single));
        }
    }
    lemma_members_bounds(regs, uri, n);
    assert(s[n] == x);
    assert(members(s, uri, n + 1) =~= seq![n]);
    assert(shared_set(s, uri) == members(s, uri, n + 1));
    assert(s.remove(n) =~= regs);
    if forall|j: int| 0 <= j < regs.len() ==> !#[trigger] covers(regs[j], uri) {
        lemma_nothing_covers(regs, uri, n);
    }
}

/// A strict registration on exactly the called URI outranks every pattern;
/// without one, the most specific matching pattern registration wins.
pub proof fn law_prefix_precedence(regs: Seq<RegSpec>, c: Seq<Seq<u8>>, pick: u64)
    requires
        regs_wf(regs),
    ensures
        (exists|i: int| 0 <= i < regs.len() && #[trigger] strict_on(regs[i], c)) ==> ({
            let k = chosen(regs, c, pick);
            0 <= k < regs.len() && strict_on(regs[k], c)
        }),
        (forall|i: int| 0 <= i < regs.len() ==> !#[trigger] strict_on(regs[i], c)) && (exists|
            i: int,
        | 0 <= i < regs.len() && #[trigger] pattern_covers(regs[i], c)) ==> ({
            let k = chosen(regs, c, pick);
            &&& 0 <= k < regs.len()
            &&& pattern_covers(regs[k], c)
            &&& forall|j: int|
                0 <= j < regs.len() && #[trigger] pattern_covers(regs[j], c) ==> specificity(
                    regs[j].uri,
                ) <= specificity(regs[k].uri)
        }),
{
    let n = regs.len() as int;
    lemma_members_bounds(regs, c, n);
    lemma_best_pattern(regs, c, n);
    let m = shared_set(regs, c);
    crate::registry::lemma_cursor(regs, m, 0);
    if m.len() > 0 {
        assert(strict_on(regs[m[crate::registry::rr_cursor(regs, c)]], c));
        let p = (pick as int) % (m.len() as int);
        assert(0 <= p < m.len());
        assert(strict_on(regs[m[p]], c));
        assert(strict_on(regs[m[m.len() - 1]], c));
        assert(strict_on(regs[m[0]], c));
    }
}

/// Once `who` is removed, a call on a URI that only `who`'s registrations
/// covered finds nothing, and no outstanding call involves `who`.
pub proof fn law_cleanup(
    regs: Seq<RegSpec>,
    calls: Seq<ActiveCall>,
    who: u64,
    c: Seq<Seq<u8>>,
    pick: u64,
)
    requires
        forall|i: int| 0 <= i < regs.len() && #[trigger] covers(regs[i], c) ==> regs[i].registrant == who,
    ensures
        chosen(without_registrant(regs, who), c, pick) < 0,
        forall|k: int|
            0 <= k < calls_without(calls, who).len() ==> !involves(
                #[trigger] calls_without(calls, who)[k],
                who,
            ),
{
    let w = without_registrant(regs, who);
    lemma_without_registrant(regs, who);
    lemma_calls_without(calls, who);
    assert forall|j: int| 0 <= j < w.len() implies !#[trigger] covers(w[j], c) by {
        let i = choose|i: int| 0 <= i < regs.len() && regs[i] == w[j];
        if covers(w[j], c) {
            assert(covers(regs[i], c));
        }
    }
    lemma_nothing_covers(w, c, w.len() as int);
}

/// An invocation id that was handed out and is no longer outstanding.
pub open spec fn consumed(calls: Seq<ActiveCall>, next_id: u64, x: u64) -> bool {
    !has_invocation(calls, x) && x < next_id
}

/// At most one result per invocation: an outstanding id lies below
/// `next_id`, so once its yield has removed it the id is consumed; and
/// every step of a run keeps a consumed id consumed, so each later yield
/// of it is refused. A call records the id `next_id` and raises `next_id`;
/// a yield removes one call; cleanup drops calls; register and unregister
/// leave the calls alone.
pub proof fn law_at_most_one_result(
    calls: Seq<ActiveCall>,
    next_id: u64,
    x: u64,
    later: ActiveCall,
    k: int,
    who: u64,
)
    requires
        forall|i: int| 0 <= i < calls.len() ==> #[trigger] calls[i].invocation_id < next_id,
    ensures
        has_invocation(calls, x) ==> x < next_id,
        consumed(calls, next_id, x) && later.invocation_id == next_id && next_id < u64::MAX
            ==> consumed(calls.push(later), (next_id + 1) as u64, x),
        consumed(calls, next_id, x) && 0 <= k < calls.len() ==> consumed(calls.remove(k), next_id, x),
        consumed(calls, next_id, x) ==> consumed(calls_without(calls, who), next_id, x),
{
    if has_invocation(calls, x) {
        let i = choose|i: int| 0 <= i < calls.len() && #[trigger] calls[i].invocation_id == x;
        assert(calls[i].invocation_id < next_id);
    }
    if consumed(calls, next_id, x) {
        if later.invocation_id == next_id {
            assert forall|i: int| 0 <= i < calls.len() + 1 implies #[trigger] calls.push(
                later,
            )[i].invocation_id != x by {
                if i < calls.len() {
                    assert(calls.push(later)[i] == calls[i]);
                } else {
                    assert(calls.push(later)[i] == later);
                }
            }
        }
        if 0 <= k < calls.len() {
            assert forall|i: int| 0 <= i < calls.remove(k).len() implies #[trigger] calls.remove(
                k,
            )[i].invocation_id != x by {
                let f = if i < k { i } else { i + 1 };
                assert(calls.remove(k)[i] == calls[f]);
            }
        }
        lemma_calls_without(calls, who);
        let w = calls_without(calls, who);
        assert forall|i: int| 0 <= i < w.len() implies #[trigger] w[i].invocation_id != x by {
            let j = choose|j: int| 0 <= j < calls.len() && calls[j] == w[i];
            assert(calls[j].invocation_id != x);
        }
    }
}

/// The registrants that `k` consecutive calls on `c` reach (the random draw
/// is taken as 0; a round-robin set does not read it).
pub open spec fn picks(regs: Seq<RegSpec>, c: Seq<Seq<u8>>, k: nat) -> Seq<u64>
    decreases k,
{
    if k == 0 {
        Seq::<u64>::empty()
    } else {
        seq![regs[chosen(regs, c, 0)].registrant] + picks(after_call(regs, c), c, (k - 1) as nat)
    }
}

proof fn lemma_members_marks(a: Seq<RegSpec>, b: Seq<RegSpec>, c: Seq<Seq<u8>>, n: int)
    requires
        same_but_marks(a, b),
        n <= a.len(),
    ensures
        members(a, c, n) == members(b, c, n),
    decreases n,
{
    if n > 0 {
        assert(marked(a[n - 1], false) == marked(b[n - 1], false));
        lemma_members_marks(a, b, c, n - 1);
    }
}

/// One call on a round-robin set serves the registration under the cursor,
/// then moves the cursor one place on; the set and its registrations stay.
proof fn lemma_round_robin_step(regs: Seq<RegSpec>, c: Seq<Seq<u8>>)
    requires
        shared_set(regs, c).len() > 0,
        regs[shared_set(regs, c)[0]].invocation == InvocationPolicy::RoundRobin,
    ensures
        chosen(regs, c, 0) == shared_set(regs, c)[rr_cursor(regs, c)],
        0 <= rr_cursor(regs, c) < shared_set(regs, c).len(),
        same_but_marks(regs, after_call(regs, c)),
        shared_set(after_call(regs, c), c) == shared_set(regs, c),
        rr_cursor(after_call(regs, c), c) == (rr_cursor(regs, c) + 1) % (shared_set(
            regs,
            c,
        ).len() as int),
{
    let m = shared_set(regs, c);
    let n = m.len() as int;
    lemma_members_bounds(regs, c, regs.len() as int);
    lemma_cursor(regs, m, 0);
    let p = rr_cursor(regs, c);
    let q = (p + 1) % n;
    let s1 = regs.update(m[p], marked(regs[m[p]], false));
    let s2 = s1.update(m[q], marked(s1[m[q]], true));
    assert(s2 == after_call(regs, c));
    assert forall|i: int| 0 <= i < regs.len() implies #[trigger] marked(regs[i], false) == marked(
        s2[i],
        false,
    ) by {}
    assert(same_but_marks(regs, s2));
    lemma_members_marks(regs, s2, c, regs.len() as int);
    if p + 1 < n {
        vstd::arithmetic::div_mod::lemma_small_mod((p + 1) as nat, n as nat);
        assert(q == p + 1);
        assert(m[p] < m[q]);
        assert forall|j: int| 0 <= j < q implies !(#[trigger] s2[m[j]]).next_up by {
            if j < p {
                assert(m[j] < m[p]);
                assert(s2[m[j]] == regs[m[j]]);
            } else {
                assert(s2[m[j]] == s1[m[p]]);
            }
        }
        lemma_cursor_at(s2, m, 0, q);
    } else {
        vstd::arithmetic::div_mod::lemma_mod_self_0(n);
        assert(q == 0);
        lemma_cursor_at(s2, m, 0, 0);
    }
}

/// Calls on a round-robin set of `n` registrations go to its registrants in
/// registration order, cyclically, from the one under the cursor: call `i`
/// reaches the set's registration at `(cursor + i) % n`.
pub proof fn law_round_robin(regs: Seq<RegSpec>, c: Seq<Seq<u8>>, k: nat)
    requires
        shared_set(regs, c).len() > 0,
        regs[shared_set(regs, c)[0]].invocation == InvocationPolicy::RoundRobin,
    ensures
        picks(regs, c, k).len() == k,
        forall|i: int|
            0 <= i < k ==> #[trigger] picks(regs, c, k)[i] == regs[shared_set(regs, c)[(rr_cursor(
                regs,
                c,
            ) + i) % (shared_set(regs, c).len() as int)]].registrant,
    decreases k,
{
    if k > 0 {
        let m = shared_set(regs, c);
        let n = m.len() as int;
        let cur = rr_cursor(regs, c);
        lemma_round_robin_step(regs, c);
        let next = after_call(regs, c);
        lemma_members_bounds(regs, c, regs.len() as int);
        assert(marked(regs[m[0]], false) == marked(next[m[0]], false));
        law_round_robin(next, c, (k - 1) as nat);
        let rest = picks(next, c, (k - 1) as nat);
        assert forall|i: int| 0 <= i < k implies #[trigger] picks(regs, c, k)[i] == regs[m[(cur + i)
            % n]].registrant by {
            if i == 0 {
                vstd::arithmetic::div_mod::lemma_small_mod(cur as nat, n as nat);
                assert(cur % n == cur);
            } else {
                assert(picks(regs, c, k)[i] == rest[i - 1]);
                vstd::arithmetic::div_mod::lemma_add_mod_noop_right(i - 1, cur + 1, n);
                assert((i - 1) + (cur + 1) == cur + i);
                let x = m[(cur + i) % n];
                assert(0 <= (cur + i) % n < n);
                assert(marked(regs[x], false) == marked(next[x], false));
            }
        }
    }
}

} // verus!
