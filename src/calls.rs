use vstd::prelude::*;

verus! {

/// A call that was forwarded to `callee` and waits for its result, which
/// goes back to `caller` under `request_id`.
#[derive(Clone, Copy, PartialEq, Eq, Structural, Debug)]
pub struct ActiveCall {
    pub invocation_id: u64,
    pub request_id: u64,
    pub caller: u64,
    pub callee: u64,
}

pub open spec fn has_invocation(calls: Seq<ActiveCall>, x: u64) -> bool {
    exists|i: int| 0 <= i < calls.len() && #[trigger] calls[i].invocation_id == x
}

/// No two outstanding calls share an invocation id.
pub open spec fn calls_wf(calls: Seq<ActiveCall>) -> bool {
    forall|i: int, j: int|
        0 <= i < calls.len() && 0 <= j < calls.len() && i != j ==> #[trigger] calls[i].invocation_id
            != #[trigger] calls[j].invocation_id
}

/// A call that `who` made or that was sent to `who`.
pub open spec fn involves(c: ActiveCall, who: u64) -> bool {
    c.caller == who || c.callee == who
}

/// The outstanding calls that do not involve `who`, in their order.
pub open spec fn calls_without(calls: Seq<ActiveCall>, who: u64) -> Seq<ActiveCall>
    decreases calls.len(),
{
    if calls.len() == 0 {
        calls
    } else {
        let rest = calls_without(calls.drop_last(), who);
        if involves(calls.last(), who) {
            rest
        } else {
            rest.push(calls.last())
        }
    }
}

proof fn lemma_remove_calls_wf(calls: Seq<ActiveCall>, k: int)
    requires
        calls_wf(calls),
        0 <= k < calls.len(),
    ensures
        calls_wf(calls.remove(k)),
{
    let s = calls.remove(k);
    assert forall|i: int, j: int|
        0 <= i < s.len() && 0 <= j < s.len() && i != j implies #[trigger] s[i].invocation_id
        != #[trigger] s[j].invocation_id by {
        let fi = if i < k { i } else { i + 1 };
        let fj = if j < k { j } else { j + 1 };
        assert(s[i] == calls[fi] && s[j] == calls[fj]);
    }
}

/// The calls of a realm that wait for a result.
pub struct CallTable {
    pub calls: Vec<ActiveCall>,
}

impl View for CallTable {
    type V = Seq<ActiveCall>;

    open spec fn view(&self) -> Seq<ActiveCall> {
        self.calls@
    }
}

impl CallTable {
    pub open spec fn wf(&self) -> bool {
        calls_wf(self@)
    }

    pub fn new() -> (r: CallTable)
        ensures
            r@ == Seq::<ActiveCall>::empty(),
            r.wf(),
    {
        CallTable { calls: Vec::new() }
    }

    /// Records a forwarded call under an invocation id not yet outstanding.
    pub fn begin(&mut self, call: ActiveCall)
        requires
            old(self).wf(),
            !has_invocation(old(self)@, call.invocation_id),
        ensures
            final(self).wf(),
            final(self)@ == old(self)@.push(call),
    {
        self.calls.push(call);
        assert forall|i: int| 0 <= i < old(self)@.len() implies #[trigger] old(
            self,
        )@[i].invocation_id != call.invocation_id by {}
    }

    /// Removes and returns the outstanding call with invocation id `x`.
    pub fn complete(&mut self, x: u64) -> (r: Option<ActiveCall>)
        requires
            old(self).wf(),
        ensures
            final(self).wf(),
            r is Some <==> has_invocation(old(self)@, x),
            r is None ==> final(self)@ == old(self)@,
            r is Some ==> exists|i: int|
                0 <= i < old(self)@.len() && #[trigger] old(self)@[i].invocation_id == x && r
                    == Some(old(self)@[i]) && final(self)@ == old(self)@.remove(i),
            !has_invocation(final(self)@, x),
    {
        let ghost calls = self@;
        let mut i: usize = 0;
        while i < self.calls.len()
            invariant
                i <= calls.len(),
                self@ == calls,
                calls == old(self)@,
                calls_wf(calls),
                forall|j: int| 0 <= j < i ==> #[trigger] calls[j].invocation_id != x,
            decreases calls.len() - i,
        {
            if self.calls[i].invocation_id == x {
                let c = self.calls.remove(i);
                proof {
                    lemma_remove_calls_wf(calls, i as int);
                    assert(calls[i as int].invocation_id == x);
                    assert forall|j: int| 0 <= j < self@.len() implies #[trigger] self@[j].invocation_id
                        != x by {
                        let fj = if j < i { j } else { j + 1 };
                        assert(self@[j] == calls[fj]);
                    }
                }
                return Some(c);
            }
            i += 1;
        }
        None
    }

    /// Drops every outstanding call that `who` made or was sent.
    pub fn remove_session(&mut self, who: u64)
        requires
            old(self).wf(),
        ensures
            final(self).wf(),
            final(self)@ == calls_without(old(self)@, who),
    {
        let ghost calls = self@;
        let n: usize = self.calls.len();
        let mut i: usize = 0;
        let mut j: usize = 0;
        while j < self.calls.len()
            invariant
                calls == old(self)@,
                calls_wf(self@),
                n == calls.len(),
                i <= calls.len(),
                self@ == calls_without(calls.subrange(0, i as int), who) + calls.subrange(
                    i as int,
                    calls.len() as int,
                ),
                j as int == calls_without(calls.subrange(0, i as int), who).len(),
            decreases calls.len() - i,
        {
            let ghost prev = self@;
            let ghost kept = calls_without(calls.subrange(0, i as int), who);
            assert(i < calls.len());
            assert(calls.subrange(0, i + 1).drop_last() =~= calls.subrange(0, i as int));
            assert(prev[j as int] == calls[i as int]);
            if self.calls[j].caller == who || self.calls[j].callee == who {
                self.calls.remove(j);
                proof {
                    lemma_remove_calls_wf(prev, j as int);
                }
                assert(self@ =~= kept + calls.subrange(i + 1, calls.len() as int));
            } else {
                j += 1;
                assert(self@ =~= kept.push(calls[i as int]) + calls.subrange(
                    i + 1,
                    calls.len() as int,
                ));
            }
            i += 1;
        }
        assert(calls.subrange(0, calls.len() as int) =~= calls);
    }
}

/// What is left after dropping `who`'s calls came from `calls` and does not
/// involve `who`.
pub proof fn lemma_calls_without(calls: Seq<ActiveCall>, who: u64)
    ensures
        forall|k: int|
            0 <= k < calls_without(calls, who).len() ==> !involves(
                #[trigger] calls_without(calls, who)[k],
                who,
            ) && calls.contains(calls_without(calls, who)[k]),
    decreases calls.len(),
{
    if calls.len() > 0 {
        let d = calls.drop_last();
        lemma_calls_without(d, who);
        let rest = calls_without(d, who);
        let w = calls_without(calls, who);
        assert forall|k: int| 0 <= k < w.len() implies !involves(#[trigger] w[k], who)
            && calls.contains(w[k]) by {
            if k < rest.len() {
                assert(w[k] == rest[k]);
                let j = choose|j: int| 0 <= j < d.len() && d[j] == rest[k];
                assert(calls[j] == d[j]);
            } else {
                assert(w[k] == calls[calls.len() - 1]);
            }
        }
    }
}

} // verus!
