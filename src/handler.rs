use vstd::prelude::*;
use crate::uri::Uri;
use crate::registry::{
    Registry, RegSpec, MatchingPolicy, InvocationPolicy, Reason, conflicts, chosen, after_call, marked,
    without_registrant, lemma_without_registrant,
};
use crate::calls::{
    CallTable, ActiveCall, has_invocation, calls_without, lemma_calls_without,
};

verus! {

/// The protocol operation that an error answers.
#[derive(Clone, Copy, PartialEq, Eq, Structural, Debug)]
pub enum ErrorType {
    Register,
    Unregister,
    Call,
}

/// A failed operation: a protocol error to send back for the request, or an
/// invalid state (a session outside any realm, a yield for no outstanding call).
#[derive(Clone, Copy, PartialEq, Eq, Structural, Debug)]
pub enum RouterError {
    ErrorReason(ErrorType, u64, Reason),
    InvalidState,
}

/// The options of a registration that the router acts on.
#[derive(Clone, Copy, PartialEq, Eq, Structural, Debug)]
pub struct RegisterOptions {
    pub pattern_match: MatchingPolicy,
    pub invocation_policy: InvocationPolicy,
}

/// The answer to the session that sent a register or unregister.
#[derive(Clone, Copy, PartialEq, Eq, Structural, Debug)]
pub enum Reply {
    Registered(u64, u64),
    Unregistered(u64),
}

/// An invocation to send to the registrant `to`. `procedure` is the concrete
/// URI called, present only when a pattern registration was matched.
pub struct Invocation<P> {
    pub to: u64,
    pub registration: u64,
    pub invocation_id: u64,
    pub procedure: Option<Uri>,
    pub payload: P,
}

/// A result to send back to `to`, the session that made the call.
pub struct CallResult<P> {
    pub to: u64,
    pub request_id: u64,
    pub payload: P,
}

/// The shared state of a realm: its registrations, its outstanding calls and
/// the next identifier to hand out.
pub struct Realm {
    pub registrations: Registry,
    pub active_calls: CallTable,
    pub next_id: u64,
}

pub struct RealmView {
    pub regs: Seq<RegSpec>,
    pub calls: Seq<ActiveCall>,
    pub next_id: u64,
}

impl View for Realm {
    type V = RealmView;

    open spec fn view(&self) -> RealmView {
        RealmView {
            regs: self.registrations@,
            calls: self.active_calls@,
            next_id: self.next_id,
        }
    }
}

/// The realm's tables are well-formed and every live identifier was handed
/// out before `next_id`, so none handed out later can clash with it.
pub open spec fn realm_wf(v: RealmView) -> bool {
    &&& crate::registry::regs_wf(v.regs)
    &&& crate::calls::calls_wf(v.calls)
    &&& 1 <= v.next_id
    &&& forall|i: int| 0 <= i < v.regs.len() ==> #[trigger] v.regs[i].id < v.next_id
    &&& forall|i: int| 0 <= i < v.calls.len() ==> #[trigger] v.calls[i].invocation_id < v.next_id
}

impl Realm {
    pub open spec fn wf(&self) -> bool {
        realm_wf(self@)
    }

    /// There is an identifier left to hand out.
    pub open spec fn ids_left(&self) -> bool {
        self.next_id < u64::MAX
    }

    pub fn new() -> (r: Realm)
        ensures
            r.wf(),
            r@.regs.len() == 0,
            r@.calls.len() == 0,
            r@.next_id == 1,
    {
        Realm { registrations: Registry::new(), active_calls: CallTable::new(), next_id: 1 }
    }

    pub fn has_ids_left(&self) -> (r: bool)
        ensures
            r == self.ids_left(),
    {
        self.next_id < u64::MAX
    }

    /// Removes every registration of `who` and every outstanding call that
    /// `who` made or was sent, as when its session goes away.
    pub fn remove_session(&mut self, who: u64)
        requires
            old(self).wf(),
        ensures
            final(self).wf(),
            final(self)@.regs == without_registrant(old(self)@.regs, who),
            final(self)@.calls == calls_without(old(self)@.calls, who),
            final(self)@.next_id == old(self)@.next_id,
    {
        self.registrations.remove_registrant(who);
        self.active_calls.remove_session(who);
        proof {
            let v = self@;
            let o = old(self)@;
            lemma_without_registrant(o.regs, who);
            lemma_calls_without(o.calls, who);
            assert forall|i: int| 0 <= i < v.regs.len() implies #[trigger] v.regs[i].id
                < v.next_id by {
                let j = choose|j: int| 0 <= j < o.regs.len() && o.regs[j] == v.regs[i];
                assert(o.regs[j].id < o.next_id);
            }
            assert forall|i: int| 0 <= i < v.calls.len() implies #[trigger] v.calls[i].invocation_id
                < v.next_id by {
                let j = choose|j: int| 0 <= j < o.calls.len() && o.calls[j] == v.calls[i];
                assert(o.calls[j].invocation_id < o.next_id);
            }
        }
    }
}

/// A session's side of the router: who it is, and whether it is attached to
/// a realm.
#[derive(Clone, Copy, PartialEq, Eq, Structural, Debug)]
pub struct ConnectionHandler {
    pub session: u64,
    pub attached: bool,
}

impl ConnectionHandler {
    pub fn new(session: u64, attached: bool) -> (r: ConnectionHandler)
        ensures
            r.session == session,
            r.attached == attached,
    {
        ConnectionHandler { session, attached }
    }
}

impl ConnectionHandler {
    /// Registers `procedure` for this session under a fresh id and answers
    /// with `Registered`; fails when a strict registration of the same URI
    /// refuses to share it.
    pub fn handle_register(
        &self,
        realm: &mut Realm,
        request_id: u64,
        options: RegisterOptions,
        procedure: Uri,
    ) -> (r: Result<Reply, RouterError>)
        requires
            old(realm).wf(),
            old(realm).ids_left(),
        ensures
            final(realm).wf(),
            !self.attached ==> r == Err::<Reply, RouterError>(RouterError::InvalidState)
                && final(realm)@ == old(realm)@,
            self.attached && conflicts(
                old(realm)@.regs,
                procedure@,
                options.pattern_match,
                options.invocation_policy,
            ) ==> r == Err::<Reply, RouterError>(
                RouterError::ErrorReason(
                    ErrorType::Register,
                    request_id,
                    Reason::ProcedureAlreadyExists,
                ),
            ) && final(realm)@ == old(realm)@,
            self.attached && !conflicts(
                old(realm)@.regs,
                procedure@,
                options.pattern_match,
                options.invocation_policy,
            ) ==> r == Ok::<Reply, RouterError>(Reply::Registered(request_id, old(realm).next_id))
                && final(realm)@.regs == old(realm)@.regs.push(
                (RegSpec {
                    id: old(realm).next_id,
                    uri: procedure@,
                    policy: options.pattern_match,
                    invocation: options.invocation_policy,
                    registrant: self.session,
                    next_up: false,
                }),
            ) && final(realm)@.calls == old(realm)@.calls && final(realm)@.next_id == old(
                realm,
            )@.next_id + 1,
    {
        if !self.attached {
            return Err(RouterError::InvalidState);
        }
        let id = realm.next_id;
        proof {
            let regs = realm@.regs;
            assert forall|i: int| 0 <= i < regs.len() implies #[trigger] regs[i].id != id by {
                assert(regs[i].id < id);
            }
        }
        match realm.registrations.register(
            procedure,
            self.session,
            options.pattern_match,
            options.invocation_policy,
            id,
        ) {
            Ok(procedure_id) => {
                realm.next_id = id + 1;
                proof {
                    let v = realm@;
                    assert forall|i: int| 0 <= i < v.regs.len() implies #[trigger] v.regs[i].id
                        < v.next_id by {
                        if i < v.regs.len() - 1 {
                            assert(v.regs[i] == old(realm)@.regs[i]);
                        }
                    }
                    assert forall|i: int| 0 <= i < v.calls.len() implies #[trigger] v.calls[i].invocation_id
                        < v.next_id by {
                        assert(v.calls[i] == old(realm)@.calls[i]);
                    }
                }
                Ok(Reply::Registered(request_id, procedure_id))
            },
            Err(e) => Err(RouterError::ErrorReason(ErrorType::Register, request_id, e)),
        }
    }

    /// Removes this session's registration `procedure_id` and answers with
    /// `Unregistered`; fails when the session owns no such registration.
    pub fn handle_unregister(&self, realm: &mut Realm, request_id: u64, procedure_id: u64) -> (r:
        Result<Reply, RouterError>)
        requires
            old(realm).wf(),
        ensures
            final(realm).wf(),
            !self.attached ==> r == Err::<Reply, RouterError>(RouterError::InvalidState)
                && final(realm)@ == old(realm)@,
            self.attached && !(exists|i: int|
                0 <= i < old(realm)@.regs.len() && #[trigger] old(realm)@.regs[i].id == procedure_id
                    && old(realm)@.regs[i].registrant == self.session) ==> r == Err::<
                Reply,
                RouterError,
            >(RouterError::ErrorReason(ErrorType::Unregister, request_id, Reason::NoSuchProcedure))
                && final(realm)@ == old(realm)@,
            self.attached && (exists|i: int|
                0 <= i < old(realm)@.regs.len() && #[trigger] old(realm)@.regs[i].id == procedure_id
                    && old(realm)@.regs[i].registrant == self.session) ==> r == Ok::<
                Reply,
                RouterError,
            >(Reply::Unregistered(request_id)) && (exists|i: int|
                0 <= i < old(realm)@.regs.len() && #[trigger] old(realm)@.regs[i].id == procedure_id
                    && final(realm)@.regs == old(realm)@.regs.remove(i)) && final(realm)@.calls
                == old(realm)@.calls && final(realm)@.next_id == old(realm)@.next_id,
    {
        if !self.attached {
            return Err(RouterError::InvalidState);
        }
        match realm.registrations.unregister(procedure_id, self.session) {
            Ok(_) => {
                proof {
                    let v = realm@;
                    let o = old(realm)@;
                    let k = choose|k: int|
                        0 <= k < o.regs.len() && #[trigger] o.regs[k].id == procedure_id
                            && o.regs[k].registrant == self.session && v.regs == o.regs.remove(k);
                    assert forall|i: int| 0 <= i < v.regs.len() implies #[trigger] v.regs[i].id
                        < v.next_id by {
                        let fi = if i < k { i } else { i + 1 };
                        assert(v.regs[i] == o.regs[fi]);
                    }
                }
                Ok(Reply::Unregistered(request_id))
            },
            Err(e) => Err(RouterError::ErrorReason(ErrorType::Unregister, request_id, e)),
        }
    }

    /// Routes a call on `procedure` to the registration that `chosen` names
    /// (`pick` is the random draw for a `Random` set), records it as
    /// outstanding under a fresh invocation id, and returns the invocation to
    /// send; fails when no registration matches.
    pub fn handle_call<P>(
        &self,
        realm: &mut Realm,
        request_id: u64,
        procedure: Uri,
        payload: P,
        pick: u64,
    ) -> (r: Result<Invocation<P>, RouterError>)
        requires
            old(realm).wf(),
            old(realm).ids_left(),
        ensures
            final(realm).wf(),
            !self.attached ==> r is Err && r->Err_0 == RouterError::InvalidState && final(realm)@
                == old(realm)@,
            self.attached && chosen(old(realm)@.regs, procedure@, pick) < 0 ==> r is Err
                && r->Err_0 == RouterError::ErrorReason(
                ErrorType::Call,
                request_id,
                Reason::NoSuchProcedure,
            ) && final(realm)@ == old(realm)@,
            self.attached && chosen(old(realm)@.regs, procedure@, pick) >= 0 ==> r is Ok && ({
                let k = chosen(old(realm)@.regs, procedure@, pick);
                let reg = old(realm)@.regs[k];
                let inv = r->Ok_0;
                &&& inv.to == reg.registrant
                &&& inv.registration == reg.id
                &&& inv.invocation_id == old(realm).next_id
                &&& inv.payload == payload
                &&& (inv.procedure is Some <==> reg.policy != MatchingPolicy::Strict)
                &&& (inv.procedure is Some ==> inv.procedure->Some_0@ == procedure@)
                &&& final(realm)@.regs == after_call(old(realm)@.regs, procedure@)
                &&& final(realm)@.calls == old(realm)@.calls.push(
                    (ActiveCall {
                        invocation_id: old(realm).next_id,
                        request_id,
                        caller: self.session,
                        callee: reg.registrant,
                    }),
                )
                &&& final(realm)@.next_id == old(realm).next_id + 1
            }),
    {
        if !self.attached {
            return Err(RouterError::InvalidState);
        }
        let invocation_id = realm.next_id;
        let ghost o = realm@;
        let (registrant, registration, policy) = match realm.registrations.resolve(
            &procedure,
            pick,
        ) {
            Ok(found) => found,
            Err(e) => {
                proof {
                    crate::registry::lemma_members_bounds(o.regs, procedure@, o.regs.len() as int);
                    crate::registry::lemma_cursor(
                        o.regs,
                        crate::registry::shared_set(o.regs, procedure@),
                        0,
                    );
                }
                return Err(RouterError::ErrorReason(ErrorType::Call, request_id, e));
            },
        };
        proof {
            assert forall|i: int| 0 <= i < o.calls.len() implies #[trigger] o.calls[i].invocation_id
                != invocation_id by {
                assert(o.calls[i].invocation_id < invocation_id);
            }
        }
        realm.active_calls.begin(
            ActiveCall { invocation_id, request_id, caller: self.session, callee: registrant },
        );
        realm.next_id = invocation_id + 1;
        proof {
            let v = realm@;
            assert forall|i: int| 0 <= i < v.regs.len() implies #[trigger] v.regs[i].id
                < v.next_id by {
                assert(marked(o.regs[i], false) == marked(v.regs[i], false));
            }
            assert forall|i: int| 0 <= i < v.calls.len() implies #[trigger] v.calls[i].invocation_id
                < v.next_id by {
                if i < o.calls.len() {
                    assert(v.calls[i] == o.calls[i]);
                }
            }
        }
        let shown = if policy == MatchingPolicy::Strict {
            None
        } else {
            Some(procedure)
        };
        Ok(Invocation { to: registrant, registration, invocation_id, procedure: shown, payload })
    }

    /// Completes the outstanding call `invocation_id` and returns the result
    /// to send to its caller; fails with `InvalidState` when no such call is
    /// outstanding, as for a second yield of the same invocation.
    pub fn handle_yield<P>(&self, realm: &mut Realm, invocation_id: u64, payload: P) -> (r: Result<
        CallResult<P>,
        RouterError,
    >)
        requires
            old(realm).wf(),
        ensures
            final(realm).wf(),
            self.attached ==> !has_invocation(final(realm)@.calls, invocation_id),
            final(realm)@.regs == old(realm)@.regs,
            final(realm)@.next_id == old(realm)@.next_id,
            !(self.attached && has_invocation(old(realm)@.calls, invocation_id)) ==> r is Err
                && r->Err_0 == RouterError::InvalidState && final(realm)@ == old(realm)@,
            self.attached && has_invocation(old(realm)@.calls, invocation_id) ==> r is Ok && exists|
                i: int,
            |
                0 <= i < old(realm)@.calls.len() && #[trigger] old(realm)@.calls[i].invocation_id
                    == invocation_id && r->Ok_0.to == old(realm)@.calls[i].caller
                    && r->Ok_0.request_id == old(realm)@.calls[i].request_id && r->Ok_0.payload
                    == payload && final(realm)@.calls == old(realm)@.calls.remove(i),
    {
        if !self.attached {
            return Err(RouterError::InvalidState);
        }
        match realm.active_calls.complete(invocation_id) {
            Some(call) => {
                proof {
                    let v = realm@;
                    let o = old(realm)@;
                    let k = choose|k: int|
                        0 <= k < o.calls.len() && #[trigger] o.calls[k].invocation_id == invocation_id
                            && Some(call) == Some(o.calls[k]) && v.calls == o.calls.remove(k);
                    assert forall|i: int| 0 <= i < v.calls.len() implies #[trigger] v.calls[i].invocation_id
                        < v.next_id by {
                        let fi = if i < k { i } else { i + 1 };
                        assert(v.calls[i] == o.calls[fi]);
                    }
                }
                Ok(CallResult { to: call.caller, request_id: call.request_id, payload })
            },
            None => Err(RouterError::InvalidState),
        }
    }
}

} // verus!
