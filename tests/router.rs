use wamp_router::{
    CallResult, ConnectionHandler, ErrorType, Invocation, InvocationPolicy, MatchingPolicy, Realm,
    Reason, RegisterOptions, Reply, RouterError, Uri, is_prefix_match, is_wildcard_match,
    same_uri,
};

fn uri(s: &str) -> Uri {
    Uri::parse(&s.as_bytes().to_vec())
}

fn opts(m: MatchingPolicy, i: InvocationPolicy) -> RegisterOptions {
    RegisterOptions { pattern_match: m, invocation_policy: i }
}

fn strict() -> RegisterOptions {
    opts(MatchingPolicy::Strict, InvocationPolicy::Single)
}

fn register(h: &ConnectionHandler, realm: &mut Realm, req: u64, o: RegisterOptions, u: &str) -> u64 {
    match h.handle_register(realm, req, o, uri(u)) {
        Ok(Reply::Registered(r, id)) => {
            assert_eq!(r, req);
            id
        }
        other => panic!("registration failed: {:?}", other),
    }
}

fn call(h: &ConnectionHandler, realm: &mut Realm, req: u64, u: &str, pick: u64) -> Result<Invocation<Vec<i64>>, RouterError> {
    h.handle_call(realm, req, uri(u), vec![], pick)
}

#[test]
fn uri_parsing() {
    let u = uri("com.example.add");
    assert_eq!(u.segments, vec![b"com".to_vec(), b"example".to_vec(), b"add".to_vec()]);
    let w = uri("a..c");
    assert_eq!(w.segments, vec![b"a".to_vec(), vec![], b"c".to_vec()]);
    assert_eq!(uri("").segments, vec![Vec::<u8>::new()]);
    assert_eq!(uri("x.").segments, vec![b"x".to_vec(), vec![]]);
}

#[test]
fn uri_matching() {
    assert!(same_uri(&uri("a.b"), &uri("a.b")));
    assert!(!same_uri(&uri("a.b"), &uri("a.c")));
    assert!(!same_uri(&uri("a.b"), &uri("a.b.c")));
    assert!(is_prefix_match(&uri("a"), &uri("a.b")));
    assert!(is_prefix_match(&uri("a.b"), &uri("a.b")));
    assert!(!is_prefix_match(&uri("a.b"), &uri("a")));
    assert!(!is_prefix_match(&uri("ab"), &uri("a.b")));
    assert!(is_wildcard_match(&uri("a..c"), &uri("a.x.c")));
    assert!(!is_wildcard_match(&uri("a..c"), &uri("a.x.d")));
    assert!(!is_wildcard_match(&uri("a..c"), &uri("a.x.c.d")));
    assert_eq!(uri("a.b..d").specificity(), 2);
    assert_eq!(uri("a.b").len(), 2);
}

#[test]
fn strict_registrations_stay_unique() {
    let mut realm = Realm::new();
    let a = ConnectionHandler::new(1, true);
    let b = ConnectionHandler::new(2, true);
    register(&a, &mut realm, 10, strict(), "a.b");
    let again = b.handle_register(&mut realm, 11, strict(), uri("a.b"));
    assert_eq!(again, Err(RouterError::ErrorReason(ErrorType::Register, 11, Reason::ProcedureAlreadyExists)));
    assert_eq!(realm.registrations.regs.len(), 1);
    // patterns on the same URI never clash
    register(&b, &mut realm, 12, opts(MatchingPolicy::Prefix, InvocationPolicy::Single), "a.b");
    register(&b, &mut realm, 13, opts(MatchingPolicy::Wildcard, InvocationPolicy::Single), "a.b");
    // a shared set needs the same shareable policy on both sides
    let rr = opts(MatchingPolicy::Strict, InvocationPolicy::RoundRobin);
    register(&a, &mut realm, 14, rr, "x");
    register(&b, &mut realm, 15, rr, "x");
    let last = opts(MatchingPolicy::Strict, InvocationPolicy::Last);
    let mixed = b.handle_register(&mut realm, 16, last, uri("x"));
    assert_eq!(mixed, Err(RouterError::ErrorReason(ErrorType::Register, 16, Reason::ProcedureAlreadyExists)));
    let single = b.handle_register(&mut realm, 17, strict(), uri("x"));
    assert!(single.is_err());
}

#[test]
fn resolve_after_register_then_unregister() {
    let mut realm = Realm::new();
    let a = ConnectionHandler::new(1, true);
    let b = ConnectionHandler::new(2, true);
    let id = register(&a, &mut realm, 1, strict(), "com.example.add");
    let inv = call(&b, &mut realm, 2, "com.example.add", 0).unwrap();
    assert_eq!(inv.to, 1);
    assert_eq!(inv.registration, id);
    assert_eq!(a.handle_unregister(&mut realm, 3, id), Ok(Reply::Unregistered(3)));
    assert_eq!(
        call(&b, &mut realm, 4, "com.example.add", 0).err(),
        Some(RouterError::ErrorReason(ErrorType::Call, 4, Reason::NoSuchProcedure))
    );
}

#[test]
fn unregister_needs_the_owner() {
    let mut realm = Realm::new();
    let a = ConnectionHandler::new(1, true);
    let b = ConnectionHandler::new(2, true);
    let id = register(&a, &mut realm, 1, strict(), "p");
    assert_eq!(
        b.handle_unregister(&mut realm, 2, id),
        Err(RouterError::ErrorReason(ErrorType::Unregister, 2, Reason::NoSuchProcedure))
    );
    assert_eq!(
        a.handle_unregister(&mut realm, 3, id + 100),
        Err(RouterError::ErrorReason(ErrorType::Unregister, 3, Reason::NoSuchProcedure))
    );
    assert_eq!(realm.registrations.regs.len(), 1);
}

#[test]
fn strict_beats_prefix() {
    let mut realm = Realm::new();
    let s = ConnectionHandler::new(1, true);
    let p = ConnectionHandler::new(2, true);
    let c = ConnectionHandler::new(3, true);
    register(&s, &mut realm, 1, strict(), "a.b");
    register(&p, &mut realm, 2, opts(MatchingPolicy::Prefix, InvocationPolicy::Single), "a");
    let exact = call(&c, &mut realm, 3, "a.b", 0).unwrap();
    assert_eq!(exact.to, 1);
    assert!(exact.procedure.is_none());
    let pattern = call(&c, &mut realm, 4, "a.c", 0).unwrap();
    assert_eq!(pattern.to, 2);
    assert!(same_uri(pattern.procedure.as_ref().unwrap(), &uri("a.c")));
}

#[test]
fn most_specific_pattern_wins() {
    let mut realm = Realm::new();
    let c = ConnectionHandler::new(9, true);
    let short = ConnectionHandler::new(1, true);
    let long = ConnectionHandler::new(2, true);
    let wild = ConnectionHandler::new(3, true);
    let prefix = opts(MatchingPolicy::Prefix, InvocationPolicy::Single);
    register(&short, &mut realm, 1, prefix, "a");
    register(&long, &mut realm, 2, prefix, "a.b");
    register(&wild, &mut realm, 3, opts(MatchingPolicy::Wildcard, InvocationPolicy::Single), "a..c");
    assert_eq!(call(&c, &mut realm, 4, "a.b.c", 0).unwrap().to, 2);
    assert_eq!(call(&c, &mut realm, 5, "a.x.c", 0).unwrap().to, 1);
    // equal specificity: the earlier registration wins
    register(&wild, &mut realm, 6, prefix, "a.b");
    assert_eq!(call(&c, &mut realm, 7, "a.b.d", 0).unwrap().to, 2);
}

#[test]
fn second_yield_is_refused() {
    let mut realm = Realm::new();
    let a = ConnectionHandler::new(1, true);
    let b = ConnectionHandler::new(2, true);
    register(&a, &mut realm, 1, strict(), "p");
    let inv = call(&b, &mut realm, 7, "p", 0).unwrap();
    let first = a.handle_yield(&mut realm, inv.invocation_id, vec![1i64]).unwrap();
    assert_eq!((first.to, first.request_id, first.payload), (2, 7, vec![1]));
    let second: Result<CallResult<Vec<i64>>, RouterError> = a.handle_yield(&mut realm, inv.invocation_id, vec![1]);
    assert_eq!(second.err(), Some(RouterError::InvalidState));
    let unknown = a.handle_yield(&mut realm, 12345, vec![0i64]);
    assert_eq!(unknown.err(), Some(RouterError::InvalidState));
}

#[test]
fn round_robin_cycles_in_registration_order() {
    let mut realm = Realm::new();
    let c = ConnectionHandler::new(9, true);
    let rr = opts(MatchingPolicy::Strict, InvocationPolicy::RoundRobin);
    for s in 1..=3u64 {
        register(&ConnectionHandler::new(s, true), &mut realm, s, rr, "svc");
    }
    let mut seen = Vec::new();
    for req in 0..6u64 {
        seen.push(call(&c, &mut realm, req, "svc", 0).unwrap().to);
    }
    assert_eq!(seen, vec![1, 2, 3, 1, 2, 3]);
}

#[test]
fn first_last_and_random_sets() {
    let mut realm = Realm::new();
    let c = ConnectionHandler::new(9, true);
    let first = opts(MatchingPolicy::Strict, InvocationPolicy::First);
    let last = opts(MatchingPolicy::Strict, InvocationPolicy::Last);
    let random = opts(MatchingPolicy::Strict, InvocationPolicy::Random);
    for s in 1..=3u64 {
        let h = ConnectionHandler::new(s, true);
        register(&h, &mut realm, s, first, "f");
        register(&h, &mut realm, s, last, "l");
        register(&h, &mut realm, s, random, "r");
    }
    assert_eq!(call(&c, &mut realm, 1, "f", 5).unwrap().to, 1);
    assert_eq!(call(&c, &mut realm, 2, "f", 5).unwrap().to, 1);
    assert_eq!(call(&c, &mut realm, 3, "l", 5).unwrap().to, 3);
    assert_eq!(call(&c, &mut realm, 4, "r", 5).unwrap().to, 3);
    assert_eq!(call(&c, &mut realm, 5, "r", 3).unwrap().to, 1);
    assert_eq!(call(&c, &mut realm, 6, "r", 7).unwrap().to, 2);
}

#[test]
fn cleanup_removes_session() {
    let mut realm = Realm::new();
    let a = ConnectionHandler::new(1, true);
    let b = ConnectionHandler::new(2, true);
    let c = ConnectionHandler::new(3, true);
    register(&a, &mut realm, 1, strict(), "only.a");
    register(&b, &mut realm, 2, strict(), "only.b");
    let to_a = call(&c, &mut realm, 3, "only.a", 0).unwrap();
    let from_a = call(&a, &mut realm, 4, "only.b", 0).unwrap();
    let other = call(&c, &mut realm, 5, "only.b", 0).unwrap();
    assert_eq!(realm.active_calls.calls.len(), 3);
    realm.remove_session(1);
    assert_eq!(
        call(&c, &mut realm, 6, "only.a", 0).err(),
        Some(RouterError::ErrorReason(ErrorType::Call, 6, Reason::NoSuchProcedure))
    );
    assert_eq!(realm.active_calls.calls.len(), 1);
    assert!(b.handle_yield(&mut realm, from_a.invocation_id, vec![0i64]).is_err());
    assert!(a.handle_yield(&mut realm, to_a.invocation_id, vec![0i64]).is_err());
    assert!(b.handle_yield(&mut realm, other.invocation_id, vec![0i64]).is_ok());
}

#[test]
fn detached_session_is_refused() {
    let mut realm = Realm::new();
    let a = ConnectionHandler::new(1, false);
    assert_eq!(a.handle_register(&mut realm, 1, strict(), uri("p")), Err(RouterError::InvalidState));
    assert_eq!(a.handle_unregister(&mut realm, 2, 1), Err(RouterError::InvalidState));
    assert_eq!(call(&a, &mut realm, 3, "p", 0).err(), Some(RouterError::InvalidState));
    assert_eq!(a.handle_yield(&mut realm, 1, vec![0i64]).err(), Some(RouterError::InvalidState));
    assert_eq!(realm.registrations.regs.len(), 0);
    assert_eq!(realm.next_id, 1);
}

#[test]
fn end_to_end_add() {
    let mut realm = Realm::new();
    let a = ConnectionHandler::new(1, true);
    let b = ConnectionHandler::new(2, true);
    let id = register(&a, &mut realm, 100, strict(), "com.example.add");
    let inv = b.handle_call(&mut realm, 200, uri("com.example.add"), vec![2i64, 3], 0).unwrap();
    assert_eq!(inv.to, 1);
    assert_eq!(inv.registration, id);
    assert_ne!(inv.invocation_id, id);
    assert_eq!(inv.payload, vec![2, 3]);
    assert!(inv.procedure.is_none());
    let res = a.handle_yield(&mut realm, inv.invocation_id, vec![5i64]).unwrap();
    assert_eq!(res.to, 2);
    assert_eq!(res.request_id, 200);
    assert_eq!(res.payload, vec![5]);
    assert_eq!(realm.active_calls.calls.len(), 0);
}

#[test]
fn identifiers_run_out_at_the_top() {
    let mut realm = Realm::new();
    assert!(realm.has_ids_left());
    realm.next_id = u64::MAX - 1;
    assert!(realm.has_ids_left());
    let a = ConnectionHandler::new(1, true);
    let id = register(&a, &mut realm, 1, strict(), "p");
    assert_eq!(id, u64::MAX - 1);
    assert!(!realm.has_ids_left());
}

#[test]
fn round_robin_keeps_registration_order_when_a_registrant_joins() {
    let mut realm = Realm::new();
    let c = ConnectionHandler::new(9, true);
    let rr = opts(MatchingPolicy::Strict, InvocationPolicy::RoundRobin);
    register(&ConnectionHandler::new(1, true), &mut realm, 1, rr, "svc");
    register(&ConnectionHandler::new(2, true), &mut realm, 2, rr, "svc");
    assert_eq!(call(&c, &mut realm, 3, "svc", 0).unwrap().to, 1);
    register(&ConnectionHandler::new(3, true), &mut realm, 4, rr, "svc");
    let mut seen = Vec::new();
    for req in 5..11u64 {
        seen.push(call(&c, &mut realm, req, "svc", 0).unwrap().to);
    }
    assert_eq!(seen, vec![2, 3, 1, 2, 3, 1]);
    // the table itself keeps registration order
    let owners: Vec<u64> = realm.registrations.regs.iter().map(|r| r.registrant).collect();
    assert_eq!(owners, vec![1, 2, 3]);
}

#[test]
fn round_robin_cursor_survives_removal_of_another_member() {
    let mut realm = Realm::new();
    let c = ConnectionHandler::new(9, true);
    let rr = opts(MatchingPolicy::Strict, InvocationPolicy::RoundRobin);
    let a = ConnectionHandler::new(1, true);
    let id_a = register(&a, &mut realm, 1, rr, "svc");
    register(&ConnectionHandler::new(2, true), &mut realm, 2, rr, "svc");
    register(&ConnectionHandler::new(3, true), &mut realm, 3, rr, "svc");
    assert_eq!(call(&c, &mut realm, 4, "svc", 0).unwrap().to, 1);
    assert_eq!(a.handle_unregister(&mut realm, 5, id_a), Ok(Reply::Unregistered(5)));
    assert_eq!(call(&c, &mut realm, 6, "svc", 0).unwrap().to, 2);
    assert_eq!(call(&c, &mut realm, 7, "svc", 0).unwrap().to, 3);
    assert_eq!(call(&c, &mut realm, 8, "svc", 0).unwrap().to, 2);
}
