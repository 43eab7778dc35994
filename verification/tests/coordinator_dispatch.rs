use council::coordinator::{Coordinator, HandleError, Request};
use council::session::{Phase, Response};

fn register(cs: u64, graph: Vec<(u64, Vec<u64>)>) -> Request {
    Request::ValueDependencyGraph { change_set_id: cs, dependency_graph: graph }
}

#[test]
fn requests_for_an_unknown_change_set_yield_unknown_session() {
    let mut c = Coordinator::new();
    assert_eq!(
        c.handle(Request::ProcessedValue { change_set_id: 1, node_id: 1 }),
        Err(HandleError::UnknownSession)
    );
    assert_eq!(
        c.handle(Request::ValueProcessingFailed { change_set_id: 1, node_id: 1 }),
        Err(HandleError::UnknownSession)
    );
    assert_eq!(c.handle(Request::Bye { change_set_id: 1 }), Err(HandleError::UnknownSession));
    assert!(!c.has_session(1));
}

#[test]
fn bye_removes_the_session_and_later_requests_are_unknown() {
    let mut c = Coordinator::new();
    c.handle(register(1, vec![(1, vec![])])).unwrap();
    assert!(c.has_session(1));

    assert_eq!(c.handle(Request::Bye { change_set_id: 1 }), Ok(Vec::new()));
    assert!(!c.has_session(1));

    assert_eq!(
        c.handle(Request::ProcessedValue { change_set_id: 1, node_id: 1 }),
        Err(HandleError::UnknownSession)
    );
    assert_eq!(c.handle(Request::Bye { change_set_id: 1 }), Err(HandleError::UnknownSession));
}

#[test]
fn replacing_an_open_session_is_a_protocol_violation() {
    let mut c = Coordinator::new();
    c.handle(register(1, vec![(1, vec![])])).unwrap();
    assert_eq!(c.session_phase(1), Some(Phase::Open));
    assert_eq!(
        c.handle(register(1, vec![(2, vec![])])),
        Err(HandleError::ProtocolViolation)
    );
}

#[test]
fn a_drained_session_may_be_replaced() {
    let mut c = Coordinator::new();
    c.handle(register(1, vec![(1, vec![])])).unwrap();
    c.handle(Request::ProcessedValue { change_set_id: 1, node_id: 1 }).unwrap();
    assert_eq!(c.session_phase(1), Some(Phase::Draining));

    let out = c.handle(register(1, vec![(8, vec![])])).unwrap();
    assert_eq!(out, vec![Response::Proceed { node_id: 8 }]);
    assert_eq!(c.session_phase(1), Some(Phase::Open));
}

#[test]
fn submission_errors_create_no_session() {
    let mut c = Coordinator::new();
    assert_eq!(
        c.handle(register(1, vec![(1, vec![2]), (2, vec![1])])),
        Err(HandleError::CyclicGraph)
    );
    assert!(!c.has_session(1));
    assert_eq!(
        c.handle(register(1, vec![(1, vec![99])])),
        Err(HandleError::UnknownDependency)
    );
    assert!(!c.has_session(1));
}

#[test]
fn sessions_of_distinct_change_sets_are_independent() {
    let mut c = Coordinator::new();
    c.handle(register(1, vec![(1, vec![])])).unwrap();
    c.handle(register(2, vec![(1, vec![]), (2, vec![1])])).unwrap();

    let out = c.handle(Request::ProcessedValue { change_set_id: 2, node_id: 1 }).unwrap();
    assert_eq!(out, vec![Response::Proceed { node_id: 2 }]);
    assert_eq!(c.session_phase(1), Some(Phase::Open));

    let out = c.handle(Request::ProcessedValue { change_set_id: 1, node_id: 1 }).unwrap();
    assert_eq!(out, vec![Response::Complete]);
}

#[test]
fn misreported_node_leaves_the_session_in_its_last_valid_state() {
    let mut c = Coordinator::new();
    c.handle(register(1, vec![(1, vec![]), (2, vec![1])])).unwrap();
    assert_eq!(
        c.handle(Request::ProcessedValue { change_set_id: 1, node_id: 2 }),
        Err(HandleError::ProtocolViolation)
    );
    // The session is still there and still accepts the correct report.
    let out = c.handle(Request::ProcessedValue { change_set_id: 1, node_id: 1 }).unwrap();
    assert_eq!(out, vec![Response::Proceed { node_id: 2 }]);
}

#[test]
fn idle_expiry_removes_only_open_sessions() {
    let mut c = Coordinator::new();
    assert!(!c.expire_session(1));

    c.handle(register(1, vec![(1, vec![])])).unwrap();
    c.handle(register(2, vec![(5, vec![])])).unwrap();
    c.handle(Request::ProcessedValue { change_set_id: 2, node_id: 5 }).unwrap();
    assert_eq!(c.session_phase(2), Some(Phase::Draining));

    // A drained session is not idle-expired; an open one is.
    assert!(!c.expire_session(2));
    assert!(c.has_session(2));
    assert!(c.expire_session(1));
    assert!(!c.has_session(1));
    assert_eq!(
        c.handle(Request::ProcessedValue { change_set_id: 1, node_id: 1 }),
        Err(HandleError::UnknownSession)
    );
}

#[test]
fn failure_report_through_the_coordinator_resolves_the_session() {
    let mut c = Coordinator::new();
    c.handle(register(4, vec![(1, vec![]), (2, vec![1]), (3, vec![2])])).unwrap();
    let out = c.handle(Request::ValueProcessingFailed { change_set_id: 4, node_id: 1 }).unwrap();
    assert_eq!(out, vec![Response::Complete]);
    assert_eq!(c.session_phase(4), Some(Phase::Draining));
}
