use council::model::NodeStatus;
use council::session::{Phase, Response, Session, SessionError};

fn proceeds(out: &[Response]) -> Vec<u64> {
    let mut ids: Vec<u64> = out
        .iter()
        .filter_map(|r| match r {
            Response::Proceed { node_id } => Some(*node_id),
            Response::Complete => None,
        })
        .collect();
    ids.sort();
    ids
}

fn completes(out: &[Response]) -> usize {
    out.iter().filter(|r| matches!(r, Response::Complete)).count()
}

#[test]
fn diamond_run_dispatches_each_node_once_and_completes_once() {
    let graph = vec![(1, vec![]), (2, vec![1]), (3, vec![1]), (4, vec![2, 3])];
    let (mut s, out) = Session::open(7, graph).unwrap();
    assert_eq!(s.change_set_id(), 7);
    assert_eq!(s.phase(), Phase::Open);
    assert_eq!(proceeds(&out), vec![1]);
    assert_eq!(completes(&out), 0);

    let out = s.processed_value(1).unwrap();
    assert_eq!(proceeds(&out), vec![2, 3]);
    assert_eq!(completes(&out), 0);

    // 2 done while 3 is still in flight: 4 stays blocked.
    let out = s.processed_value(2).unwrap();
    assert_eq!(proceeds(&out), Vec::<u64>::new());
    assert_eq!(completes(&out), 0);

    let out = s.processed_value(3).unwrap();
    assert_eq!(proceeds(&out), vec![4]);
    assert_eq!(completes(&out), 0);

    let out = s.processed_value(4).unwrap();
    assert_eq!(proceeds(&out), Vec::<u64>::new());
    assert_eq!(completes(&out), 1);
    assert_eq!(s.phase(), Phase::Draining);
    assert!(s.is_resolved());
    // Four proceed notifications in total, one per node.
}

#[test]
fn failure_blocks_descendants_without_signaling_them() {
    let graph = vec![(1, vec![]), (2, vec![1])];
    let (mut s, out) = Session::open(9, graph).unwrap();
    assert_eq!(proceeds(&out), vec![1]);

    let out = s.value_processing_failed(1).unwrap();
    assert_eq!(proceeds(&out), Vec::<u64>::new());
    assert_eq!(completes(&out), 1);
    assert_eq!(s.node_status(1), Some(NodeStatus::Failed));
    assert_eq!(s.node_status(2), Some(NodeStatus::Failed));
    assert!(s.is_resolved());
    assert_eq!(s.phase(), Phase::Draining);
}

#[test]
fn unexpected_completion_report_is_a_protocol_violation() {
    let graph = vec![(1, vec![]), (2, vec![1])];
    let (mut s, _) = Session::open(3, graph).unwrap();

    // Node 2 was never dispatched.
    assert_eq!(s.processed_value(2), Err(SessionError::ProtocolViolation));
    assert_eq!(s.node_status(2), Some(NodeStatus::Pending));

    // Unknown node.
    assert_eq!(s.processed_value(42), Err(SessionError::ProtocolViolation));

    // A duplicate report after completion.
    s.processed_value(1).unwrap();
    assert_eq!(s.processed_value(1), Err(SessionError::ProtocolViolation));
    assert_eq!(s.node_status(1), Some(NodeStatus::Done));

    // Failure reports check the same precondition.
    assert_eq!(s.value_processing_failed(1), Err(SessionError::ProtocolViolation));
}

#[test]
fn empty_graph_resolves_immediately() {
    let (s, out) = Session::open(1, Vec::new()).unwrap();
    assert_eq!(out, vec![Response::Complete]);
    assert_eq!(s.phase(), Phase::Draining);
    assert!(s.is_resolved());
}

#[test]
fn close_is_terminal_from_any_phase() {
    let (mut s, _) = Session::open(1, vec![(1, vec![])]).unwrap();
    assert_eq!(s.phase(), Phase::Open);
    s.close();
    assert_eq!(s.phase(), Phase::Closed);
}

#[test]
fn chain_dispatches_in_dependency_order() {
    let graph = vec![(3, vec![2]), (2, vec![1]), (1, vec![])];
    let (mut s, out) = Session::open(5, graph).unwrap();
    assert_eq!(proceeds(&out), vec![1]);
    let out = s.processed_value(1).unwrap();
    assert_eq!(proceeds(&out), vec![2]);
    let out = s.processed_value(2).unwrap();
    assert_eq!(proceeds(&out), vec![3]);
    let out = s.processed_value(3).unwrap();
    assert_eq!(completes(&out), 1);
}
