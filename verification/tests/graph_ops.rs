use council::graph::{Graph, GraphError};
use council::model::NodeStatus;

fn diamond() -> Vec<(u64, Vec<u64>)> {
    vec![(1, vec![]), (2, vec![1]), (3, vec![1]), (4, vec![2, 3])]
}

#[test]
fn initial_ready_nodes_are_exactly_the_sources() {
    let g = Graph::register(diamond()).unwrap();
    let ready = g.ready_nodes();
    assert_eq!(ready, vec![1]);

    let g2 = Graph::register(vec![(10, vec![]), (11, vec![]), (12, vec![10, 11])]).unwrap();
    let mut ready2 = g2.ready_nodes();
    ready2.sort();
    assert_eq!(ready2, vec![10, 11]);
}

#[test]
fn cyclic_submission_is_rejected() {
    let r = Graph::register(vec![(1, vec![2]), (2, vec![1])]);
    assert!(matches!(r, Err(GraphError::CyclicGraph)));

    let self_loop = Graph::register(vec![(1, vec![1])]);
    assert!(matches!(self_loop, Err(GraphError::CyclicGraph)));
}

#[test]
fn unknown_dependency_is_rejected() {
    let r = Graph::register(vec![(1, vec![]), (2, vec![99])]);
    assert!(matches!(r, Err(GraphError::UnknownDependency)));
}

#[test]
fn unknown_dependency_takes_precedence_over_cycle() {
    let r = Graph::register(vec![(1, vec![2]), (2, vec![1, 99])]);
    assert!(matches!(r, Err(GraphError::UnknownDependency)));
}

#[test]
fn repeated_identifier_keeps_the_later_entry() {
    let g = Graph::register(vec![(1, vec![]), (2, vec![1]), (2, vec![])]).unwrap();
    let mut ready = g.ready_nodes();
    ready.sort();
    assert_eq!(ready, vec![1, 2]);
}

#[test]
fn transitions_validate_the_prior_status() {
    let mut g = Graph::register(diamond()).unwrap();
    assert!(matches!(g.mark_done(1), Err(GraphError::InvalidTransition)));
    assert!(matches!(g.mark_in_flight(2), Err(GraphError::InvalidTransition)));
    assert!(g.mark_in_flight(1).is_ok());
    assert!(matches!(g.mark_in_flight(1), Err(GraphError::InvalidTransition)));
    assert!(g.mark_done(1).is_ok());
    assert!(matches!(g.mark_done(1), Err(GraphError::InvalidTransition)));
    assert_eq!(g.status_of(1), Some(NodeStatus::Done));
    assert_eq!(g.status_of(99), None);
}

#[test]
fn ready_successors_are_the_direct_successors_made_ready() {
    let mut g = Graph::register(diamond()).unwrap();
    g.mark_in_flight(1).unwrap();
    g.mark_done(1).unwrap();
    let mut succ = g.ready_successors(1);
    succ.sort();
    assert_eq!(succ, vec![2, 3]);
}

#[test]
fn failure_propagates_to_descendants_only() {
    let mut g =
        Graph::register(vec![(1, vec![]), (2, vec![1]), (3, vec![2]), (4, vec![])]).unwrap();
    g.mark_in_flight(1).unwrap();
    g.mark_failed(1).unwrap();
    g.fail_descendants(1);
    assert_eq!(g.status_of(1), Some(NodeStatus::Failed));
    assert_eq!(g.status_of(2), Some(NodeStatus::Failed));
    assert_eq!(g.status_of(3), Some(NodeStatus::Failed));
    assert_eq!(g.status_of(4), Some(NodeStatus::Pending));
}

#[test]
fn is_resolved_iff_every_node_is_terminal() {
    let mut g = Graph::register(vec![(1, vec![]), (2, vec![1])]).unwrap();
    assert!(!g.is_resolved());
    g.mark_in_flight(1).unwrap();
    g.mark_done(1).unwrap();
    assert!(!g.is_resolved());
    g.mark_in_flight(2).unwrap();
    g.mark_failed(2).unwrap();
    assert!(g.is_resolved());

    let empty = Graph::register(Vec::new()).unwrap();
    assert!(empty.is_resolved());
}
