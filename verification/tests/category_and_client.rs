use council::category::{CategoryNode, PackageCategory, SchemaSpec};
use council::client::{classify_reply, next_state, ClientError, State};
use council::component::AlterSimulationResponse;
use council::session::Response;

#[test]
fn kind_str_is_the_schemas_tag() {
    assert_eq!(CategoryNode::Schemas.kind_str(), "schemas");
}

#[test]
fn kind_str_round_trips_through_the_parser() {
    let node = CategoryNode::Schemas;
    assert_eq!(CategoryNode::from_kind_str(node.kind_str()), Some(node));
}

#[test]
fn invalid_kind_tag_is_rejected() {
    assert_eq!(CategoryNode::from_kind_str("qualifications"), None);
    assert_eq!(CategoryNode::from_kind_str(""), None);
    assert_eq!(CategoryNode::from_kind_str("schemas "), None);
}

#[test]
fn package_category_maps_to_its_node() {
    let cat = PackageCategory::Schemas(vec![
        SchemaSpec { name: String::from("a") },
        SchemaSpec { name: String::from("b") },
    ]);
    assert_eq!(cat.category_node(), CategoryNode::Schemas);
    assert_eq!(cat.len(), 2);
}

#[test]
fn classify_reply_distinguishes_closed_empty_and_payload() {
    assert_eq!(classify_reply(None), Ok(None));
    assert_eq!(classify_reply(Some(Vec::new())), Err(ClientError::NoListenerAvailable));
    assert_eq!(classify_reply(Some(vec![1, 2, 3])), Ok(Some(vec![1, 2, 3])));
}

#[test]
fn next_state_stops_only_on_completion() {
    assert_eq!(next_state(&Response::Proceed { node_id: 1 }), State::Continue);
    assert_eq!(next_state(&Response::Complete), State::Shutdown);
}

#[test]
fn alter_simulation_response_reports_its_outcome() {
    assert!(AlterSimulationResponse::new(true).success());
    assert!(!AlterSimulationResponse::new(false).success());
}
