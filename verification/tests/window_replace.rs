use std::sync::Arc;
use weird_core::change::{CreatedNodeChange, DeletedNodeChange, WorldChange};
use weird_core::connection::{ConnectionSource, InitRequest};
use weird_core::ids::{root_node_id, ConnectionId, NodeId};
use weird_core::json::JsonValue;
use weird_core::node::{FlatNode, Node};
use weird_core::world::World;

fn init_world() -> World {
    let mut world = World::new();
    let (conn, _response, _event) = world.create_connection(InitRequest::default(), ConnectionSource::Other).unwrap();
    let _ = world.append_node(Node::element("Window"), root_node_id(), conn);
    world
}

fn connect(world: &mut World, app: &str) -> ConnectionId {
    let (conn, _, _) = world
        .create_connection(InitRequest { app: Some(app.to_string()), ..Default::default() }, ConnectionSource::Other)
        .unwrap();
    conn
}

fn window(id: &str, replace: bool) -> Node {
    Node::element("Window").id(id).attr("replace", JsonValue::Bool(replace))
}

fn flat_window(id: &str, replace: bool) -> FlatNode {
    FlatNode::element("Window").id(id).attr("replace", JsonValue::Bool(replace))
}

fn created(id: NodeId, node: FlatNode) -> WorldChange {
    WorldChange::Created(CreatedNodeChange { id, parent_id: root_node_id(), before_sibling_id: None, node: Arc::new(node) })
}

fn deleted(id: NodeId) -> WorldChange {
    WorldChange::Deleted(DeletedNodeChange { id })
}

#[test]
fn test_window_replace() {
    let mut world = init_world();
    let conn_1 = connect(&mut world, "app 1");
    let (window_1, diff) = world.append_node(window("window1", true), root_node_id(), conn_1);
    assert_eq!(diff.changes, vec![created(window_1, flat_window("window1", true))]);
    world.connection_did_close(conn_1);
    let conn_2 = connect(&mut world, "app 1");
    let (window_2, diff) = world.append_node(window("window2", true), root_node_id(), conn_2);
    assert_eq!(diff.changes, vec![deleted(window_1), created(window_2, flat_window("window2", true))]);
}

#[test]
fn test_window_replace_does_not_replace_if_app_is_different() {
    let mut world = init_world();
    let conn_1 = connect(&mut world, "app 1");
    let (window_1, diff) = world.append_node(window("window1", true), root_node_id(), conn_1);
    assert_eq!(diff.changes, vec![created(window_1, flat_window("window1", true))]);
    world.connection_did_close(conn_1);
    let conn_2 = connect(&mut world, "app 2");
    let (window_2, diff) = world.append_node(window("window2", true), root_node_id(), conn_2);
    assert_eq!(diff.changes, vec![created(window_2, flat_window("window2", true))]);
}

#[test]
fn test_window_replace_does_not_replace_if_not_set_originally() {
    let mut world = init_world();
    let conn_1 = connect(&mut world, "app 1");
    let (window_1, diff) = world.append_node(window("window1", false), root_node_id(), conn_1);
    assert_eq!(diff.changes, vec![created(window_1, flat_window("window1", false))]);
    world.connection_did_close(conn_1);
    let conn_2 = connect(&mut world, "app 1");
    let (window_2, diff) = world.append_node(window("window2", true), root_node_id(), conn_2);
    assert_eq!(diff.changes, vec![created(window_2, flat_window("window2", true))]);
}

#[test]
fn test_window_replace_does_not_replace_if_not_set_now() {
    let mut world = init_world();
    let conn_1 = connect(&mut world, "app 1");
    let (window_1, diff) = world.append_node(window("window1", true), root_node_id(), conn_1);
    assert_eq!(diff.changes, vec![created(window_1, flat_window("window1", true))]);
    world.connection_did_close(conn_1);
    let conn_2 = connect(&mut world, "app 2");
    let (window_2, diff) = world.append_node(window("window2", false), root_node_id(), conn_2);
    assert_eq!(diff.changes, vec![created(window_2, flat_window("window2", false))]);
}

#[test]
fn test_window_replace_does_not_replace_if_prior_still_connected() {
    let mut world = init_world();
    let conn_1 = connect(&mut world, "app 1");
    let (window_1, diff) = world.append_node(window("window1", true), root_node_id(), conn_1);
    assert_eq!(diff.changes, vec![created(window_1, flat_window("window1", true))]);
    let conn_2 = connect(&mut world, "app 1");
    let (window_2, diff) = world.append_node(window("window2", true), root_node_id(), conn_2);
    assert_eq!(diff.changes, vec![created(window_2, flat_window("window2", true))]);
}

#[test]
fn test_window_replace_multiple() {
    let mut world = init_world();
    let conn_1 = connect(&mut world, "app 1");
    let (window_1, diff) = world.append_node(window("window1", true), root_node_id(), conn_1);
    assert_eq!(diff.changes, vec![created(window_1, flat_window("window1", true))]);
    let conn_2 = connect(&mut world, "app 1");
    let (window_2, diff) = world.append_node(window("window2", true), root_node_id(), conn_2);
    assert_eq!(diff.changes, vec![created(window_2, flat_window("window2", true))]);
    world.connection_did_close(conn_1);
    world.connection_did_close(conn_2);
    let conn_3 = connect(&mut world, "app 1");
    let (window_3, diff) = world.append_node(window("window3", true), root_node_id(), conn_3);
    assert_eq!(
        diff.changes,
        vec![deleted(window_1), deleted(window_2), created(window_3, flat_window("window3", true))]
    );
}
