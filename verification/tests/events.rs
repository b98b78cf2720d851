use weird_core::change::{DeletedNodeChange, UpdatedNodeChange, WorldChange, WorldDidChangeResponse};
use weird_core::connection::{ConnectionSource, InitRequest, TriggerEventFailed};
use weird_core::event::{Event, TriggerEvent, TriggerOutcome};
use weird_core::ids::{root_node_id, ConnectionId, NodeId};
use weird_core::json::JsonValue;
use weird_core::node::{FlatNode, Node};
use weird_core::update::{ElementNodeUpdate, NodeUpdate};
use weird_core::proto::{JsonRpcRequest, JsonRpcRequestId, JsonRpcResponse, Request, Response};
use weird_core::server::{Reply, Session};
use weird_core::world::World;

fn init_world(children: Vec<Node>) -> (World, ConnectionId, NodeId) {
    let mut world = World::new();
    let (conn, _response, _event) = world.create_connection(InitRequest::default(), ConnectionSource::Other).unwrap();
    let (window, _changes) = world.append_node(Node::element("Window").children(children), root_node_id(), conn);
    (world, conn, window)
}

fn render(world: &mut World, conn: ConnectionId, node: NodeId, children: Vec<Node>) -> WorldDidChangeResponse {
    let (_changed, changes) = world.set_node_children(node, children, conn).unwrap();
    changes
}

fn node_id(world: &World, id: &str) -> NodeId {
    world
        .get_nodes()
        .into_iter()
        .find_map(|(node_id, node)| if node.get_id() == Some(id) { Some(node_id) } else { None })
        .unwrap_or_else(|| panic!("node not found with ID '{id}'"))
}

fn node_text(world: &World, text: &str) -> NodeId {
    world
        .get_nodes()
        .into_iter()
        .find_map(|(node_id, node)| match &*node {
            FlatNode::Text(t) if t == text => Some(node_id),
            _ => None,
        })
        .unwrap_or_else(|| panic!("node not found with text '{text}'"))
}

fn deleted(id: NodeId) -> WorldChange {
    WorldChange::Deleted(DeletedNodeChange { id })
}

fn empty_params() -> JsonValue {
    JsonValue::Composite("{}".to_string())
}

#[test]
fn test_event_triggers_listener() {
    let (mut world, conn, window) = init_world(vec![]);
    render(&mut world, conn, window, vec![Node::element("Button").id("button").child(Node::text("Click me"))]);
    let button = node_id(&world, "button");
    let outcome = world
        .trigger_event(TriggerEvent { target_node_id: button, event: "click".to_string(), params: empty_params() })
        .unwrap();
    match outcome {
        TriggerOutcome::Deliver(to, event) => {
            assert_eq!(to, conn);
            assert_eq!(
                event,
                Event {
                    event: "click".to_string(),
                    target_id: Some("button".to_string()),
                    target_node_id: button,
                    params: empty_params(),
                }
            );
            assert!(event.is("button", "click"));
            assert!(!event.is("button", "close"));
            assert!(!event.is("other", "click"));
        },
        other => panic!("unexpected outcome {other:?}"),
    }
}

#[test]
fn test_close_window_event_deletes_window() {
    let (mut world, conn, window) = init_world(vec![]);
    render(&mut world, conn, window, vec![Node::element("Button").id("button").child(Node::text("Click me"))]);
    let button = node_id(&world, "button");
    let text = node_text(&world, "Click me");
    let outcome = world
        .trigger_event(TriggerEvent { target_node_id: window, event: "close".to_string(), params: empty_params() })
        .unwrap();
    match outcome {
        TriggerOutcome::WindowClosed(diff) => {
            assert_eq!(diff.changes, vec![deleted(window), deleted(button), deleted(text)]);
        },
        other => panic!("unexpected outcome {other:?}"),
    }
    // The connection is forgotten, so its next event is none: the server
    // answers the client's `nextEvent` with an empty result at once.
    let mut session = Session::new(conn);
    let next = JsonRpcRequest::new(Some(JsonRpcRequestId::Number(1)), Request::NextEvent);
    match session.handle(&mut world, next) {
        (Reply::Send(JsonRpcResponse::Result(r)), None) => assert!(matches!(r.result, Response::Empty)),
        other => panic!("unexpected {other:?}"),
    }
    assert!(world.connection_details().is_empty());
    assert_eq!(world.get_nodes().len(), 1);
    assert!(world.is_internally_consistent());
}

#[test]
fn trigger_event_on_unknown_node_fails() {
    let (mut world, _conn, _window) = init_world(vec![]);
    let result = world.trigger_event(TriggerEvent {
        target_node_id: NodeId(999),
        event: "click".to_string(),
        params: JsonValue::Null,
    });
    assert_eq!(result, Err(TriggerEventFailed::NoConnectionForNode));
}

#[test]
fn trigger_event_on_root_fails() {
    let (mut world, _conn, _window) = init_world(vec![]);
    let result = world.trigger_event(TriggerEvent {
        target_node_id: root_node_id(),
        event: "close".to_string(),
        params: JsonValue::Null,
    });
    assert_eq!(result, Err(TriggerEventFailed::NoConnectionForNode));
}

#[test]
fn close_event_on_nested_window_is_delivered() {
    let (mut world, conn, window) = init_world(vec![Node::element("Window").id("inner")]);
    let inner = node_id(&world, "inner");
    let outcome = world
        .trigger_event(TriggerEvent { target_node_id: inner, event: "close".to_string(), params: JsonValue::Null })
        .unwrap();
    match outcome {
        TriggerOutcome::Deliver(to, event) => {
            assert_eq!(to, conn);
            assert_eq!(event.target_id, Some("inner".to_string()));
        },
        other => panic!("unexpected outcome {other:?}"),
    }
    assert!(world.get_nodes().iter().any(|(id, _)| *id == window));
}

#[test]
fn test_disconnect_marks_windows_as_stale() {
    let (mut world, _conn_1, _window_1) = init_world(vec![]);
    let (conn_2, _, _) = world.create_connection(InitRequest::default(), ConnectionSource::Other).unwrap();
    let (window_2_a, _) =
        world.append_node(Node::element("Window").attr("title", JsonValue::string("Window A")), root_node_id(), conn_2);
    let (window_2_b, _) =
        world.append_node(Node::element("Window").attr("title", JsonValue::string("Window B")), root_node_id(), conn_2);
    let diff = world.connection_did_close(conn_2);
    let stale = || -> NodeUpdate { ElementNodeUpdate::default().set_attr("stale", JsonValue::Bool(true)).into() };
    assert_eq!(
        diff.changes,
        vec![
            WorldChange::Updated(UpdatedNodeChange { id: window_2_a, update: stale() }),
            WorldChange::Updated(UpdatedNodeChange { id: window_2_b, update: stale() }),
        ]
    );
    // Closing again marks nothing more.
    let again = world.connection_did_close(conn_2);
    assert!(again.is_empty());
    let details = world.connection_details();
    let d2 = details.iter().find(|d| d.connection_id == conn_2).unwrap();
    assert!(!d2.connected);
}

#[test]
fn disconnect_without_nodes_forgets_connection() {
    let mut world = World::new();
    let (conn, _, _) = world.create_connection(InitRequest::default(), ConnectionSource::Other).unwrap();
    assert_eq!(world.connection_details().len(), 1);
    let diff = world.connection_did_close(conn);
    assert!(diff.is_empty());
    assert!(world.connection_details().is_empty());
}
