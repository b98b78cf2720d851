use std::sync::Arc;
use weird_core::change::{CreatedNodeChange, DeletedNodeChange, MovedNodeChange, UpdatedNodeChange, WorldChange, WorldDidChangeResponse};
use weird_core::connection::{ConnectionSource, InitRequest};
use weird_core::ids::{root_node_id, ConnectionId, NodeId};
use weird_core::json::{JsonNumber, JsonValue};
use weird_core::node::{FlatNode, Node};
use weird_core::update::{ElementNodeUpdate, NodeUpdate, TextNodeUpdate};
use weird_core::world::World;

fn init_world(children: Vec<Node>) -> (World, ConnectionId, NodeId) {
    let mut world = World::new();
    let (conn, _response, _event) = world.create_connection(InitRequest::default(), ConnectionSource::Other).unwrap();
    let (window, _changes) = world.append_node(Node::element("Window").children(children), root_node_id(), conn);
    (world, conn, window)
}

fn render(world: &mut World, conn: ConnectionId, node: NodeId, children: Vec<Node>) -> WorldDidChangeResponse {
    assert!(world.is_internally_consistent());
    let (changed, changes) = world.set_node_children(node, children, conn).unwrap();
    assert!(world.is_internally_consistent());
    assert_eq!(changed, !changes.is_empty());
    if changed {
        changes
    } else {
        WorldDidChangeResponse::default()
    }
}

fn node_id(world: &World, id: &str) -> NodeId {
    world
        .get_nodes()
        .into_iter()
        .find_map(|(node_id, node)| if node.get_id() == Some(id) { Some(node_id) } else { None })
        .unwrap_or_else(|| panic!("node not found with ID '{id}'"))
}

fn node_text(world: &World, text: &str) -> NodeId {
    world
        .get_nodes()
        .into_iter()
        .find_map(|(node_id, node)| match &*node {
            FlatNode::Text(t) if t == text => Some(node_id),
            _ => None,
        })
        .unwrap_or_else(|| panic!("node not found with text '{text}'"))
}

fn node_tag(world: &World, tag: &str) -> NodeId {
    world
        .get_nodes()
        .into_iter()
        .find_map(|(node_id, node)| match &*node {
            FlatNode::Element(e) if e.tag == tag => Some(node_id),
            _ => None,
        })
        .unwrap_or_else(|| panic!("node not found with tag '{tag}'"))
}

fn created(id: NodeId, parent_id: NodeId, before_sibling_id: Option<NodeId>, node: FlatNode) -> WorldChange {
    WorldChange::Created(CreatedNodeChange { id, parent_id, before_sibling_id, node: Arc::new(node) })
}

fn updated(id: NodeId, update: NodeUpdate) -> WorldChange {
    WorldChange::Updated(UpdatedNodeChange { id, update })
}

fn deleted(id: NodeId) -> WorldChange {
    WorldChange::Deleted(DeletedNodeChange { id })
}

fn num(n: u64) -> JsonValue {
    JsonValue::Number(JsonNumber::PosInt(n))
}

fn text(s: &str) -> JsonValue {
    JsonValue::string(s)
}

#[test]
fn test_world_did_change_nothing() {
    let (mut world, conn, window) = init_world(vec![]);
    let diff = render(&mut world, conn, window, vec![]);
    assert_eq!(diff, WorldDidChangeResponse::default());
}

#[test]
fn test_world_did_change_add_to_empty() {
    let (mut world, conn, window) = init_world(vec![]);
    let diff = render(
        &mut world,
        conn,
        window,
        vec![
            Node::element("Box")
                .id("node1")
                .child(Node::element("Box").attr("id", text("node2")).child(Node::text("Foo")))
                .child(Node::text("Bar")),
            Node::element("Button").child(Node::text("Click me")),
            Node::text("hello world"),
        ],
    );
    let node_1 = node_id(&world, "node1");
    let node_2 = node_id(&world, "node2");
    let foo = node_text(&world, "Foo");
    let bar = node_text(&world, "Bar");
    let button = node_tag(&world, "Button");
    let click_me = node_text(&world, "Click me");
    let hello_world = node_text(&world, "hello world");
    assert_eq!(
        diff.changes,
        vec![
            created(node_1, window, None, FlatNode::element("Box").id("node1")),
            created(node_2, node_1, None, FlatNode::element("Box").id("node2")),
            created(bar, node_1, None, FlatNode::text("Bar")),
            created(foo, node_2, None, FlatNode::text("Foo")),
            created(button, window, None, FlatNode::element("Button")),
            created(click_me, button, None, FlatNode::text("Click me")),
            created(hello_world, window, None, FlatNode::text("hello world")),
        ]
    );
}

#[test]
fn test_world_did_change_remove_all() {
    let (mut world, conn, window) = init_world(vec![
        Node::element("Box")
            .id("node1")
            .child(Node::element("Box").attr("id", text("node2")).child(Node::text("Foo")))
            .child(Node::text("Bar")),
        Node::element("Button").child(Node::text("Click me")),
        Node::text("hello world"),
    ]);
    let node_1 = node_id(&world, "node1");
    let node_2 = node_id(&world, "node2");
    let foo = node_text(&world, "Foo");
    let bar = node_text(&world, "Bar");
    let button = node_tag(&world, "Button");
    let click_me = node_text(&world, "Click me");
    let hello_world = node_text(&world, "hello world");
    let diff = render(&mut world, conn, window, vec![]);
    assert_eq!(
        diff.changes,
        vec![
            deleted(node_1),
            deleted(button),
            deleted(hello_world),
            deleted(node_2),
            deleted(bar),
            deleted(click_me),
            deleted(foo),
        ]
    );
}

#[test]
fn test_world_did_change_replace_all() {
    let (mut world, conn, window) =
        init_world(vec![Node::element("Fizz"), Node::element("Buzz"), Node::text("foobar")]);
    let fizz = node_tag(&world, "Fizz");
    let buzz = node_tag(&world, "Buzz");
    let foobar = node_text(&world, "foobar");
    let diff = render(
        &mut world,
        conn,
        window,
        vec![Node::element("Foo"), Node::element("Bar"), Node::element("Other")],
    );
    let foo = node_tag(&world, "Foo");
    let bar = node_tag(&world, "Bar");
    let other = node_tag(&world, "Other");
    assert_eq!(
        diff.changes,
        vec![
            created(foo, window, None, FlatNode::element("Foo")),
            created(bar, window, None, FlatNode::element("Bar")),
            created(other, window, None, FlatNode::element("Other")),
            deleted(fizz),
            deleted(buzz),
            deleted(foobar),
        ]
    );
}

#[test]
fn test_world_did_change_reorder_nodes() {
    let (mut world, conn, window) = init_world(vec![
        Node::element("First"),
        Node::element("Foo"),
        Node::element("Bar").id("node-bar"),
        Node::element("Other"),
        Node::text("text"),
        Node::element("Last"),
    ]);
    let foo = node_tag(&world, "Foo");
    let bar = node_id(&world, "node-bar");
    let other = node_tag(&world, "Other");
    let text_node = node_text(&world, "text");
    let last = node_tag(&world, "Last");
    let diff = render(
        &mut world,
        conn,
        window,
        vec![
            Node::element("First"),
            Node::element("Other"),
            Node::element("Foo"),
            Node::text("text"),
            Node::element("Bar").id("node-bar"),
            Node::element("Last"),
        ],
    );
    assert_eq!(
        diff.changes,
        vec![
            MovedNodeChange { id: bar, parent_id: window, before_sibling_id: Some(last) }.into(),
            MovedNodeChange { id: text_node, parent_id: window, before_sibling_id: Some(bar) }.into(),
            MovedNodeChange { id: foo, parent_id: window, before_sibling_id: Some(text_node) }.into(),
            MovedNodeChange { id: other, parent_id: window, before_sibling_id: Some(foo) }.into(),
        ]
    );
}

#[test]
fn test_world_did_change_update_nodes() {
    let (mut world, conn, window) = init_world(vec![
        Node::element("Foo").attr("value", num(1)),
        Node::element("Bar").attr("value", text("A")),
        Node::text("text 1"),
        Node::text("text 2"),
    ]);
    let foo = node_tag(&world, "Foo");
    let bar = node_tag(&world, "Bar");
    let text_1 = node_text(&world, "text 1");
    let text_2 = node_text(&world, "text 2");
    let diff = render(
        &mut world,
        conn,
        window,
        vec![
            Node::element("Foo").attr("value", text("B")).attr("added", text("C")),
            Node::element("Bar"),
            Node::text("text 1!"),
            Node::text("text 2!"),
        ],
    );
    assert_eq!(
        diff.changes,
        vec![
            updated(foo, ElementNodeUpdate::default().set_attr("value", text("B")).set_attr("added", text("C")).into()),
            updated(bar, ElementNodeUpdate::default().clear_attr("value").into()),
            updated(text_1, TextNodeUpdate::new("text 1!").into()),
            updated(text_2, TextNodeUpdate::new("text 2!").into()),
        ]
    );
}

#[test]
fn test_world_did_change_complex() {
    let (mut world, conn, window) = init_world(vec![
        Node::element("Foo").attr("value", num(1)),
        Node::element("Bar").attr("value", text("A")),
        Node::text("text 1"),
        Node::text("text 2"),
    ]);
    render(
        &mut world,
        conn,
        window,
        vec![
            Node::text("Running 4/5"),
            Node::element("ProgressBar")
                .attr("value", num(4))
                .attr("max", num(5))
                .children(vec![Node::element("Other"), Node::text("Progress 4")]),
            Node::element("Box").attr("id", text("label1")).child(Node::text("almost done...")),
            Node::element("Box").attr("id", text("label2")).child(Node::text("...")),
        ],
    );
    render(
        &mut world,
        conn,
        window,
        vec![
            Node::text("Running 5/5"),
            Node::element("ProgressBar")
                .attr("value", num(5))
                .attr("max", num(5))
                .children(vec![Node::element("Other"), Node::text("Progress 5")]),
            Node::element("Box").attr("id", text("label2")).child(Node::text("almost done...")),
            Node::element("Box").attr("id", text("label3")).child(Node::text("...")),
            Node::element("Box").attr("id", text("label1")).child(Node::text("...")),
        ],
    );
    render(
        &mut world,
        conn,
        window,
        vec![
            Node::text("Hello, a!"),
            Node::element("Input").id("name").attr("value", text("a")).attr("placeholder", text("Your name")),
            Node::element("Button").id("run").child(Node::text("Run")),
            Node::element("Button").id("exit").child(Node::text("Exit")),
        ],
    );
    // The window's children are exactly what was rendered last.
    let hello = node_text(&world, "Hello, a!");
    let name = node_id(&world, "name");
    let run = node_id(&world, "run");
    let exit = node_id(&world, "exit");
    let initial = world.initial_event();
    let window_children: Vec<NodeId> = initial
        .changes
        .iter()
        .filter_map(|c| match c {
            WorldChange::Created(c) if c.parent_id == window => Some(c.id),
            _ => None,
        })
        .collect();
    assert_eq!(window_children, vec![hello, name, run, exit]);
    assert!(world.get_nodes().iter().all(|(_, n)| match &**n {
        FlatNode::Text(t) => t != "Running 5/5" && t != "Progress 5",
        FlatNode::Element(e) => e.tag != "ProgressBar",
    }));
}

fn nested_children() -> Vec<Node> {
    vec![
        Node::element("Box").id("outer").children(vec![
            Node::element("Box").id("inner").children(vec![Node::text("deep"), Node::element("Leaf")]),
            Node::text("side"),
        ]),
        Node::element("Button").children(vec![Node::text("Click me")]),
        Node::text("tail"),
    ]
}

#[test]
fn test_render_same_children_twice_changes_nothing() {
    let (mut world, conn, window) = init_world(nested_children());
    let before = world.get_nodes();
    let (changed, changes) = world.set_node_children(window, nested_children(), conn).unwrap();
    assert!(!changed);
    assert_eq!(changes, WorldDidChangeResponse::default());
    assert_eq!(world.get_nodes(), before);
    assert!(world.is_internally_consistent());
}

#[test]
fn test_moves_below_the_top_follow_positions() {
    let (mut world, conn, window) = init_world(vec![Node::element("Box").id("outer").children(vec![
        Node::element("A"),
        Node::element("B"),
        Node::element("C"),
    ])]);
    let outer = node_id(&world, "outer");
    let a = node_tag(&world, "A");
    let b = node_tag(&world, "B");
    let c = node_tag(&world, "C");
    let diff = render(
        &mut world,
        conn,
        window,
        vec![Node::element("Box").id("outer").children(vec![
            Node::element("C"),
            Node::element("A"),
            Node::element("B"),
        ])],
    );
    assert_eq!(
        diff.changes,
        vec![
            MovedNodeChange { id: b, parent_id: outer, before_sibling_id: None }.into(),
            MovedNodeChange { id: a, parent_id: outer, before_sibling_id: Some(b) }.into(),
            MovedNodeChange { id: c, parent_id: outer, before_sibling_id: Some(a) }.into(),
        ]
    );
}

#[test]
fn test_grandchildren_keep_their_identities() {
    let (mut world, conn, window) = init_world(vec![Node::element("Box").id("outer").children(vec![
        Node::element("A"),
        Node::element("B"),
    ])]);
    let outer = node_id(&world, "outer");
    let a = node_tag(&world, "A");
    let b = node_tag(&world, "B");
    let diff = render(
        &mut world,
        conn,
        window,
        vec![Node::element("Box").id("outer").children(vec![
            Node::element("B"),
            Node::element("A"),
            Node::element("C"),
        ])],
    );
    let c = node_tag(&world, "C");
    assert_eq!(node_id(&world, "outer"), outer);
    assert_eq!(node_tag(&world, "A"), a);
    assert_eq!(node_tag(&world, "B"), b);
    assert_eq!(
        diff.changes,
        vec![
            created(c, outer, None, FlatNode::element("C")),
            MovedNodeChange { id: a, parent_id: outer, before_sibling_id: Some(c) }.into(),
            MovedNodeChange { id: b, parent_id: outer, before_sibling_id: Some(a) }.into(),
        ]
    );
}
