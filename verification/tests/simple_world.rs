use weird_core::node::{FlatNode, Node};
use weird_core::simple_world::{
    ElementTree, InsertNode, InsertNodeFailed, InsertNodeOffset, NodeId, NodeTree, RemoveNodeFailed, SetNodeChildrenFailed,
    World, WorldDidChangeEvent, ROOT_ID,
};

fn inserted(e: &WorldDidChangeEvent) -> Vec<(u64, u64, FlatNode)> {
    e.inserted.iter().map(|i| (i.id.0, i.parent.0, i.node.duplicate())).collect()
}

fn removed(e: &WorldDidChangeEvent) -> Vec<u64> {
    e.removed.iter().map(|n| n.0).collect()
}

fn at_end(parent: u64, child: NodeId) -> InsertNode {
    InsertNode { parent: NodeId(parent), child, offset: InsertNodeOffset::end() }
}

#[test]
fn new_world_reports_nothing() {
    let world = World::new();
    let e = world.initial_client_world_did_change_event();
    assert!(e.inserted.is_empty());
    assert!(e.removed.is_empty());
}

#[test]
fn create_node_numbers_breadth_first_after_the_largest_identity() {
    let mut world = World::new();
    let tree: NodeTree = Node::element("A").child(Node::element("B").child(Node::text("c"))).child(Node::text("d"));
    let a = world.create_node(tree);
    assert_eq!(a, NodeId(1));
    // nothing is placed yet
    assert!(world.initial_client_world_did_change_event().inserted.is_empty());
    let (index, e) = world.insert_node(at_end(ROOT_ID, a)).unwrap();
    assert_eq!(index, 0);
    assert_eq!(
        inserted(&e),
        vec![
            (1, 0, FlatNode::element("A")),
            (2, 1, FlatNode::element("B")),
            (3, 1, FlatNode::text("d")),
            (4, 2, FlatNode::text("c")),
        ]
    );
    assert!(e.removed.is_empty());
    let b = world.create_node(Node::text("e"));
    assert_eq!(b, NodeId(5));
}

#[test]
fn insert_node_places_by_offset() {
    let mut world = World::new();
    let a = world.create_node(Node::text("a"));
    let b = world.create_node(Node::text("b"));
    let c = world.create_node(Node::text("c"));
    assert_eq!(world.insert_node(at_end(ROOT_ID, a)).unwrap().0, 0);
    assert_eq!(world.insert_node(InsertNode { parent: NodeId(ROOT_ID), child: b, offset: InsertNodeOffset::beginning() }).unwrap().0, 0);
    assert_eq!(world.insert_node(InsertNode { parent: NodeId(ROOT_ID), child: c, offset: InsertNodeOffset::FromEnd(1) }).unwrap().0, 1);
    let order: Vec<u64> = world.initial_client_world_did_change_event().inserted.iter().map(|i| i.id.0).collect();
    assert_eq!(order, vec![b.0, c.0, a.0]);
}

#[test]
fn insert_node_errors() {
    let mut world = World::new();
    let t = world.create_node(Node::text("t"));
    let u = world.create_node(Node::text("u"));
    match world.insert_node(at_end(ROOT_ID, NodeId(99))) {
        Err(e) => assert_eq!(e, InsertNodeFailed::NodeNotFound),
        Ok(_) => panic!("expected an error"),
    }
    // a text parent has no child list
    match world.insert_node(at_end(t.0, u)) {
        Err(e) => assert_eq!(e, InsertNodeFailed::ParentNotFound),
        Ok(_) => panic!("expected an error"),
    }
    match world.insert_node(at_end(77, u)) {
        Err(e) => assert_eq!(e, InsertNodeFailed::InvalidParentNodeType),
        Ok(_) => panic!("expected an error"),
    }
    match world.insert_node(InsertNode { parent: NodeId(ROOT_ID), child: u, offset: InsertNodeOffset::FromStart(3) }) {
        Err(e) => assert_eq!(e, InsertNodeFailed::OffsetOutOfBounds { offset: InsertNodeOffset::FromStart(3), num_children: 0 }),
        Ok(_) => panic!("expected an error"),
    }
    match world.insert_node(InsertNode { parent: NodeId(ROOT_ID), child: u, offset: InsertNodeOffset::FromEnd(1) }) {
        Err(e) => assert_eq!(e, InsertNodeFailed::OffsetOutOfBounds { offset: InsertNodeOffset::FromEnd(1), num_children: 0 }),
        Ok(_) => panic!("expected an error"),
    }
}

#[test]
fn index_in_counts_from_either_end() {
    assert_eq!(InsertNodeOffset::FromStart(2).index_in(3), Some(2));
    assert_eq!(InsertNodeOffset::FromEnd(1).index_in(3), Some(2));
    assert_eq!(InsertNodeOffset::FromEnd(4).index_in(3), None);
    assert_eq!(InsertNodeOffset::end(), InsertNodeOffset::FromEnd(0));
    assert_eq!(InsertNodeOffset::beginning(), InsertNodeOffset::FromStart(0));
}

#[test]
fn remove_node_detaches_and_reports() {
    let mut world = World::new();
    let a = world.create_node(Node::element("A").child(Node::text("x")));
    world.insert_node(at_end(ROOT_ID, a)).unwrap();
    let (parent, e) = world.remove_node(a).unwrap();
    assert_eq!(parent, NodeId(ROOT_ID));
    assert_eq!(removed(&e), vec![a.0]);
    assert!(e.inserted.is_empty());
    assert!(world.initial_client_world_did_change_event().inserted.is_empty());
    match world.remove_node(NodeId(40)) {
        Err(e) => assert_eq!(e, RemoveNodeFailed::NodeNotFound),
        Ok(_) => panic!("expected an error"),
    }
    match world.remove_node(NodeId(ROOT_ID)) {
        Err(e) => assert_eq!(e, RemoveNodeFailed::NoParentNode),
        Ok(_) => panic!("expected an error"),
    }
    // the detached node can be placed again
    world.insert_node(at_end(ROOT_ID, a)).unwrap();
    assert_eq!(world.initial_client_world_did_change_event().inserted.len(), 2);
}

#[test]
fn set_node_children_replaces_and_reuses_identities() {
    let mut world = World::new();
    let w = world.create_node(Node::element("Window"));
    world.insert_node(at_end(ROOT_ID, w)).unwrap();
    let e = world
        .set_node_children(w, vec![Node::text("a"), Node::from(ElementTree::new("B").child(Node::text("c")))])
        .unwrap();
    assert!(e.removed.is_empty());
    assert_eq!(
        inserted(&e),
        vec![(2, 1, FlatNode::text("a")), (3, 1, FlatNode::element("B")), (4, 3, FlatNode::text("c"))]
    );
    // the removed nodes had the largest identities, so they are given out again
    let e2 = world.set_node_children(w, vec![Node::text("z")]).unwrap();
    assert_eq!(removed(&e2), vec![2, 3]);
    assert_eq!(inserted(&e2), vec![(2, 1, FlatNode::text("z"))]);
    let all = inserted(&world.initial_client_world_did_change_event());
    assert_eq!(all, vec![(1, 0, FlatNode::element("Window")), (2, 1, FlatNode::text("z"))]);
}

#[test]
fn simple_set_node_children_errors() {
    let mut world = World::new();
    let t = world.create_node(Node::text("t"));
    match world.set_node_children(NodeId(9), vec![]) {
        Err(e) => assert_eq!(e, SetNodeChildrenFailed::NodeNotFound),
        Ok(_) => panic!("expected an error"),
    }
    match world.set_node_children(t, vec![]) {
        Err(e) => assert_eq!(e, SetNodeChildrenFailed::InvalidNodeType),
        Ok(_) => panic!("expected an error"),
    }
}

#[test]
fn initial_event_lists_the_tree_breadth_first() {
    let mut world = World::new();
    let a = world.create_node(Node::element("A").child(Node::text("a1")));
    let b = world.create_node(Node::element("B").child(Node::text("b1")));
    world.insert_node(at_end(ROOT_ID, a)).unwrap();
    world.insert_node(at_end(ROOT_ID, b)).unwrap();
    let ids: Vec<(u64, u64)> = world.initial_client_world_did_change_event().inserted.iter().map(|i| (i.id.0, i.parent.0)).collect();
    assert_eq!(ids, vec![(a.0, 0), (b.0, 0), (a.0 + 1, a.0), (b.0 + 1, b.0)]);
}
