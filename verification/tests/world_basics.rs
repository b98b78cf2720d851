use weird_core::change::{ChangeView, DeletedNodeChange, WorldChange};
use weird_core::connection::{ConnectionEvent, ConnectionSource, InitRequest, SetNodeChildrenFailed, WeirdProtocolVersion};
use weird_core::ids::{root_node_id, NodeId};
use weird_core::json::{JsonNumber, JsonValue};
use weird_core::node::{FlatNode, Node};
use weird_core::simple_world::InsertNodeOffset;
use weird_core::tree::forest_size_checked;
use weird_core::update::{node_update, ElementNodeUpdate, NodeUpdate, TextNodeUpdate};
use weird_core::world::World;

#[test]
fn new_world_has_only_the_root() {
    let world = World::new();
    let nodes = world.get_nodes();
    assert_eq!(nodes.len(), 1);
    assert_eq!(nodes[0].0, root_node_id());
    assert_eq!(&*nodes[0].1, &FlatNode::element("World"));
    assert_eq!(world.next_node_id(), 1);
    assert!(world.initial_event().is_empty());
    assert!(world.connection_details().is_empty());
    let _ = ChangeView::Deleted { id: 0 };
}

#[test]
fn create_connection_numbers_connections() {
    let mut world = World::new();
    let (a, response, event) = world.create_connection(InitRequest::default(), ConnectionSource::UnixSocket).unwrap();
    let (b, _, _) = world.create_connection(InitRequest::default(), ConnectionSource::WebSocket).unwrap();
    assert_eq!(a.0, 1);
    assert_eq!(b.0, 2);
    assert_eq!(response.connection_id, a);
    assert_eq!(response.weird_protocol_version, WeirdProtocolVersion::V0_1_0);
    match event {
        ConnectionEvent::Connected(d) => {
            assert_eq!(d.connection_id, a);
            assert!(d.connected);
        },
        other => panic!("unexpected {other:?}"),
    }
    assert_eq!(world.connection_details().len(), 2);
}

#[test]
fn set_node_children_errors() {
    let mut world = World::new();
    let (conn, _, _) = world.create_connection(InitRequest::default(), ConnectionSource::Other).unwrap();
    let (text, _) = world.append_node(Node::text("t"), root_node_id(), conn);
    assert_eq!(world.set_node_children(NodeId(42), vec![], conn).unwrap_err(), SetNodeChildrenFailed::NodeNotFound);
    assert_eq!(world.set_node_children(text, vec![], conn).unwrap_err(), SetNodeChildrenFailed::InvalidNodeType);
}

#[test]
fn remove_node_deletes_subtree_breadth_first() {
    let mut world = World::new();
    let (conn, _, _) = world.create_connection(InitRequest::default(), ConnectionSource::Other).unwrap();
    let (top, created) = world.append_node(
        Node::element("A").child(Node::element("B").child(Node::text("c"))).child(Node::text("d")),
        root_node_id(),
        conn,
    );
    assert_eq!(created.changes.len(), 4);
    assert_eq!(top.0, 1);
    let removed = world.remove_node(top);
    let ids: Vec<u64> = removed
        .changes
        .iter()
        .map(|c| match c {
            WorldChange::Deleted(DeletedNodeChange { id }) => id.0,
            other => panic!("unexpected {other:?}"),
        })
        .collect();
    assert_eq!(ids, vec![1, 2, 3, 4]);
    assert_eq!(world.get_nodes().len(), 1);
    // The owner had nothing left but stays connected, so it is kept.
    assert_eq!(world.connection_details().len(), 1);
}

#[test]
fn initial_event_describes_world() {
    let mut world = World::new();
    let (conn, _, _) = world.create_connection(InitRequest::default(), ConnectionSource::Other).unwrap();
    let (a, _) = world.append_node(Node::element("A").child(Node::text("x")), root_node_id(), conn);
    let (b, _) = world.append_node(Node::text("y"), root_node_id(), conn);
    let initial = world.initial_event();
    let described: Vec<(u64, u64, Option<u64>)> = initial
        .changes
        .iter()
        .map(|c| match c {
            WorldChange::Created(c) => (c.id.0, c.parent_id.0, c.before_sibling_id.map(|n| n.0)),
            other => panic!("unexpected {other:?}"),
        })
        .collect();
    assert_eq!(described, vec![(a.0, 0, None), (b.0, 0, None), (a.0 + 1, a.0, None)]);
}

#[test]
fn node_update_between_nodes() {
    let a = FlatNode::element("X").attr("k", JsonValue::Number(JsonNumber::PosInt(1)));
    let b = FlatNode::element("X").attr("k", JsonValue::Number(JsonNumber::PosInt(1)));
    assert!(node_update(&a, &b).is_none());
    let c = FlatNode::element("X").attr("j", JsonValue::Bool(false));
    let expected: NodeUpdate = ElementNodeUpdate::default().set_attr("j", JsonValue::Bool(false)).clear_attr("k").into();
    assert_eq!(node_update(&a, &c), Some(expected));
    assert_eq!(node_update(&FlatNode::text("p"), &FlatNode::text("q")), Some(TextNodeUpdate::new("q").into()));
    assert!(node_update(&FlatNode::text("p"), &FlatNode::text("p")).is_none());
}

#[test]
fn forest_sizes() {
    let nodes = vec![Node::element("A").child(Node::text("b")), Node::text("c")];
    assert_eq!(forest_size_checked(&nodes), Some(3));
    assert_eq!(forest_size_checked(&vec![]), Some(0));
}

#[test]
fn insert_offsets() {
    assert_eq!(InsertNodeOffset::beginning().index_in(3), Some(0));
    assert_eq!(InsertNodeOffset::end().index_in(3), Some(3));
    assert_eq!(InsertNodeOffset::FromEnd(1).index_in(3), Some(2));
    assert_eq!(InsertNodeOffset::FromStart(4).index_in(3), None);
    assert_eq!(InsertNodeOffset::FromEnd(4).index_in(3), None);
}

#[test]
fn json_values_compare() {
    assert!(JsonValue::string("a").same_as(&JsonValue::String("a".to_string())));
    assert!(!JsonValue::Bool(true).same_as(&JsonValue::Null));
    assert!(JsonValue::Bool(true).is_true());
    assert!(!JsonValue::Bool(false).is_true());
    assert_eq!(JsonValue::string("s").as_str(), Some("s"));
    assert_eq!(FlatNode::element("E").id("i").get_id(), Some("i"));
    assert_eq!(FlatNode::element("E").attr("id", JsonValue::Bool(true)).get_id(), None);
}

#[test]
fn every_operation_keeps_the_world_consistent() {
    let mut world = World::new();
    assert!(world.is_internally_consistent());
    let (conn, _, _) = world.create_connection(InitRequest::default(), ConnectionSource::Other).unwrap();
    assert!(world.is_internally_consistent());
    let (window, _) = world.append_node(Node::element("Window").child(Node::text("a")), root_node_id(), conn);
    assert!(world.is_internally_consistent());
    world.set_node_children(window, vec![Node::element("B").child(Node::text("c")), Node::text("d")], conn).unwrap();
    assert!(world.is_internally_consistent());
    world.remove_node(window);
    assert!(world.is_internally_consistent());
    world.connection_did_close(conn);
    assert!(world.is_internally_consistent());
    world.assert_internally_consistent();
}

#[test]
fn render_changes_describe_the_new_world() {
    let mut world = World::new();
    let (conn, _, _) = world.create_connection(InitRequest::default(), ConnectionSource::Other).unwrap();
    let (window, _) = world.append_node(Node::element("Window").child(Node::text("old")), root_node_id(), conn);
    let (_, changes) = world
        .set_node_children(window, vec![Node::element("Box").child(Node::text("new")), Node::element("Other")], conn)
        .unwrap();
    let nodes = world.get_nodes();
    let find = |id: NodeId| nodes.iter().find(|(n, _)| *n == id).map(|(_, node)| node.duplicate());
    let mut created = 0;
    let mut deleted = 0;
    for change in changes.changes.iter() {
        match change {
            WorldChange::Created(c) => {
                created += 1;
                assert_eq!(find(c.id), Some(c.node.duplicate()));
                assert_eq!(c.before_sibling_id, None);
            },
            WorldChange::Deleted(DeletedNodeChange { id }) => {
                deleted += 1;
                assert_eq!(find(*id), None);
            },
            _ => {},
        }
    }
    assert_eq!(created, 3);
    assert_eq!(deleted, 1);
}

#[test]
fn render_updates_and_moves_name_live_nodes() {
    let mut world = World::new();
    let (conn, _, _) = world.create_connection(InitRequest::default(), ConnectionSource::Other).unwrap();
    let (window, _) = world.append_node(
        Node::element("Window").children(vec![Node::element("A").id("a"), Node::element("B").id("b")]),
        root_node_id(),
        conn,
    );
    let (_, changes) = world
        .set_node_children(window, vec![Node::element("B").id("b").attr("x", JsonValue::Bool(true)), Node::element("A").id("a")], conn)
        .unwrap();
    let nodes = world.get_nodes();
    let live = |id: NodeId| nodes.iter().any(|(n, _)| *n == id);
    let mut updated = 0;
    let mut moved = 0;
    for change in changes.changes.iter() {
        match change {
            WorldChange::Updated(u) => {
                updated += 1;
                assert!(live(u.id));
            },
            WorldChange::Moved(m) => {
                moved += 1;
                assert!(live(m.id));
                assert_eq!(m.parent_id, window);
            },
            _ => {},
        }
    }
    assert_eq!(updated, 1);
    assert!(moved >= 1);
    let order: Vec<NodeId> = world
        .initial_event()
        .changes
        .iter()
        .filter_map(|c| match c {
            WorldChange::Created(cc) if cc.parent_id == window => Some(cc.id),
            _ => None,
        })
        .collect();
    assert_eq!(order.len(), 2);
    for change in changes.changes.iter() {
        if let WorldChange::Moved(m) = change {
            let i = order.iter().position(|n| *n == m.id).unwrap();
            assert_eq!(m.before_sibling_id, order.get(i + 1).copied());
        }
    }
}

#[test]
fn render_changes_report_every_difference() {
    let mut world = World::new();
    let (conn, _, _) = world.create_connection(InitRequest::default(), ConnectionSource::Other).unwrap();
    let (window, _) = world.append_node(
        Node::element("Window").children(vec![
            Node::element("A").id("a").child(Node::text("gone")),
            Node::element("B").id("b"),
            Node::text("t"),
        ]),
        root_node_id(),
        conn,
    );
    let before = world.get_nodes();
    let lists_before = child_lists(&world);
    let (changed, changes) = world
        .set_node_children(
            window,
            vec![Node::element("A").id("a").attr("x", JsonValue::Bool(true)), Node::text("u"), Node::element("New")],
            conn,
        )
        .unwrap();
    let lists_after = child_lists(&world);
    let mut changed_lists = 0;
    for (p, list) in lists_after.iter() {
        if let Some((_, old)) = lists_before.iter().find(|(q, _)| q == p) {
            if old != list {
                changed_lists += 1;
                let touched = changes.changes.iter().any(|c| match c {
                    WorldChange::Created(cc) => cc.parent_id == *p,
                    WorldChange::Moved(m) => m.parent_id == *p,
                    WorldChange::Deleted(d) => old.contains(&d.id),
                    _ => false,
                });
                assert!(touched);
            }
        }
    }
    assert_eq!(changed_lists, 1);
    assert!(changed);
    let after = world.get_nodes();
    let created = |id: NodeId| changes.changes.iter().any(|c| matches!(c, WorldChange::Created(cc) if cc.id == id));
    let updated = |id: NodeId| changes.changes.iter().any(|c| matches!(c, WorldChange::Updated(u) if u.id == id));
    let deleted = |id: NodeId| changes.changes.iter().any(|c| matches!(c, WorldChange::Deleted(d) if d.id == id));
    let mut new_nodes = 0;
    let mut changed_nodes = 0;
    let mut gone_nodes = 0;
    for (id, node) in after.iter() {
        match before.iter().find(|(b, _)| b == id) {
            None => {
                new_nodes += 1;
                assert!(created(*id));
            },
            Some((_, old)) => {
                if **old != **node {
                    changed_nodes += 1;
                    assert!(updated(*id));
                }
            },
        }
    }
    for (id, _) in before.iter() {
        if !after.iter().any(|(a, _)| a == id) {
            gone_nodes += 1;
            assert!(deleted(*id));
        }
    }
    assert_eq!(new_nodes, 1);
    assert_eq!(changed_nodes, 2);
    assert_eq!(gone_nodes, 2);
    let a_id = before
        .iter()
        .find(|(_, n)| matches!(&**n, FlatNode::Element(e) if e.tag == "A"))
        .unwrap()
        .0;
    let mut a_parents = 0;
    for change in world.initial_event().changes.iter() {
        if let WorldChange::Created(c) = change {
            if c.id == a_id {
                a_parents += 1;
                assert_eq!(c.parent_id, window);
            }
        }
    }
    assert_eq!(a_parents, 1);
}

/// The children of each node that has some, in order, as the world's
/// initial event describes them.
fn child_lists(world: &World) -> Vec<(NodeId, Vec<NodeId>)> {
    let mut lists: Vec<(NodeId, Vec<NodeId>)> = Vec::new();
    for change in world.initial_event().changes.iter() {
        if let WorldChange::Created(c) = change {
            match lists.iter_mut().find(|(p, _)| *p == c.parent_id) {
                Some((_, list)) => list.push(c.id),
                None => lists.push((c.parent_id, vec![c.id])),
            }
        }
    }
    lists
}

#[test]
fn render_reuses_the_first_free_child_with_the_same_key() {
    let mut world = World::new();
    let (conn, _, _) = world.create_connection(InitRequest::default(), ConnectionSource::Other).unwrap();
    let (window, _) = world.append_node(
        Node::element("Window").children(vec![Node::text("1"), Node::element("Box").id("k"), Node::text("2")]),
        root_node_id(),
        conn,
    );
    let old = child_lists(&world).into_iter().find(|(p, _)| *p == window).unwrap().1;
    let next = world.next_node_id();
    world
        .set_node_children(
            window,
            vec![Node::text("a"), Node::element("Box"), Node::text("b"), Node::element("Box").id("k"), Node::text("c")],
            conn,
        )
        .unwrap();
    let new = child_lists(&world).into_iter().find(|(p, _)| *p == window).unwrap().1;
    assert_eq!(new.len(), 5);
    assert_eq!(new[0], old[0]);
    assert!(new[1].0 >= next);
    assert_eq!(new[2], old[2]);
    assert_eq!(new[3], old[1]);
    assert!(new[4].0 >= next);
}

#[test]
fn rendering_the_same_children_again_keeps_them_in_place() {
    let mut world = World::new();
    let (conn, _, _) = world.create_connection(InitRequest::default(), ConnectionSource::Other).unwrap();
    let (window, _) = world.append_node(Node::element("Window"), root_node_id(), conn);
    let kids = || vec![Node::text("1"), Node::element("Box").id("k").child(Node::text("in")), Node::text("2")];
    world.set_node_children(window, kids(), conn).unwrap();
    let first = child_lists(&world).into_iter().find(|(p, _)| *p == window).unwrap().1;
    let (changed, changes) = world.set_node_children(window, kids(), conn).unwrap();
    let second = child_lists(&world).into_iter().find(|(p, _)| *p == window).unwrap().1;
    assert_eq!(first, second);
    assert!(!changed);
    assert!(changes.is_empty());
}

#[test]
fn rendering_leaves_other_windows_and_connections_alone() {
    let mut world = World::new();
    let (mine, _, _) = world.create_connection(InitRequest::default(), ConnectionSource::Other).unwrap();
    let (other, _, _) = world.create_connection(InitRequest::default(), ConnectionSource::Other).unwrap();
    let (theirs, _) = world.append_node(Node::element("Window").child(Node::text("theirs")), root_node_id(), other);
    let (window, _) = world.append_node(Node::element("Window").child(Node::text("old")), root_node_id(), mine);
    let lists_before = child_lists(&world);
    let conns_before = world.connection_details();
    let (changed, changes) = world.set_node_children(window, vec![Node::element("Box")], mine).unwrap();
    assert!(changed);
    let lists_after = child_lists(&world);
    for (p, list) in lists_before.iter() {
        if *p != window {
            assert_eq!(lists_after.iter().find(|(q, _)| q == p).map(|(_, l)| l.clone()), Some(list.clone()));
        }
    }
    assert_eq!(world.connection_details(), conns_before);
    for change in changes.changes.iter() {
        if let WorldChange::Deleted(d) = change {
            assert_ne!(d.id, theirs);
        }
    }
}

#[test]
fn listings_come_in_ascending_order() {
    let mut world = World::new();
    let (a, _, _) = world.create_connection(InitRequest::default(), ConnectionSource::Other).unwrap();
    let (b, _, _) = world.create_connection(InitRequest::default(), ConnectionSource::Other).unwrap();
    world.append_node(Node::element("Window").child(Node::text("x")), root_node_id(), b);
    world.append_node(Node::text("y"), root_node_id(), a);
    let ids: Vec<u64> = world.connection_details().iter().map(|d| d.connection_id.0).collect();
    assert_eq!(ids, vec![a.0, b.0]);
    let nodes: Vec<u64> = world.get_nodes().iter().map(|(n, _)| n.0).collect();
    let mut sorted = nodes.clone();
    sorted.sort();
    assert_eq!(nodes, sorted);
}

#[test]
fn appending_a_text_keeps_the_rest() {
    let mut world = World::new();
    let (conn, _, _) = world.create_connection(InitRequest::default(), ConnectionSource::Other).unwrap();
    let (window, _) = world.append_node(Node::element("Window").children(vec![Node::text("a"), Node::text("b")]), root_node_id(), conn);
    let before = child_lists(&world);
    let conns = world.connection_details();
    let (id, changes) = world.append_node(Node::text("c"), window, conn);
    assert_eq!(changes.changes.len(), 1);
    let after = child_lists(&world);
    let old = before.iter().find(|(p, _)| *p == window).unwrap().1.clone();
    let mut expected = old.clone();
    expected.push(id);
    assert_eq!(after.iter().find(|(p, _)| *p == window).unwrap().1, expected);
    assert_eq!(world.connection_details(), conns);
}
