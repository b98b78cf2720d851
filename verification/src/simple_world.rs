//! A simpler world of nodes kept as three maps (content, parent, ordered
//! children), where a node can stand outside the tree: it is created first,
//! inserted under a parent later, and can be taken out again.

use vstd::prelude::*;
use vstd::std_specs::iter::IteratorSpec;
use std::collections::{BTreeMap, VecDeque};
use std::sync::Arc;
use crate::node::{FlatElement, FlatNode, FlatNodeView};
use crate::removal::removal_order;
use crate::world::{listed_at, share_node, placed_children, lemma_placed_children_none};
use crate::tree::{forest_size, lemma_forest_skip_step, bfs_entries, bfs_trees, kid_entries, lemma_bfs_len, lemma_bfs_trees_len, lemma_queue_size_step, queue_size, tree_size};
use crate::node::flat_of;

verus! {

broadcast use {vstd::std_specs::btree::group_btree_axioms, vstd::std_specs::vec::axiom_vec_decreases_to_view};

/// A node with its descendants, as a client hands it over.
pub type NodeTree = crate::node::Node;

/// An element with its children, as a client hands it over.
pub type ElementTree = crate::node::Element;

/// The content of one node of the simple world: its text, or its element.
pub type Node = FlatNode;

/// An element of the simple world, without its children.
pub type Element = FlatElement;

/// The identity of the root node.
pub const ROOT_ID: u64 = 0;

/// The identity of a node in the simple world.
#[derive(Debug, Clone, Copy, PartialEq, Eq, Structural, PartialOrd, Ord)]
pub struct NodeId(pub u64);

/// Where to insert a node among the children of its new parent.
#[derive(Debug, Clone, Copy, PartialEq, Eq, Structural)]
pub enum InsertNodeOffset {
    /// This many children before it.
    FromStart(usize),
    /// This many children after it.
    FromEnd(usize),
}

impl InsertNodeOffset {
    /// Before every other child.
    pub fn beginning() -> (r: InsertNodeOffset)
        ensures
            r == InsertNodeOffset::FromStart(0),
    {
        InsertNodeOffset::FromStart(0)
    }

    /// After every other child.
    pub fn end() -> (r: InsertNodeOffset)
        ensures
            r == InsertNodeOffset::FromEnd(0),
    {
        InsertNodeOffset::FromEnd(0)
    }

    /// The position that this offset names among `num_children` children,
    /// or `None` when it lies outside them.
    pub open spec fn index_spec(self, num_children: usize) -> Option<usize> {
        match self {
            InsertNodeOffset::FromStart(k) => if k <= num_children {
                Some(k)
            } else {
                None
            },
            InsertNodeOffset::FromEnd(k) => if k <= num_children {
                Some((num_children - k) as usize)
            } else {
                None
            },
        }
    }

    /// An offset from either end names a position exactly when it is at
    /// most the number of children: `FromStart(k)` is position `k`, and
    /// `FromEnd(k)` is the same position as `FromStart(num_children - k)`,
    /// so inserting at the very start or the very end of any list (even an
    /// empty one) is always possible.
    pub proof fn lemma_index_law(k: usize, num_children: usize)
        ensures
            k <= num_children ==> InsertNodeOffset::FromStart(k).index_spec(num_children) == Some(k),
            k <= num_children ==> InsertNodeOffset::FromEnd(k).index_spec(num_children) == InsertNodeOffset::FromStart(
                (num_children - k) as usize,
            ).index_spec(num_children),
            k > num_children ==> InsertNodeOffset::FromStart(k).index_spec(num_children) is None
                && InsertNodeOffset::FromEnd(k).index_spec(num_children) is None,
            InsertNodeOffset::FromStart(0).index_spec(num_children) == Some(0usize),
            InsertNodeOffset::FromEnd(0).index_spec(num_children) == Some(num_children),
    {
    }

    /// The position that this offset names among `num_children` children,
    /// or `None` when it lies outside them.
    pub fn index_in(self, num_children: usize) -> (r: Option<usize>)
        ensures
            r == self.index_spec(num_children),
    {
        match self {
            InsertNodeOffset::FromStart(k) => if k <= num_children {
                Some(k)
            } else {
                None
            },
            InsertNodeOffset::FromEnd(k) => if k <= num_children {
                Some(num_children - k)
            } else {
                None
            },
        }
    }
}

/// A request to put node `child` under `parent` at `offset`.
#[derive(Debug, Clone, Copy, PartialEq, Eq, Structural)]
pub struct InsertNode {
    pub parent: NodeId,
    pub child: NodeId,
    pub offset: InsertNodeOffset,
}

/// Why a node could not be inserted.
#[derive(Debug, Clone, Copy, PartialEq, Eq, Structural)]
pub enum InsertNodeFailed {
    NodeNotFound,
    ParentNotFound,
    OffsetOutOfBounds { offset: InsertNodeOffset, num_children: usize },
    InvalidParentNodeType,
}

/// Why a node could not be removed.
#[derive(Debug, Clone, Copy, PartialEq, Eq, Structural)]
pub enum RemoveNodeFailed {
    NodeNotFound,
    NoParentNode,
}

/// Why the children of a node could not be set.
#[derive(Debug, Clone, Copy, PartialEq, Eq, Structural)]
pub enum SetNodeChildrenFailed {
    NodeNotFound,
    InvalidNodeType,
}

/// A client's request for the whole world, named so its answer can be matched.
#[derive(Debug, PartialEq, Eq)]
pub struct SyncWorldRequest {
    pub request_id: String,
}

/// A message from a client of the simple world.
pub enum ClientMessage {
    /// Asks for the whole world.
    SyncWorld { sync_world: SyncWorldRequest },
    /// Hands over trees to show.
    Render { render: Vec<NodeTree> },
}

/// What the server tells a client of the simple world.
pub enum ServerEvent {
    /// The world changed.
    WorldDidChange(WorldDidChangeEvent),
}

/// A message from the server to a client of the simple world.
pub enum ServerMessage {
    /// An event, with the identity of the request it answers.
    Event { event: ServerEvent, id: String },
}

/// A node that a change places in the world: its identity, its parent's
/// identity and its content.
pub struct InsertedNode {
    pub id: NodeId,
    pub parent: NodeId,
    pub node: Arc<FlatNode>,
}

/// What a change to the simple world did: the nodes it placed, in the order
/// it placed them, and the nodes it took away.
pub struct WorldDidChangeEvent {
    pub inserted: Vec<InsertedNode>,
    pub removed: Vec<NodeId>,
}

/// The view of an inserted node: identity, parent, content.
pub open spec fn inserted_view(i: InsertedNode) -> (u64, u64, FlatNodeView) {
    (i.id.0, i.parent.0, i.node@)
}

impl WorldDidChangeEvent {
    /// The placed nodes, in order.
    pub open spec fn inserted_views(&self) -> Seq<(u64, u64, FlatNodeView)> {
        self.inserted@.map_values(|i: InsertedNode| inserted_view(i))
    }

    /// The identities of the nodes taken away, in order.
    pub open spec fn removed_ids(&self) -> Seq<u64> {
        self.removed@.map_values(|n: NodeId| n.0)
    }
}

/// A tree of nodes kept as three maps: content, parent and ordered children.
/// Nodes can stand outside the tree (created but not yet inserted, or
/// removed from their parent).
pub struct World {
    nodes: BTreeMap<u64, Arc<FlatNode>>,
    parents: BTreeMap<u64, u64>,
    children: BTreeMap<u64, Vec<u64>>,
    /// Grows from parent to child along every child list, so the lists hold no cycle.
    rank: Ghost<spec_fn(u64) -> nat>,
}

/// A queue of trees waiting to be created, each with the node it goes under,
/// `None` standing as the root's identity.
pub open spec fn opt_queue(q: Seq<(NodeTree, Option<u64>)>) -> Seq<(NodeTree, u64)> {
    q.map_values(|e: (NodeTree, Option<u64>)| (e.0, match e.1 { Some(p) => p, None => ROOT_ID }))
}

/// The members of `placed_children(entries, next, p)` are identities `next + k`
/// of entries placed under `p`, in increasing order.
pub proof fn lemma_placed_children_members(entries: Seq<(FlatNodeView, u64)>, next: int, p: u64)
    requires
        0 <= next,
        next + entries.len() <= u64::MAX + 1,
    ensures
        forall|i: int| 0 <= i < placed_children(entries, next, p).len() ==> {
            let z = #[trigger] placed_children(entries, next, p)[i];
            &&& next <= z < next + entries.len()
            &&& entries[z - next].1 == p
        },
        forall|i: int, j: int| 0 <= i < j < placed_children(entries, next, p).len() ==> placed_children(entries, next, p)[i]
            < placed_children(entries, next, p)[j],
        forall|k: int| 0 <= k < entries.len() && #[trigger] entries[k].1 == p ==> placed_children(entries, next, p).contains(
            (next + k) as u64),
    decreases entries.len(),
{
    if entries.len() > 0 {
        let t = entries.drop_last();
        lemma_placed_children_members(t, next, p);
        let pt = placed_children(t, next, p);
        let pc = placed_children(entries, next, p);
        assert forall|i: int| 0 <= i < pc.len() implies {
            let z = #[trigger] pc[i];
            &&& next <= z < next + entries.len()
            &&& entries[z - next].1 == p
        } by {
            if i < pt.len() {
                assert(pc[i] == pt[i]);
                assert(t[pt[i] - next] == entries[pt[i] - next]);
            }
        }
        assert forall|i: int, j: int| 0 <= i < j < pc.len() implies pc[i] < pc[j] by {
            if j < pt.len() {
                assert(pc[i] == pt[i] && pc[j] == pt[j]);
            } else {
                assert(pc[i] == pt[i]);
            }
        }
        assert forall|k: int| 0 <= k < entries.len() && #[trigger] entries[k].1 == p implies pc.contains((next + k) as u64) by {
            if k < entries.len() - 1 {
                assert(t[k] == entries[k]);
                assert(pt.contains((next + k) as u64));
                let i = choose|i: int| 0 <= i < pt.len() && pt[i] == (next + k) as u64;
                assert(pc[i] == pt[i]);
            } else {
                assert(pc[pc.len() - 1] == (next + k) as u64);
            }
        }
    }
}

/// Whether node `id` holds the tree `n`, in a world whose node contents are
/// `nv` and whose child lists are `cv`: it has the content of `n` and, for an
/// element, its children hold the children of `n`, in order.
pub open spec fn holds(nv: Map<u64, FlatNodeView>, cv: Map<u64, Seq<u64>>, id: u64, n: NodeTree) -> bool
    decreases n,
{
    &&& nv.contains_key(id)
    &&& nv[id] == flat_of(n)
    &&& match n {
        NodeTree::Text(_) => true,
        NodeTree::Element(e) => {
            &&& cv.contains_key(id)
            &&& cv[id].len() == e.children@.len()
            &&& forall|i: int| 0 <= i < e.children@.len() ==> holds(nv, cv, #[trigger] cv[id][i], e.children@[i])
        },
    }
}

/// After a breadth-first creation of `node` from identity `next` on, the
/// node created `k`-th holds the `k`-th tree of the creation.
pub proof fn lemma_created_holds(
    nv: Map<u64, FlatNodeView>,
    cv: Map<u64, Seq<u64>>,
    node: NodeTree,
    next: int,
    k: int,
)
    requires
        0 < next,
        next + tree_size(node) <= u64::MAX,
        0 <= k < tree_size(node),
        forall|j: int| 0 <= j < tree_size(node) ==> #[trigger] nv.contains_key((next + j) as u64) && nv[(next + j) as u64]
            == bfs_entries(seq![(node, ROOT_ID)], next)[j].0,
        forall|j: int| 0 <= j < tree_size(node) && #[trigger] bfs_entries(seq![(node, ROOT_ID)], next)[j].0 is Element
            ==> cv.contains_key((next + j) as u64) && cv[(next + j) as u64] == placed_children(
            bfs_entries(seq![(node, ROOT_ID)], next),
            next,
            (next + j) as u64,
        ),
    ensures
        holds(nv, cv, (next + k) as u64, bfs_trees(seq![(node, ROOT_ID)], next)[k]),
    decreases bfs_trees(seq![(node, ROOT_ID)], next)[k],
{
    let q = seq![(node, ROOT_ID)];
    let e = bfs_entries(q, next);
    let t = bfs_trees(q, next);
    lemma_bfs_len(q, next);
    lemma_bfs_trees_len(q, next);
    assert(queue_size(q) == tree_size(node)) by {
        assert(q.drop_first() =~= Seq::<(NodeTree, u64)>::empty());
        assert(queue_size(Seq::<(NodeTree, u64)>::empty()) == 0);
    }
    crate::shape::lemma_bfs_shape(q, next);
    let id = (next + k) as u64;
    assert(nv.contains_key(id));
    assert(nv[id] == flat_of(t[k]));
    match t[k] {
        NodeTree::Text(_) => {},
        NodeTree::Element(el) => {
            assert(e[k].0 is Element);
            let pc = placed_children(e, next, id);
            assert(cv[id] == pc);
            assert(pc.map_values(|z: u64| t[z - next]) == el.children@);
            assert forall|i: int| 0 <= i < el.children@.len() implies holds(nv, cv, #[trigger] cv[id][i], el.children@[i]) by {
                let z = pc[i];
                assert(next <= z < next + t.len());
                assert(t[z - next] == el.children@[i]);
                assert(((next + (z - next)) as u64) == z);
                lemma_created_holds(nv, cv, node, next, z - next);
            }
        },
    }
}

/// Two child maps that agree on a set `k` of nodes closed under their child
/// lists give the same breadth-first order from a queue inside `k`, and the
/// order stays inside `k`.
pub proof fn lemma_reach_frame(ch1: Map<u64, Vec<u64>>, ch2: Map<u64, Vec<u64>>, q: Seq<u64>, k: Set<u64>)
    requires
        ch1.dom().finite(),
        ch2.dom().finite(),
        forall|j: int| 0 <= j < q.len() ==> k.contains(#[trigger] q[j]),
        forall|z: u64| #[trigger] k.contains(z) ==> (ch1.contains_key(z) <==> ch2.contains_key(z)),
        forall|z: u64| #[trigger] k.contains(z) && ch1.contains_key(z) ==> ch1[z]@ == ch2[z]@ && forall|i: int|
            0 <= i < ch1[z]@.len() ==> k.contains(#[trigger] ch1[z]@[i]),
    ensures
        removal_order(ch1, q) == removal_order(ch2, q),
        forall|i: int| 0 <= i < removal_order(ch1, q).len() ==> k.contains(#[trigger] removal_order(ch1, q)[i]),
    decreases ch1.dom().len(), q.len(),
{
    if q.len() > 0 {
        let x = q[0];
        assert(k.contains(q[0]));
        if ch1.contains_key(x) {
            let q2 = q.drop_first() + ch1[x]@;
            assert forall|j: int| 0 <= j < q2.len() implies k.contains(#[trigger] q2[j]) by {
                if j < q.len() - 1 {
                    assert(q2[j] == q[j + 1]);
                } else {
                    assert(q2[j] == ch1[x]@[j - (q.len() - 1)]);
                }
            }
            assert(ch1.remove(x).dom() =~= ch1.dom().remove(x));
            lemma_reach_frame(ch1.remove(x), ch2.remove(x), q2, k);
            assert(q.drop_first() + ch2[x]@ == q2);
            let o = removal_order(ch1, q);
            assert(o == seq![x] + removal_order(ch1.remove(x), q2));
            assert forall|i: int| 0 <= i < o.len() implies k.contains(#[trigger] o[i]) by {
                if i > 0 {
                    assert(o[i] == removal_order(ch1.remove(x), q2)[i - 1]);
                }
            }
        } else {
            let q2 = q.drop_first();
            assert forall|j: int| 0 <= j < q2.len() implies k.contains(#[trigger] q2[j]) by {
                assert(q2[j] == q[j + 1]);
            }
            lemma_reach_frame(ch1, ch2, q2, k);
            let o = removal_order(ch1, q);
            assert(o == seq![x] + removal_order(ch1, q2));
            assert forall|i: int| 0 <= i < o.len() implies k.contains(#[trigger] o[i]) by {
                if i > 0 {
                    assert(o[i] == removal_order(ch1, q2)[i - 1]);
                }
            }
        }
    }
}

/// A node that holds a tree in one world holds it in another that agrees on
/// a set `k` of nodes holding it and closed under their child lists.
pub proof fn lemma_holds_frame(
    nv1: Map<u64, FlatNodeView>,
    cv1: Map<u64, Seq<u64>>,
    nv2: Map<u64, FlatNodeView>,
    cv2: Map<u64, Seq<u64>>,
    id: u64,
    n: NodeTree,
    k: Set<u64>,
)
    requires
        holds(nv1, cv1, id, n),
        k.contains(id),
        forall|z: u64| #[trigger] k.contains(z) && nv1.contains_key(z) ==> nv2.contains_key(z) && nv2[z] == nv1[z],
        forall|z: u64| #[trigger] k.contains(z) && cv1.contains_key(z) ==> cv2.contains_key(z) && cv2[z] == cv1[z]
            && forall|i: int| 0 <= i < cv1[z].len() ==> k.contains(#[trigger] cv1[z][i]),
    ensures
        holds(nv2, cv2, id, n),
    decreases n,
{
    match n {
        NodeTree::Text(_) => {},
        NodeTree::Element(e) => {
            assert forall|i: int| 0 <= i < e.children@.len() implies holds(nv2, cv2, #[trigger] cv2[id][i], e.children@[i]) by {
                assert(cv2[id][i] == cv1[id][i]);
                assert(k.contains(cv1[id][i]));
                lemma_holds_frame(nv1, cv1, nv2, cv2, cv1[id][i], e.children@[i], k);
            }
        },
    }
}

/// A node below `c` must be `c` when no list outside the new identities from
/// `c` on lists a new identity.
pub proof fn lemma_old_not_below(cm: Map<u64, Seq<u64>>, pm: Map<u64, u64>, y: u64, c: u64, f: nat)
    requires
        y < c,
        forall|q: u64, i: int| #![trigger cm[q][i]] cm.contains_key(q) && q < c && 0 <= i < cm[q].len() ==> cm[q][i] < c,
        forall|q: u64, i: int| #![trigger cm[q][i]] cm.contains_key(q) && q >= c && 0 <= i < cm[q].len() ==> cm[q][i] >= c,
    ensures
        !below(cm, pm, y, c, f),
    decreases f,
{
    if f > 0 && pm.contains_key(y) && cm.contains_key(pm[y]) && cm[pm[y]].contains(y) {
        let q = pm[y];
        let i = choose|i: int| 0 <= i < cm[q].len() && cm[q][i] == y;
        if q >= c {
            assert(cm[q][i] >= c);
        }
        lemma_old_not_below(cm, pm, q, c, (f - 1) as nat);
    }
}

/// What placing trees at `roots` reports, root after root: the nodes reached
/// from each, breadth first, with their parents and contents in `w`.
pub open spec fn placements(w: World, roots: Seq<u64>) -> Seq<(u64, u64, FlatNodeView)>
    decreases roots.len(),
{
    if roots.len() == 0 {
        Seq::empty()
    } else {
        placements(w, roots.drop_last()) + w.reach_order(seq![roots.last()]).map_values(
            |id: u64| (id, w.parent_view()[id], w.node_view()[id]),
        )
    }
}

/// Worlds that report the same nodes from each root report the same placements.
pub proof fn lemma_placements_eq(w1: World, w2: World, roots: Seq<u64>)
    requires
        forall|j: int| 0 <= j < roots.len() ==> w1.reach_order(seq![#[trigger] roots[j]]).map_values(
            |id: u64| (id, w1.parent_view()[id], w1.node_view()[id]),
        ) == w2.reach_order(seq![roots[j]]).map_values(|id: u64| (id, w2.parent_view()[id], w2.node_view()[id])),
    ensures
        placements(w1, roots) == placements(w2, roots),
    decreases roots.len(),
{
    if roots.len() > 0 {
        let t = roots.drop_last();
        assert forall|j: int| 0 <= j < t.len() implies w1.reach_order(seq![#[trigger] t[j]]).map_values(
            |id: u64| (id, w1.parent_view()[id], w1.node_view()[id]),
        ) == w2.reach_order(seq![t[j]]).map_values(|id: u64| (id, w2.parent_view()[id], w2.node_view()[id])) by {
            assert(t[j] == roots[j]);
        }
        lemma_placements_eq(w1, w2, t);
        assert(roots.last() == roots[roots.len() - 1]);
    }
}

/// A copy of a list of identities.
fn copy_ids(v: &Vec<u64>) -> (r: Vec<u64>)
    ensures
        r@ == v@,
{
    let mut r: Vec<u64> = Vec::new();
    let n = v.len();
    for j in 0..n
        invariant
            n == v@.len(),
            r@ == v@.take(j as int),
    {
        r.push(v[j]);
        assert(r@ =~= v@.take(j + 1));
    }
    assert(v@.take(n as int) =~= v@);
    r
}

/// A nonempty prefix of trees holds at least one node.
pub proof fn lemma_forest_prefix_positive(s: Seq<NodeTree>, i: int)
    requires
        0 < i <= s.len(),
    ensures
        forest_size(s) - forest_size(s.skip(i)) >= 1,
    decreases i,
{
    lemma_forest_skip_step(s, i - 1);
    assert(tree_size(s[i - 1]) >= 1) by {
        match s[i - 1] {
            NodeTree::Text(_) => {},
            NodeTree::Element(_) => {},
        }
    }
    if i > 1 {
        lemma_forest_prefix_positive(s, i - 1);
    } else {
        assert(s.skip(0) =~= s);
    }
}

/// The first place in `list` that holds `n`.
fn position_of(list: &Vec<u64>, n: u64) -> (k: usize)
    requires
        list@.contains(n),
    ensures
        k < list@.len(),
        list@[k as int] == n,
        forall|j: int| 0 <= j < k ==> list@[j] != n,
{
    let len = list.len();
    for k in 0..len
        invariant
            len == list@.len(),
            list@.contains(n),
            forall|j: int| 0 <= j < k ==> list@[j] != n,
    {
        if list[k] == n {
            return k;
        }
    }
    proof {
        let j = choose|j: int| 0 <= j < list@.len() && list@[j] == n;
    }
    0
}

/// Whether `c` stands in some child list of `cm`.
pub open spec fn is_listed(cm: Map<u64, Seq<u64>>, c: u64) -> bool {
    exists|p: u64, i: int| listed_at(cm, c, p, i)
}

/// Whether `y` is `c` or lies below `c`, following recorded parents that
/// still list their child, in at most `fuel` steps.
pub open spec fn below(cm: Map<u64, Seq<u64>>, pm: Map<u64, u64>, y: u64, c: u64, fuel: nat) -> bool
    decreases fuel,
{
    y == c || (fuel > 0 && pm.contains_key(y) && cm.contains_key(pm[y]) && cm[pm[y]].contains(y) && below(
        cm,
        pm,
        pm[y],
        c,
        (fuel - 1) as nat,
    ))
}

/// Whether `y` is `c` or one of its descendants.
pub open spec fn descends(cm: Map<u64, Seq<u64>>, pm: Map<u64, u64>, y: u64, c: u64) -> bool {
    exists|f: nat| below(cm, pm, y, c, f)
}

impl World {
    /// The content of each node.
    pub closed spec fn node_view(&self) -> Map<u64, FlatNodeView> {
        Map::new(|k: u64| self.nodes@.contains_key(k), |k: u64| self.nodes@[k]@)
    }

    /// The recorded parent of each node that has one.
    pub closed spec fn parent_view(&self) -> Map<u64, u64> {
        self.parents@
    }

    /// The ordered children of each element.
    pub closed spec fn child_view(&self) -> Map<u64, Seq<u64>> {
        Map::new(|k: u64| self.children@.contains_key(k), |k: u64| self.children@[k]@)
    }

    /// The nodes reached breadth first from the queue `q`: each taken from
    /// the front and followed, behind the nodes already queued, by its
    /// children; a node's children are queued only the first time it is taken.
    pub closed spec fn reach_order(&self, q: Seq<u64>) -> Seq<u64> {
        removal_order(self.children@, q)
    }

    /// The nodes reached from `q` are `q`'s own, starting with its first,
    /// and every child of a reached node, and nothing else: each other
    /// reached node is a child of a reached node.
    pub proof fn lemma_reach_order(&self, q: Seq<u64>)
        ensures
            q.len() > 0 ==> self.reach_order(q).len() > 0 && self.reach_order(q)[0] == q[0],
            forall|z: u64| #[trigger] q.contains(z) ==> self.reach_order(q).contains(z),
            forall|x: u64, y: u64| #[trigger] self.reach_order(q).contains(x) && self.child_view().contains_key(x)
                && #[trigger] self.child_view()[x].contains(y) ==> self.reach_order(q).contains(y),
            forall|z: u64| #[trigger] self.reach_order(q).contains(z) && !q.contains(z) ==> exists|x: u64|
                self.reach_order(q).contains(x) && self.child_view().contains_key(x) && #[trigger] self.child_view()[x].contains(z),
    {
        let ch = self.children@;
        assert(ch.dom().finite());
        crate::removal::lemma_removal_covers_queue(ch, q);
        crate::removal::lemma_removal_closed(ch, q);
        crate::removal::lemma_removal_source(ch, q);
        if q.len() > 0 {
            let x = q[0];
            if ch.contains_key(x) {
                assert(removal_order(ch, q) == seq![x] + removal_order(ch.remove(x), q.drop_first() + ch[x]@));
            } else {
                assert(removal_order(ch, q) == seq![x] + removal_order(ch, q.drop_first()));
            }
        }
        assert forall|x: u64, y: u64| #[trigger] self.reach_order(q).contains(x) && self.child_view().contains_key(x)
            && #[trigger] self.child_view()[x].contains(y) implies self.reach_order(q).contains(y) by {
            assert(ch[x]@.contains(y));
        }
        assert forall|z: u64| #[trigger] self.reach_order(q).contains(z) && !q.contains(z) implies exists|x: u64|
            self.reach_order(q).contains(x) && self.child_view().contains_key(x) && #[trigger] self.child_view()[x].contains(z) by {
            let x = choose|x: u64| removal_order(ch, q).contains(x) && ch.contains_key(x) && #[trigger] ch[x]@.contains(z);
            assert(self.child_view()[x] == ch[x]@);
        }
    }

    spec fn rk(&self, c: u64) -> nat {
        (self.rank@)(c)
    }

    /// The invariant: the root is a node with a child list; every child
    /// list belongs to a node, lists each child once, lists only nodes other
    /// than the root, and its children record it as their parent; a recorded
    /// parent belongs to a node; ranks grow along child lists.
    pub closed spec fn wf(&self) -> bool {
        &&& self.nodes@.contains_key(ROOT_ID)
        &&& self.children@.contains_key(ROOT_ID)
        &&& forall|p: u64| #[trigger] self.children@.contains_key(p) ==> self.nodes@.contains_key(p)
            && self.children@[p]@.no_duplicates()
        &&& forall|p: u64, i: int| #![trigger self.children@[p]@[i]]
            self.children@.contains_key(p) && 0 <= i < self.children@[p]@.len() ==> {
                let c = self.children@[p]@[i];
                &&& self.nodes@.contains_key(c)
                &&& c != ROOT_ID
                &&& self.parents@.contains_key(c)
                &&& self.parents@[c] == p
                &&& self.rk(c) > self.rk(p)
            }
        &&& forall|c: u64| #[trigger] self.parents@.contains_key(c) ==> self.nodes@.contains_key(c)
    }

    /// A world holding only the root node, a `World` element.
    pub fn new() -> (w: World)
        ensures
            w.wf(),
            w.node_view() == Map::<u64, FlatNodeView>::empty().insert(
                ROOT_ID,
                FlatNodeView::Element(crate::node::FlatElementView { tag: "World"@, attributes: Map::empty() }),
            ),
            w.parent_view() == Map::<u64, u64>::empty(),
            w.child_view() == Map::<u64, Seq<u64>>::empty().insert(ROOT_ID, Seq::empty()),
    {
        let root = FlatNode::Element(FlatElement::new("World"));
        let mut nodes = BTreeMap::new();
        nodes.insert(ROOT_ID, Arc::new(root));
        let mut children = BTreeMap::new();
        children.insert(ROOT_ID, Vec::new());
        let w = World { nodes, parents: BTreeMap::new(), children, rank: Ghost(|c: u64| 0nat) };
        assert(w.node_view() =~= Map::<u64, FlatNodeView>::empty().insert(
            ROOT_ID,
            FlatNodeView::Element(crate::node::FlatElementView { tag: "World"@, attributes: Map::empty() }),
        ));
        assert(w.child_view() =~= Map::<u64, Seq<u64>>::empty().insert(ROOT_ID, Seq::empty()));
        w
    }

    /// What a breadth-first walk from `q0` keeps of each node `y` that it has
    /// queued or taken: `y` is a node of rank at least `r0`, and it was in
    /// `q0` or its parent, which lists it, was taken already.
    spec fn walk_ok(&self, y: u64, seen: Set<u64>, q0: Seq<u64>, r0: int) -> bool {
        &&& self.nodes@.contains_key(y)
        &&& self.rk(y) >= r0
        &&& (q0.contains(y) || (self.parents@.contains_key(y) && seen.contains(self.parents@[y]) && is_listed(
            self.child_view(),
            y,
        )))
    }

    /// What a walk from `q0` needs of its start: distinct nodes of rank at
    /// least `r0`, whose listing parents rank below `r0`.
    spec fn walk_start(&self, q0: Seq<u64>, r0: int) -> bool {
        &&& q0.no_duplicates()
        &&& forall|j: int| 0 <= j < q0.len() ==> self.nodes@.contains_key(#[trigger] q0[j]) && self.rk(q0[j]) >= r0
        &&& forall|j: int, p: u64, i: int| 0 <= j < q0.len() && #[trigger] listed_at(self.child_view(), q0[j], p, i)
            ==> self.rk(p) < r0
    }

    /// The nodes reached breadth first from the queue `q0`, each followed by
    /// its children behind the nodes already queued.
    fn traverse(&self, q0: &Vec<u64>, Ghost(r0): Ghost<int>) -> (out: Vec<u64>)
        requires
            self.wf(),
            self.walk_start(q0@, r0),
        ensures
            out@ == removal_order(self.children@, q0@),
            forall|k: int| 0 <= k < out@.len() ==> self.nodes@.contains_key(#[trigger] out@[k]) && (q0@.contains(
                out@[k]) || self.parents@.contains_key(out@[k])),
    {
        let mut queue: VecDeque<u64> = VecDeque::new();
        let n0 = q0.len();
        for j in 0..n0
            invariant
                n0 == q0@.len(),
                queue@ == q0@.take(j as int),
        {
            queue.push_back(q0[j]);
            assert(q0@.take(j + 1) =~= q0@.take(j as int).push(q0@[j as int]));
        }
        assert(q0@.take(n0 as int) =~= q0@);
        let mut out: Vec<u64> = Vec::new();
        let ghost mut seen: Set<u64> = Set::empty();
        let ghost mut ch: Map<u64, Vec<u64>> = self.children@;
        proof {
            assert(ch =~= self.children@.remove_keys(seen));
            assert forall|y: u64| #[trigger] queue@.contains(y) implies self.walk_ok(y, seen, q0@, r0) by {
                let j = choose|j: int| 0 <= j < q0@.len() && q0@[j] == y;
            }
        }
        while queue.len() > 0
            invariant
                self.wf(),
                self.walk_start(q0@, r0),
                ch == self.children@.remove_keys(seen),
                ch.dom().finite(),
                out@ + removal_order(ch, queue@) == removal_order(self.children@, q0@),
                queue@.no_duplicates(),
                forall|k: int| 0 <= k < out@.len() ==> seen.contains(#[trigger] out@[k]),
                forall|y: u64| #[trigger] queue@.contains(y) ==> !seen.contains(y),
                forall|y: u64| #[trigger] queue@.contains(y) ==> self.walk_ok(y, seen, q0@, r0),
                forall|y: u64| #[trigger] seen.contains(y) ==> self.walk_ok(y, seen, q0@, r0),
            decreases ch.dom().len(), queue@.len(),
        {
            let ghost q = queue@;
            let ghost seen0 = seen;
            let x = queue.pop_front().unwrap();
            proof {
                assert(q[0] == x && queue@ == q.drop_first());
                assert(q.contains(x));
                assert(self.walk_ok(x, seen, q0@, r0));
                assert(ch.contains_key(x) == self.children@.contains_key(x));
                assert forall|y: u64| #[trigger] queue@.contains(y) implies !seen.contains(y) && y != x && self.walk_ok(
                    y,
                    seen,
                    q0@,
                    r0,
                ) by {
                    let a = choose|a: int| 0 <= a < queue@.len() && queue@[a] == y;
                    assert(q[a + 1] == y);
                    assert(q.contains(y));
                    if y == x {
                        assert(q[0] == q[a + 1]);
                    }
                }
            }
            let ghost out0 = out@;
            out.push(x);
            match self.children.get(&x) {
                Some(kids) => {
                    let ghost base = queue@;
                    let nk = kids.len();
                    for j in 0..nk
                        invariant
                            nk == kids@.len(),
                            queue@ == base + kids@.take(j as int),
                    {
                        queue.push_back(kids[j]);
                        assert(base + kids@.take(j + 1) =~= (base + kids@.take(j as int)).push(kids@[j as int]));
                    }
                    assert(kids@.take(nk as int) =~= kids@);
                    proof {
                        assert(ch[x] == *kids);
                        assert(removal_order(ch, q) == seq![x] + removal_order(ch.remove(x), queue@));
                        assert(out@ + removal_order(ch.remove(x), queue@) =~= out0 + (seq![x] + removal_order(
                            ch.remove(x),
                            queue@,
                        )));
                        self.lemma_push_kids(x, base, seen, q0@, r0);
                        seen = seen.insert(x);
                        assert(ch.remove(x) =~= self.children@.remove_keys(seen));
                        ch = ch.remove(x);
                    }
                },
                None => {
                    proof {
                        assert(removal_order(ch, q) == seq![x] + removal_order(ch, queue@));
                        seen = seen.insert(x);
                        assert(ch =~= self.children@.remove_keys(seen));
                        assert(out@ + removal_order(ch, queue@) =~= out0 + (seq![x] + removal_order(ch, queue@)));
                        assert forall|y: u64| #[trigger] queue@.contains(y) implies self.walk_ok(y, seen, q0@, r0) by {
                            assert(self.walk_ok(y, seen0, q0@, r0));
                        }
                        assert forall|y: u64| #[trigger] seen.contains(y) implies self.walk_ok(y, seen, q0@, r0) by {
                            if y != x {
                                assert(seen0.contains(y));
                                assert(self.walk_ok(y, seen0, q0@, r0));
                            }
                        }
                    }
                },
            }
            proof {
                assert forall|k: int| 0 <= k < out@.len() implies seen.contains(#[trigger] out@[k]) by {
                    if k < out0.len() {
                        assert(out@[k] == out0[k]);
                        assert(seen0.contains(out0[k]));
                    }
                }
            }
        }
        proof {
            assert(removal_order(ch, queue@) =~= Seq::<u64>::empty());
            assert(out@ + removal_order(ch, queue@) =~= out@);
            assert forall|k: int| 0 <= k < out@.len() implies self.nodes@.contains_key(#[trigger] out@[k]) && (q0@.contains(
                out@[k]) || self.parents@.contains_key(out@[k])) by {
                assert(seen.contains(out@[k]));
                assert(self.walk_ok(out@[k], seen, q0@, r0));
            }
        }
        out
    }

    proof fn lemma_push_kids(&self, x: u64, base: Seq<u64>, seen: Set<u64>, q0: Seq<u64>, r0: int)
        requires
            self.wf(),
            self.walk_start(q0, r0),
            self.children@.contains_key(x),
            self.walk_ok(x, seen, q0, r0),
            !seen.contains(x),
            !base.contains(x),
            base.no_duplicates(),
            forall|y: u64| #[trigger] base.contains(y) ==> !seen.contains(y),
            forall|y: u64| #[trigger] base.contains(y) ==> self.walk_ok(y, seen, q0, r0),
            forall|y: u64| #[trigger] seen.contains(y) ==> self.walk_ok(y, seen, q0, r0),
        ensures
            ({
                let q2 = base + self.children@[x]@;
                let s2 = seen.insert(x);
                &&& q2.no_duplicates()
                &&& forall|y: u64| #[trigger] q2.contains(y) ==> !s2.contains(y)
                &&& forall|y: u64| #[trigger] q2.contains(y) ==> self.walk_ok(y, s2, q0, r0)
                &&& forall|y: u64| #[trigger] s2.contains(y) ==> self.walk_ok(y, s2, q0, r0)
            }),
    {
        let kids = self.children@[x]@;
        let q2 = base + kids;
        let s2 = seen.insert(x);
        let cv = self.child_view();
        assert(cv[x] == kids);
        assert forall|k: int| 0 <= k < kids.len() implies {
            let y = #[trigger] kids[k];
            &&& !base.contains(y)
            &&& !s2.contains(y)
            &&& self.walk_ok(y, s2, q0, r0)
        } by {
            let y = kids[k];
            assert(self.children@[x]@[k] == y);
            assert(listed_at(cv, y, x, k));
            assert(self.parents@[y] == x);
            if q0.contains(y) {
                let j = choose|j: int| 0 <= j < q0.len() && q0[j] == y;
                assert(listed_at(cv, q0[j], x, k));
            }
            if base.contains(y) {
                assert(self.walk_ok(y, seen, q0, r0));
            }
            if seen.contains(y) {
                assert(self.walk_ok(y, seen, q0, r0));
            }
        }
        assert forall|a: int, b: int| 0 <= a < q2.len() && 0 <= b < q2.len() && a != b implies q2[a] != q2[b] by {
            if a >= base.len() && b >= base.len() {
                assert(kids.no_duplicates());
                assert(q2[a] == kids[a - base.len()]);
                assert(q2[b] == kids[b - base.len()]);
            } else if a < base.len() && b >= base.len() {
                assert(q2[b] == kids[b - base.len()]);
                assert(base.contains(q2[a]));
            } else if a >= base.len() && b < base.len() {
                assert(q2[a] == kids[a - base.len()]);
                assert(base.contains(q2[b]));
            }
        }
        assert forall|y: u64| #[trigger] q2.contains(y) implies !s2.contains(y) && self.walk_ok(y, s2, q0, r0) by {
            let a = choose|a: int| 0 <= a < q2.len() && q2[a] == y;
            if a >= base.len() {
                assert(q2[a] == kids[a - base.len()]);
            } else {
                assert(base.contains(y));
                assert(self.walk_ok(y, seen, q0, r0));
            }
        }
        assert forall|y: u64| #[trigger] s2.contains(y) implies self.walk_ok(y, s2, q0, r0) by {
            if y != x {
                assert(seen.contains(y));
                assert(self.walk_ok(y, seen, q0, r0));
            } else {
                assert(self.walk_ok(x, seen, q0, r0));
            }
        }
    }

    /// The nodes of the tree under the root, breadth first, each with its
    /// parent and content: what a client that joins is told.
    pub fn initial_client_world_did_change_event(&self) -> (e: WorldDidChangeEvent)
        requires
            self.wf(),
        ensures
            ({
                let order = self.reach_order(self.child_view()[ROOT_ID]);
                &&& e.inserted_views() == order.map_values(|id: u64| (id, self.parent_view()[id], self.node_view()[id]))
                &&& e.removed@.len() == 0
            }),
    {
        let root_children = self.children.get(&ROOT_ID).unwrap();
        let ghost r0: int = (self.rk(ROOT_ID) + 1) as int;
        proof {
            let cv = self.child_view();
            assert(cv[ROOT_ID] == root_children@);
            assert forall|j: int| 0 <= j < root_children@.len() implies self.nodes@.contains_key(#[trigger] root_children@[j])
                && self.rk(root_children@[j]) >= r0 && self.parents@.contains_key(root_children@[j])
                && self.parents@[root_children@[j]] == ROOT_ID by {
                assert(self.children@[ROOT_ID]@[j] == root_children@[j]);
            }
            assert forall|j: int, p: u64, i: int| 0 <= j < root_children@.len() && #[trigger] listed_at(cv, root_children@[j], p, i) implies self.rk(p)
                < r0 by {
                assert(self.children@[p]@[i] == root_children@[j]);
                assert(self.parents@[root_children@[j]] == ROOT_ID);
            }
        }
        let order = self.traverse(root_children, Ghost(r0));
        proof {
            assert forall|k: int| 0 <= k < order@.len() implies self.nodes@.contains_key(#[trigger] order@[k])
                && self.parents@.contains_key(order@[k]) by {
                if root_children@.contains(order@[k]) {
                    let j = choose|j: int| 0 <= j < root_children@.len() && root_children@[j] == order@[k];
                    assert(self.parents@.contains_key(root_children@[j]));
                }
            }
        }
        let inserted = self.describe(&order);
        WorldDidChangeEvent { inserted, removed: Vec::new() }
    }

    /// Each node of `ids` with its recorded parent and its content.
    fn describe(&self, ids: &Vec<u64>) -> (r: Vec<InsertedNode>)
        requires
            forall|k: int| 0 <= k < ids@.len() ==> self.nodes@.contains_key(#[trigger] ids@[k]) && self.parents@.contains_key(ids@[k]),
        ensures
            r@.map_values(|i: InsertedNode| inserted_view(i)) == ids@.map_values(|id: u64| (id, self.parent_view()[id], self.node_view()[id])),
    {
        let mut r: Vec<InsertedNode> = Vec::new();
        let n = ids.len();
        for k in 0..n
            invariant
                n == ids@.len(),
                forall|j: int| 0 <= j < ids@.len() ==> self.nodes@.contains_key(#[trigger] ids@[j]) && self.parents@.contains_key(ids@[j]),
                r@.len() == k,
                forall|j: int| 0 <= j < k ==> #[trigger] inserted_view(r@[j]) == (ids@[j], self.parent_view()[ids@[j]], self.node_view()[ids@[j]]),
        {
            let id = ids[k];
            let parent = *self.parents.get(&id).unwrap();
            let node = share_node(self.nodes.get(&id).unwrap());
            r.push(InsertedNode { id: NodeId(id), parent: NodeId(parent), node });
        }
        assert(r@.map_values(|i: InsertedNode| inserted_view(i)) =~= ids@.map_values(|id: u64| (id, self.parent_view()[id], self.node_view()[id])));
        r
    }

    /// The largest identity of a node.
    fn last_key(&self) -> (m: u64)
        requires
            self.wf(),
        ensures
            self.nodes@.contains_key(m),
            forall|k: u64| #[trigger] self.nodes@.contains_key(k) ==> k <= m,
    {
        let mut m: u64 = ROOT_ID;
        let ghost v = vstd::std_specs::btree::spec_keys_iter(&self.nodes).remaining();
        proof {
            vstd::std_specs::btree::axiom_spec_keys_iter(&self.nodes);
        }
        for k in it: self.nodes.keys()
            invariant
                it.seq() == v,
                v.unref().to_set() == self.nodes@.dom(),
                self.nodes@.contains_key(m),
                forall|j: int| 0 <= j < it.index() ==> *#[trigger] v[j] <= m,
        {
            let ghost j0 = it.index();
            proof {
                assert(k == v[j0]);
                assert(v.unref()[j0] == *k);
                assert(v.unref().contains(*k));
            }
            if *k > m {
                m = *k;
            }
        }
        proof {
            assert forall|k: u64| #[trigger] self.nodes@.contains_key(k) implies k <= m by {
                assert(v.unref().to_set().contains(k));
                let j = choose|j: int| 0 <= j < v.unref().len() && v.unref()[j] == k;
                assert(*v[j] == k);
            }
        }
        m
    }

    /// Creates the nodes of `node` outside the tree, breadth first, under
    /// identities that follow the largest one in use, and returns the
    /// identity of its root. Elements get child lists holding their
    /// children in order; every created node but the root records its parent.
    pub fn create_node(&mut self, node: NodeTree) -> (id: NodeId)
        requires
            old(self).wf(),
            forall|k: u64| #[trigger] old(self).node_view().contains_key(k) ==> k + 1 + tree_size(node) <= u64::MAX,
        ensures
            final(self).wf(),
            ({
                let next = id.0 as int;
                let entries = bfs_entries(seq![(node, ROOT_ID)], next);
                &&& old(self).node_view().contains_key((next - 1) as u64)
                &&& forall|k: u64| #[trigger] old(self).node_view().contains_key(k) ==> k < next
                &&& entries.len() == tree_size(node)
                &&& holds(final(self).node_view(), final(self).child_view(), id.0, node)
                &&& final(self).node_view() == old(self).node_view().union_prefer_right(
                    Map::new(|k: u64| next <= k < next + entries.len(), |k: u64| entries[k - next].0),
                )
                &&& final(self).parent_view() == old(self).parent_view().union_prefer_right(
                    Map::new(|k: u64| next + 1 <= k < next + entries.len(), |k: u64| entries[k - next].1),
                )
                &&& final(self).child_view() == old(self).child_view().union_prefer_right(
                    Map::new(
                        |k: u64| next <= k < next + entries.len() && entries[k - next].0 is Element,
                        |k: u64| placed_children(entries, next, k),
                    ),
                )
            }),
    {
        let last = self.last_key();
        assert(self.node_view().contains_key(last));
        let new_id = last + 1;
        let ghost next0 = new_id as int;
        let ghost old_self = *self;
        let ghost full = bfs_entries(seq![(node, ROOT_ID)], next0);
        proof {
            lemma_bfs_len(seq![(node, ROOT_ID)], next0);
            assert(queue_size(seq![(node, ROOT_ID)]) == tree_size(node)) by {
                assert(seq![(node, ROOT_ID)].drop_first() =~= Seq::<(NodeTree, u64)>::empty());
                assert(queue_size(Seq::<(NodeTree, u64)>::empty()) == 0);
                assert(seq![(node, ROOT_ID)][0].0 == node);
            }
            assert(last + 1 + tree_size(node) <= u64::MAX);
        }
        let mut next_id = new_id;
        let mut queue: VecDeque<(NodeTree, Option<u64>)> = VecDeque::new();
        queue.push_back((node, None));
        let ghost mut done: Seq<(FlatNodeView, u64)> = Seq::empty();
        assert(opt_queue(queue@) =~= seq![(node, ROOT_ID)]);
        assert(full == done + bfs_entries(opt_queue(queue@), next0));
        while queue.len() > 0
            invariant
                old_self.wf(),
                next0 == last + 1,
                old_self.nodes@.contains_key(last),
                forall|k: u64| #[trigger] old_self.nodes@.contains_key(k) ==> k <= last,
                next_id == next0 + done.len(),
                full == done + bfs_entries(opt_queue(queue@), next_id as int),
                full.len() == tree_size(node),
                next0 + full.len() <= u64::MAX,
                forall|j: int| 0 <= j < queue@.len() ==> match #[trigger] queue@[j].1 {
                    Some(p) => self.children@.contains_key(p) && next0 <= p < next_id,
                    None => done.len() == 0,
                },
                done.len() == 0 ==> queue@.len() == 1 && queue@[0].1 is None,
                done.len() > 0 ==> done[0].1 == ROOT_ID,
                forall|k: int| 1 <= k < done.len() ==> next0 <= #[trigger] done[k].1 < next0 + k,
                forall|n: u64| #[trigger] self.nodes@.contains_key(n) <==> (old_self.nodes@.contains_key(n)
                    || (next0 <= n < next0 + done.len())),
                forall|n: u64| #[trigger] old_self.nodes@.contains_key(n) ==> self.nodes@[n] == old_self.nodes@[n],
                forall|k: int| 0 <= k < done.len() ==> #[trigger] self.nodes@[(next0 + k) as u64]@ == done[k].0,
                forall|n: u64| #[trigger] self.parents@.contains_key(n) <==> (old_self.parents@.contains_key(n)
                    || (next0 + 1 <= n < next0 + done.len())),
                forall|n: u64| #[trigger] old_self.parents@.contains_key(n) ==> self.parents@[n] == old_self.parents@[n],
                forall|k: int| 1 <= k < done.len() ==> #[trigger] self.parents@[(next0 + k) as u64] == done[k].1,
                forall|n: u64| #[trigger] self.children@.contains_key(n) <==> (old_self.children@.contains_key(n)
                    || (next0 <= n < next0 + done.len() && done[n - next0].0 is Element)),
                forall|n: u64| #[trigger] old_self.children@.contains_key(n) ==> self.children@[n] == old_self.children@[n],
                forall|n: u64| next0 <= n < next0 + done.len() && #[trigger] self.children@.contains_key(n)
                    ==> self.children@[n]@ == placed_children(done, next0, n),
                self.rank == old_self.rank,
            decreases queue_size(opt_queue(queue@)),
        {
            let ghost q = queue@;
            let ghost oq = opt_queue(q);
            let (n, parent) = queue.pop_front().unwrap();
            let id = next_id;
            proof {
                assert(oq[0] == (n, match parent { Some(p) => p, None => ROOT_ID }));
                assert(opt_queue(queue@) =~= oq.drop_first());
                lemma_queue_size_step(oq, id);
                lemma_bfs_len(oq, id as int);
                assert(q[0].1 == parent);
                assert(id + 1 <= u64::MAX);
            }
            next_id = next_id + 1;
            let (flat, kids) = n.into_flat_and_children();
            let ghost flat_view = flat@;
            let ghost e = (flat_view, match parent { Some(p) => p, None => ROOT_ID });
            let ghost before = *self;
            match kids {
                Some(kids) => {
                    let ghost base = queue@;
                    let ghost kids_seq = kids@;
                    for child in it: kids
                        invariant
                            it.seq() == kids_seq,
                            queue@ == base + it.seq().take(it.index()).map_values(|c: NodeTree| (c, Some(id))),
                    {
                        queue.push_back((child, Some(id)));
                        assert(base + it.seq().take(it.index() + 1).map_values(|c: NodeTree| (c, Some(id))) =~= queue@);
                    }
                    assert(kids_seq.take(kids_seq.len() as int) =~= kids_seq);
                    assert(opt_queue(queue@) =~= oq.drop_first() + kid_entries(oq[0].0, id));
                    self.nodes.insert(id, Arc::new(flat));
                    self.children.insert(id, Vec::new());
                },
                None => {
                    assert(opt_queue(queue@) =~= oq.drop_first() + kid_entries(oq[0].0, id));
                    self.nodes.insert(id, Arc::new(flat));
                },
            }
            let ghost mid = *self;
            match parent {
                Some(p) => {
                    self.parents.insert(id, p);
                    let mut list = self.children.remove(&p).unwrap();
                    list.push(id);
                    self.children.insert(p, list);
                },
                None => {},
            }
            proof {
                assert(bfs_entries(oq, id as int) == seq![e] + bfs_entries(opt_queue(queue@), id + 1));
                assert(full == done.push(e) + bfs_entries(opt_queue(queue@), id + 1)) by {
                    assert(done + (seq![e] + bfs_entries(opt_queue(queue@), id + 1)) =~= done.push(e) + bfs_entries(
                        opt_queue(queue@),
                        id + 1,
                    ));
                }
                let done2 = done.push(e);
                assert(done2.drop_last() =~= done);
                assert(!old_self.nodes@.contains_key(id));
                assert(!old_self.children@.contains_key(id)) by {
                    if old_self.children@.contains_key(id) {
                        assert(old_self.nodes@.contains_key(id));
                    }
                }
                assert(!old_self.parents@.contains_key(id)) by {
                    if old_self.parents@.contains_key(id) {
                        assert(old_self.nodes@.contains_key(id));
                    }
                }
                assert forall|k: int| 0 <= k < done2.len() implies #[trigger] self.nodes@[(next0 + k) as u64]@ == done2[k].0 by {
                    if k < done.len() {
                        assert(done2[k] == done[k]);
                    }
                }
                assert forall|k: int| 1 <= k < done2.len() implies #[trigger] self.parents@[(next0 + k) as u64] == done2[k].1 by {
                    if k < done.len() {
                        assert(done2[k] == done[k]);
                    } else {
                        assert(done.len() > 0);
                    }
                }
                assert forall|k: int| 1 <= k < done2.len() implies next0 <= #[trigger] done2[k].1 < next0 + k by {
                    if k < done.len() {
                        assert(done2[k] == done[k]);
                    } else {
                        assert(done.len() > 0);
                        assert(q[0].1 is Some);
                    }
                }
                assert forall|nn: u64| next0 <= nn < next0 + done2.len() && #[trigger] self.children@.contains_key(nn)
                    implies self.children@[nn]@ == placed_children(done2, next0, nn) by {
                    if nn == id {
                        lemma_placed_children_none(done2, next0, id);
                        if parent == Some(id) {
                            assert(false);
                        }
                    } else if parent == Some(nn) {
                        assert(placed_children(done2, next0, nn) =~= placed_children(done, next0, nn).push(id));
                    } else {
                        assert(placed_children(done2, next0, nn) == placed_children(done, next0, nn));
                    }
                }
                assert forall|j: int| 0 <= j < queue@.len() implies match #[trigger] queue@[j].1 {
                    Some(pp) => self.children@.contains_key(pp) && next0 <= pp < next_id,
                    None => done2.len() == 0,
                } by {
                    if j < q.len() - 1 {
                        assert(queue@[j] == q[j + 1]);
                    } else {
                        assert(kids is Some);
                    }
                }
                done = done2;
            }
        }
        proof {
            assert(bfs_entries(opt_queue(queue@), next_id as int) =~= Seq::<(FlatNodeView, u64)>::empty());
            assert(full =~= done);
            let len = full.len();
            let r2 = |y: u64| if next0 <= y < next0 + len { (y - next0) as nat } else { (old_self.rank@)(y) };
            self.rank = Ghost(r2);
            lemma_placed_children_members(full, next0, 0);
            self.lemma_created_wf(old_self, full, next0, last);
            assert forall|k: u64| next0 <= k < next0 + full.len() implies #[trigger] self.nodes@[k]@ == full[k - next0].0 by {
                let kk = k - next0;
                assert((next0 + kk) as u64 == k);
                assert(self.nodes@[(next0 + kk) as u64]@ == full[kk].0);
            }
            assert forall|k: u64| next0 + 1 <= k < next0 + full.len() implies #[trigger] self.parents@[k] == full[k - next0].1 by {
                let kk = k - next0;
                assert((next0 + kk) as u64 == k);
                assert(self.parents@[(next0 + kk) as u64] == full[kk].1);
            }
            assert(self.node_view() =~= old_self.node_view().union_prefer_right(
                Map::new(|k: u64| next0 <= k < next0 + full.len(), |k: u64| full[k - next0].0),
            ));
            assert(self.parent_view() =~= old_self.parent_view().union_prefer_right(
                Map::new(|k: u64| next0 + 1 <= k < next0 + full.len(), |k: u64| full[k - next0].1),
            ));
            assert(self.child_view() =~= old_self.child_view().union_prefer_right(
                Map::new(
                    |k: u64| next0 <= k < next0 + full.len() && full[k - next0].0 is Element,
                    |k: u64| placed_children(full, next0, k),
                ),
            ));
            let nv = self.node_view();
            let cv = self.child_view();
            assert forall|j: int| 0 <= j < tree_size(node) implies #[trigger] nv.contains_key((next0 + j) as u64) && nv[(next0 + j) as u64]
                == full[j].0 by {
                assert(self.nodes@[(next0 + j) as u64]@ == full[j].0);
            }
            assert forall|j: int| 0 <= j < tree_size(node) && #[trigger] full[j].0 is Element
                implies cv.contains_key((next0 + j) as u64) && cv[(next0 + j) as u64] == placed_children(full, next0, (next0 + j) as u64) by {
                let z = (next0 + j) as u64;
                assert(z - next0 == j);
                assert(self.children@.contains_key(z));
            }
            lemma_created_holds(nv, cv, node, next0, 0);
            assert(bfs_trees(seq![(node, ROOT_ID)], next0)[0] == node) by {
                lemma_bfs_trees_len(seq![(node, ROOT_ID)], next0);
            }
        }
        NodeId(new_id)
    }

    /// After nodes `next..next + full.len()` are created from `full`, the world is well formed.
    proof fn lemma_created_wf(&self, old_self: World, full: Seq<(FlatNodeView, u64)>, next0: int, last: u64)
        requires
            old_self.wf(),
            next0 == last + 1,
            next0 + full.len() <= u64::MAX,
            old_self.nodes@.contains_key(last),
            forall|k: u64| #[trigger] old_self.nodes@.contains_key(k) ==> k <= last,
            forall|k: int| 1 <= k < full.len() ==> next0 <= #[trigger] full[k].1 < next0 + k,
            full.len() > 0 ==> full[0].1 == ROOT_ID,
            forall|n: u64| #[trigger] self.nodes@.contains_key(n) <==> (old_self.nodes@.contains_key(n)
                || (next0 <= n < next0 + full.len())),
            forall|n: u64| #[trigger] self.parents@.contains_key(n) <==> (old_self.parents@.contains_key(n)
                || (next0 + 1 <= n < next0 + full.len())),
            forall|n: u64| #[trigger] old_self.parents@.contains_key(n) ==> self.parents@[n] == old_self.parents@[n],
            forall|k: int| 1 <= k < full.len() ==> #[trigger] self.parents@[(next0 + k) as u64] == full[k].1,
            forall|n: u64| #[trigger] self.children@.contains_key(n) <==> (old_self.children@.contains_key(n)
                || (next0 <= n < next0 + full.len() && full[n - next0].0 is Element)),
            forall|n: u64| #[trigger] old_self.children@.contains_key(n) ==> self.children@[n] == old_self.children@[n],
            forall|n: u64| next0 <= n < next0 + full.len() && #[trigger] self.children@.contains_key(n)
                ==> self.children@[n]@ == placed_children(full, next0, n),
            forall|y: u64| #[trigger] self.rk(y) == if next0 <= y < next0 + full.len() {
                (y - next0) as nat
            } else {
                old_self.rk(y)
            },
        ensures
            self.wf(),
    {
        assert(self.nodes@.contains_key(ROOT_ID));
        assert(self.children@.contains_key(ROOT_ID));
        assert forall|p: u64| #[trigger] self.children@.contains_key(p) implies self.nodes@.contains_key(p)
            && self.children@[p]@.no_duplicates() by {
            if old_self.children@.contains_key(p) {
                assert(self.children@[p] == old_self.children@[p]);
            } else {
                lemma_placed_children_members(full, next0, p);
                let pc = placed_children(full, next0, p);
                assert forall|i: int, j: int| 0 <= i < pc.len() && 0 <= j < pc.len() && i != j implies pc[i] != pc[j] by {
                    if i < j {
                        assert(pc[i] < pc[j]);
                    } else {
                        assert(pc[j] < pc[i]);
                    }
                }
            }
        }
        assert forall|p: u64, i: int| #![trigger self.children@[p]@[i]]
            self.children@.contains_key(p) && 0 <= i < self.children@[p]@.len() implies {
                let c = self.children@[p]@[i];
                &&& self.nodes@.contains_key(c)
                &&& c != ROOT_ID
                &&& self.parents@.contains_key(c)
                &&& self.parents@[c] == p
                &&& self.rk(c) > self.rk(p)
            } by {
            let c = self.children@[p]@[i];
            if old_self.children@.contains_key(p) {
                assert(self.children@[p] == old_self.children@[p]);
                assert(old_self.children@[p]@[i] == c);
                assert(old_self.nodes@.contains_key(c) && old_self.nodes@.contains_key(p));
                assert(self.rk(c) == old_self.rk(c));
                assert(self.rk(p) == old_self.rk(p));
            } else {
                lemma_placed_children_members(full, next0, p);
                assert(self.children@[p]@ == placed_children(full, next0, p));
                let k = c - next0;
                assert(full[k].1 == p);
                assert(next0 <= p);
                if k == 0 {
                    assert(p == full[0].1);
                }
                assert(1 <= k < full.len());
                assert(self.parents@[(next0 + k) as u64] == full[k].1);
            }
        }
        assert forall|c: u64| #[trigger] self.parents@.contains_key(c) implies self.nodes@.contains_key(c) by {
            if old_self.parents@.contains_key(c) {
                assert(old_self.nodes@.contains_key(c));
            }
        }
    }


    /// What inserting `insert` gives: the position the child takes, or why
    /// it cannot be inserted.
    pub open spec fn insert_outcome(&self, insert: InsertNode) -> Result<usize, InsertNodeFailed> {
        let c = insert.child.0;
        let p = insert.parent.0;
        if !self.node_view().contains_key(c) {
            Err(InsertNodeFailed::NodeNotFound)
        } else if !self.child_view().contains_key(p) {
            if self.node_view().contains_key(p) {
                Err(InsertNodeFailed::ParentNotFound)
            } else {
                Err(InsertNodeFailed::InvalidParentNodeType)
            }
        } else {
            let n = self.child_view()[p].len() as usize;
            match insert.offset.index_spec(n) {
                Some(i) => Ok(i),
                None => Err(InsertNodeFailed::OffsetOutOfBounds { offset: insert.offset, num_children: n }),
            }
        }
    }

    /// Whether putting `c` under `p` keeps the lists a forest: `c` is not the
    /// root, stands in no child list, and `p` is neither `c` nor below it.
    /// Inserting a node under itself or below it would never end; inserting
    /// the root, or a node already listed under another parent, would list
    /// a node twice or give the root a parent, which the world, a forest,
    /// does not hold, so insertions require this.
    pub open spec fn can_attach(&self, c: u64, p: u64) -> bool {
        &&& c != ROOT_ID
        &&& !is_listed(self.child_view(), c)
        &&& !descends(self.child_view(), self.parent_view(), p, c)
    }

    /// A node below `q`'s child `y` is below `q` too, and a node other than
    /// `c` that lies below `c` has a parent that lies below `c`.
    proof fn lemma_descends_step(&self, y: u64, q: u64, i: int, c: u64)
        requires
            self.wf(),
            self.children@.contains_key(q),
            0 <= i < self.children@[q]@.len(),
            self.children@[q]@[i] == y,
        ensures
            descends(self.child_view(), self.parent_view(), q, c) ==> descends(self.child_view(), self.parent_view(), y, c),
            y != c && descends(self.child_view(), self.parent_view(), y, c) ==> descends(
                self.child_view(),
                self.parent_view(),
                q,
                c,
            ),
    {
        let cm = self.child_view();
        let pm = self.parent_view();
        assert(pm[y] == q);
        assert(cm[q].contains(y)) by {
            assert(cm[q][i] == y);
        }
        if descends(cm, pm, q, c) {
            let f = choose|f: nat| below(cm, pm, q, c, f);
            assert(below(cm, pm, y, c, f + 1));
        }
        if y != c && descends(cm, pm, y, c) {
            let f = choose|f: nat| below(cm, pm, y, c, f);
            assert(f > 0);
            assert(below(cm, pm, q, c, (f - 1) as nat));
        }
    }

    /// Puts `insert.child` into the child list of `insert.parent` at the
    /// place `insert.offset` names and records the parent; adds the child
    /// and its descendants, breadth first, to `event`.
    fn insert_node_for_event(&mut self, insert: InsertNode, event: &mut WorldDidChangeEvent) -> (r: Result<
        usize,
        InsertNodeFailed,
    >)
        requires
            old(self).wf(),
            old(self).insert_outcome(insert) is Ok ==> old(self).can_attach(insert.child.0, insert.parent.0),
        ensures
            final(self).wf(),
            r == old(self).insert_outcome(insert),
            match r {
                Ok(i) => {
                    let c = insert.child.0;
                    let p = insert.parent.0;
                    &&& final(self).node_view() == old(self).node_view()
                    &&& final(self).parent_view() == old(self).parent_view().insert(c, p)
                    &&& final(self).child_view() == old(self).child_view().insert(
                        p,
                        old(self).child_view()[p].insert(i as int, c),
                    )
                    &&& final(event).inserted_views() == old(event).inserted_views() + final(self).reach_order(
                        seq![c],
                    ).map_values(|id: u64| (id, final(self).parent_view()[id], final(self).node_view()[id]))
                    &&& final(event).removed@ == old(event).removed@
                },
                Err(_) => {
                    &&& *final(self) == *old(self)
                    &&& *final(event) == *old(event)
                },
            },
    {
        let c = insert.child.0;
        let p = insert.parent.0;
        if !self.nodes.contains_key(&c) {
            return Err(InsertNodeFailed::NodeNotFound);
        }
        if !self.children.contains_key(&p) {
            if self.nodes.contains_key(&p) {
                return Err(InsertNodeFailed::ParentNotFound);
            } else {
                return Err(InsertNodeFailed::InvalidParentNodeType);
            }
        }
        let num_children = self.children.get(&p).unwrap().len();
        proof {
            assert(self.child_view()[p].len() == num_children);
        }
        let index = match insert.offset.index_in(num_children) {
            Some(i) => i,
            None => {
                return Err(InsertNodeFailed::OffsetOutOfBounds { offset: insert.offset, num_children });
            },
        };
        let ghost old_self = *self;
        let ghost cm = self.child_view();
        let ghost pm = self.parent_view();
        let ghost rp = self.rk(p);
        proof {
            assert(!descends(cm, pm, p, c));
            assert(!is_listed(cm, c));
        }
        let mut list = self.children.remove(&p).unwrap();
        list.insert(index, c);
        self.children.insert(p, list);
        self.parents.insert(c, p);
        proof {
            let r_old = old_self.rank@;
            self.rank = Ghost(|y: u64| if descends(cm, pm, y, c) { r_old(y) + rp + 1 } else { r_old(y) });
            self.lemma_attached_wf(old_self, c, p, index as int);
        }
        let ghost r0: int = self.rk(c) as int;
        let q0 = vec![c];
        proof {
            assert(q0@ == seq![c]);
            let cv = self.child_view();
            assert forall|j: int, q: u64, i: int| 0 <= j < q0@.len() && #[trigger] listed_at(cv, q0@[j], q, i) implies self.rk(q) < r0 by {
                assert(self.children@[q]@[i] == c);
                assert(self.parents@[c] == q);
            }
            assert(self.nodes@.contains_key(c));
        }
        let order = self.traverse(&q0, Ghost(r0));
        proof {
            assert forall|k: int| 0 <= k < order@.len() implies self.nodes@.contains_key(#[trigger] order@[k])
                && self.parents@.contains_key(order@[k]) by {
                if q0@.contains(order@[k]) {
                    assert(q0@[0] == c);
                }
            }
        }
        let mut added = self.describe(&order);
        let ghost ev0 = event.inserted@;
        event.inserted.append(&mut added);
        proof {
            assert(self.node_view() =~= old_self.node_view());
            assert(self.parent_view() =~= old_self.parent_view().insert(c, p));
            assert(self.child_view() =~= old_self.child_view().insert(p, old_self.child_view()[p].insert(index as int, c)));
            assert(event.inserted_views() =~= old(event).inserted_views() + self.reach_order(seq![c]).map_values(
                |id: u64| (id, self.parent_view()[id], self.node_view()[id]),
            ));
        }
        Ok(index)
    }

    /// After child `c` is put at place `i` under `p`, with ranks below `c`
    /// raised above `p`'s, the world is well formed.
    proof fn lemma_attached_wf(&self, old_self: World, c: u64, p: u64, i: int)
        requires
            old_self.wf(),
            old_self.nodes@.contains_key(c),
            old_self.children@.contains_key(p),
            0 <= i <= old_self.children@[p]@.len(),
            old_self.can_attach(c, p),
            self.nodes@ == old_self.nodes@,
            self.parents@ == old_self.parents@.insert(c, p),
            self.children@.dom() == old_self.children@.dom(),
            forall|q: u64| #[trigger] self.children@.contains_key(q) && q != p ==> self.children@[q] == old_self.children@[q],
            self.children@[p]@ == old_self.children@[p]@.insert(i, c),
            forall|y: u64| #[trigger] self.rk(y) == if descends(old_self.child_view(), old_self.parent_view(), y, c) {
                old_self.rk(y) + old_self.rk(p) + 1
            } else {
                old_self.rk(y)
            },
        ensures
            self.wf(),
    {
        let cm = old_self.child_view();
        let pm = old_self.parent_view();
        assert(below(cm, pm, c, c, 0));
        assert(descends(cm, pm, c, c));
        assert(!descends(cm, pm, p, c));
        assert forall|q: u64, j: int| 0 <= j < old_self.children@[q]@.len() && old_self.children@.contains_key(q) implies
            old_self.children@[q]@[j] != c by {
            if old_self.children@[q]@[j] == c {
                assert(listed_at(cm, c, q, j));
            }
        }
        assert forall|q: u64| #[trigger] self.children@.contains_key(q) implies self.nodes@.contains_key(q)
            && self.children@[q]@.no_duplicates() by {
            assert(old_self.children@.contains_key(q));
            if q == p {
                let l = old_self.children@[p]@;
                let l2 = l.insert(i, c);
                assert forall|a: int, b: int| 0 <= a < l2.len() && 0 <= b < l2.len() && a != b implies l2[a] != l2[b] by {
                    if a != i && b != i {
                        let a1 = if a < i { a } else { a - 1 };
                        let b1 = if b < i { b } else { b - 1 };
                        assert(l2[a] == l[a1] && l2[b] == l[b1]);
                        assert(l.no_duplicates());
                    } else if a == i {
                        let b1 = if b < i { b } else { b - 1 };
                        assert(l2[b] == l[b1]);
                        assert(l[b1] != c);
                    } else {
                        let a1 = if a < i { a } else { a - 1 };
                        assert(l2[a] == l[a1]);
                        assert(l[a1] != c);
                    }
                }
            }
        }
        assert forall|q: u64, j: int| #![trigger self.children@[q]@[j]]
            self.children@.contains_key(q) && 0 <= j < self.children@[q]@.len() implies {
                let y = self.children@[q]@[j];
                &&& self.nodes@.contains_key(y)
                &&& y != ROOT_ID
                &&& self.parents@.contains_key(y)
                &&& self.parents@[y] == q
                &&& self.rk(y) > self.rk(q)
            } by {
            let y = self.children@[q]@[j];
            if q == p && j == i {
                assert(y == c);
                assert(self.rk(p) == old_self.rk(p));
            } else {
                let j1 = if q == p && j > i { j - 1 } else { j };
                assert(old_self.children@[q]@[j1] == y);
                assert(y != c);
                old_self.lemma_descends_step(y, q, j1, c);
                if q == p {
                    assert(!descends(cm, pm, y, c));
                }
            }
        }
        assert forall|x: u64| #[trigger] self.parents@.contains_key(x) implies self.nodes@.contains_key(x) by {
            if x != c {
                assert(old_self.parents@.contains_key(x));
            }
        }
    }

    /// Inserts `insert.child` under `insert.parent` as `insert_node_for_event`
    /// does, and returns the position it took with the event that reports
    /// the child and its descendants.
    pub fn insert_node(&mut self, insert: InsertNode) -> (r: Result<(usize, WorldDidChangeEvent), InsertNodeFailed>)
        requires
            old(self).wf(),
            old(self).insert_outcome(insert) is Ok ==> old(self).can_attach(insert.child.0, insert.parent.0),
        ensures
            final(self).wf(),
            match (r, old(self).insert_outcome(insert)) {
                (Ok((i, e)), Ok(j)) => {
                    let c = insert.child.0;
                    let p = insert.parent.0;
                    &&& i == j
                    &&& final(self).node_view() == old(self).node_view()
                    &&& final(self).parent_view() == old(self).parent_view().insert(c, p)
                    &&& final(self).child_view() == old(self).child_view().insert(
                        p,
                        old(self).child_view()[p].insert(i as int, c),
                    )
                    &&& e.inserted_views() == final(self).reach_order(seq![c]).map_values(
                        |id: u64| (id, final(self).parent_view()[id], final(self).node_view()[id]),
                    )
                    &&& e.removed@.len() == 0
                },
                (Err(a), Err(b)) => a == b && *final(self) == *old(self),
                _ => false,
            },
    {
        let mut event = WorldDidChangeEvent { inserted: Vec::new(), removed: Vec::new() };
        proof {
            assert(event.inserted_views() =~= Seq::<(u64, u64, FlatNodeView)>::empty());
        }
        match self.insert_node_for_event(insert, &mut event) {
            Ok(i) => {
                proof {
                    let c = insert.child.0;
                    assert(event.inserted_views() =~= self.reach_order(seq![c]).map_values(
                        |id: u64| (id, self.parent_view()[id], self.node_view()[id]),
                    ));
                }
                Ok((i, event))
            },
            Err(e) => Err(e),
        }
    }

    /// Whether removing `n` can go ahead without finding the world torn: a
    /// node with a recorded parent must still be listed by that parent.
    pub open spec fn removable(&self, n: u64) -> bool {
        self.node_view().contains_key(n) && self.parent_view().contains_key(n) ==> {
            &&& self.child_view().contains_key(self.parent_view()[n])
            &&& self.child_view()[self.parent_view()[n]].contains(n)
        }
    }

    /// Takes `node_id` out of its parent's child list, leaving the node and
    /// its recorded parent in place, and returns the parent with the event
    /// that reports the removal.
    pub fn remove_node(&mut self, node_id: NodeId) -> (r: Result<(NodeId, WorldDidChangeEvent), RemoveNodeFailed>)
        requires
            old(self).wf(),
            old(self).removable(node_id.0),
        ensures
            final(self).wf(),
            ({
                let n = node_id.0;
                let pm = old(self).parent_view();
                let cm = old(self).child_view();
                if !old(self).node_view().contains_key(n) {
                    r == Err::<(NodeId, WorldDidChangeEvent), RemoveNodeFailed>(RemoveNodeFailed::NodeNotFound)
                        && *final(self) == *old(self)
                } else if !pm.contains_key(n) {
                    r == Err::<(NodeId, WorldDidChangeEvent), RemoveNodeFailed>(RemoveNodeFailed::NoParentNode)
                        && *final(self) == *old(self)
                } else {
                    let p = pm[n];
                    &&& r matches Ok((q, e)) && q.0 == p && e.inserted@.len() == 0 && e.removed_ids() == seq![n]
                    &&& final(self).node_view() == old(self).node_view()
                    &&& final(self).parent_view() == pm
                    &&& exists|k: int| 0 <= k < cm[p].len() && cm[p][k] == n && final(self).child_view() == cm.insert(
                        p,
                        cm[p].remove(k),
                    )
                }
            }),
    {
        let n = node_id.0;
        if !self.nodes.contains_key(&n) {
            return Err(RemoveNodeFailed::NodeNotFound);
        }
        let p = match self.parents.get(&n) {
            Some(p) => *p,
            None => {
                return Err(RemoveNodeFailed::NoParentNode);
            },
        };
        let ghost old_self = *self;
        let ghost cm = self.child_view();
        proof {
            assert(self.node_view().contains_key(n));
            assert(cm.contains_key(p) && cm[p].contains(n));
        }
        let mut list = self.children.remove(&p).unwrap();
        let k = position_of(&list, n);
        list.remove(k);
        self.children.insert(p, list);
        let mut removed: Vec<NodeId> = Vec::new();
        removed.push(node_id);
        let e = WorldDidChangeEvent { inserted: Vec::new(), removed };
        proof {
            assert(e.removed_ids() =~= seq![n]);
            assert(self.child_view() =~= cm.insert(p, cm[p].remove(k as int)));
            assert(self.node_view() =~= old_self.node_view());
            self.lemma_removed_wf(old_self, p, k as int);
        }
        Ok((NodeId(p), e))
    }

    /// After the child at place `k` of `p` is taken out of its list, the world is well formed.
    proof fn lemma_removed_wf(&self, old_self: World, p: u64, k: int)
        requires
            old_self.wf(),
            old_self.children@.contains_key(p),
            0 <= k < old_self.children@[p]@.len(),
            self.nodes@ == old_self.nodes@,
            self.parents@ == old_self.parents@,
            self.rank == old_self.rank,
            self.children@.dom() == old_self.children@.dom(),
            forall|q: u64| #[trigger] self.children@.contains_key(q) && q != p ==> self.children@[q] == old_self.children@[q],
            self.children@[p]@ == old_self.children@[p]@.remove(k),
        ensures
            self.wf(),
    {
        let l = old_self.children@[p]@;
        assert forall|q: u64| #[trigger] self.children@.contains_key(q) implies self.nodes@.contains_key(q)
            && self.children@[q]@.no_duplicates() by {
            assert(old_self.children@.contains_key(q));
            if q == p {
                let l2 = l.remove(k);
                assert forall|a: int, b: int| 0 <= a < l2.len() && 0 <= b < l2.len() && a != b implies l2[a] != l2[b] by {
                    let a1 = if a < k { a } else { a + 1 };
                    let b1 = if b < k { b } else { b + 1 };
                    assert(l2[a] == l[a1] && l2[b] == l[b1]);
                    assert(l.no_duplicates());
                }
            }
        }
        assert forall|q: u64, j: int| #![trigger self.children@[q]@[j]]
            self.children@.contains_key(q) && 0 <= j < self.children@[q]@.len() implies {
                let y = self.children@[q]@[j];
                &&& self.nodes@.contains_key(y)
                &&& y != ROOT_ID
                &&& self.parents@.contains_key(y)
                &&& self.parents@[y] == q
                &&& self.rk(y) > self.rk(q)
            } by {
            let j1 = if q == p && j >= k { j + 1 } else { j };
            assert(old_self.children@[q]@[j1] == self.children@[q]@[j]);
        }
        assert forall|x: u64| #[trigger] self.parents@.contains_key(x) implies self.nodes@.contains_key(x) by {
            assert(old_self.parents@.contains_key(x));
        }
    }

    /// Deletes the children of `x` and all their descendants, breadth first:
    /// each node goes with its recorded parent, its place in its parent's
    /// list and its own child list, whose members are queued in turn.
    fn remove_below(&mut self, x: u64, prev: &Vec<u64>)
        requires
            old(self).wf(),
            old(self).children@.contains_key(x),
            prev@ == old(self).children@[x]@,
        ensures
            ({
                let r = removal_order(old(self).children@, prev@).to_set();
                &&& final(self).wf()
                &&& !r.contains(x)
                &&& !r.contains(ROOT_ID)
                &&& final(self).nodes@ == old(self).nodes@.remove_keys(r)
                &&& final(self).parents@ == old(self).parents@.remove_keys(r)
                &&& final(self).children@.dom() == old(self).children@.remove_keys(r).dom()
                &&& forall|k: u64| #[trigger] final(self).children@.contains_key(k) && k != x ==> final(self).children@[k]
                    == old(self).children@[k]
                &&& final(self).children@[x]@ == Seq::<u64>::empty()
                &&& final(self).rank == old(self).rank
            }),
    {
        let ghost old_self = *self;
        let ghost r0: int = (self.rk(x) + 1) as int;
        let ghost plen = prev@.len();
        proof {
            let cv = self.child_view();
            assert(cv[x] == prev@);
            assert forall|j: int| 0 <= j < prev@.len() implies self.nodes@.contains_key(#[trigger] prev@[j]) && self.rk(prev@[j])
                >= r0 && self.parents@.contains_key(prev@[j]) && self.parents@[prev@[j]] == x by {
                assert(self.children@[x]@[j] == prev@[j]);
            }
            assert forall|j: int, p: u64, i: int| 0 <= j < prev@.len() && #[trigger] listed_at(cv, prev@[j], p, i) implies self.rk(p)
                < r0 by {
                assert(self.children@[p]@[i] == prev@[j]);
                assert(self.parents@[prev@[j]] == x);
            }
            assert(self.walk_start(prev@, r0));
        }
        let mut queue: VecDeque<u64> = VecDeque::new();
        let n0 = prev.len();
        for j in 0..n0
            invariant
                n0 == prev@.len(),
                queue@ == prev@.take(j as int),
        {
            queue.push_back(prev[j]);
            assert(prev@.take(j + 1) =~= prev@.take(j as int).push(prev@[j as int]));
        }
        assert(prev@.take(n0 as int) =~= prev@);
        let ghost mut out: Seq<u64> = Seq::empty();
        let ghost mut seen: Set<u64> = Set::empty();
        let ghost mut ch: Map<u64, Vec<u64>> = old_self.children@;
        proof {
            assert(ch =~= old_self.children@.remove_keys(seen));
            assert forall|y: u64| #[trigger] queue@.contains(y) implies old_self.walk_ok(y, seen, prev@, r0) by {
                let j = choose|j: int| 0 <= j < prev@.len() && prev@[j] == y;
            }
            assert(self.nodes@ =~= old_self.nodes@.remove_keys(seen));
            assert(self.parents@ =~= old_self.parents@.remove_keys(seen));
            assert(self.children@.dom() =~= old_self.children@.remove_keys(seen).dom());
            assert(prev@.skip(0) =~= prev@);
            assert(out.take(0) =~= prev@.take(0));
        }
        while queue.len() > 0
            invariant
                old_self.wf(),
                old_self.walk_start(prev@, r0),
                old_self.children@.contains_key(x),
                prev@ == old_self.children@[x]@,
                plen == prev@.len(),
                r0 == old_self.rk(x) + 1,
                ch == old_self.children@.remove_keys(seen),
                ch.dom().finite(),
                out + removal_order(ch, queue@) == removal_order(old_self.children@, prev@),
                queue@.no_duplicates(),
                forall|y: u64| #[trigger] seen.contains(y) <==> out.contains(y),
                forall|y: u64| #[trigger] queue@.contains(y) ==> !seen.contains(y),
                forall|y: u64| #[trigger] queue@.contains(y) ==> old_self.walk_ok(y, seen, prev@, r0),
                forall|y: u64| #[trigger] seen.contains(y) ==> old_self.walk_ok(y, seen, prev@, r0),
                out.len() <= plen ==> out == prev@.take(out.len() as int) && queue@.len() >= plen - out.len()
                    && forall|j: int| 0 <= j < plen - out.len() ==> #[trigger] queue@[j] == prev@[out.len() + j],
                out.len() > plen ==> out.take(plen as int) == prev@,
                self.nodes@ == old_self.nodes@.remove_keys(seen),
                self.parents@ == old_self.parents@.remove_keys(seen),
                self.children@.dom() == old_self.children@.remove_keys(seen).dom(),
                forall|k: u64| #[trigger] self.children@.contains_key(k) && k != x ==> self.children@[k] == old_self.children@[k],
                self.children@[x]@ == if out.len() <= plen { prev@.skip(out.len() as int) } else { Seq::<u64>::empty() },
                self.rank == old_self.rank,
            decreases ch.dom().len(), queue@.len(),
        {
            let ghost q = queue@;
            let ghost seen0 = seen;
            let ghost out0 = out;
            let y = queue.pop_front().unwrap();
            proof {
                assert(q[0] == y && queue@ == q.drop_first());
                assert(q.contains(y));
                assert(old_self.walk_ok(y, seen, prev@, r0));
                assert(!seen.contains(y));
                assert(y != x) by {
                    assert(old_self.rk(y) >= r0);
                }
                assert(ch.contains_key(y) == old_self.children@.contains_key(y));
                assert forall|z: u64| #[trigger] queue@.contains(z) implies !seen.contains(z) && z != y && old_self.walk_ok(
                    z,
                    seen,
                    prev@,
                    r0,
                ) by {
                    let a = choose|a: int| 0 <= a < queue@.len() && queue@[a] == z;
                    assert(q[a + 1] == z);
                    assert(q.contains(z));
                    if z == y {
                        assert(q[0] == q[a + 1]);
                    }
                }
                if out.len() < plen {
                    assert(q[0] == prev@[out.len() as int]);
                }
            }
            self.nodes.remove(&y);
            match self.parents.remove(&y) {
                Some(p) => {
                    if self.children.contains_key(&p) {
                        proof {
                            assert(p == x) by {
                                if out.len() >= plen {
                                    assert(!prev@.contains(y)) by {
                                        if prev@.contains(y) {
                                            let j = choose|j: int| 0 <= j < prev@.len() && prev@[j] == y;
                                            if out.len() == plen {
                                                assert(out[j] == prev@[j]);
                                            } else {
                                                assert(out.take(plen as int)[j] == prev@[j]);
                                            }
                                            assert(out.contains(y));
                                        }
                                    }
                                    assert(seen.contains(old_self.parents@[y]));
                                } else {
                                    assert(old_self.children@[x]@[out.len() as int] == y);
                                }
                            }
                            assert(out.len() < plen) by {
                                if out.len() >= plen {
                                    assert(self.children@[x]@ == Seq::<u64>::empty() || out.len() == plen);
                                    if prev@.contains(y) {
                                        let j = choose|j: int| 0 <= j < prev@.len() && prev@[j] == y;
                                        if out.len() == plen {
                                            assert(out[j] == prev@[j]);
                                        } else {
                                            assert(out.take(plen as int)[j] == prev@[j]);
                                        }
                                        assert(out.contains(y));
                                    }
                                    assert(seen.contains(old_self.parents@[y]));
                                }
                            }
                            assert(self.children@[x]@[0] == y);
                        }
                        let mut list = self.children.remove(&p).unwrap();
                        let i = position_of(&list, y);
                        proof {
                            assert(i == 0) by {
                                if i != 0 {
                                    assert(list@[0] == y);
                                }
                            }
                        }
                        list.remove(i);
                        self.children.insert(p, list);
                    }
                },
                None => {},
            }
            let ghost out_len0 = out.len();
            match self.children.remove(&y) {
                Some(kids) => {
                    let ghost base = queue@;
                    let nk = kids.len();
                    for j in 0..nk
                        invariant
                            nk == kids@.len(),
                            queue@ == base + kids@.take(j as int),
                    {
                        queue.push_back(kids[j]);
                        assert(base + kids@.take(j + 1) =~= (base + kids@.take(j as int)).push(kids@[j as int]));
                    }
                    assert(kids@.take(nk as int) =~= kids@);
                    proof {
                        assert(ch[y] == kids);
                        assert(removal_order(ch, q) == seq![y] + removal_order(ch.remove(y), queue@));
                        old_self.lemma_push_kids(y, base, seen, prev@, r0);
                        seen = seen.insert(y);
                        out = out.push(y);
                        assert(out0 + (seq![y] + removal_order(ch.remove(y), queue@)) =~= out + removal_order(
                            ch.remove(y),
                            queue@,
                        ));
                        assert(ch.remove(y) =~= old_self.children@.remove_keys(seen));
                        ch = ch.remove(y);
                    }
                },
                None => {
                    proof {
                        assert(removal_order(ch, q) == seq![y] + removal_order(ch, queue@));
                        seen = seen.insert(y);
                        out = out.push(y);
                        assert(ch =~= old_self.children@.remove_keys(seen));
                        assert(out0 + (seq![y] + removal_order(ch, queue@)) =~= out + removal_order(ch, queue@));
                        assert forall|z: u64| #[trigger] queue@.contains(z) implies old_self.walk_ok(z, seen, prev@, r0) by {
                            assert(old_self.walk_ok(z, seen0, prev@, r0));
                        }
                        assert forall|z: u64| #[trigger] seen.contains(z) implies old_self.walk_ok(z, seen, prev@, r0) by {
                            if z != y {
                                assert(seen0.contains(z));
                                assert(old_self.walk_ok(z, seen0, prev@, r0));
                            }
                        }
                    }
                },
            }
            proof {
                assert forall|z: u64| #[trigger] seen.contains(z) <==> out.contains(z) by {
                    if out.contains(z) && z != y {
                        let k = choose|k: int| 0 <= k < out.len() && out[k] == z;
                        assert(out0[k] == z);
                    }
                    if out0.contains(z) {
                        let k = choose|k: int| 0 <= k < out0.len() && out0[k] == z;
                        assert(out[k] == z);
                    }
                    assert(out[out.len() - 1] == y);
                }
                assert(self.nodes@ =~= old_self.nodes@.remove_keys(seen));
                assert(self.parents@ =~= old_self.parents@.remove_keys(seen));
                assert(self.children@.dom() =~= old_self.children@.remove_keys(seen).dom());
                if out0.len() < plen {
                    assert(out =~= prev@.take(out.len() as int));
                    assert(self.children@[x]@ =~= prev@.skip(out.len() as int));
                    if out.len() < plen {
                        assert forall|j: int| 0 <= j < plen - out.len() implies #[trigger] queue@[j] == prev@[out.len() + j] by {
                            assert(queue@[j] == q[j + 1]);
                        }
                    } else {
                        assert(prev@.skip(out.len() as int) =~= Seq::<u64>::empty());
                    }
                } else if out0.len() == plen {
                    assert(out.take(plen as int) =~= out0);
                } else {
                    assert(out.take(plen as int) =~= out0.take(plen as int));
                }
            }
        }
        proof {
            assert(removal_order(ch, queue@) =~= Seq::<u64>::empty());
            assert(out + removal_order(ch, queue@) =~= out);
            let r = removal_order(old_self.children@, prev@).to_set();
            assert(r =~= seen) by {
                assert forall|z: u64| r.contains(z) <==> seen.contains(z) by {
                    assert(out.to_set().contains(z) <==> out.contains(z));
                }
            }
            assert(!seen.contains(x)) by {
                if seen.contains(x) {
                    assert(old_self.walk_ok(x, seen, prev@, r0));
                }
            }
            assert(!seen.contains(ROOT_ID)) by {
                if seen.contains(ROOT_ID) {
                    assert(old_self.walk_ok(ROOT_ID, seen, prev@, r0));
                    if prev@.contains(ROOT_ID) {
                        let j = choose|j: int| 0 <= j < prev@.len() && prev@[j] == ROOT_ID;
                        assert(old_self.children@[x]@[j] == ROOT_ID);
                    } else {
                        let w = choose|w: (u64, int)| listed_at(old_self.child_view(), ROOT_ID, w.0, w.1);
                        assert(old_self.children@[w.0]@[w.1] == ROOT_ID);
                    }
                }
            }
            if out.len() > plen {
                assert(self.children@[x]@ == Seq::<u64>::empty());
            } else {
                assert(out.len() == plen) by {
                    if out.len() < plen {
                        assert(queue@.len() >= plen - out.len());
                    }
                }
                assert(prev@.skip(plen as int) =~= Seq::<u64>::empty());
            }
            self.lemma_pruned_wf(old_self, x, seen, prev@, r0);
        }
    }

    /// After the nodes of `r` are deleted below `x`, the world is well formed.
    proof fn lemma_pruned_wf(&self, old_self: World, x: u64, r: Set<u64>, prev: Seq<u64>, r0: int)
        requires
            old_self.wf(),
            old_self.children@.contains_key(x),
            prev == old_self.children@[x]@,
            !r.contains(x),
            !r.contains(ROOT_ID),
            forall|y: u64| #[trigger] r.contains(y) ==> old_self.walk_ok(y, r, prev, r0),
            self.nodes@ == old_self.nodes@.remove_keys(r),
            self.parents@ == old_self.parents@.remove_keys(r),
            self.children@.dom() == old_self.children@.remove_keys(r).dom(),
            forall|k: u64| #[trigger] self.children@.contains_key(k) && k != x ==> self.children@[k] == old_self.children@[k],
            self.children@[x]@ == Seq::<u64>::empty(),
            self.rank == old_self.rank,
        ensures
            self.wf(),
    {
        assert(self.nodes@.contains_key(ROOT_ID));
        assert(self.children@.contains_key(ROOT_ID));
        assert forall|p: u64| #[trigger] self.children@.contains_key(p) implies self.nodes@.contains_key(p)
            && self.children@[p]@.no_duplicates() by {
            assert(old_self.children@.contains_key(p));
            if p == x {
                assert(self.children@[x]@ =~= Seq::<u64>::empty());
            }
        }
        assert forall|p: u64, i: int| #![trigger self.children@[p]@[i]]
            self.children@.contains_key(p) && 0 <= i < self.children@[p]@.len() implies {
                let c = self.children@[p]@[i];
                &&& self.nodes@.contains_key(c)
                &&& c != ROOT_ID
                &&& self.parents@.contains_key(c)
                &&& self.parents@[c] == p
                &&& self.rk(c) > self.rk(p)
            } by {
            let c = self.children@[p]@[i];
            assert(p != x);
            assert(old_self.children@[p]@[i] == c);
            assert(!r.contains(p));
            if r.contains(c) {
                assert(old_self.walk_ok(c, r, prev, r0));
                if prev.contains(c) {
                    let j = choose|j: int| 0 <= j < prev.len() && prev[j] == c;
                    assert(old_self.children@[x]@[j] == c);
                }
            }
        }
        assert forall|c: u64| #[trigger] self.parents@.contains_key(c) implies self.nodes@.contains_key(c) by {
            assert(old_self.parents@.contains_key(c));
        }
    }

    /// Creates `tree` and appends its root to the child list of `x`,
    /// reporting the new nodes in `event`; returns the root's identity.
    fn add_child_tree(&mut self, x: u64, tree: NodeTree, event: &mut WorldDidChangeEvent) -> (c: u64)
        requires
            old(self).wf(),
            old(self).children@.contains_key(x),
            forall|k: u64| #[trigger] old(self).nodes@.contains_key(k) ==> k + 1 + tree_size(tree) <= u64::MAX,
        ensures
            final(self).wf(),
            old(self).nodes@.contains_key((c - 1) as u64),
            forall|k: u64| #[trigger] old(self).nodes@.contains_key(k) ==> k < c,
            forall|k: u64| #[trigger] final(self).nodes@.contains_key(k) <==> (old(self).nodes@.contains_key(k) || (c <= k
                < c + tree_size(tree))),
            forall|k: u64| k < c && k != x ==> {
                &&& (#[trigger] final(self).node_view().contains_key(k) <==> old(self).node_view().contains_key(k))
                &&& (old(self).node_view().contains_key(k) ==> final(self).node_view()[k] == old(self).node_view()[k])
                &&& (final(self).child_view().contains_key(k) <==> old(self).child_view().contains_key(k))
                &&& (old(self).child_view().contains_key(k) ==> final(self).child_view()[k] == old(self).child_view()[k])
                &&& (final(self).parent_view().contains_key(k) <==> old(self).parent_view().contains_key(k))
                &&& (old(self).parent_view().contains_key(k) ==> final(self).parent_view()[k] == old(self).parent_view()[k])
            },
            final(self).node_view()[x] == old(self).node_view()[x],
            final(self).parent_view().contains_key(x) == old(self).parent_view().contains_key(x),
            old(self).parent_view().contains_key(x) ==> final(self).parent_view()[x] == old(self).parent_view()[x],
            final(self).children@.contains_key(x),
            final(self).child_view()[x] == old(self).child_view()[x].push(c),
            final(self).parent_view()[c] == x,
            holds(final(self).node_view(), final(self).child_view(), c, tree),
            forall|z: u64| c <= z < c + tree_size(tree) ==> #[trigger] final(self).node_view().contains_key(z)
                && final(self).parent_view().contains_key(z),
            forall|z: u64, i: int| #![trigger final(self).child_view()[z][i]] c <= z < c + tree_size(tree)
                && final(self).child_view().contains_key(z) && 0 <= i < final(self).child_view()[z].len()
                ==> c <= final(self).child_view()[z][i] < c + tree_size(tree),
            final(event).inserted_views() == old(event).inserted_views() + final(self).reach_order(seq![c]).map_values(
                |id: u64| (id, final(self).parent_view()[id], final(self).node_view()[id]),
            ),
            final(event).removed@ == old(event).removed@,
    {
        let ghost w0 = *self;
        let id = self.create_node(tree);
        let c = id.0;
        let ghost w1 = *self;
        let ghost next = c as int;
        let ghost entries = bfs_entries(seq![(tree, ROOT_ID)], next);
        proof {
            lemma_placed_children_members(entries, next, 0);
            assert(entries[0].1 == ROOT_ID) by {
                let q = seq![(tree, ROOT_ID)];
                lemma_queue_size_step(q, next as u64);
            }
            let cv1 = w1.child_view();
            let pv1 = w1.parent_view();
            assert(w0.node_view().contains_key((next - 1) as u64));
            assert(w0.nodes@.contains_key(ROOT_ID));
            assert(c >= 1);
            assert forall|q: u64, i: int| #![trigger cv1[q][i]] cv1.contains_key(q) && q >= c && 0 <= i < cv1[q].len()
                implies cv1[q][i] >= c && cv1[q][i] < c + tree_size(tree) by {
                if w0.child_view().contains_key(q) {
                    assert(w0.children@.contains_key(q));
                    assert(w0.node_view().contains_key(q));
                } else {
                    lemma_placed_children_members(entries, next, q);
                }
            }
            assert forall|q: u64, i: int| #![trigger cv1[q][i]] cv1.contains_key(q) && q < c && 0 <= i < cv1[q].len()
                implies cv1[q][i] < c by {
                assert(w0.child_view().contains_key(q));
                assert(w0.children@[q]@[i] == cv1[q][i]);
                assert(w0.node_view().contains_key(cv1[q][i]));
            }
            assert(!is_listed(cv1, c)) by {
                if is_listed(cv1, c) {
                    let (q, i) = choose|q: u64, i: int| listed_at(cv1, c, q, i);
                    if q < c {
                        assert(cv1[q][i] < c);
                    } else {
                        lemma_placed_children_members(entries, next, q);
                        assert(!w0.child_view().contains_key(q)) by {
                            if w0.child_view().contains_key(q) {
                                assert(w0.children@.contains_key(q));
                                assert(w0.node_view().contains_key(q));
                            }
                        }
                        assert(cv1[q] == placed_children(entries, next, q));
                        assert(entries[cv1[q][i] - next].1 == q);
                    }
                }
            }
            assert(x < c) by {
                assert(w0.node_view().contains_key(x)) by {
                    assert(w0.nodes@.contains_key(x));
                }
            }
            assert(!descends(cv1, pv1, x, c)) by {
                if descends(cv1, pv1, x, c) {
                    let f = choose|f: nat| below(cv1, pv1, x, c, f);
                    lemma_old_not_below(cv1, pv1, x, c, f);
                }
            }
            assert(w1.can_attach(c, x));
            assert(w1.child_view().contains_key(x));
            assert(InsertNodeOffset::FromEnd(0).index_spec(w1.child_view()[x].len() as usize) == Some(
                w1.child_view()[x].len() as usize,
            ));
        }
        let ins = InsertNode { parent: NodeId(x), child: id, offset: InsertNodeOffset::end() };
        let r = self.insert_node_for_event(ins, event);
        proof {
            assert(r is Ok);
            let i = r->Ok_0;
            assert(w1.children@[x].len() == w1.child_view()[x].len());
            assert(i == w1.child_view()[x].len());
            assert(self.child_view().contains_key(x));
            assert(self.children@.contains_key(x));
            assert(w1.child_view()[x].insert(i as int, c) =~= w1.child_view()[x].push(c));
            let nv1 = w1.node_view();
            let cv1 = w1.child_view();
            let nv2 = self.node_view();
            let cv2 = self.child_view();
            let k = Set::new(|z: u64| c <= z < c + tree_size(tree));
            assert forall|z: u64| #[trigger] k.contains(z) && cv1.contains_key(z) implies cv2.contains_key(z) && cv2[z] == cv1[z]
                && forall|i: int| 0 <= i < cv1[z].len() ==> k.contains(#[trigger] cv1[z][i]) by {
                assert(z != x);
                assert forall|i: int| 0 <= i < cv1[z].len() implies k.contains(#[trigger] cv1[z][i]) by {
                    assert(!w0.child_view().contains_key(z)) by {
                        if w0.child_view().contains_key(z) {
                            assert(w0.children@.contains_key(z));
                            assert(w0.node_view().contains_key(z));
                        }
                    }
                    lemma_placed_children_members(entries, next, z);
                }
            }
            lemma_holds_frame(nv1, cv1, nv2, cv2, c, tree, k);
            assert forall|z: u64, i: int| #![trigger cv2[z][i]] c <= z < c + tree_size(tree) && cv2.contains_key(z) && 0 <= i
                < cv2[z].len() implies c <= cv2[z][i] < c + tree_size(tree) by {
                assert(k.contains(z));
                assert(cv1.contains_key(z));
                assert(k.contains(cv1[z][i]));
            }
            assert forall|z: u64| c <= z < c + tree_size(tree) implies #[trigger] self.node_view().contains_key(z)
                && self.parent_view().contains_key(z) by {
                assert(nv1.contains_key(z));
                if z > c {
                    assert(w1.parent_view().contains_key(z));
                }
            }
            assert forall|kk: u64| #[trigger] self.nodes@.contains_key(kk) <==> (w0.nodes@.contains_key(kk) || (c <= kk
                < c + tree_size(tree))) by {
                assert(self.node_view().contains_key(kk) == self.nodes@.contains_key(kk));
                assert(w0.node_view().contains_key(kk) == w0.nodes@.contains_key(kk));
                assert(nv1.contains_key(kk) == w1.nodes@.contains_key(kk));
            }
            assert forall|kk: u64| #[trigger] w0.nodes@.contains_key(kk) implies kk < c by {
                assert(w0.node_view().contains_key(kk));
            }
            assert forall|kk: u64| kk < c && kk != x implies {
                &&& (#[trigger] self.node_view().contains_key(kk) <==> w0.node_view().contains_key(kk))
                &&& (w0.node_view().contains_key(kk) ==> self.node_view()[kk] == w0.node_view()[kk])
                &&& (self.child_view().contains_key(kk) <==> w0.child_view().contains_key(kk))
                &&& (w0.child_view().contains_key(kk) ==> self.child_view()[kk] == w0.child_view()[kk])
                &&& (self.parent_view().contains_key(kk) <==> w0.parent_view().contains_key(kk))
                &&& (w0.parent_view().contains_key(kk) ==> self.parent_view()[kk] == w0.parent_view()[kk])
            } by {
                assert(kk != c);
            }
        }
        c
    }

    /// The nodes that setting the children of `x` takes away: the children
    /// of `x` and all their descendants, breadth first.
    pub open spec fn removed_below(&self, x: u64) -> Seq<u64> {
        self.reach_order(self.child_view()[x])
    }

    /// Whether node `k` stays when the children of `x` are set.
    pub open spec fn stays(&self, x: u64, k: u64) -> bool {
        self.node_view().contains_key(k) && !self.removed_below(x).contains(k)
    }

    /// Replaces the children of `node_id`: deletes its children and their
    /// descendants, then creates each tree of `children` in turn and appends
    /// it, reporting the direct children taken away and the nodes placed.
    #[verifier::spinoff_prover]
    #[verifier::rlimit(40)]
    pub fn set_node_children(&mut self, node_id: NodeId, children: Vec<NodeTree>) -> (r: Result<
        WorldDidChangeEvent,
        SetNodeChildrenFailed,
    >)
        requires
            old(self).wf(),
            old(self).child_view().contains_key(node_id.0) ==> forall|k: u64| #[trigger] old(self).stays(node_id.0, k)
                ==> k + 1 + forest_size(children@) <= u64::MAX,
        ensures
            final(self).wf(),
            ({
                let x = node_id.0;
                let nv = final(self).node_view();
                let cv = final(self).child_view();
                let pv = final(self).parent_view();
                if !old(self).node_view().contains_key(x) {
                    &&& r == Err::<WorldDidChangeEvent, SetNodeChildrenFailed>(SetNodeChildrenFailed::NodeNotFound)
                    &&& *final(self) == *old(self)
                } else if !old(self).child_view().contains_key(x) {
                    &&& r == Err::<WorldDidChangeEvent, SetNodeChildrenFailed>(SetNodeChildrenFailed::InvalidNodeType)
                    &&& *final(self) == *old(self)
                } else {
                    &&& r is Ok
                    &&& r->Ok_0.removed_ids() == old(self).child_view()[x]
                    &&& r->Ok_0.inserted_views() == placements(*final(self), cv[x])
                    &&& cv.contains_key(x)
                    &&& cv[x].len() == children@.len()
                    &&& forall|i: int| 0 <= i < children@.len() ==> holds(nv, cv, #[trigger] cv[x][i], children@[i])
                    &&& forall|k: u64| #[trigger] nv.contains_key(k) <==> (old(self).stays(x, k) || ((forall|j: u64|
                        #[trigger] old(self).stays(x, j) ==> j < k) && exists|j: u64| #[trigger] old(self).stays(x, j) && k
                        <= j + forest_size(children@)))
                    &&& forall|k: u64| #[trigger] old(self).stays(x, k) && k != x ==> {
                        &&& nv[k] == old(self).node_view()[k]
                        &&& (cv.contains_key(k) <==> old(self).child_view().contains_key(k))
                        &&& (cv.contains_key(k) ==> cv[k] == old(self).child_view()[k])
                        &&& (pv.contains_key(k) <==> old(self).parent_view().contains_key(k))
                        &&& (pv.contains_key(k) ==> pv[k] == old(self).parent_view()[k])
                    }
                    &&& nv[x] == old(self).node_view()[x]
                    &&& (pv.contains_key(x) <==> old(self).parent_view().contains_key(x))
                    &&& (pv.contains_key(x) ==> pv[x] == old(self).parent_view()[x])
                }
            }),
    {
        let x = node_id.0;
        if !self.nodes.contains_key(&x) {
            proof {
                assert(!self.node_view().contains_key(x));
            }
            return Err(SetNodeChildrenFailed::NodeNotFound);
        }
        if !self.children.contains_key(&x) {
            proof {
                assert(self.node_view().contains_key(x));
                assert(!self.child_view().contains_key(x));
            }
            return Err(SetNodeChildrenFailed::InvalidNodeType);
        }
        let ghost w0 = *self;
        let prev = copy_ids(self.children.get(&x).unwrap());
        let mut removed: Vec<NodeId> = Vec::new();
        let np = prev.len();
        for j in 0..np
            invariant
                np == prev@.len(),
                removed@.len() == j,
                forall|t: int| 0 <= t < j ==> #[trigger] removed@[t].0 == prev@[t],
        {
            removed.push(NodeId(prev[j]));
        }
        let mut event = WorldDidChangeEvent { inserted: Vec::new(), removed };
        proof {
            assert(event.removed_ids() =~= prev@);
            assert(event.inserted_views() =~= Seq::<(u64, u64, FlatNodeView)>::empty());
            assert(prev@ == w0.child_view()[x]);
        }
        self.remove_below(x, &prev);
        let ghost s1 = *self;
        let ghost gone = removal_order(w0.children@, prev@);
        let ghost trees = children@;
        let ghost fs = forest_size(trees);
        let ghost mut roots: Seq<u64> = Seq::empty();
        let ghost mut base: int = 0;
        proof {
            assert(gone == w0.removed_below(x));
            assert forall|k: u64| #[trigger] s1.nodes@.contains_key(k) <==> w0.stays(x, k) by {
                assert(gone.to_set().contains(k) <==> gone.contains(k));
                assert(w0.node_view().contains_key(k) == w0.nodes@.contains_key(k));
            }
            assert(self.child_view()[x] =~= roots);
            assert(trees.skip(0) =~= trees);
            assert(placements(*self, roots) =~= Seq::<(u64, u64, FlatNodeView)>::empty());
            assert forall|k: u64| #[trigger] self.nodes@.contains_key(k) implies k + 1 + forest_size(trees.skip(0)) <= u64::MAX by {
                assert(w0.stays(x, k));
            }
        }
        for child in it: children
            invariant
                it.seq() == trees,
                fs == forest_size(trees),
                self.wf(),
                s1.wf(),
                self.children@.contains_key(x),
                self.nodes@.contains_key(x),
                s1.nodes@.contains_key(x),
                roots.len() == it.index(),
                self.child_view()[x] == roots,
                forall|j: int| 0 <= j < roots.len() ==> holds(
                    self.node_view(),
                    self.child_view(),
                    #[trigger] roots[j],
                    trees[j],
                ),
                forall|j: int, z: u64| 0 <= j < roots.len() && roots[j] <= z < #[trigger] roots[j] + tree_size(trees[j])
                    ==> #[trigger] self.node_view().contains_key(z) && self.parent_view().contains_key(z),
                forall|j: int, z: u64, t: int| #![trigger roots[j], self.child_view()[z][t]]
                    0 <= j < roots.len() && roots[j] <= z < roots[j] + tree_size(trees[j]) && self.child_view().contains_key(z)
                    && 0 <= t < self.child_view()[z].len() ==> roots[j] <= self.child_view()[z][t] < roots[j] + tree_size(
                    trees[j]),
                forall|j: int| 0 <= j < roots.len() ==> x < #[trigger] roots[j],
                event.inserted_views() == placements(*self, roots),
                event.removed_ids() == w0.child_view()[x],
                forall|k: u64| #[trigger] self.nodes@.contains_key(k) <==> (s1.nodes@.contains_key(k) || (it.index() > 0
                    && base < k <= base + fs - forest_size(trees.skip(it.index() as int)))),
                it.index() > 0 ==> s1.nodes@.contains_key(base as u64) && 0 <= base && base + 1 + fs <= u64::MAX,
                it.index() > 0 ==> forall|k: u64| #[trigger] s1.nodes@.contains_key(k) ==> k <= base,
                forall|k: u64| #[trigger] self.nodes@.contains_key(k) ==> k + 1 + forest_size(trees.skip(it.index() as int))
                    <= u64::MAX,
                forall|k: u64| #[trigger] s1.nodes@.contains_key(k) && k != x ==> {
                    &&& self.node_view().contains_key(k)
                    &&& self.node_view()[k] == s1.node_view()[k]
                    &&& (self.child_view().contains_key(k) <==> s1.child_view().contains_key(k))
                    &&& (s1.child_view().contains_key(k) ==> self.child_view()[k] == s1.child_view()[k])
                    &&& (self.parent_view().contains_key(k) <==> s1.parent_view().contains_key(k))
                    &&& (s1.parent_view().contains_key(k) ==> self.parent_view()[k] == s1.parent_view()[k])
                },
                self.node_view()[x] == s1.node_view()[x],
                self.parent_view().contains_key(x) == s1.parent_view().contains_key(x),
                s1.parent_view().contains_key(x) ==> self.parent_view()[x] == s1.parent_view()[x],
        {
            let ghost i = it.index();
            let ghost wp = *self;
            let ghost tree = trees[i];
            proof {
                assert(child == tree);
                lemma_forest_skip_step(trees, i);
                assert forall|k: u64| #[trigger] self.nodes@.contains_key(k) implies k + 1 + tree_size(child) <= u64::MAX by {}
            }
            let c = self.add_child_tree(x, child, &mut event);
            proof {
                let size = tree_size(tree);
                assert(size >= 1) by {
                    match tree {
                        NodeTree::Text(_) => {},
                        NodeTree::Element(_) => {},
                    }
                }
                let consumed = fs - forest_size(trees.skip(i));
                if i == 0 {
                    base = c - 1;
                    assert forall|k: u64| #[trigger] s1.nodes@.contains_key(k) implies k <= base by {
                        assert(wp.nodes@.contains_key(k));
                    }
                    assert(s1.nodes@.contains_key(base as u64));
                    assert(trees.skip(0) =~= trees);
                    assert(base + 1 + fs <= u64::MAX) by {
                        assert(wp.nodes@.contains_key(base as u64));
                    }
                } else {
                    let top = (base + consumed) as u64;
                    assert(consumed >= 1) by {
                        lemma_forest_prefix_positive(trees, i);
                    }
                    assert(wp.nodes@.contains_key(top));
                    assert(wp.nodes@.contains_key((c - 1) as u64));
                    assert(c - 1 <= base + consumed) by {
                        if !s1.nodes@.contains_key((c - 1) as u64) {
                        }
                    }
                    assert(top < c);
                }
                let k_new = Set::new(|z: u64| c <= z < c + size);
                // earlier roots keep what they hold and report
                assert forall|j: int| 0 <= j < roots.len() implies wp.reach_order(seq![#[trigger] roots[j]]).map_values(
                    |id: u64| (id, wp.parent_view()[id], wp.node_view()[id]),
                ) == self.reach_order(seq![roots[j]]).map_values(
                    |id: u64| (id, self.parent_view()[id], self.node_view()[id]),
                ) && holds(self.node_view(), self.child_view(), roots[j], trees[j]) by {
                    let kj = Set::new(|z: u64| roots[j] <= z < roots[j] + tree_size(trees[j]));
                    assert forall|z: u64| #[trigger] kj.contains(z) implies z < c && z != x && wp.node_view().contains_key(z) by {
                        assert(wp.node_view().contains_key(z));
                        assert(wp.nodes@.contains_key(z));
                    }
                    assert forall|z: u64| #[trigger] kj.contains(z) && wp.node_view().contains_key(z) implies self.node_view().contains_key(z)
                        && self.node_view()[z] == wp.node_view()[z] by {
                        assert(z < c && z != x);
                    }
                    assert forall|z: u64| #[trigger] kj.contains(z) && wp.child_view().contains_key(z) implies self.child_view().contains_key(z)
                        && self.child_view()[z] == wp.child_view()[z] && forall|t: int| 0 <= t < wp.child_view()[z].len()
                        ==> kj.contains(#[trigger] wp.child_view()[z][t]) by {
                        assert(z < c && z != x);
                        assert forall|t: int| 0 <= t < wp.child_view()[z].len() implies kj.contains(#[trigger] wp.child_view()[z][t]) by {
                            assert(roots[j] <= wp.child_view()[z][t] < roots[j] + tree_size(trees[j]));
                        }
                    }
                    lemma_holds_frame(wp.node_view(), wp.child_view(), self.node_view(), self.child_view(), roots[j], trees[j], kj);
                    assert forall|z: u64| #[trigger] kj.contains(z) implies (wp.children@.contains_key(z) <==> self.children@.contains_key(z)) by {
                        assert(z < c && z != x);
                        assert(wp.children@.contains_key(z) == wp.child_view().contains_key(z));
                        assert(self.children@.contains_key(z) == self.child_view().contains_key(z));
                    }
                    assert forall|z: u64| #[trigger] kj.contains(z) && wp.children@.contains_key(z) implies wp.children@[z]@
                        == self.children@[z]@ && forall|t: int| 0 <= t < wp.children@[z]@.len() ==> kj.contains(
                        #[trigger] wp.children@[z]@[t]) by {
                        assert(z < c && z != x);
                        assert(wp.child_view().contains_key(z));
                        assert(wp.children@[z]@ == wp.child_view()[z]);
                        assert(self.children@[z]@ == self.child_view()[z]);
                        assert forall|t: int| 0 <= t < wp.children@[z]@.len() implies kj.contains(#[trigger] wp.children@[z]@[t]) by {
                            assert(wp.children@[z]@[t] == wp.child_view()[z][t]);
                            assert(roots[j] <= wp.child_view()[z][t] < roots[j] + tree_size(trees[j]));
                        }
                    }
                    assert(kj.contains(roots[j]));
                    lemma_reach_frame(wp.children@, self.children@, seq![roots[j]], kj);
                    let o = wp.reach_order(seq![roots[j]]);
                    assert forall|t: int| 0 <= t < o.len() implies wp.parent_view()[#[trigger] o[t]] == self.parent_view()[o[t]]
                        && wp.node_view()[o[t]] == self.node_view()[o[t]] by {
                        assert(kj.contains(o[t]));
                        assert(o[t] < c && o[t] != x);
                        assert(wp.node_view().contains_key(o[t]));
                        assert(wp.parent_view().contains_key(o[t]));
                        assert(self.node_view().contains_key(o[t]));
                    }
                    assert(o.map_values(|id: u64| (id, wp.parent_view()[id], wp.node_view()[id])) =~= o.map_values(
                        |id: u64| (id, self.parent_view()[id], self.node_view()[id]),
                    ));
                }
                lemma_placements_eq(wp, *self, roots);
                let roots2 = roots.push(c);
                assert(roots2.drop_last() =~= roots);
                assert(event.inserted_views() =~= placements(*self, roots2));
                assert forall|j: int| 0 <= j < roots2.len() implies holds(
                    self.node_view(),
                    self.child_view(),
                    #[trigger] roots2[j],
                    trees[j],
                ) by {
                    if j < roots.len() {
                        assert(roots2[j] == roots[j]);
                    }
                }
                assert forall|j: int, z: u64| 0 <= j < roots2.len() && roots2[j] <= z < #[trigger] roots2[j] + tree_size(trees[j])
                    implies #[trigger] self.node_view().contains_key(z) && self.parent_view().contains_key(z) by {
                    if j < roots.len() {
                        assert(roots2[j] == roots[j]);
                        assert(wp.node_view().contains_key(z));
                        assert(wp.parent_view().contains_key(z));
                        assert(wp.nodes@.contains_key(z));
                        assert(z < c && z != x);
                        assert(self.node_view().contains_key(z));
                    } else {
                        assert(roots2[j] == c);
                        assert(j == i);
                        assert(trees[j] == tree);
                        assert(c <= z < c + tree_size(tree));
                        assert(self.node_view().contains_key(z));
                    }
                }
                assert forall|j: int, z: u64, t: int| #![trigger roots2[j], self.child_view()[z][t]]
                    0 <= j < roots2.len() && roots2[j] <= z < roots2[j] + tree_size(trees[j]) && self.child_view().contains_key(z)
                    && 0 <= t < self.child_view()[z].len() implies roots2[j] <= self.child_view()[z][t] < roots2[j] + tree_size(
                    trees[j]) by {
                    if j < roots.len() {
                        assert(roots2[j] == roots[j]);
                        assert(wp.node_view().contains_key(z));
                        assert(wp.nodes@.contains_key(z));
                        assert(z < c && z != x);
                        assert(self.node_view().contains_key(z));
                        assert(wp.child_view().contains_key(z));
                        assert(roots[j] <= wp.child_view()[z][t] < roots[j] + tree_size(trees[j]));
                    }
                }
                assert forall|j: int| 0 <= j < roots2.len() implies x < #[trigger] roots2[j] by {
                    if j < roots.len() {
                        assert(roots2[j] == roots[j]);
                    } else {
                        assert(wp.nodes@.contains_key(x));
                    }
                }
                assert forall|k: u64| #[trigger] self.nodes@.contains_key(k) implies k + 1 + forest_size(trees.skip(i + 1)) <= u64::MAX by {
                    if wp.nodes@.contains_key(k) {
                    } else {
                        assert(wp.nodes@.contains_key((c - 1) as u64));
                    }
                }
                assert forall|k: u64| #[trigger] self.nodes@.contains_key(k) <==> (s1.nodes@.contains_key(k) || (base < k
                    <= base + fs - forest_size(trees.skip(i + 1)))) by {
                    if i > 0 {
                        let consumed0 = fs - forest_size(trees.skip(i));
                        assert(c - 1 == base + consumed0) by {
                            let top = (base + consumed0) as u64;
                            assert(consumed0 >= 1) by {
                                lemma_forest_prefix_positive(trees, i);
                            }
                            assert(wp.nodes@.contains_key(top));
                        }
                    }
                }
                assert forall|k: u64| #[trigger] s1.nodes@.contains_key(k) && k != x implies {
                    &&& self.node_view().contains_key(k)
                    &&& self.node_view()[k] == s1.node_view()[k]
                    &&& (self.child_view().contains_key(k) <==> s1.child_view().contains_key(k))
                    &&& (s1.child_view().contains_key(k) ==> self.child_view()[k] == s1.child_view()[k])
                    &&& (self.parent_view().contains_key(k) <==> s1.parent_view().contains_key(k))
                    &&& (s1.parent_view().contains_key(k) ==> self.parent_view()[k] == s1.parent_view()[k])
                } by {
                    assert(wp.node_view().contains_key(k));
                    assert(wp.nodes@.contains_key(k));
                    assert(k < c);
                }
                roots = roots2;
            }
        }
        proof {
            let n = trees.len();
            assert(trees.skip(n as int) =~= Seq::<NodeTree>::empty());
            assert(forest_size(Seq::<NodeTree>::empty()) == 0);
            let nv = self.node_view();
            assert forall|k: u64| #[trigger] nv.contains_key(k) <==> (w0.stays(x, k) || ((forall|j: u64|
                #[trigger] w0.stays(x, j) ==> j < k) && exists|j: u64| #[trigger] w0.stays(x, j) && k <= j + fs)) by {
                assert(nv.contains_key(k) == self.nodes@.contains_key(k));
                if n == 0 {
                    if (forall|j: u64| #[trigger] w0.stays(x, j) ==> j < k) && exists|j: u64| #[trigger] w0.stays(x, j)
                        && k <= j + fs {
                        let j = choose|j: u64| #[trigger] w0.stays(x, j) && k <= j + fs;
                        assert(fs == 0) by {
                            assert(trees =~= Seq::<NodeTree>::empty());
                        }
                    }
                } else {
                    assert(w0.stays(x, base as u64));
                    if base < k <= base + fs {
                        assert forall|j: u64| #[trigger] w0.stays(x, j) implies j < k by {
                            assert(s1.nodes@.contains_key(j));
                        }
                    }
                    if (forall|j: u64| #[trigger] w0.stays(x, j) ==> j < k) && exists|j: u64| #[trigger] w0.stays(x, j)
                        && k <= j + fs {
                        let j = choose|j: u64| #[trigger] w0.stays(x, j) && k <= j + fs;
                        assert(s1.nodes@.contains_key(j));
                        assert(j <= base);
                        assert(base < k);
                    }
                }
            }
            assert forall|k: u64| #[trigger] w0.stays(x, k) && k != x implies {
                &&& self.node_view()[k] == w0.node_view()[k]
                &&& (self.child_view().contains_key(k) <==> w0.child_view().contains_key(k))
                &&& (self.child_view().contains_key(k) ==> self.child_view()[k] == w0.child_view()[k])
                &&& (self.parent_view().contains_key(k) <==> w0.parent_view().contains_key(k))
                &&& (self.parent_view().contains_key(k) ==> self.parent_view()[k] == w0.parent_view()[k])
            } by {
                assert(s1.nodes@.contains_key(k));
                assert(s1.children@.contains_key(k) == s1.child_view().contains_key(k));
                assert(w0.children@.contains_key(k) == w0.child_view().contains_key(k));
                if s1.children@.contains_key(k) {
                    assert(s1.children@[k] == w0.children@[k]);
                }
                assert(!gone.to_set().contains(k));
            }
            assert(!gone.to_set().contains(x));
        }
        Ok(event)
    }
}

} // verus!
