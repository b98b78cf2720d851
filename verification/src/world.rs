use vstd::prelude::*;
use vstd::std_specs::iter::IteratorSpec;
use std::collections::{BTreeMap, BTreeSet, VecDeque};
use std::sync::Arc;
use crate::ids::{ConnectionId, NodeId, ROOT_NODE_RAW, root_node_id};
use crate::node::{FlatElement, FlatNode, FlatNodeView, Node, flat_of};
use crate::change::{ChangeView, CreatedNodeChange, DeletedNodeChange, WorldChange, WorldDidChangeResponse};
use crate::connection::{ConnectionDetails, ConnectionEvent, ConnectionSource, CreateConnectionError, InitRequest, InitResponse, SetNodeChildrenFailed, TriggerEventFailed, WeirdProtocolVersion, clone_opt_string};
use crate::event::{Event, TriggerEvent, TriggerOutcome};
use crate::update::{ElementNodeUpdate, NodeUpdate};
use crate::json::JsonValue;
use crate::removal::{removal_order, without, lemma_without, lemma_removal_distinct, lemma_removal_agree, lemma_removal_closed, lemma_removal_covers_queue, lemma_removal_above, lemma_removal_avoids, lemma_removal_source};
use crate::order::{ascending, lemma_ids_ordered, lemma_map_iter_ascending, lemma_set_iter_ascending};
use crate::matchkey::{NodeMatchKey, NodeMatchKeyView, key_of, lemma_key_same_kind};
use crate::json::string_eq;
use crate::update::{node_update, same_kind, apply_update, update_between, lemma_apply_update_between};
use crate::change::UpdatedNodeChange;
use crate::change::MovedNodeChange;
use crate::tree::forest_size;
use crate::tree::{bfs_entries, bfs_trees, kid_entries, lemma_bfs_len, lemma_queue_size_step, queue_size, tree_size};

verus! {

broadcast use {vstd::std_specs::btree::group_btree_axioms, vstd::std_specs::vec::axiom_vec_decreases_to_view};

/// What the world keeps about one connection.
pub struct ConnectionRecord {
    pub connected: bool,
    pub init_request: InitRequest,
    pub weird_protocol_version: WeirdProtocolVersion,
    pub source: ConnectionSource,
}

/// The shared tree of nodes that connections render into, and the
/// connections themselves.
pub struct World {
    next_node_id: u64,
    next_connection_id: u64,
    nodes: BTreeMap<u64, Arc<FlatNode>>,
    parents: BTreeMap<u64, (u64, usize)>,
    children: BTreeMap<u64, Vec<u64>>,
    connection_by_node: BTreeMap<u64, u64>,
    nodes_by_connection: BTreeMap<u64, BTreeSet<u64>>,
    connections: BTreeMap<u64, ConnectionRecord>,
}

/// The `Created` change that placing entry `e` as node `id` reports.
pub open spec fn created_view(id: int, e: (FlatNodeView, u64)) -> ChangeView {
    ChangeView::Created { id: id as u64, parent: e.1, before: None, node: e.0 }
}

/// The `Created` changes that placing `entries` from identity `next` on reports.
pub open spec fn created_views(entries: Seq<(FlatNodeView, u64)>, next: int) -> Seq<ChangeView> {
    Seq::new(entries.len(), |k: int| created_view(next + k, entries[k]))
}

/// The identities, in order, of the placed entries whose parent is `p`;
/// entry `k` is placed as node `next + k`.
pub open spec fn placed_children(entries: Seq<(FlatNodeView, u64)>, next: int, p: u64) -> Seq<u64>
    decreases entries.len(),
{
    if entries.len() == 0 {
        Seq::empty()
    } else {
        let rest = placed_children(entries.drop_last(), next, p);
        if entries.last().1 == p {
            rest.push((next + entries.len() - 1) as u64)
        } else {
            rest
        }
    }
}

/// The child list of `p` before a placement, or the empty list for a new node.
pub open spec fn list_or_empty(m: Map<u64, Seq<u64>>, p: u64) -> Seq<u64> {
    if m.contains_key(p) {
        m[p]
    } else {
        Seq::empty()
    }
}

/// Placing a single tree under `p` adds exactly its root to the children of `p`.
pub proof fn lemma_placed_children_single(entries: Seq<(FlatNodeView, u64)>, next: int, p: u64)
    requires
        entries.len() >= 1,
        entries[0].1 == p,
        forall|k: int| 1 <= k < entries.len() ==> entries[k].1 != p,
    ensures
        placed_children(entries, next, p) == seq![next as u64],
    decreases entries.len(),
{
    if entries.len() == 1 {
        assert(entries.drop_last() =~= Seq::<(FlatNodeView, u64)>::empty());
        assert(placed_children(Seq::<(FlatNodeView, u64)>::empty(), next, p) =~= Seq::<u64>::empty());
        assert(seq![next as u64] =~= Seq::<u64>::empty().push((next + 1 - 1) as u64));
    } else {
        lemma_placed_children_single(entries.drop_last(), next, p);
    }
}

pub proof fn lemma_placed_children_none(entries: Seq<(FlatNodeView, u64)>, next: int, p: u64)
    requires
        forall|k: int| 0 <= k < entries.len() ==> entries[k].1 != p,
    ensures
        placed_children(entries, next, p) == Seq::<u64>::empty(),
    decreases entries.len(),
{
    if entries.len() > 0 {
        lemma_placed_children_none(entries.drop_last(), next, p);
    }
}

/// Whether change `c` creates node `n`.
pub open spec fn creates(c: ChangeView, n: u64) -> bool {
    c matches ChangeView::Created { id, .. } && id == n
}

/// Whether change `c` deletes node `n`.
pub open spec fn deletes(c: ChangeView, n: u64) -> bool {
    c matches ChangeView::Deleted { id } && id == n
}

/// Whether change `c` updates node `n`.
pub open spec fn updates(c: ChangeView, n: u64) -> bool {
    c matches ChangeView::Updated { id, .. } && id == n
}

/// Whether the changes `ev` report every difference between the worlds
/// before and after them: each node that is new is created, each node that
/// is gone is deleted, and each node whose content differs is updated.
pub open spec fn changes_cover(before: World, after: World, ev: Seq<ChangeView>) -> bool {
    &&& forall|n: u64| #[trigger] after.node_map().contains_key(n) && !before.node_map().contains_key(n) ==> exists|k: int|
        0 <= k < ev.len() && #[trigger] creates(ev[k], n)
    &&& forall|n: u64| #[trigger] before.node_map().contains_key(n) && !after.node_map().contains_key(n) ==> exists|k: int|
        0 <= k < ev.len() && #[trigger] deletes(ev[k], n)
    &&& forall|n: u64| #[trigger] before.node_map().contains_key(n) && after.node_map().contains_key(n)
        && after.node_map()[n] != before.node_map()[n] ==> exists|k: int| 0 <= k < ev.len() && #[trigger] updates(ev[k], n)
}

/// Whether `z` is `x` or lies below `x` by the parents `pm`.
pub open spec fn in_subtree(pm: Map<u64, (u64, usize)>, x: u64, z: u64) -> bool
    decreases z,
{
    if z == x {
        true
    } else if pm.contains_key(z) && pm[z].0 < z {
        in_subtree(pm, x, pm[z].0)
    } else {
        false
    }
}

/// Whether change `c` creates or moves a node under `p`, or deletes a node
/// whose parent was `p` by the parents `pm`.
pub open spec fn touches_list(c: ChangeView, pm: Map<u64, (u64, usize)>, p: u64) -> bool {
    match c {
        ChangeView::Created { parent, .. } => parent == p,
        ChangeView::Moved { parent, .. } => parent == p,
        ChangeView::Deleted { id } => pm.contains_key(id) && pm[id].0 == p,
        _ => false,
    }
}

/// Whether the changes `ev` report every child list that differs between
/// the worlds before and after them: a node whose children differ has a
/// node created or moved under it, or a child deleted.
pub open spec fn lists_cover(before: World, after: World, ev: Seq<ChangeView>) -> bool {
    forall|p: u64| #[trigger] after.child_map().contains_key(p) && before.child_map().contains_key(p)
        && after.child_map()[p] != before.child_map()[p] ==> exists|k: int| 0 <= k < ev.len()
        && #[trigger] touches_list(ev[k], before.parent_map(), p)
}

/// Whether the changes `ev` fit the worlds before and after them: a created
/// node is new and is in the world after, with the content and parent the
/// change names, and is created at the end of its parent (no sibling named
/// to come before); a deleted node was in the world before and is not after;
/// an updated node was there before and still is, with the content that
/// the update makes of its content before, which differs from it; a moved node is in the world
/// after, under the parent the change names, just before the sibling the
/// change names, or last when it names none.
pub open spec fn changes_fit(before: World, after: World, ev: Seq<ChangeView>) -> bool {
    forall|k: int| 0 <= k < ev.len() ==> match #[trigger] ev[k] {
        ChangeView::Created { id, parent, before: b, node } => {
            &&& b is None
            &&& !before.node_map().contains_key(id)
            &&& after.node_map().contains_key(id)
            &&& after.node_map()[id] == node
            &&& after.parent_map().contains_key(id)
            &&& after.parent_map()[id].0 == parent
        },
        ChangeView::Deleted { id } => {
            &&& before.node_map().contains_key(id)
            &&& !after.node_map().contains_key(id)
        },
        ChangeView::Updated { id, update } => {
            &&& before.node_map().contains_key(id)
            &&& after.node_map().contains_key(id)
            &&& after.node_map()[id] == apply_update(before.node_map()[id], update)
            &&& after.node_map()[id] != before.node_map()[id]
        },
        ChangeView::Moved { id, parent, before: b } => {
            &&& after.node_map().contains_key(id)
            &&& after.parent_map().contains_key(id)
            &&& after.parent_map()[id].0 == parent
            &&& after.child_map().contains_key(parent)
            &&& placed_before(after.child_map()[parent], id, b)
        },
    }
}

/// The connections whose every node is among `r` and that are no longer connected.
pub open spec fn emptied_connections(
    nbc: Map<u64, BTreeSet<u64>>,
    conns: Map<u64, ConnectionRecord>,
    r: Set<u64>,
) -> Set<u64> {
    Set::new(|c: u64| nbc.contains_key(c) && nbc[c]@.subset_of(r) && conns.contains_key(c) && !conns[c].connected)
}

/// The `Deleted` changes for the nodes of `order`.
pub open spec fn deleted_views(order: Seq<u64>) -> Seq<ChangeView> {
    order.map_values(|x: u64| ChangeView::Deleted { id: x })
}

/// Whether `p` is among the first `i` entries of `aff`.
pub open spec fn processed(aff: Seq<u64>, i: int, p: u64) -> bool {
    exists|j: int| 0 <= j < i && aff[j] == p
}

/// The number of nodes that the pending renders still hold.
pub open spec fn pend_size(q: Seq<(u64, Vec<Node>)>) -> nat
    decreases q.len(),
{
    if q.len() == 0 {
        0
    } else {
        pend_size(q.drop_last()) + forest_size(q.last().1@)
    }
}

pub proof fn lemma_pend_size_push(q: Seq<(u64, Vec<Node>)>, e: (u64, Vec<Node>))
    ensures
        pend_size(q.push(e)) == pend_size(q) + forest_size(e.1@),
{
    assert(q.push(e).drop_last() =~= q);
}

pub proof fn lemma_pend_size_pop(q: Seq<(u64, Vec<Node>)>)
    requires
        q.len() > 0,
    ensures
        pend_size(q) == forest_size(q[0].1@) + pend_size(q.drop_first()),
    decreases q.len(),
{
    if q.len() == 1 {
        assert(q.drop_first() =~= Seq::<(u64, Vec<Node>)>::empty());
        assert(q.drop_last() =~= Seq::<(u64, Vec<Node>)>::empty());
    } else {
        lemma_pend_size_pop(q.drop_last());
        assert(q.drop_last().drop_first() =~= q.drop_first().drop_last());
        assert(q.drop_last()[0] == q[0]);
        assert(q.drop_first().last() == q.last());
    }
}

/// The forest size of a sequence equals its first tree's size plus the rest.
pub proof fn lemma_forest_skip(s: Seq<Node>, k: int)
    requires
        0 <= k < s.len(),
    ensures
        forest_size(s.skip(k)) == crate::tree::tree_size(s[k]) + forest_size(s.skip(k + 1)),
{
    assert(s.skip(k).drop_first() =~= s.skip(k + 1));
    assert(s.skip(k)[0] == s[k]);
}

/// The identities of a set, in ascending order.
fn sorted_queue(set: &BTreeSet<u64>) -> (q: VecDeque<u64>)
    ensures
        q@.to_set() == set@,
        q@.no_duplicates(),
        ascending(q@),
{
    let mut q: VecDeque<u64> = VecDeque::new();
    for x in it: set.iter()
        invariant
            q@ == it.seq().take(it.index()).map_values(|r: &u64| *r),
    {
        q.push_back(*x);
        assert(it.seq().take(it.index() + 1).map_values(|r: &u64| *r) =~= q@);
    }
    proof {
        let rem = vstd::std_specs::btree::spec_btree_keys_iter(set).remaining();
        assert(q@ =~= rem.unref());
        assert(rem.unref().no_duplicates());
        lemma_set_iter_ascending(set);
    }
    q
}

/// The `Moved` change, if any, for putting `no[i]` at position `i` under
/// `m`, where `pos` gives each node's position before.
pub open spec fn moved_here(m: u64, no: Seq<u64>, pos: Map<u64, (u64, usize)>, i: int) -> Seq<ChangeView> {
    if pos[no[i]].1 as int != i {
        seq![ChangeView::Moved {
            id: no[i],
            parent: m,
            before: if i + 1 < no.len() { Some(no[i + 1]) } else { None },
        }]
    } else {
        Seq::empty()
    }
}

/// The `Moved` changes for the positions from the last of `no` down to `k`.
pub open spec fn moved_from(m: u64, no: Seq<u64>, pos: Map<u64, (u64, usize)>, k: int) -> Seq<ChangeView>
    decreases no.len() - k,
{
    if k < 0 || k >= no.len() {
        Seq::empty()
    } else {
        moved_from(m, no, pos, k + 1) + moved_here(m, no, pos, k)
    }
}

/// Whether `id` stands in `list` just before `before`, or last when
/// `before` is `None`.
pub open spec fn placed_before(list: Seq<u64>, id: u64, before: Option<u64>) -> bool {
    exists|i: int| 0 <= i < list.len() && #[trigger] list[i] == id && before == (if i + 1 < list.len() {
        Some(list[i + 1])
    } else {
        None
    })
}

/// Every change of `moved_from` is a move of a node of `no` under `m`, which
/// names the node that follows it in `no`.
pub proof fn lemma_moved_from_moves(m: u64, no: Seq<u64>, pos: Map<u64, (u64, usize)>, k: int)
    ensures
        forall|i: int| 0 <= i < moved_from(m, no, pos, k).len() ==> (#[trigger] moved_from(m, no, pos, k)[i] matches ChangeView::Moved {
            id,
            parent,
            before,
        } && parent == m && no.contains(id) && placed_before(no, id, before)),
    decreases no.len() - k,
{
    if !(k < 0 || k >= no.len()) {
        lemma_moved_from_moves(m, no, pos, k + 1);
        let a = moved_from(m, no, pos, k + 1);
        let b = moved_here(m, no, pos, k);
        assert forall|i: int| 0 <= i < (a + b).len() implies (#[trigger] (a + b)[i] matches ChangeView::Moved {
            id,
            parent,
            before,
        } && parent == m && no.contains(id) && placed_before(no, id, before)) by {
            if i >= a.len() {
                assert((a + b)[i] == b[i - a.len()]);
                assert(no.contains(no[k]));
                assert(placed_before(no, no[k], if k + 1 < no.len() { Some(no[k + 1]) } else { None }));
            } else {
                assert((a + b)[i] == a[i]);
            }
        }
    }
}

/// Whether change `c` moves a node under `p`.
pub open spec fn moves_under(c: ChangeView, p: u64) -> bool {
    c matches ChangeView::Moved { parent, .. } && parent == p
}

/// A position `i` of `no` whose node stood elsewhere before gets a move
/// under `m` in `moved_from`.
pub proof fn lemma_moved_from_has(m: u64, no: Seq<u64>, pos: Map<u64, (u64, usize)>, k: int, i: int)
    requires
        0 <= k <= i < no.len(),
        pos[no[i]].1 as int != i,
    ensures
        exists|j: int| 0 <= j < moved_from(m, no, pos, k).len() && #[trigger] moves_under(moved_from(m, no, pos, k)[j], m),
    decreases i - k,
{
    let a = moved_from(m, no, pos, k + 1);
    let b = moved_here(m, no, pos, k);
    assert(moved_from(m, no, pos, k) == a + b);
    if k == i {
        assert((a + b)[a.len() as int] == b[0]);
        assert(moves_under((a + b)[a.len() as int], m));
    } else {
        lemma_moved_from_has(m, no, pos, k + 1, i);
        let j = choose|j: int| 0 <= j < a.len() && #[trigger] moves_under(a[j], m);
        assert((a + b)[j] == a[j]);
    }
}

/// Every node of the queue `q` of the set `u` is among those that
/// `removal_order` removes.
pub proof fn lemma_queue_removed(ch: Map<u64, Vec<u64>>, q: Seq<u64>, u: Set<u64>)
    requires
        ch.dom().finite(),
        q.to_set() == u,
    ensures
        forall|z: u64| u.contains(z) ==> #[trigger] removal_order(ch, q).to_set().contains(z),
{
    lemma_removal_covers_queue(ch, q);
    assert forall|z: u64| u.contains(z) implies #[trigger] removal_order(ch, q).to_set().contains(z) by {
        assert(q.to_set().contains(z));
        assert(removal_order(ch, q).contains(z));
    }
}

/// The list left after a round's deletions, with the new nodes after the
/// kept ones, is [`arranged`] of the old children and the new ones.
pub proof fn lemma_arranged(cur: Seq<u64>, appended: Seq<u64>, no: Seq<u64>, taken: Seq<bool>, r: Set<u64>)
    requires
        cur.no_duplicates(),
        taken.len() == cur.len(),
        appended == without(no, cur.to_set()),
        forall|j: int| 0 <= j < cur.len() && #[trigger] taken[j] ==> no.contains(cur[j]),
        forall|k: int| 0 <= k < no.len() ==> (exists|j: int| 0 <= j < cur.len() && taken[j] && cur[j] == #[trigger] no[k])
            || appended.contains(no[k]),
        forall|z: u64| untaken(cur, taken).contains(z) ==> #[trigger] r.contains(z),
        forall|i: int| 0 <= i < cur.len() && r.contains(#[trigger] cur[i]) ==> untaken(cur, taken).contains(cur[i]),
        forall|k: int| 0 <= k < appended.len() ==> !r.contains(#[trigger] appended[k]),
    ensures
        without(cur + appended, r) == arranged(cur, no),
{
    let nr = Set::new(|c: u64| !no.contains(c));
    lemma_without(no, cur.to_set());
    assert forall|i: int| 0 <= i < cur.len() implies (r.contains(#[trigger] cur[i]) <==> nr.contains(cur[i])) by {
        assert(cur.to_set().contains(cur[i]));
        if r.contains(cur[i]) {
            assert(untaken(cur, taken).contains(cur[i]));
            let j = choose|j: int| 0 <= j < cur.len() && !taken[j] && cur[j] == cur[i];
            assert(j == i);
            if no.contains(cur[i]) {
                let k = choose|k: int| 0 <= k < no.len() && no[k] == cur[i];
                if appended.contains(no[k]) {
                    let a = choose|a: int| 0 <= a < appended.len() && appended[a] == no[k];
                    assert(!cur.to_set().contains(appended[a]));
                } else {
                    let j2 = choose|j2: int| 0 <= j2 < cur.len() && taken[j2] && cur[j2] == no[k];
                    assert(j2 == i);
                }
            }
        } else {
            if !no.contains(cur[i]) {
                assert(!taken[i]);
                assert(untaken(cur, taken).contains(cur[i]));
            }
        }
    }
    lemma_without_same(cur, r, nr);
    lemma_without(appended, r);
    lemma_without_add(cur, appended, r);
}

/// A list that keeps its nodes in their places gets no move.
pub proof fn lemma_no_moves_same(p: u64, l: Seq<u64>)
    requires
        l.no_duplicates(),
        l.len() <= usize::MAX + 1,
    ensures
        moved_from(p, l, index_map(p, arranged(l, l)), 0) == Seq::<ChangeView>::empty(),
{
    let keep = Set::new(|c: u64| !l.contains(c));
    lemma_without(l, keep);
    assert forall|i: int| 0 <= i < l.len() implies !keep.contains(#[trigger] l[i]) by {
        assert(l.contains(l[i]));
    }
    lemma_without(l, l.to_set());
    assert(without(l, l.to_set()).len() == 0) by {
        if without(l, l.to_set()).len() > 0 {
            let c = without(l, l.to_set())[0];
            assert(l.contains(c));
            let j = choose|j: int| 0 <= j < l.len() && l[j] == c;
            assert(l.to_set().contains(l[j]));
        }
    }
    assert(arranged(l, l) =~= l);
    let a = arranged(l, l);
    assert forall|i: int| 0 <= i < l.len() implies index_map(p, a)[#[trigger] l[i]].1 as int == i by {
        lemma_index_of_distinct(l, i);
        assert(l.contains(l[i]));
        assert(a.contains(l[i]));
        assert(i <= usize::MAX);
        assert(index_map(p, a)[l[i]] == (p, l.index_of(l[i]) as usize));
    }
    lemma_moved_from_none(p, l, index_map(p, arranged(l, l)), 0);
}

/// When every node of `no` from position `k` on already stands at its
/// position, `moved_from` reports no move.
pub proof fn lemma_moved_from_none(m: u64, no: Seq<u64>, pos: Map<u64, (u64, usize)>, k: int)
    requires
        0 <= k,
        forall|i: int| k <= i < no.len() ==> pos[#[trigger] no[i]].1 as int == i,
    ensures
        moved_from(m, no, pos, k) =~= Seq::<ChangeView>::empty(),
    decreases no.len() - k,
{
    if k < no.len() {
        lemma_moved_from_none(m, no, pos, k + 1);
        assert(pos[no[k]].1 as int == k);
    }
}

/// The `Updated` change that turning the content `a` gives `c` into the
/// content `b` gives it reports, if any.
pub open spec fn update_of(a: Map<u64, FlatNodeView>, b: Map<u64, FlatNodeView>, c: u64) -> Seq<ChangeView> {
    if a.contains_key(c) && a[c] != b[c] {
        seq![ChangeView::Updated { id: c, update: update_between(a[c], b[c]) }]
    } else {
        Seq::empty()
    }
}

/// The `Updated` changes of the nodes of `l`, in order, from the contents
/// `a` to the contents `b`.
pub open spec fn updates_for(a: Map<u64, FlatNodeView>, b: Map<u64, FlatNodeView>, l: Seq<u64>) -> Seq<ChangeView>
    decreases l.len(),
{
    if l.len() == 0 {
        Seq::empty()
    } else {
        updates_for(a, b, l.drop_last()) + update_of(a, b, l.last())
    }
}

/// The `Updated` changes of `ev`, in order.
pub open spec fn updates_of(ev: Seq<ChangeView>) -> Seq<ChangeView> {
    ev.filter(|c: ChangeView| c is Updated)
}

/// The `Updated` changes of `ev` that update a node of `s`, in order.
pub open spec fn updates_in(ev: Seq<ChangeView>, s: Set<u64>) -> Seq<ChangeView> {
    ev.filter(|c: ChangeView| c is Updated && s.contains(c->Updated_id))
}

/// `updates_for` reads the contents of the nodes of `l` alone.
proof fn lemma_updates_for_same(
    a1: Map<u64, FlatNodeView>,
    b1: Map<u64, FlatNodeView>,
    a2: Map<u64, FlatNodeView>,
    b2: Map<u64, FlatNodeView>,
    l: Seq<u64>,
)
    requires
        forall|i: int| 0 <= i < l.len() ==> (a1.contains_key(#[trigger] l[i]) <==> a2.contains_key(l[i])) && (a1.contains_key(
            l[i],
        ) ==> a1[l[i]] == a2[l[i]] && b1[l[i]] == b2[l[i]]),
    ensures
        updates_for(a1, b1, l) == updates_for(a2, b2, l),
    decreases l.len(),
{
    if l.len() > 0 {
        lemma_updates_for_same(a1, b1, a2, b2, l.drop_last());
        assert(l.last() == l[l.len() - 1]);
    }
}

/// Appending a node to `l` appends its update.
proof fn lemma_updates_for_push(a: Map<u64, FlatNodeView>, b: Map<u64, FlatNodeView>, l: Seq<u64>, c: u64)
    ensures
        updates_for(a, b, l.push(c)) == updates_for(a, b, l) + update_of(a, b, c),
{
    assert(l.push(c).drop_last() =~= l);
}

/// The updates of a sequence with one more change.
proof fn lemma_updates_of_push(ev: Seq<ChangeView>, c: ChangeView)
    ensures
        updates_of(ev.push(c)) == if c is Updated {
            updates_of(ev).push(c)
        } else {
            updates_of(ev)
        },
{
    reveal(Seq::filter);
    assert(ev.push(c).drop_last() =~= ev);
}

/// The updates of a sequence without updates.
proof fn lemma_updates_of_none(ev: Seq<ChangeView>)
    requires
        forall|k: int| 0 <= k < ev.len() ==> !(#[trigger] ev[k] is Updated),
    ensures
        updates_of(ev) == Seq::<ChangeView>::empty(),
    decreases ev.len(),
{
    reveal(Seq::filter);
    if ev.len() > 0 {
        lemma_updates_of_none(ev.drop_last());
        assert(!(ev[ev.len() - 1] is Updated));
    }
}

/// The updates of a sequence with none selected.
proof fn lemma_updates_in_none(ev: Seq<ChangeView>, s: Set<u64>)
    requires
        forall|k: int| 0 <= k < ev.len() ==> !(#[trigger] ev[k] is Updated && s.contains(ev[k]->Updated_id)),
    ensures
        updates_in(ev, s) == Seq::<ChangeView>::empty(),
    decreases ev.len(),
{
    reveal(Seq::filter);
    if ev.len() > 0 {
        lemma_updates_in_none(ev.drop_last(), s);
        assert(!(ev[ev.len() - 1] is Updated && s.contains(ev[ev.len() - 1]->Updated_id)));
    }
}

/// When every update of `ev` is of a node of `s`, the updates of nodes of
/// `s` are all its updates.
proof fn lemma_updates_in_of(ev: Seq<ChangeView>, s: Set<u64>)
    requires
        forall|k: int| 0 <= k < ev.len() && #[trigger] ev[k] is Updated ==> s.contains(ev[k]->Updated_id),
    ensures
        updates_in(ev, s) == updates_of(ev),
    decreases ev.len(),
{
    reveal(Seq::filter);
    if ev.len() > 0 {
        lemma_updates_in_of(ev.drop_last(), s);
        let l = ev[ev.len() - 1];
        if l is Updated {
            assert(s.contains(l->Updated_id));
        }
    }
}

/// The updates of two sequences one after the other.
proof fn lemma_updates_in_add(a: Seq<ChangeView>, b: Seq<ChangeView>, s: Set<u64>)
    ensures
        updates_in(a + b, s) == updates_in(a, s) + updates_in(b, s),
{
    Seq::filter_distributes_over_add(a, b, |c: ChangeView| c is Updated && s.contains(c->Updated_id));
}

/// Nodes whose contents stay get no update.
proof fn lemma_updates_for_none(a: Map<u64, FlatNodeView>, b: Map<u64, FlatNodeView>, l: Seq<u64>)
    requires
        forall|i: int| 0 <= i < l.len() && a.contains_key(#[trigger] l[i]) ==> a[l[i]] == b[l[i]],
    ensures
        updates_for(a, b, l) == Seq::<ChangeView>::empty(),
    decreases l.len(),
{
    if l.len() > 0 {
        lemma_updates_for_none(a, b, l.drop_last());
        assert(l.last() == l[l.len() - 1]);
    }
}

/// The `Deleted` changes of `ev`, in order.
pub open spec fn deletes_of(ev: Seq<ChangeView>) -> Seq<ChangeView> {
    ev.filter(|c: ChangeView| c is Deleted)
}

/// The `Deleted` changes of `ev` that delete a node of `s`, in order.
pub open spec fn deletes_in(ev: Seq<ChangeView>, s: Set<u64>) -> Seq<ChangeView> {
    ev.filter(|c: ChangeView| c is Deleted && s.contains(c->Deleted_id))
}

/// The deletions of a sequence with none selected.
proof fn lemma_deletes_in_none(ev: Seq<ChangeView>, s: Set<u64>)
    requires
        forall|k: int| 0 <= k < ev.len() ==> !(#[trigger] ev[k] is Deleted && s.contains(ev[k]->Deleted_id)),
    ensures
        deletes_in(ev, s) == Seq::<ChangeView>::empty(),
    decreases ev.len(),
{
    reveal(Seq::filter);
    if ev.len() > 0 {
        lemma_deletes_in_none(ev.drop_last(), s);
        assert(!(ev[ev.len() - 1] is Deleted && s.contains(ev[ev.len() - 1]->Deleted_id)));
    }
}

/// The deletions of a sequence with all selected.
proof fn lemma_deletes_in_all(ev: Seq<ChangeView>, s: Set<u64>)
    requires
        forall|k: int| 0 <= k < ev.len() ==> #[trigger] ev[k] is Deleted && s.contains(ev[k]->Deleted_id),
    ensures
        deletes_in(ev, s) == ev,
    decreases ev.len(),
{
    reveal(Seq::filter);
    if ev.len() > 0 {
        lemma_deletes_in_all(ev.drop_last(), s);
        assert(ev[ev.len() - 1] is Deleted && s.contains(ev[ev.len() - 1]->Deleted_id));
        assert(ev.drop_last().push(ev.last()) =~= ev);
    }
}

/// The deletions of two sequences one after the other.
proof fn lemma_deletes_in_add(a: Seq<ChangeView>, b: Seq<ChangeView>, s: Set<u64>)
    ensures
        deletes_in(a + b, s) == deletes_in(a, s) + deletes_in(b, s),
{
    Seq::filter_distributes_over_add(a, b, |c: ChangeView| c is Deleted && s.contains(c->Deleted_id));
}

/// When every deletion of `ev` deletes a node of `s`, the deletions of
/// nodes of `s` are all its deletions.
proof fn lemma_deletes_in_of(ev: Seq<ChangeView>, s: Set<u64>)
    requires
        forall|k: int| 0 <= k < ev.len() && #[trigger] ev[k] is Deleted ==> s.contains(ev[k]->Deleted_id),
    ensures
        deletes_in(ev, s) == deletes_of(ev),
    decreases ev.len(),
{
    reveal(Seq::filter);
    if ev.len() > 0 {
        lemma_deletes_in_of(ev.drop_last(), s);
        let l = ev[ev.len() - 1];
        if l is Deleted {
            assert(s.contains(l->Deleted_id));
        }
    }
}

/// Each change that a filter keeps stands in the sequence it filters.
proof fn lemma_filter_member(ev: Seq<ChangeView>, pred: spec_fn(ChangeView) -> bool, i: int)
    requires
        0 <= i < ev.filter(pred).len(),
    ensures
        exists|k: int| 0 <= k < ev.len() && ev[k] == ev.filter(pred)[i],
    decreases ev.len(),
{
    reveal(Seq::filter);
    if ev.len() > 0 {
        let sub = ev.drop_last().filter(pred);
        if i < sub.len() {
            lemma_filter_member(ev.drop_last(), pred, i);
            let k = choose|k: int| 0 <= k < ev.drop_last().len() && ev.drop_last()[k] == sub[i];
            assert(ev[k] == ev.filter(pred)[i]);
        } else {
            assert(ev[ev.len() - 1] == ev.filter(pred)[i]);
        }
    }
}

/// The `Deleted` changes of a sequence of deletions are all of it.
proof fn lemma_deletes_of_all(ev: Seq<ChangeView>)
    requires
        forall|k: int| 0 <= k < ev.len() ==> #[trigger] ev[k] is Deleted,
    ensures
        deletes_of(ev) == ev,
    decreases ev.len(),
{
    reveal(Seq::filter);
    if ev.len() > 0 {
        lemma_deletes_of_all(ev.drop_last());
        assert(ev[ev.len() - 1] is Deleted);
        assert(ev.drop_last().push(ev.last()) =~= ev);
    }
}

/// A sequence without deletions has none.
proof fn lemma_deletes_of_none(ev: Seq<ChangeView>)
    requires
        forall|k: int| 0 <= k < ev.len() ==> !(#[trigger] ev[k] is Deleted),
    ensures
        deletes_of(ev) == Seq::<ChangeView>::empty(),
    decreases ev.len(),
{
    reveal(Seq::filter);
    if ev.len() > 0 {
        lemma_deletes_of_none(ev.drop_last());
        assert(!(ev[ev.len() - 1] is Deleted));
    }
}

/// Whether no two `Updated` changes of `ev` update the same node.
pub open spec fn updates_distinct(ev: Seq<ChangeView>) -> bool {
    forall|k1: int, k2: int| 0 <= k1 < k2 < ev.len() && #[trigger] ev[k1] is Updated && #[trigger] ev[k2] is Updated
        ==> ev[k1]->Updated_id != ev[k2]->Updated_id
}

/// Whether no two `Deleted` changes of `ev` delete the same node.
pub open spec fn deletes_distinct(ev: Seq<ChangeView>) -> bool {
    forall|k1: int, k2: int| 0 <= k1 < k2 < ev.len() && #[trigger] ev[k1] is Deleted && #[trigger] ev[k2] is Deleted
        ==> ev[k1]->Deleted_id != ev[k2]->Deleted_id
}

/// The `Created` changes of `ev`, in order.
pub open spec fn creates_of(ev: Seq<ChangeView>) -> Seq<ChangeView> {
    ev.filter(|c: ChangeView| c is Created)
}

/// Whether the changes `cs` create, one after the other, the identities
/// from `lo` on.
pub open spec fn created_from(cs: Seq<ChangeView>, lo: int) -> bool {
    forall|i: int| 0 <= i < cs.len() ==> (#[trigger] cs[i] matches ChangeView::Created { id, .. } && id == lo + i)
}

/// Whether the changes of `ev` from position `from` on create, one after
/// the other, exactly the identities from `lo` up to `hi`.
#[verifier::opaque]
pub open spec fn creates_in(ev: Seq<ChangeView>, from: int, lo: int, hi: int) -> bool {
    let cs = creates_of(ev.subrange(from, ev.len() as int));
    cs.len() == hi - lo && created_from(cs, lo)
}

/// Creations of a sequence with none.
proof fn lemma_creates_of_none(ev: Seq<ChangeView>)
    requires
        forall|k: int| 0 <= k < ev.len() ==> !(#[trigger] ev[k] is Created),
    ensures
        creates_of(ev) == Seq::<ChangeView>::empty(),
    decreases ev.len(),
{
    reveal(Seq::filter);
    if ev.len() > 0 {
        lemma_creates_of_none(ev.drop_last());
        assert(!(ev[ev.len() - 1] is Created));
    }
}

/// Creations of a sequence of creations.
proof fn lemma_creates_of_all(ev: Seq<ChangeView>)
    requires
        forall|k: int| 0 <= k < ev.len() ==> #[trigger] ev[k] is Created,
    ensures
        creates_of(ev) == ev,
    decreases ev.len(),
{
    reveal(Seq::filter);
    if ev.len() > 0 {
        lemma_creates_of_all(ev.drop_last());
        assert(ev[ev.len() - 1] is Created);
        assert(ev.drop_last().push(ev.last()) =~= ev);
    }
}

/// Creations of two sequences one after the other.
proof fn lemma_creates_of_add(a: Seq<ChangeView>, b: Seq<ChangeView>)
    ensures
        creates_of(a + b) == creates_of(a) + creates_of(b),
{
    Seq::filter_distributes_over_add(a, b, |c: ChangeView| c is Created);
}

/// Nothing is created from the end of a sequence on.
proof fn lemma_creates_in_start(ev: Seq<ChangeView>, n: int)
    ensures
        creates_in(ev, ev.len() as int, n, n),
{
    reveal(creates_in);
    lemma_creates_of_none(ev.subrange(ev.len() as int, ev.len() as int));
}

/// Appending changes that create nothing keeps [`creates_in`].
proof fn lemma_creates_in_other(ev: Seq<ChangeView>, tail: Seq<ChangeView>, from: int, lo: int, hi: int)
    requires
        0 <= from <= ev.len(),
        creates_in(ev, from, lo, hi),
        forall|k: int| 0 <= k < tail.len() ==> !(#[trigger] tail[k] is Created),
    ensures
        creates_in(ev + tail, from, lo, hi),
{
    reveal(creates_in);
    assert((ev + tail).subrange(from, (ev + tail).len() as int) =~= ev.subrange(from, ev.len() as int) + tail);
    lemma_creates_of_add(ev.subrange(from, ev.len() as int), tail);
    lemma_creates_of_none(tail);
    assert(creates_of(ev.subrange(from, ev.len() as int)) + Seq::<ChangeView>::empty() =~= creates_of(ev.subrange(
        from,
        ev.len() as int,
    )));
}

/// Appending the creations of `entries` from `hi` on extends [`creates_in`].
proof fn lemma_creates_in_entries(ev: Seq<ChangeView>, entries: Seq<(FlatNodeView, u64)>, from: int, lo: int, hi: int)
    requires
        0 <= from <= ev.len(),
        0 <= hi,
        hi + entries.len() <= u64::MAX + 1,
        creates_in(ev, from, lo, hi),
    ensures
        creates_in(ev + created_views(entries, hi), from, lo, hi + entries.len()),
{
    reveal(creates_in);
    let cv = created_views(entries, hi);
    let a = ev.subrange(from, ev.len() as int);
    assert((ev + cv).subrange(from, (ev + cv).len() as int) =~= a + cv);
    lemma_creates_of_add(a, cv);
    assert forall|k: int| 0 <= k < cv.len() implies #[trigger] cv[k] is Created by {}
    lemma_creates_of_all(cv);
    let cs = creates_of(a) + cv;
    assert forall|i: int| 0 <= i < cs.len() implies (#[trigger] cs[i] matches ChangeView::Created { id, .. } && id == lo + i) by {
        if i >= creates_of(a).len() {
            let k = i - creates_of(a).len();
            assert(cs[i] == cv[k]);
            assert(0 <= hi + k <= u64::MAX);
        }
    }
}

/// [`creates_in`] of a prefix and of the rest give it for the whole.
proof fn lemma_creates_in_join(a: Seq<ChangeView>, b: Seq<ChangeView>, lo: int, mid: int, hi: int)
    requires
        b.len() >= a.len(),
        b.subrange(0, a.len() as int) == a,
        creates_in(a, 0, lo, mid),
        creates_in(b, a.len() as int, mid, hi),
    ensures
        creates_in(b, 0, lo, hi),
{
    reveal(creates_in);
    let t = b.subrange(a.len() as int, b.len() as int);
    assert(b.subrange(0, b.len() as int) =~= a + t);
    assert(a.subrange(0, a.len() as int) =~= a);
    lemma_creates_of_add(a, t);
    let cs = creates_of(a) + creates_of(t);
    assert forall|i: int| 0 <= i < cs.len() implies (#[trigger] cs[i] matches ChangeView::Created { id, .. } && id == lo + i) by {
        if i >= creates_of(a).len() {
            assert(cs[i] == creates_of(t)[i - creates_of(a).len()]);
        } else {
            assert(cs[i] == creates_of(a)[i]);
        }
    }
}

/// The `Moved` changes of `ev` whose parent is `p`, in order.
pub open spec fn moves_of(ev: Seq<ChangeView>, p: u64) -> Seq<ChangeView> {
    ev.filter(|c: ChangeView| moves_under(c, p))
}

/// Each node of `l` under `p` at its index in `l`.
pub open spec fn index_map(p: u64, l: Seq<u64>) -> Map<u64, (u64, usize)> {
    Map::new(|c: u64| l.contains(c), |c: u64| (p, l.index_of(c) as usize))
}

/// The children a node has once its old children `old_list` that the new
/// children `new_list` leave out are gone and the new nodes of `new_list`
/// stand after them in their order: the list that the moves of a rendering
/// start from.
pub open spec fn arranged(old_list: Seq<u64>, new_list: Seq<u64>) -> Seq<u64> {
    without(old_list, Set::new(|c: u64| !new_list.contains(c))) + without(new_list, old_list.to_set())
}

/// A sequence none of whose changes is a move under `p` has no such move.
pub proof fn lemma_moves_of_none(ev: Seq<ChangeView>, p: u64)
    requires
        forall|k: int| 0 <= k < ev.len() ==> !moves_under(#[trigger] ev[k], p),
    ensures
        moves_of(ev, p) == Seq::<ChangeView>::empty(),
    decreases ev.len(),
{
    reveal(Seq::filter);
    if ev.len() > 0 {
        lemma_moves_of_none(ev.drop_last(), p);
        assert(!moves_under(ev[ev.len() - 1], p));
    }
}

/// A sequence all of whose changes are moves under `p` is its own moves.
pub proof fn lemma_moves_of_all(ev: Seq<ChangeView>, p: u64)
    requires
        forall|k: int| 0 <= k < ev.len() ==> moves_under(#[trigger] ev[k], p),
    ensures
        moves_of(ev, p) == ev,
    decreases ev.len(),
{
    reveal(Seq::filter);
    if ev.len() > 0 {
        lemma_moves_of_all(ev.drop_last(), p);
        assert(moves_under(ev[ev.len() - 1], p));
        assert(ev.drop_last().push(ev.last()) =~= ev);
    }
}

/// The moves of two sequences one after the other.
pub proof fn lemma_moves_of_add(a: Seq<ChangeView>, b: Seq<ChangeView>, p: u64)
    ensures
        moves_of(a + b, p) == moves_of(a, p) + moves_of(b, p),
{
    Seq::filter_distributes_over_add(a, b, |c: ChangeView| moves_under(c, p));
}

/// `moved_from` reads the positions of the nodes of `no` alone.
pub proof fn lemma_moved_from_same(m: u64, no: Seq<u64>, p1: Map<u64, (u64, usize)>, p2: Map<u64, (u64, usize)>, k: int)
    requires
        forall|i: int| 0 <= i < no.len() ==> p1[#[trigger] no[i]].1 == p2[no[i]].1,
    ensures
        moved_from(m, no, p1, k) == moved_from(m, no, p2, k),
    decreases no.len() - k,
{
    if !(k < 0 || k >= no.len()) {
        lemma_moved_from_same(m, no, p1, p2, k + 1);
        assert(p1[no[k]].1 == p2[no[k]].1);
    }
}

/// `without` keeps what two sets agree on keeping.
pub proof fn lemma_without_same(s: Seq<u64>, r1: Set<u64>, r2: Set<u64>)
    requires
        forall|i: int| 0 <= i < s.len() ==> (r1.contains(#[trigger] s[i]) <==> r2.contains(s[i])),
    ensures
        without(s, r1) == without(s, r2),
    decreases s.len(),
{
    if s.len() > 0 {
        lemma_without_same(s.drop_last(), r1, r2);
        assert(r1.contains(s[s.len() - 1]) <==> r2.contains(s[s.len() - 1]));
    }
}

/// `without` of two sequences one after the other.
pub proof fn lemma_without_add(a: Seq<u64>, b: Seq<u64>, r: Set<u64>)
    ensures
        without(a + b, r) == without(a, r) + without(b, r),
    decreases b.len(),
{
    if b.len() == 0 {
        assert(a + b =~= a);
        assert(without(b, r) =~= Seq::<u64>::empty());
        assert(without(a, r) + without(b, r) =~= without(a, r));
    } else {
        lemma_without_add(a, b.drop_last(), r);
        assert((a + b).drop_last() =~= a + b.drop_last());
        assert((a + b).last() == b.last());
        if !r.contains(b.last()) {
            assert(without(a, r) + without(b.drop_last(), r).push(b.last()) =~= (without(a, r) + without(
                b.drop_last(),
                r,
            )).push(b.last()));
        }
    }
}

/// In a list without repeats, the index of each entry is where it stands.
pub proof fn lemma_index_of_distinct(l: Seq<u64>, i: int)
    requires
        l.no_duplicates(),
        0 <= i < l.len(),
    ensures
        l.index_of(l[i]) == i,
{
    assert(l.contains(l[i]));
    let j = l.index_of(l[i]);
    assert(0 <= j < l.len() && l[j] == l[i]);
}

/// The nodes that rendering under `x` keeps while it settles the children
/// of the nodes of `done`: `x` itself, and every child of a node of `done`
/// that is not among `gone`.
pub open spec fn kept_set(x: u64, done: Set<u64>, parents: Map<u64, (u64, usize)>, gone: Set<u64>) -> Set<u64> {
    Set::new(|z: u64| z == x || (parents.contains_key(z) && done.contains(parents[z].0) && !gone.contains(z)))
}

/// The current children that no new child took.
pub open spec fn untaken(cur: Seq<u64>, taken: Seq<bool>) -> Set<u64> {
    Set::new(|z: u64| exists|j: int| 0 <= j < cur.len() && !taken[j] && cur[j] == z)
}

/// Whether a node is a window that asks to replace the windows of its app
/// left behind by connections that went away: an element `Window` whose
/// `replace` attribute is `true`.
pub open spec fn is_replacing_window(n: FlatNodeView) -> bool {
    &&& n is Element
    &&& n->Element_0.tag == "Window"@
    &&& n->Element_0.attributes.contains_key("replace"@)
    &&& n->Element_0.attributes["replace"@] == crate::json::JsonView::Bool(true)
}

/// Only an element `Window` whose `stale` attribute is not `true` is still
/// to be marked stale: a node of any other kind or tag never is.
pub proof fn lemma_needs_stale_exactly(n: FlatNodeView)
    ensures
        needs_stale(n) <==> (n is Element && n->Element_0.tag == "Window"@ && !(n->Element_0.attributes.contains_key(
            "stale"@) && n->Element_0.attributes["stale"@] == crate::json::JsonView::Bool(true))),
        !(n is Element && n->Element_0.tag == "Window"@) ==> !needs_stale(n),
{
}

/// A window marked stale is not marked again, and keeps its tag and its
/// other attributes.
pub proof fn lemma_stale_once(n: FlatNodeView)
    requires
        n is Element,
    ensures
        !needs_stale(with_stale(n)),
        with_stale(n)->Element_0.tag == n->Element_0.tag,
        forall|k: Seq<char>| k != "stale"@ ==> (with_stale(n)->Element_0.attributes.contains_key(k)
            == n->Element_0.attributes.contains_key(k)) && (n->Element_0.attributes.contains_key(k)
            ==> with_stale(n)->Element_0.attributes[k] == n->Element_0.attributes[k]),
{
}

/// The update that marks a window stale, applied to an element, sets its
/// `stale` attribute to `true` and keeps everything else.
pub proof fn lemma_stale_update_marks(n: FlatNodeView)
    requires
        n is Element,
    ensures
        crate::update::apply_update(n, stale_update()) == with_stale(n),
        crate::update::apply_update(n, stale_update())->Element_0.attributes["stale"@] == crate::json::JsonView::Bool(true),
{
    let e = n->Element_0;
    let m = e.attributes.remove_keys(Set::empty()).union_prefer_right(
        Map::<Seq<char>, crate::json::JsonView>::empty().insert("stale"@, crate::json::JsonView::Bool(true)),
    );
    assert(m =~= e.attributes.insert("stale"@, crate::json::JsonView::Bool(true)));
}

/// The changes of marking windows stale update only the windows among the
/// nodes marked, each with `stale` set to `true`, in their order.
pub proof fn lemma_stale_changes_windows(nodes: Map<u64, FlatNodeView>, q: Seq<u64>)
    ensures
        forall|k: int| 0 <= k < stale_changes(nodes, q).len() ==> (#[trigger] stale_changes(nodes, q)[k] matches ChangeView::Updated {
            id,
            update,
        } && q.contains(id) && nodes[id] is Element && nodes[id]->Element_0.tag == "Window"@ && update == stale_update()),
        stale_changes(nodes, q).len() <= q.len(),
    decreases q.len(),
{
    if q.len() > 0 {
        lemma_stale_changes_windows(nodes, q.drop_last());
        let rest = stale_changes(nodes, q.drop_last());
        assert forall|k: int| 0 <= k < stale_changes(nodes, q).len() implies (#[trigger] stale_changes(nodes, q)[k] matches ChangeView::Updated {
            id,
            update,
        } && q.contains(id) && nodes[id] is Element && nodes[id]->Element_0.tag == "Window"@ && update == stale_update()) by {
            if k < rest.len() {
                assert(stale_changes(nodes, q)[k] == rest[k]);
                let id = rest[k]->Updated_id;
                assert(q.drop_last().contains(id));
                let i = choose|i: int| 0 <= i < q.drop_last().len() && q.drop_last()[i] == id;
                assert(q[i] == id);
            } else {
                assert(q[q.len() - 1] == q.last());
            }
        }
    }
}

/// A close event closes its target exactly when the target is an element
/// `Window` directly under the root, whatever its attributes.
pub proof fn lemma_closes_window_exactly(w: World, t: u64, name: Seq<char>)
    ensures
        closes_window(w, t, name) <==> (name == "close"@ && w.node_map().contains_key(t) && w.node_map()[t] is Element
            && w.node_map()[t]->Element_0.tag == "Window"@ && w.parent_map().contains_key(t) && w.parent_map()[t].0
            == ROOT_NODE_RAW),
{
}

/// The view of an optional string.
pub open spec fn opt_text(s: Option<String>) -> Option<Seq<char>> {
    match s {
        Some(t) => Some(t@),
        None => None,
    }
}

/// Another handle on the same shared node content. The contract claims of
/// `Arc::clone` only what its documentation states: the new `Arc` points to
/// the same value.
#[verifier::external_body]
pub(crate) fn share_node(node: &Arc<FlatNode>) -> (r: Arc<FlatNode>)
    ensures
        r == *node,
{
    Arc::clone(node)
}

/// Whether `s` holds the text of the literal `lit`.
fn text_is(s: &String, lit: &str) -> (r: bool)
    ensures
        r == (s@ == lit@),
{
    let l = lit.to_string();
    proof {
        vstd::string::to_string_from_display_ensures_for_str(lit, l);
    }
    string_eq(s, &l)
}

/// Whether a window of a connection that went away still has to be marked
/// stale: an element `Window` whose `stale` attribute is not `true`.
pub open spec fn needs_stale(n: FlatNodeView) -> bool {
    &&& n is Element
    &&& n->Element_0.tag == "Window"@
    &&& !(n->Element_0.attributes.contains_key("stale"@) && n->Element_0.attributes["stale"@]
        == crate::json::JsonView::Bool(true))
}

/// A node with its `stale` attribute set to `true`.
pub open spec fn with_stale(n: FlatNodeView) -> FlatNodeView {
    match n {
        FlatNodeView::Element(e) => FlatNodeView::Element(crate::node::FlatElementView {
            tag: e.tag,
            attributes: e.attributes.insert("stale"@, crate::json::JsonView::Bool(true)),
        }),
        FlatNodeView::Text(t) => FlatNodeView::Text(t),
    }
}

/// The update that marks a node stale.
pub open spec fn stale_update() -> crate::update::NodeUpdateView {
    crate::update::NodeUpdateView::Element {
        set: Map::<Seq<char>, crate::json::JsonView>::empty().insert("stale"@, crate::json::JsonView::Bool(true)),
        clear: Set::empty(),
    }
}

/// The `Updated` changes that marking the windows among `q` stale reports,
/// in the order of `q`, where `nodes` gives the content of each node.
pub open spec fn stale_changes(nodes: Map<u64, FlatNodeView>, q: Seq<u64>) -> Seq<ChangeView>
    decreases q.len(),
{
    if q.len() == 0 {
        Seq::empty()
    } else {
        let rest = stale_changes(nodes, q.drop_last());
        if needs_stale(nodes[q.last()]) {
            rest.push(ChangeView::Updated { id: q.last(), update: stale_update() })
        } else {
            rest
        }
    }
}

/// Whether triggering the event `name` on node `t` closes a window: the
/// event is `close` and `t` is an element `Window` directly under the root.
pub open spec fn closes_window(w: World, t: u64, name: Seq<char>) -> bool {
    &&& name == "close"@
    &&& w.node_map().contains_key(t)
    &&& w.node_map()[t] is Element
    &&& w.node_map()[t]->Element_0.tag == "Window"@
    &&& w.parent_map().contains_key(t)
    &&& w.parent_map()[t].0 == ROOT_NODE_RAW
}

/// What a connection record reports of itself.
pub open spec fn details_view(id: u64, rec: ConnectionRecord) -> ConnectionDetails {
    ConnectionDetails {
        connection_id: ConnectionId(id),
        connected: rec.connected,
        weird_protocol_version: rec.weird_protocol_version,
        client: rec.init_request.client,
    }
}

/// Whether node `id` of `w` holds the tree `n`: it has the content of `n`
/// and, for an element, its children hold the children of `n`, in order.
pub open spec fn holds_tree(w: World, id: u64, n: Node) -> bool
    decreases n,
{
    &&& w.node_map().contains_key(id)
    &&& w.node_map()[id] == flat_of(n)
    &&& match n {
        Node::Text(_) => true,
        Node::Element(e) => {
            &&& w.child_map().contains_key(id)
            &&& w.child_map()[id].len() == e.children@.len()
            &&& forall|i: int| 0 <= i < e.children@.len() ==> holds_tree(w, #[trigger] w.child_map()[id][i], e.children@[i])
        },
    }
}

/// Whether appending `node` to `w` leaves identities for all its nodes.
pub open spec fn next_ok(w: World, node: Node) -> bool {
    w.spec_next_node_id() + tree_size(node) <= u64::MAX
}

/// The first position from `j` on of `ck` that is not taken and holds `key`.
pub open spec fn first_free(ck: Seq<NodeMatchKeyView>, taken: Seq<bool>, key: NodeMatchKeyView, j: int) -> Option<int>
    decreases ck.len() - j,
{
    if j < 0 || j >= ck.len() {
        None
    } else if !taken[j] && ck[j] == key {
        Some(j)
    } else {
        first_free(ck, taken, key, j + 1)
    }
}

/// Which of the keys `ck` of the current children are taken once the new
/// children with keys `nk[0..t]` have each taken the first free one with
/// their key.
pub open spec fn taken_after(ck: Seq<NodeMatchKeyView>, nk: Seq<NodeMatchKeyView>, t: nat) -> Seq<bool>
    decreases t,
{
    if t == 0 {
        Seq::new(ck.len(), |i: int| false)
    } else {
        let prev = taken_after(ck, nk, (t - 1) as nat);
        match first_free(ck, prev, nk[t - 1], 0) {
            Some(j) => prev.update(j, true),
            None => prev,
        }
    }
}

/// The current child, if any, that the new child `k` takes: the first one
/// with its key that no earlier new child took.
pub open spec fn picked(ck: Seq<NodeMatchKeyView>, nk: Seq<NodeMatchKeyView>, k: int) -> Option<int> {
    first_free(ck, taken_after(ck, nk, k as nat), nk[k], 0)
}

/// The match keys of a sequence of nodes.
pub open spec fn node_keys(s: Seq<Node>) -> Seq<NodeMatchKeyView> {
    Seq::new(s.len(), |i: int| key_of(flat_of(s[i])))
}

/// The match keys of the nodes `ids` by the contents `nm`.
pub open spec fn keys_of_ids(nm: Map<u64, FlatNodeView>, ids: Seq<u64>) -> Seq<NodeMatchKeyView> {
    Seq::new(ids.len(), |j: int| key_of(nm[ids[j]]))
}

/// A position found by a scan from `j` is the first free one from `j`.
pub proof fn lemma_first_free(ck: Seq<NodeMatchKeyView>, taken: Seq<bool>, key: NodeMatchKeyView, j: int, r: Option<int>)
    requires
        0 <= j,
        taken.len() == ck.len(),
        match r {
            Some(f) => j <= f < ck.len() && !taken[f] && ck[f] == key && forall|i: int| j <= i < f ==> taken[i] || ck[i] != key,
            None => forall|i: int| j <= i < ck.len() ==> taken[i] || ck[i] != key,
        },
    ensures
        first_free(ck, taken, key, j) == r,
    decreases ck.len() - j,
{
    if j < ck.len() {
        match r {
            Some(f) => {
                if f != j {
                    lemma_first_free(ck, taken, key, j + 1, r);
                }
            },
            None => {
                lemma_first_free(ck, taken, key, j + 1, r);
            },
        }
    }
}

/// When the new keys are the current keys, the first `t` new children take
/// the first `t` current children.
proof fn lemma_taken_prefix(ck: Seq<NodeMatchKeyView>, t: nat)
    requires
        t <= ck.len(),
    ensures
        taken_after(ck, ck, t) == Seq::new(ck.len(), |i: int| i < t),
    decreases t,
{
    if t > 0 {
        lemma_taken_prefix(ck, (t - 1) as nat);
        let prev = taken_after(ck, ck, (t - 1) as nat);
        lemma_first_free(ck, prev, ck[t - 1], 0, Some(t - 1));
        assert(prev.update(t - 1, true) =~= Seq::new(ck.len(), |i: int| i < t));
    } else {
        assert(taken_after(ck, ck, 0) =~= Seq::new(ck.len(), |i: int| i < 0));
    }
}

/// Rendering new children whose keys are, one for one, the keys of the
/// current children takes each current child in place: new child `k`
/// takes current child `k`.
pub proof fn lemma_same_keys_take_in_place(ck: Seq<NodeMatchKeyView>, k: int)
    requires
        0 <= k < ck.len(),
    ensures
        picked(ck, ck, k) == Some(k),
{
    lemma_taken_prefix(ck, k as nat);
    lemma_first_free(ck, taken_after(ck, ck, k as nat), ck[k], 0, Some(k));
}

/// What a scan for a free key from `j` finds: the first position from `j`
/// on that is free and has the key, or none when there is no such position.
proof fn lemma_first_free_result(ck: Seq<NodeMatchKeyView>, taken: Seq<bool>, key: NodeMatchKeyView, j: int)
    requires
        0 <= j,
        taken.len() == ck.len(),
    ensures
        match first_free(ck, taken, key, j) {
            Some(f) => j <= f < ck.len() && !taken[f] && ck[f] == key && forall|i: int| j <= i < f ==> taken[i] || ck[i]
                != key,
            None => forall|i: int| j <= i < ck.len() ==> taken[i] || ck[i] != key,
        },
    decreases ck.len() - j,
{
    if j < ck.len() {
        if !(!taken[j] && ck[j] == key) {
            lemma_first_free_result(ck, taken, key, j + 1);
        }
    }
}

/// A current child is taken after the first `t` new children exactly when
/// one of them picked it.
proof fn lemma_taken_exactly(ck: Seq<NodeMatchKeyView>, nk: Seq<NodeMatchKeyView>, t: nat)
    requires
        t <= nk.len(),
    ensures
        taken_after(ck, nk, t).len() == ck.len(),
        forall|i: int| 0 <= i < ck.len() ==> (#[trigger] taken_after(ck, nk, t)[i] <==> exists|k: int| 0 <= k < t
            && picked(ck, nk, k) == Some(i)),
    decreases t,
{
    if t > 0 {
        let t1 = (t - 1) as nat;
        lemma_taken_exactly(ck, nk, t1);
        let prev = taken_after(ck, nk, t1);
        lemma_first_free_result(ck, prev, nk[t - 1], 0);
        assert(picked(ck, nk, t - 1) == first_free(ck, prev, nk[t - 1], 0));
        assert forall|i: int| 0 <= i < ck.len() implies (#[trigger] taken_after(ck, nk, t)[i] <==> exists|k: int| 0 <= k < t
            && picked(ck, nk, k) == Some(i)) by {
            if taken_after(ck, nk, t)[i] {
                if prev[i] {
                    let k = choose|k: int| 0 <= k < t1 && picked(ck, nk, k) == Some(i);
                } else {
                    assert(picked(ck, nk, t - 1) == Some(i));
                }
            }
            if exists|k: int| 0 <= k < t && picked(ck, nk, k) == Some(i) {
                let k = choose|k: int| 0 <= k < t && picked(ck, nk, k) == Some(i);
                if k < t1 {
                    assert(prev[i]);
                }
            }
        }
    }
}

/// How the new children take the current ones: new child `k` takes a
/// current child with its key that no earlier new child took, the first
/// such one; it takes none only when every current child with its key is
/// taken by an earlier new child. So no current child is taken twice, and
/// children with distinct keys (see [`crate::matchkey::lemma_key_matches`])
/// never take each other's nodes.
pub proof fn lemma_picked_law(ck: Seq<NodeMatchKeyView>, nk: Seq<NodeMatchKeyView>, k: int)
    requires
        0 <= k < nk.len(),
    ensures
        match picked(ck, nk, k) {
            Some(j) => {
                &&& 0 <= j < ck.len()
                &&& ck[j] == nk[k]
                &&& forall|k2: int| 0 <= k2 < k ==> picked(ck, nk, k2) != Some(j)
                &&& forall|i: int| 0 <= i < j && ck[i] == nk[k] ==> exists|k2: int| 0 <= k2 < k && picked(ck, nk, k2)
                    == Some(i)
            },
            None => forall|i: int| 0 <= i < ck.len() && ck[i] == nk[k] ==> exists|k2: int| 0 <= k2 < k && picked(
                ck,
                nk,
                k2,
            ) == Some(i),
        },
{
    lemma_taken_exactly(ck, nk, k as nat);
    let tk = taken_after(ck, nk, k as nat);
    lemma_first_free_result(ck, tk, nk[k], 0);
    match picked(ck, nk, k) {
        Some(j) => {
            assert(!tk[j]);
            assert forall|i: int| 0 <= i < j && ck[i] == nk[k] implies exists|k2: int| 0 <= k2 < k && picked(ck, nk, k2)
                == Some(i) by {
                assert(tk[i]);
            }
        },
        None => {
            assert forall|i: int| 0 <= i < ck.len() && ck[i] == nk[k] implies exists|k2: int| 0 <= k2 < k && picked(
                ck,
                nk,
                k2,
            ) == Some(i) by {
                assert(tk[i]);
            }
        },
    }
}

/// The position of the first key in `keys` that equals `key` and is not taken.
fn find_unmatched(keys: &Vec<NodeMatchKey>, taken: &Vec<bool>, key: &NodeMatchKey) -> (r: Option<usize>)
    requires
        keys@.len() == taken@.len(),
    ensures
        match r {
            Some(j) => j < keys@.len() && !taken@[j as int] && keys@[j as int]@ == key@ && forall|i: int|
                0 <= i < j ==> taken@[i] || keys@[i]@ != key@,
            None => forall|i: int| 0 <= i < keys@.len() ==> taken@[i] || keys@[i]@ != key@,
        },
{
    let n = keys.len();
    for j in 0..n
        invariant
            n == keys@.len(),
            keys@.len() == taken@.len(),
            forall|i: int| 0 <= i < j ==> taken@[i] || keys@[i]@ != key@,
    {
        if !taken[j] && keys[j].same_as(key) {
            return Some(j);
        }
    }
    None
}

impl World {
    /// The content of each node, by identity.
    pub closed spec fn node_map(&self) -> Map<u64, FlatNodeView> {
        Map::new(|k: u64| self.nodes@.contains_key(k), |k: u64| self.nodes@[k]@)
    }

    /// The parent of each non-root node, and its position among its siblings.
    pub closed spec fn parent_map(&self) -> Map<u64, (u64, usize)> {
        self.parents@
    }

    /// The ordered children of each element node.
    pub closed spec fn child_map(&self) -> Map<u64, Seq<u64>> {
        Map::new(|k: u64| self.children@.contains_key(k), |k: u64| self.children@[k]@)
    }

    /// The connection that created each non-root node.
    pub closed spec fn owner_map(&self) -> Map<u64, u64> {
        self.connection_by_node@
    }

    /// The identity the next created node gets.
    pub closed spec fn spec_next_node_id(&self) -> u64 {
        self.next_node_id
    }

    /// The identity the next connection gets.
    pub closed spec fn spec_next_connection_id(&self) -> u64 {
        self.next_connection_id
    }

    /// The connections the world knows, by identity.
    pub closed spec fn connection_map(&self) -> Map<u64, ConnectionRecord> {
        self.connections@
    }

    /// The shape of the tree: parents and children agree, every element has a
    /// child list, and a parent's identity is smaller than its child's.
    pub closed spec fn tree_wf(&self) -> bool {
        &&& forall|p: u64| #[trigger] self.children@.contains_key(p) ==> self.nodes@.contains_key(p)
            && self.nodes@[p]@ is Element
        &&& forall|n: u64| #[trigger] self.nodes@.contains_key(n) && self.nodes@[n]@ is Element
            ==> self.children@.contains_key(n)
        &&& forall|p: u64, i: int| #![trigger self.children@[p]@[i]]
            self.children@.contains_key(p) && 0 <= i < self.children@[p]@.len()
            ==> self.parents@.contains_key(self.children@[p]@[i])
            && self.parents@[self.children@[p]@[i]].0 == p && self.parents@[self.children@[p]@[i]].1 as int == i
        &&& forall|c: u64| #[trigger] self.parents@.contains_key(c) ==> {
            let (p, i) = self.parents@[c];
            &&& self.children@.contains_key(p)
            &&& (i as int) < self.children@[p]@.len()
            &&& self.children@[p]@[i as int] == c
            &&& self.nodes@.contains_key(c)
            &&& p < c
        }
        &&& forall|n: u64| #[trigger] self.nodes@.contains_key(n) ==> n < self.next_node_id
            && (n != ROOT_NODE_RAW ==> self.parents@.contains_key(n))
    }

    /// Ownership: every non-root node belongs to one connection, and
    /// `nodes_by_connection` groups the nodes of each connection.
    pub closed spec fn owner_wf(&self) -> bool {
        &&& forall|n: u64| #[trigger] self.connection_by_node@.contains_key(n) <==> (
            self.nodes@.contains_key(n) && n != ROOT_NODE_RAW)
        &&& forall|c: u64| #[trigger] self.nodes_by_connection@.contains_key(c) ==> (
            forall|n: u64| #[trigger] self.nodes_by_connection@[c]@.contains(n) <==> (
                self.connection_by_node@.contains_key(n) && self.connection_by_node@[n] == c))
        &&& forall|n: u64| #[trigger] self.connection_by_node@.contains_key(n)
            ==> self.nodes_by_connection@.contains_key(self.connection_by_node@[n])
        &&& forall|c: u64| #[trigger] self.nodes_by_connection@.contains_key(c)
            ==> self.nodes_by_connection@[c]@ != Set::<u64>::empty()
    }

    /// The world's invariant.
    pub closed spec fn wf(&self) -> bool {
        &&& self.tree_wf()
        &&& self.owner_wf()
    }

    /// A world holding only the root node, a `World` element.
    pub fn new() -> (w: World)
        ensures
            w.wf(),
            w.node_map() == Map::<u64, FlatNodeView>::empty().insert(
                ROOT_NODE_RAW,
                FlatNodeView::Element(crate::node::FlatElementView { tag: "World"@, attributes: Map::empty() }),
            ),
            w.child_map() == Map::<u64, Seq<u64>>::empty().insert(ROOT_NODE_RAW, Seq::empty()),
            w.parent_map() == Map::<u64, (u64, usize)>::empty(),
            w.owner_map() == Map::<u64, u64>::empty(),
            w.connection_map().is_empty(),
            w.spec_next_node_id() == ROOT_NODE_RAW + 1,
            w.spec_next_connection_id() == 1,
    {
        let root = FlatNode::Element(FlatElement::new("World"));
        let mut nodes = BTreeMap::new();
        nodes.insert(ROOT_NODE_RAW, Arc::new(root));
        let mut children = BTreeMap::new();
        children.insert(ROOT_NODE_RAW, Vec::new());
        let w = World {
            next_node_id: ROOT_NODE_RAW + 1,
            next_connection_id: 1,
            nodes,
            parents: BTreeMap::new(),
            children,
            connection_by_node: BTreeMap::new(),
            nodes_by_connection: BTreeMap::new(),
            connections: BTreeMap::new(),
        };
        assert(w.node_map() =~= Map::<u64, FlatNodeView>::empty().insert(
            ROOT_NODE_RAW,
            FlatNodeView::Element(crate::node::FlatElementView { tag: "World"@, attributes: Map::empty() }),
        ));
        assert(w.child_map() =~= Map::<u64, Seq<u64>>::empty().insert(ROOT_NODE_RAW, Seq::empty()));
        w
    }

    /// Places one node as the last child of `parent`, owned by `conn`, under
    /// the next free identity.
    fn insert_one(&mut self, node: FlatNode, parent: u64, conn: u64) -> (id: u64)
        requires
            old(self).wf(),
            old(self).children@.contains_key(parent),
            old(self).next_node_id < u64::MAX,
        ensures
            final(self).wf(),
            id == old(self).next_node_id,
            final(self).next_node_id == id + 1,
            final(self).nodes@ == old(self).nodes@.insert(id, final(self).nodes@[id]),
            final(self).nodes@[id]@ == node@,
            final(self).connection_by_node@ == old(self).connection_by_node@.insert(id, conn),
            final(self).parents@ == old(self).parents@.insert(id, (parent, old(self).children@[parent]@.len() as usize)),
            forall|p: u64| #[trigger] final(self).children@.contains_key(p) <==> (old(self).children@.contains_key(p)
                || (node is Element && p == id)),
            forall|p: u64| #[trigger] old(self).children@.contains_key(p) && p != parent ==> final(self).children@[p]
                == old(self).children@[p],
            final(self).children@[parent]@ == old(self).children@[parent]@.push(id),
            node is Element ==> final(self).children@[id]@ == Seq::<u64>::empty(),
            final(self).connections@ == old(self).connections@,
            final(self).next_connection_id == old(self).next_connection_id,
    {
        let id = self.next_node_id;
        self.next_node_id = id + 1;
        let is_element = node.is_element();
        let ghost old_children = self.children@;
        self.nodes.insert(id, Arc::new(node));
        self.connection_by_node.insert(id, conn);
        match self.nodes_by_connection.remove(&conn) {
            Some(mut set) => {
                set.insert(id);
                self.nodes_by_connection.insert(conn, set);
            },
            None => {
                let mut set = BTreeSet::new();
                set.insert(id);
                self.nodes_by_connection.insert(conn, set);
            },
        }
        let mut list = self.children.remove(&parent).unwrap();
        let index = list.len();
        list.push(id);
        if is_element {
            self.children.insert(id, Vec::new());
        }
        self.children.insert(parent, list);
        self.parents.insert(id, (parent, index));
        proof {
            assert(!old(self).nodes@.contains_key(id));
            assert(!old(self).parents@.contains_key(id));
            assert(!old_children.contains_key(id));
            assert(!old(self).connection_by_node@.contains_key(id));
            assert(self.tree_wf()) by {
                assert forall|p: u64, i: int| #![trigger self.children@[p]@[i]]
                    self.children@.contains_key(p) && 0 <= i < self.children@[p]@.len()
                    implies self.parents@.contains_key(self.children@[p]@[i])
                    && self.parents@[self.children@[p]@[i]].0 == p && self.parents@[self.children@[p]@[i]].1 as int == i by {
                    if p == parent {
                        if i < index {
                            assert(self.children@[p]@[i] == old_children[p]@[i]);
                        }
                    } else if p != id {
                        assert(self.children@[p]@[i] == old_children[p]@[i]);
                    }
                }
                assert forall|c: u64| #[trigger] self.parents@.contains_key(c) implies {
                    let (p, i) = self.parents@[c];
                    &&& self.children@.contains_key(p)
                    &&& (i as int) < self.children@[p]@.len()
                    &&& self.children@[p]@[i as int] == c
                    &&& self.nodes@.contains_key(c)
                    &&& p < c
                } by {
                    if c != id {
                        let (p, i) = old(self).parents@[c];
                        assert(old_children.contains_key(p));
                        if p == parent {
                            assert(self.children@[p]@[i as int] == old_children[p]@[i as int]);
                        }
                    }
                }
            }
            assert(self.owner_wf()) by {
                assert forall|c: u64| #[trigger] self.nodes_by_connection@.contains_key(c) implies (
                    forall|n: u64| #[trigger] self.nodes_by_connection@[c]@.contains(n) <==> (
                        self.connection_by_node@.contains_key(n) && self.connection_by_node@[n] == c)) by {
                    if c == conn {
                        if old(self).nodes_by_connection@.contains_key(c) {
                            assert(self.nodes_by_connection@[c]@ == old(self).nodes_by_connection@[c]@.insert(id));
                        }
                    }
                }
                assert forall|c: u64| #[trigger] self.nodes_by_connection@.contains_key(c)
                    implies self.nodes_by_connection@[c]@ != Set::<u64>::empty() by {
                    if c == conn {
                        assert(self.nodes_by_connection@[c]@.contains(id));
                    }
                }
            }
        }
        id
    }

    /// Places `node` and its descendants, breadth first, as the last child of
    /// `parent_id`, owned by `connection_id`, and reports a `Created` change
    /// for each placed node. Returns the identity of `node`.
    fn append_node_inner(
        &mut self,
        node: Node,
        parent_id: u64,
        connection_id: u64,
        event: &mut WorldDidChangeResponse,
    ) -> (top: u64)
        requires
            old(self).wf(),
            old(self).children@.contains_key(parent_id),
            old(self).next_node_id + tree_size(node) <= u64::MAX,
        ensures
            final(self).wf(),
            top == old(self).next_node_id,
            ({
                let next = old(self).next_node_id as int;
                let entries = bfs_entries(seq![(node, parent_id)], next);
                &&& entries.len() == tree_size(node)
                &&& forall|k: int| 1 <= k < entries.len() ==> #[trigger] entries[k].1 >= next
                &&& final(self).next_node_id == next + entries.len()
                &&& final(event)@ == old(event)@ + created_views(entries, next)
                &&& forall|n: u64| #[trigger] final(self).nodes@.contains_key(n) <==> (old(self).nodes@.contains_key(n)
                    || (next <= n < next + entries.len()))
                &&& forall|n: u64| #[trigger] old(self).nodes@.contains_key(n) ==> final(self).nodes@[n]
                    == old(self).nodes@[n]
                &&& forall|k: int| 0 <= k < entries.len() ==> #[trigger] final(self).nodes@[(next + k) as u64]@
                    == entries[k].0
                &&& forall|n: u64| #[trigger] old(self).parents@.contains_key(n) ==> final(self).parents@.contains_key(n)
                    && final(self).parents@[n] == old(self).parents@[n]
                &&& forall|k: int| 0 <= k < entries.len() ==> #[trigger] final(self).parents@[(next + k) as u64].0
                    == entries[k].1
                &&& forall|n: u64| #[trigger] final(self).connection_by_node@.contains_key(n) ==> (
                    final(self).connection_by_node@[n] == if old(self).connection_by_node@.contains_key(n) {
                        old(self).connection_by_node@[n]
                    } else {
                        connection_id
                    })
                &&& forall|p: u64| #[trigger] final(self).children@.contains_key(p) ==> final(self).children@[p]@
                    == list_or_empty(old(self).child_map(), p) + placed_children(entries, next, p)
            }),
            final(self).connections@ == old(self).connections@,
            final(self).next_connection_id == old(self).next_connection_id,
    {
        let ghost next0 = self.next_node_id as int;
        let ghost old_self = *self;
        let ghost full = bfs_entries(seq![(node, parent_id)], next0);
        let ghost ev0 = event@;
        proof {
            lemma_bfs_len(seq![(node, parent_id)], next0);
            assert(queue_size(seq![(node, parent_id)]) == tree_size(node)) by {
                assert(seq![(node, parent_id)].drop_first() =~= Seq::<(Node, u64)>::empty());
                assert(queue_size(Seq::<(Node, u64)>::empty()) == 0);
                assert(seq![(node, parent_id)][0].0 == node);
            }
        }
        let top = self.next_node_id;
        let mut queue: VecDeque<(Node, u64)> = VecDeque::new();
        queue.push_back((node, parent_id));
        let ghost mut done: Seq<(FlatNodeView, u64)> = Seq::empty();
        assert(full == done + bfs_entries(queue@, next0));
        while queue.len() > 0
            invariant
                self.wf(),
                old_self.wf(),
                next0 == old_self.next_node_id,
                self.next_node_id == next0 + done.len(),
                full == done + bfs_entries(queue@, self.next_node_id as int),
                full.len() == tree_size(node),
                next0 + full.len() <= u64::MAX,
                forall|j: int| 0 <= j < queue@.len() ==> #[trigger] self.children@.contains_key(queue@[j].1)
                    && queue@[j].1 < self.next_node_id,
                forall|k: int| 0 <= k < done.len() ==> #[trigger] done[k].1 < next0 + k,
                forall|k: int| 1 <= k < done.len() ==> #[trigger] done[k].1 >= next0,
                done.len() == 0 ==> queue@ == seq![(node, parent_id)],
                done.len() > 0 ==> forall|j: int| 0 <= j < queue@.len() ==> #[trigger] queue@[j].1 >= next0,
                event@ == ev0 + created_views(done, next0),
                forall|n: u64| #[trigger] self.nodes@.contains_key(n) <==> (old_self.nodes@.contains_key(n)
                    || (next0 <= n < next0 + done.len())),
                forall|n: u64| #[trigger] old_self.nodes@.contains_key(n) ==> self.nodes@[n] == old_self.nodes@[n],
                forall|k: int| 0 <= k < done.len() ==> #[trigger] self.nodes@[(next0 + k) as u64]@ == done[k].0,
                forall|n: u64| #[trigger] old_self.parents@.contains_key(n) ==> self.parents@.contains_key(n)
                    && self.parents@[n] == old_self.parents@[n],
                forall|k: int| 0 <= k < done.len() ==> #[trigger] self.parents@[(next0 + k) as u64].0 == done[k].1,
                forall|n: u64| #[trigger] self.connection_by_node@.contains_key(n) ==> (self.connection_by_node@[n]
                    == if old_self.connection_by_node@.contains_key(n) {
                        old_self.connection_by_node@[n]
                    } else {
                        connection_id
                    }),
                forall|p: u64| #[trigger] self.children@.contains_key(p) ==> self.children@[p]@ == list_or_empty(
                    old_self.child_map(),
                    p,
                ) + placed_children(done, next0, p),
                self.connections@ == old_self.connections@,
                self.next_connection_id == old_self.next_connection_id,
            decreases queue_size(queue@),
        {
            let ghost q = queue@;
            let (n, p) = queue.pop_front().unwrap();
            let ghost id = self.next_node_id;
            proof {
                lemma_queue_size_step(q, id);
                lemma_bfs_len(q, id as int);
                lemma_bfs_len(q.drop_first() + kid_entries(q[0].0, id), id + 1);
                assert(q.drop_first() =~= queue@);
                assert(self.children@.contains_key(q[0].1));
                assert(q[0].1 < id);
            }
            let (flat, kids) = n.into_flat_and_children();
            let ghost flat_view = flat@;
            let ghost old_children = self.children@;
            proof {
                assert(!old_self.nodes@.contains_key(id));
                assert(!old_self.children@.contains_key(id));
            }
            let id_x = self.insert_one(flat, p, connection_id);
            assert(id_x == id);
            event.push(WorldChange::Created(CreatedNodeChange {
                id: NodeId(id_x),
                parent_id: NodeId(p),
                before_sibling_id: None,
                node: self.nodes.get(&id_x).unwrap().clone(),
            }));
            match kids {
                Some(kids) => {
                    let ghost base = queue@;
                    let ghost kids_seq = kids@;
                    for child in it: kids
                        invariant
                            it.seq() == kids_seq,
                            queue@ == base + it.seq().take(it.index()).map_values(|c: Node| (c, id_x)),
                    {
                        queue.push_back((child, id_x));
                        assert(base + it.seq().take(it.index() + 1).map_values(|c: Node| (c, id_x)) =~= queue@);
                    }
                    assert(kids_seq.take(kids_seq.len() as int) =~= kids_seq);
                    assert(queue@ =~= q.drop_first() + kid_entries(q[0].0, id));
                },
                None => {
                    assert(queue@ =~= q.drop_first() + kid_entries(q[0].0, id));
                },
            }
            proof {
                let e = (flat_view, p);
                assert(bfs_entries(q, id as int) == seq![e] + bfs_entries(queue@, id + 1));
                assert(full == done.push(e) + bfs_entries(queue@, id + 1)) by {
                    assert(done + (seq![e] + bfs_entries(queue@, id + 1)) =~= done.push(e) + bfs_entries(queue@, id + 1));
                }
                let done2 = done.push(e);
                assert(event@ == ev0 + created_views(done2, next0)) by {
                    assert(created_views(done2, next0) =~= created_views(done, next0).push(created_view(next0 + done.len(), e)));
                }
                assert forall|pp: u64| #[trigger] self.children@.contains_key(pp) implies self.children@[pp]@
                    == list_or_empty(old_self.child_map(), pp) + placed_children(done2, next0, pp) by {
                    assert(done2.drop_last() =~= done);
                    if pp == p {
                        assert(list_or_empty(old_self.child_map(), pp) + placed_children(done2, next0, pp)
                            =~= (list_or_empty(old_self.child_map(), pp) + placed_children(done, next0, pp)).push(id));
                    } else if pp == id {
                        assert(!old_self.children@.contains_key(id));
                        lemma_placed_children_none(done2, next0, id);
                        assert(list_or_empty(old_self.child_map(), pp) =~= Seq::<u64>::empty());
                    } else {
                        assert(old_children.contains_key(pp));
                    }
                }
                assert(q[0].1 == p && p < id);
                assert(done.len() > 0 ==> p >= next0);
                assert forall|k: int| 0 <= k < done2.len() implies #[trigger] done2[k].1 < next0 + k by {
                    if k < done.len() {
                        assert(done2[k] == done[k]);
                    }
                }
                assert forall|k: int| 1 <= k < done2.len() implies #[trigger] done2[k].1 >= next0 by {
                    if k < done.len() {
                        assert(done2[k] == done[k]);
                    }
                }
                assert(queue@ == q.drop_first() + kid_entries(q[0].0, id));
                assert forall|j: int| 0 <= j < queue@.len() implies #[trigger] queue@[j].1 >= next0 by {
                    if j < q.len() - 1 {
                        assert(queue@[j] == q[j + 1]);
                        assert(done.len() > 0);
                    } else {
                        assert(queue@[j] == kid_entries(q[0].0, id)[j - (q.len() - 1)]);
                        match q[0].0 {
                            Node::Text(_) => {},
                            Node::Element(e) => {},
                        }
                    }
                }
                done = done2;
            }
        }
        proof {
            assert(bfs_entries(queue@, self.next_node_id as int) =~= Seq::<(FlatNodeView, u64)>::empty());
            assert(full =~= done);
        }
        top
    }

    /// Deletes the queued nodes and, breadth first, their descendants, from
    /// every map but the child lists of surviving parents. Returns the
    /// parents of the deleted nodes.
    fn delete_queued(&mut self, queue: VecDeque<u64>, event: &mut WorldDidChangeResponse) -> (affected: Vec<u64>)
        requires
            old(self).wf(),
        ensures
            ({
                let order = removal_order(old(self).children@, queue@);
                let r = order.to_set();
                &&& final(event)@ == old(event)@ + deleted_views(order)
                &&& final(self).nodes@ == old(self).nodes@.remove_keys(r)
                &&& final(self).connection_by_node@ == old(self).connection_by_node@.remove_keys(r)
                &&& final(self).parents@ == old(self).parents@.remove_keys(r)
                &&& final(self).children@ == old(self).children@.remove_keys(r)
                &&& forall|c: u64| #[trigger] final(self).nodes_by_connection@.contains_key(c) <==> (
                    old(self).nodes_by_connection@.contains_key(c)
                    && !old(self).nodes_by_connection@[c]@.subset_of(r))
                &&& forall|c: u64| #[trigger] final(self).nodes_by_connection@.contains_key(c)
                    ==> final(self).nodes_by_connection@[c]@ == old(self).nodes_by_connection@[c]@.difference(r)
                &&& final(self).connections@ == old(self).connections@.remove_keys(
                    emptied_connections(old(self).nodes_by_connection@, old(self).connections@, r))
                &&& forall|x: u64| r.contains(x) && #[trigger] old(self).parents@.contains_key(x)
                    ==> affected@.contains(old(self).parents@[x].0)
            }),
            final(self).next_node_id == old(self).next_node_id,
            final(self).next_connection_id == old(self).next_connection_id,
    {
        let ghost w0 = *self;
        let ghost q0 = queue@;
        let ghost ev0 = event@;
        let ghost full = removal_order(w0.children@, q0);
        let mut queue = queue;
        let mut affected: Vec<u64> = Vec::new();
        let ghost mut emitted: Seq<u64> = Seq::empty();
        proof {
            assert(emitted + removal_order(self.children@, queue@) =~= full);
            assert(self.nodes@ =~= w0.nodes@.remove_keys(emitted.to_set()));
            assert(self.connection_by_node@ =~= w0.connection_by_node@.remove_keys(emitted.to_set()));
            assert(self.parents@ =~= w0.parents@.remove_keys(emitted.to_set()));
            assert(self.children@ =~= w0.children@.remove_keys(emitted.to_set()));
            assert forall|c: u64| #[trigger] self.nodes_by_connection@.contains_key(c) implies
                self.nodes_by_connection@[c]@ == w0.nodes_by_connection@[c]@.difference(emitted.to_set()) by {
                assert(self.nodes_by_connection@[c]@ =~= w0.nodes_by_connection@[c]@.difference(emitted.to_set()));
            }
            assert(emitted.to_set() =~= Set::<u64>::empty());
            assert forall|c: u64| #[trigger] self.nodes_by_connection@.contains_key(c) implies
                !w0.nodes_by_connection@[c]@.subset_of(emitted.to_set()) by {
                if w0.nodes_by_connection@[c]@.subset_of(emitted.to_set()) {
                    assert(w0.nodes_by_connection@[c]@ =~= Set::<u64>::empty());
                }
            }
            assert(emptied_connections(w0.nodes_by_connection@, w0.connections@, emitted.to_set())
                =~= Set::<u64>::empty()) by {
                assert forall|c: u64| w0.nodes_by_connection@.contains_key(c) implies
                    !w0.nodes_by_connection@[c]@.subset_of(emitted.to_set()) by {
                    if w0.nodes_by_connection@[c]@.subset_of(emitted.to_set()) {
                        assert(w0.nodes_by_connection@[c]@ =~= Set::<u64>::empty());
                    }
                }
            }
            assert(self.connections@ =~= w0.connections@.remove_keys(
                emptied_connections(w0.nodes_by_connection@, w0.connections@, emitted.to_set())));
        }
        while queue.len() > 0
            invariant
                w0.wf(),
                full == emitted + removal_order(self.children@, queue@),
                self.nodes@ == w0.nodes@.remove_keys(emitted.to_set()),
                self.connection_by_node@ == w0.connection_by_node@.remove_keys(emitted.to_set()),
                self.parents@ == w0.parents@.remove_keys(emitted.to_set()),
                self.children@ == w0.children@.remove_keys(emitted.to_set()),
                forall|c: u64| #[trigger] self.nodes_by_connection@.contains_key(c) <==> (
                    w0.nodes_by_connection@.contains_key(c)
                    && !w0.nodes_by_connection@[c]@.subset_of(emitted.to_set())),
                forall|c: u64| #[trigger] self.nodes_by_connection@.contains_key(c)
                    ==> self.nodes_by_connection@[c]@ == w0.nodes_by_connection@[c]@.difference(emitted.to_set()),
                self.connections@ == w0.connections@.remove_keys(
                    emptied_connections(w0.nodes_by_connection@, w0.connections@, emitted.to_set())),
                forall|x: u64| emitted.to_set().contains(x) && #[trigger] w0.parents@.contains_key(x)
                    ==> affected@.contains(w0.parents@[x].0),
                event@ == ev0 + deleted_views(emitted),
                self.next_node_id == w0.next_node_id,
                self.next_connection_id == w0.next_connection_id,
            decreases self.children@.dom().len(), queue@.len(),
        {
            let ghost q = queue@;
            let ghost e_old = emitted.to_set();
            let x = queue.pop_front().unwrap();
            let ghost e_new = emitted.push(x).to_set();
            proof {
                assert forall|y: u64| e_new.contains(y) <==> e_old.contains(y) || y == x by {
                    if emitted.push(x).contains(y) && y != x {
                        let j = choose|j: int| 0 <= j < emitted.len() + 1 && emitted.push(x)[j] == y;
                        assert(emitted[j] == y);
                    }
                    if emitted.contains(y) {
                        let j = choose|j: int| 0 <= j < emitted.len() && emitted[j] == y;
                        assert(emitted.push(x)[j] == y);
                    }
                    if y == x {
                        assert(emitted.push(x)[emitted.len() as int] == y);
                    }
                }
                assert(e_new =~= e_old.insert(x));
            }
            self.nodes.remove(&x);
            let conn = self.connection_by_node.remove(&x);
            let parent = self.parents.remove(&x);
            let kids = self.children.remove(&x);
            let ghost conns_before = self.connections@;
            match conn {
                Some(c) => {
                    proof {
                        assert(w0.connection_by_node@.contains_key(x) && !e_old.contains(x));
                        assert(w0.nodes_by_connection@.contains_key(c));
                        assert(w0.nodes_by_connection@[c]@.contains(x));
                        assert(!w0.nodes_by_connection@[c]@.subset_of(e_old));
                    }
                    let mut set = self.nodes_by_connection.remove(&c).unwrap();
                    set.remove(&x);
                    if set.is_empty() {
                        proof {
                            assert(w0.nodes_by_connection@[c]@.subset_of(e_new)) by {
                                assert forall|n: u64| w0.nodes_by_connection@[c]@.contains(n) implies e_new.contains(n) by {
                                    if !e_new.contains(n) {
                                        assert(set@.contains(n));
                                    }
                                }
                            }
                        }
                        let remove_conn = match self.connections.get(&c) {
                            Some(record) => !record.connected,
                            None => false,
                        };
                        if remove_conn {
                            self.connections.remove(&c);
                        }
                        proof {
                            assert(self.connections@ =~= w0.connections@.remove_keys(
                                emptied_connections(w0.nodes_by_connection@, w0.connections@, e_new))) by {
                                assert forall|c2: u64| c2 != c implies (
                                    emptied_connections(w0.nodes_by_connection@, w0.connections@, e_new).contains(c2)
                                    <==> emptied_connections(w0.nodes_by_connection@, w0.connections@, e_old).contains(c2)) by {
                                    if w0.nodes_by_connection@.contains_key(c2) {
                                        if w0.nodes_by_connection@[c2]@.contains(x) {
                                            assert(w0.connection_by_node@[x] == c2);
                                        }
                                        assert(w0.nodes_by_connection@[c2]@.subset_of(e_new)
                                            <==> w0.nodes_by_connection@[c2]@.subset_of(e_old));
                                    }
                                }
                            }
                        }
                    } else {
                        self.nodes_by_connection.insert(c, set);
                        proof {
                            assert(!w0.nodes_by_connection@[c]@.subset_of(e_new)) by {
                                let n = set@.choose();
                                assert(set@.contains(n));
                            }
                            assert(self.connections@ =~= w0.connections@.remove_keys(
                                emptied_connections(w0.nodes_by_connection@, w0.connections@, e_new))) by {
                                assert forall|c2: u64|
                                    emptied_connections(w0.nodes_by_connection@, w0.connections@, e_new).contains(c2)
                                    <==> emptied_connections(w0.nodes_by_connection@, w0.connections@, e_old).contains(c2) by {
                                    if w0.nodes_by_connection@.contains_key(c2) {
                                        if w0.nodes_by_connection@[c2]@.contains(x) {
                                            assert(w0.connection_by_node@[x] == c2);
                                        }
                                        assert(w0.nodes_by_connection@[c2]@.subset_of(e_new)
                                            <==> w0.nodes_by_connection@[c2]@.subset_of(e_old));
                                    }
                                }
                            }
                        }
                    }
                    proof {
                        assert forall|c2: u64| #[trigger] self.nodes_by_connection@.contains_key(c2) <==> (
                            w0.nodes_by_connection@.contains_key(c2)
                            && !w0.nodes_by_connection@[c2]@.subset_of(e_new)) by {
                            if c2 != c && w0.nodes_by_connection@.contains_key(c2) {
                                if w0.nodes_by_connection@[c2]@.contains(x) {
                                    assert(w0.connection_by_node@[x] == c2);
                                }
                                assert(w0.nodes_by_connection@[c2]@.subset_of(e_new)
                                    <==> w0.nodes_by_connection@[c2]@.subset_of(e_old));
                            }
                        }
                        assert forall|c2: u64| #[trigger] self.nodes_by_connection@.contains_key(c2)
                            implies self.nodes_by_connection@[c2]@ == w0.nodes_by_connection@[c2]@.difference(e_new) by {
                            if c2 != c {
                                if w0.nodes_by_connection@[c2]@.contains(x) {
                                    assert(w0.connection_by_node@[x] == c2);
                                }
                            }
                            assert(self.nodes_by_connection@[c2]@ =~= w0.nodes_by_connection@[c2]@.difference(e_new));
                        }
                    }
                },
                None => {
                    proof {
                        assert(!w0.connection_by_node@.contains_key(x) || e_old.contains(x));
                        assert forall|c2: u64| w0.nodes_by_connection@.contains_key(c2) implies
                            (w0.nodes_by_connection@[c2]@.subset_of(e_new)
                            <==> w0.nodes_by_connection@[c2]@.subset_of(e_old)) by {
                            if w0.nodes_by_connection@[c2]@.contains(x) {
                                assert(w0.connection_by_node@.contains_key(x));
                            }
                        }
                        assert(emptied_connections(w0.nodes_by_connection@, w0.connections@, e_new)
                            =~= emptied_connections(w0.nodes_by_connection@, w0.connections@, e_old));
                        assert forall|c2: u64| #[trigger] self.nodes_by_connection@.contains_key(c2)
                            implies self.nodes_by_connection@[c2]@ == w0.nodes_by_connection@[c2]@.difference(e_new) by {
                            if w0.nodes_by_connection@[c2]@.contains(x) {
                                assert(w0.connection_by_node@.contains_key(x));
                            }
                            assert(self.nodes_by_connection@[c2]@ =~= w0.nodes_by_connection@[c2]@.difference(e_new));
                        }
                    }
                },
            }
            let ghost aff_old = affected@;
            match parent {
                Some((p, _)) => {
                    affected.push(p);
                    proof {
                        assert(w0.parents@.contains_key(x) && w0.parents@[x].0 == p);
                        assert(affected@[affected@.len() - 1] == p);
                    }
                },
                None => {
                    proof {
                        assert(!w0.parents@.contains_key(x) || e_old.contains(x));
                    }
                },
            }
            proof {
                assert forall|v: u64| aff_old.contains(v) implies affected@.contains(v) by {
                    let j = choose|j: int| 0 <= j < aff_old.len() && aff_old[j] == v;
                    assert(affected@[j] == v);
                }
                assert forall|y: u64| e_new.contains(y) && #[trigger] w0.parents@.contains_key(y)
                    implies affected@.contains(w0.parents@[y].0) by {
                    if y == x && !e_old.contains(x) {
                        assert(affected@[affected@.len() - 1] == w0.parents@[x].0);
                    } else {
                        assert(e_old.contains(y));
                        assert(aff_old.contains(w0.parents@[y].0));
                    }
                }
            }
            match kids {
                Some(list) => {
                    let ghost base = queue@;
                    let ghost list_seq = list@;
                    for k in it: list
                        invariant
                            it.seq() == list_seq,
                            queue@ == base + it.seq().take(it.index()),
                    {
                        queue.push_back(k);
                        assert(base + it.seq().take(it.index() + 1) =~= queue@);
                    }
                    proof {
                        assert(list_seq.take(list_seq.len() as int) =~= list_seq);
                    }
                },
                None => {},
            }
            event.push(WorldChange::Deleted(DeletedNodeChange { id: NodeId(x) }));
            proof {
                let ghost ch_before = w0.children@.remove_keys(e_old);
                assert(self.nodes@ =~= w0.nodes@.remove_keys(e_new));
                assert(self.connection_by_node@ =~= w0.connection_by_node@.remove_keys(e_new));
                assert(self.parents@ =~= w0.parents@.remove_keys(e_new));
                assert(self.children@ =~= w0.children@.remove_keys(e_new));
                assert(removal_order(ch_before, q) == seq![x] + removal_order(self.children@, queue@)) by {
                    if ch_before.contains_key(x) {
                        assert(ch_before.remove(x) =~= self.children@);
                        assert(queue@ =~= q.drop_first() + ch_before[x]@);
                    } else {
                        assert(ch_before =~= self.children@);
                        assert(queue@ =~= q.drop_first());
                    }
                }
                assert(full == emitted.push(x) + removal_order(self.children@, queue@)) by {
                    assert(emitted + (seq![x] + removal_order(self.children@, queue@))
                        =~= emitted.push(x) + removal_order(self.children@, queue@));
                }
                assert(deleted_views(emitted.push(x)) =~= deleted_views(emitted).push(ChangeView::Deleted { id: x }));
                emitted = emitted.push(x);
            }
        }
        proof {
            assert(removal_order(self.children@, queue@) =~= Seq::<u64>::empty());
            assert(full =~= emitted);
        }
        affected
    }

    /// The members of `list` that are still nodes of the world, in order.
    fn alive_only(&self, list: &Vec<u64>, Ghost(r): Ghost<Set<u64>>) -> (out: Vec<u64>)
        requires
            forall|i: int| 0 <= i < list@.len() ==> (#[trigger] self.nodes@.contains_key(list@[i])
                <==> !r.contains(list@[i])),
        ensures
            out@ == without(list@, r),
    {
        let mut out: Vec<u64> = Vec::new();
        let n = list.len();
        for k in 0..n
            invariant
                n == list@.len(),
                forall|i: int| 0 <= i < list@.len() ==> (#[trigger] self.nodes@.contains_key(list@[i])
                    <==> !r.contains(list@[i])),
                out@ == without(list@.take(k as int), r),
        {
            let c = list[k];
            assert(list@.take(k + 1).drop_last() =~= list@.take(k as int));
            assert(list@.take(k + 1).last() == c);
            assert(self.nodes@.contains_key(list@[k as int]) <==> !r.contains(c));
            if self.nodes.contains_key(&c) {
                out.push(c);
            }
        }
        assert(list@.take(n as int) =~= list@);
        out
    }

    /// Rebuilds the child lists of the parents in `affected` without the
    /// deleted nodes `r`, and renumbers the positions of their children.
    fn reattach(&mut self, affected: &Vec<u64>, Ghost(w0): Ghost<World>, Ghost(r): Ghost<Set<u64>>)
        requires
            w0.wf(),
            forall|x: u64, c: u64| r.contains(x) && #[trigger] w0.children@.contains_key(x)
                && #[trigger] w0.children@[x]@.contains(c) ==> r.contains(c),
            old(self).nodes@ == w0.nodes@.remove_keys(r),
            old(self).parents@ == w0.parents@.remove_keys(r),
            old(self).children@ == w0.children@.remove_keys(r),
            forall|x: u64| r.contains(x) && #[trigger] w0.parents@.contains_key(x)
                ==> affected@.contains(w0.parents@[x].0),
        ensures
            final(self).nodes@ == old(self).nodes@,
            final(self).connection_by_node@ == old(self).connection_by_node@,
            final(self).nodes_by_connection@ == old(self).nodes_by_connection@,
            final(self).connections@ == old(self).connections@,
            final(self).next_node_id == old(self).next_node_id,
            final(self).next_connection_id == old(self).next_connection_id,
            final(self).children@.dom() == old(self).children@.dom(),
            forall|p: u64| #[trigger] final(self).children@.contains_key(p) ==> final(self).children@[p]@
                == without(w0.children@[p]@, r),
            final(self).parents@.dom() == old(self).parents@.dom(),
            forall|c: u64| #[trigger] final(self).parents@.contains_key(c) ==> {
                let p = final(self).parents@[c].0;
                let i = final(self).parents@[c].1;
                &&& p == w0.parents@[c].0
                &&& final(self).children@.contains_key(p)
                &&& (i as int) < final(self).children@[p]@.len()
                &&& final(self).children@[p]@[i as int] == c
            },
    {
        let ghost s0 = *self;
        let n = affected.len();
        proof {
            assert forall|c: u64| #[trigger] self.parents@.contains_key(c) implies !r.contains(w0.parents@[c].0) by {
                let (p, i) = w0.parents@[c];
                assert(w0.children@[p]@[i as int] == c);
                assert(w0.children@[p]@.contains(c));
            }
        }
        for i in 0..n
            invariant
                n == affected@.len(),
                w0.wf(),
                forall|x: u64, c: u64| r.contains(x) && #[trigger] w0.children@.contains_key(x)
                    && #[trigger] w0.children@[x]@.contains(c) ==> r.contains(c),
                self.nodes@ == w0.nodes@.remove_keys(r),
                self.connection_by_node@ == s0.connection_by_node@,
                self.nodes_by_connection@ == s0.nodes_by_connection@,
                self.connections@ == s0.connections@,
                self.next_node_id == s0.next_node_id,
                self.next_connection_id == s0.next_connection_id,
                self.children@.dom() == s0.children@.dom(),
                s0.children@ == w0.children@.remove_keys(r),
                s0.parents@ == w0.parents@.remove_keys(r),
                forall|p: u64| #[trigger] self.children@.contains_key(p) ==> self.children@[p]@ == if processed(
                    affected@,
                    i as int,
                    p,
                ) {
                    without(w0.children@[p]@, r)
                } else {
                    w0.children@[p]@
                },
                self.parents@.dom() == s0.parents@.dom(),
                forall|c: u64| #[trigger] self.parents@.contains_key(c) ==> !r.contains(w0.parents@[c].0),
                forall|c: u64| #[trigger] self.parents@.contains_key(c) ==> {
                    let p = w0.parents@[c].0;
                    &&& self.parents@[c].0 == p
                    &&& processed(affected@, i as int, p) ==> ((self.parents@[c].1 as int) < without(
                        w0.children@[p]@,
                        r,
                    ).len() && without(w0.children@[p]@, r)[self.parents@[c].1 as int] == c)
                    &&& !processed(affected@, i as int, p) ==> self.parents@[c] == w0.parents@[c]
                },
        {
            let p = affected[i];
            let ghost before = *self;
            proof {
                assert forall|q: u64| processed(affected@, i + 1, q) <==> processed(affected@, i as int, q) || q == p by {
                    if processed(affected@, i + 1, q) {
                        let j = choose|j: int| 0 <= j < i + 1 && affected@[j] == q;
                        if j < i {
                            assert(processed(affected@, i as int, q));
                        }
                    }
                    if processed(affected@, i as int, q) {
                        let j = choose|j: int| 0 <= j < i && affected@[j] == q;
                        assert(0 <= j < i + 1 && affected@[j] == q);
                    }
                    if q == p {
                        assert(affected@[i as int] == p);
                    }
                }
            }
            if self.children.contains_key(&p) {
                let list = self.children.get(&p).unwrap().clone();
                let ghost w0list = w0.children@[p]@;
                proof {
                    lemma_without(w0list, r);
                    lemma_without(without(w0list, r), r);
                    assert(w0list.no_duplicates()) by {
                        assert forall|a: int, b: int| 0 <= a < w0list.len() && 0 <= b < w0list.len() && a != b
                            implies w0list[a] != w0list[b] by {
                            assert(w0.parents@[w0list[a]].1 as int == a);
                            assert(w0.parents@[w0list[b]].1 as int == b);
                        }
                    }
                    assert forall|k: int| 0 <= k < list@.len() implies (#[trigger] self.nodes@.contains_key(list@[k])
                        <==> !r.contains(list@[k])) by {
                        let c = list@[k];
                        if processed(affected@, i as int, p) {
                            assert(without(w0list, r).contains(c));
                            assert(w0list.contains(c));
                        } else {
                            assert(w0list.contains(c));
                        }
                        let j = choose|j: int| 0 <= j < w0list.len() && w0list[j] == c;
                        assert(w0.parents@.contains_key(w0list[j]));
                        assert(w0.nodes@.contains_key(c));
                    }
                    assert(without(list@, r) == without(w0list, r)) by {
                        if processed(affected@, i as int, p) {
                            assert forall|k: int| 0 <= k < list@.len() implies !r.contains(#[trigger] list@[k]) by {
                                assert(without(w0list, r).contains(list@[k]));
                            }
                        }
                    }
                }
                let filtered = self.alive_only(&list, Ghost(r));
                let ghost fl = filtered@;
                proof {
                    assert forall|k: int| 0 <= k < fl.len() implies #[trigger] before.parents@.contains_key(fl[k])
                        && w0.parents@[fl[k]].0 == p by {
                        let c = fl[k];
                        assert(w0list.contains(c) && !r.contains(c));
                        let j = choose|j: int| 0 <= j < w0list.len() && w0list[j] == c;
                        assert(w0.parents@.contains_key(w0list[j]));
                    }
                }
                let m = filtered.len();
                for j in 0..m
                    invariant
                        m == fl.len(),
                        filtered@ == fl,
                        fl == without(w0.children@[p]@, r),
                        fl.no_duplicates(),
                        forall|k: int| 0 <= k < fl.len() ==> before.parents@.contains_key(#[trigger] fl[k]),
                        forall|k: int| 0 <= k < fl.len() ==> w0.parents@[#[trigger] fl[k]].0 == p,
                        self.parents@.dom() == before.parents@.dom(),
                        forall|c: u64| #[trigger] self.parents@.contains_key(c) ==> (
                            if exists|k: int| 0 <= k < j && fl[k] == c {
                                self.parents@[c].0 == p && (self.parents@[c].1 as int) < fl.len()
                                    && fl[self.parents@[c].1 as int] == c
                            } else {
                                self.parents@[c] == before.parents@[c]
                            }),
                        self.nodes@ == before.nodes@,
                        self.children@ == before.children@,
                        self.connection_by_node@ == before.connection_by_node@,
                        self.nodes_by_connection@ == before.nodes_by_connection@,
                        self.connections@ == before.connections@,
                        self.next_node_id == before.next_node_id,
                        self.next_connection_id == before.next_connection_id,
                {
                    let c = filtered[j];
                    let ghost pb = self.parents@;
                    self.parents.insert(c, (p, j));
                    proof {
                        assert(self.parents@.dom() =~= before.parents@.dom());
                        assert forall|c2: u64| #[trigger] self.parents@.contains_key(c2) implies (
                            if exists|k: int| 0 <= k < j + 1 && fl[k] == c2 {
                                self.parents@[c2].0 == p && (self.parents@[c2].1 as int) < fl.len()
                                    && fl[self.parents@[c2].1 as int] == c2
                            } else {
                                self.parents@[c2] == before.parents@[c2]
                            }) by {
                            if c2 == c {
                                assert(fl[j as int] == c2);
                            } else {
                                if exists|k: int| 0 <= k < j + 1 && fl[k] == c2 {
                                    let k = choose|k: int| 0 <= k < j + 1 && fl[k] == c2;
                                    assert(k != j);
                                    assert(exists|k: int| 0 <= k < j && fl[k] == c2);
                                } else {
                                    assert(!exists|k: int| 0 <= k < j && fl[k] == c2);
                                }
                            }
                        }
                    }
                }
                self.children.insert(p, filtered);
                proof {
                    assert(self.children@.dom() =~= s0.children@.dom());
                    assert forall|q: u64| #[trigger] self.children@.contains_key(q) implies self.children@[q]@
                        == if processed(affected@, i + 1, q) {
                        without(w0.children@[q]@, r)
                    } else {
                        w0.children@[q]@
                    } by {
                        if q != p {
                            assert(self.children@[q] == before.children@[q]);
                        }
                    }
                    assert forall|c: u64| #[trigger] self.parents@.contains_key(c) implies {
                        let pp = w0.parents@[c].0;
                        &&& self.parents@[c].0 == pp
                        &&& processed(affected@, i + 1, pp) ==> ((self.parents@[c].1 as int) < without(
                            w0.children@[pp]@,
                            r,
                        ).len() && without(w0.children@[pp]@, r)[self.parents@[c].1 as int] == c)
                        &&& !processed(affected@, i + 1, pp) ==> self.parents@[c] == w0.parents@[c]
                    } by {
                        let pp = w0.parents@[c].0;
                        if pp == p {
                            let (q0, k0) = w0.parents@[c];
                            assert(w0.children@[p]@[k0 as int] == c);
                            assert(w0.children@[p]@.contains(c));
                            assert(!r.contains(c));
                            assert(fl.contains(c));
                            let k = choose|k: int| 0 <= k < fl.len() && fl[k] == c;
                            assert(exists|k: int| 0 <= k < m && fl[k] == c);
                        } else {
                            if exists|k: int| 0 <= k < m && fl[k] == c {
                                let k = choose|k: int| 0 <= k < m && fl[k] == c;
                                assert(w0.parents@[fl[k]].0 == p);
                            }
                        }
                    }
                }
            } else {
                proof {
                    assert(!s0.children@.contains_key(p));
                    assert forall|q: u64| #[trigger] self.children@.contains_key(q) implies self.children@[q]@
                        == if processed(affected@, i + 1, q) {
                        without(w0.children@[q]@, r)
                    } else {
                        w0.children@[q]@
                    } by {
                        assert(q != p);
                    }
                    assert forall|c: u64| #[trigger] self.parents@.contains_key(c) implies w0.parents@[c].0 != p by {
                        assert(!r.contains(w0.parents@[c].0));
                        if w0.parents@[c].0 == p {
                            assert(w0.children@.contains_key(p));
                            assert(r.contains(p) || !w0.children@.contains_key(p));
                        }
                    }
                }
            }
        }
        proof {
            assert forall|p: u64| #[trigger] self.children@.contains_key(p) implies self.children@[p]@
                == without(w0.children@[p]@, r) by {
                if !processed(affected@, n as int, p) {
                    lemma_without(w0.children@[p]@, r);
                    assert forall|k: int| 0 <= k < w0.children@[p]@.len() implies !r.contains(
                        #[trigger] w0.children@[p]@[k]) by {
                        let c = w0.children@[p]@[k];
                        if r.contains(c) {
                            assert(w0.parents@.contains_key(c));
                            assert(w0.parents@[c].0 == p);
                            assert(affected@.contains(p));
                            let j = choose|j: int| 0 <= j < affected@.len() && affected@[j] == p;
                            assert(processed(affected@, n as int, p));
                        }
                    }
                }
            }
            assert forall|c: u64| #[trigger] self.parents@.contains_key(c) implies {
                let p = self.parents@[c].0;
                let i = self.parents@[c].1;
                &&& p == w0.parents@[c].0
                &&& self.children@.contains_key(p)
                &&& (i as int) < self.children@[p]@.len()
                &&& self.children@[p]@[i as int] == c
            } by {
                let p = w0.parents@[c].0;
                assert(w0.children@.contains_key(p));
                assert(!r.contains(p));
                assert(self.children@.contains_key(p));
                if !processed(affected@, n as int, p) {
                    let (q0, k0) = w0.parents@[c];
                    assert(w0.children@[p]@[k0 as int] == c);
                    lemma_without(w0.children@[p]@, r);
                    assert forall|k: int| 0 <= k < w0.children@[p]@.len() implies !r.contains(
                        #[trigger] w0.children@[p]@[k]) by {
                        let c2 = w0.children@[p]@[k];
                        if r.contains(c2) {
                            assert(w0.parents@.contains_key(c2));
                            assert(w0.parents@[c2].0 == p);
                            assert(affected@.contains(p));
                            let j = choose|j: int| 0 <= j < affected@.len() && affected@[j] == p;
                            assert(processed(affected@, n as int, p));
                        }
                    }
                }
            }
        }
    }

    /// Putting the children of `m` in an order other than the one they have
    /// reports a move under `m`.
    proof fn lemma_reorder_moves(m: u64, nos: Seq<u64>, w1: World)
        requires
            w1.wf(),
            w1.children@.contains_key(m),
            nos.no_duplicates(),
            nos.to_set() == w1.children@[m]@.to_set(),
            nos != w1.children@[m]@,
        ensures
            exists|j: int| 0 <= j < moved_from(m, nos, w1.parents@, 0).len()
                && #[trigger] moves_under(moved_from(m, nos, w1.parents@, 0)[j], m),
    {
        let l = w1.children@[m]@;
        w1.lemma_lists_distinct(m);
        nos.unique_seq_to_set();
        l.unique_seq_to_set();
        assert(nos.len() == l.len());
        assert(exists|i: int| 0 <= i < nos.len() && nos[i] != l[i]) by {
            if forall|i: int| 0 <= i < nos.len() ==> nos[i] == l[i] {
                assert(nos =~= l);
            }
        }
        let i = choose|i: int| 0 <= i < nos.len() && nos[i] != l[i];
        assert(nos.to_set().contains(nos[i]));
        assert(l.to_set().contains(nos[i]));
        let j = choose|j: int| 0 <= j < l.len() && l[j] == nos[i];
        assert(w1.parents@[w1.children@[m]@[j]].1 as int == j);
        lemma_moved_from_has(m, nos, w1.parents@, 0, i);
    }

    /// The child lists of a well-formed world hold no node twice.
    proof fn lemma_lists_distinct(&self, p: u64)
        requires
            self.wf(),
            self.children@.contains_key(p),
        ensures
            self.children@[p]@.no_duplicates(),
    {
        let l = self.children@[p]@;
        assert forall|a: int, b: int| 0 <= a < l.len() && 0 <= b < l.len() && a != b implies l[a] != l[b] by {
            assert(self.parents@[l[a]].1 as int == a);
            assert(self.parents@[l[b]].1 as int == b);
        }
    }

    /// Deletes the queued nodes and, breadth first, their descendants, and
    /// reports a `Deleted` change for each, in that order.
    fn remove_nodes_inner(&mut self, queue: VecDeque<u64>, event: &mut WorldDidChangeResponse)
        requires
            old(self).wf(),
        ensures
            final(self).wf(),
            ({
                let order = removal_order(old(self).children@, queue@);
                let r = order.to_set();
                &&& final(event)@ == old(event)@ + deleted_views(order)
                &&& final(self).nodes@ == old(self).nodes@.remove_keys(r)
                &&& final(self).connection_by_node@ == old(self).connection_by_node@.remove_keys(r)
                &&& final(self).parents@.dom() == old(self).parents@.dom().difference(r)
                &&& forall|c: u64| #[trigger] final(self).parents@.contains_key(c) ==> final(self).parents@[c].0
                    == old(self).parents@[c].0
                &&& final(self).children@.dom() == old(self).children@.dom().difference(r)
                &&& forall|p: u64| #[trigger] final(self).children@.contains_key(p) ==> final(self).children@[p]@
                    == without(old(self).children@[p]@, r)
                &&& final(self).connections@ == old(self).connections@.remove_keys(
                    emptied_connections(old(self).nodes_by_connection@, old(self).connections@, r))
            }),
            final(self).next_node_id == old(self).next_node_id,
            final(self).next_connection_id == old(self).next_connection_id,
    {
        let ghost w0 = *self;
        let ghost q0 = queue@;
        let ghost order = removal_order(w0.children@, q0);
        let ghost r = order.to_set();
        let affected = self.delete_queued(queue, event);
        proof {
            lemma_removal_closed(w0.children@, q0);
            assert forall|x: u64, c: u64| r.contains(x) && #[trigger] w0.children@.contains_key(x)
                && #[trigger] w0.children@[x]@.contains(c) implies r.contains(c) by {
                assert(order.contains(x));
            }
        }
        self.reattach(&affected, Ghost(w0), Ghost(r));
        proof {
            assert(self.parents@.dom() =~= w0.parents@.dom().difference(r));
            assert(self.children@.dom() =~= w0.children@.dom().difference(r));
            assert forall|c: u64| #[trigger] self.parents@.contains_key(c) implies self.parents@[c].0
                == w0.parents@[c].0 by {}
            assert(self.tree_wf()) by {
                assert forall|p: u64, i: int| #![trigger self.children@[p]@[i]]
                    self.children@.contains_key(p) && 0 <= i < self.children@[p]@.len()
                    implies self.parents@.contains_key(self.children@[p]@[i])
                    && self.parents@[self.children@[p]@[i]].0 == p && self.parents@[self.children@[p]@[i]].1 as int == i by {
                    let l0 = w0.children@[p]@;
                    let c = self.children@[p]@[i];
                    lemma_without(l0, r);
                    w0.lemma_lists_distinct(p);
                    assert(without(l0, r).contains(c));
                    assert(l0.contains(c) && !r.contains(c));
                    let j = choose|j: int| 0 <= j < l0.len() && l0[j] == c;
                    assert(w0.parents@.contains_key(l0[j]));
                    assert(self.parents@.contains_key(c));
                    let k = self.parents@[c].1 as int;
                    assert(self.children@[p]@[k] == c);
                    assert(self.children@[p]@.no_duplicates());
                }
                assert forall|c: u64| #[trigger] self.parents@.contains_key(c) implies {
                    let (p, i) = self.parents@[c];
                    &&& self.children@.contains_key(p)
                    &&& (i as int) < self.children@[p]@.len()
                    &&& self.children@[p]@[i as int] == c
                    &&& self.nodes@.contains_key(c)
                    &&& p < c
                } by {
                    assert(w0.parents@.contains_key(c));
                }
                assert forall|n: u64| #[trigger] self.nodes@.contains_key(n) implies n < self.next_node_id
                    && (n != ROOT_NODE_RAW ==> self.parents@.contains_key(n)) by {
                    assert(w0.nodes@.contains_key(n));
                }
                assert forall|p: u64| #[trigger] self.children@.contains_key(p) implies self.nodes@.contains_key(p)
                    && self.nodes@[p]@ is Element by {
                    assert(w0.children@.contains_key(p));
                }
                assert forall|n: u64| #[trigger] self.nodes@.contains_key(n) && self.nodes@[n]@ is Element
                    implies self.children@.contains_key(n) by {
                    assert(w0.nodes@.contains_key(n));
                }
            }
            assert(self.owner_wf()) by {
                assert forall|c: u64| #[trigger] self.nodes_by_connection@.contains_key(c) implies (
                    forall|n: u64| #[trigger] self.nodes_by_connection@[c]@.contains(n) <==> (
                        self.connection_by_node@.contains_key(n) && self.connection_by_node@[n] == c)) by {
                    assert(w0.nodes_by_connection@.contains_key(c));
                }
                assert forall|n: u64| #[trigger] self.connection_by_node@.contains_key(n)
                    implies self.nodes_by_connection@.contains_key(self.connection_by_node@[n]) by {
                    let c = w0.connection_by_node@[n];
                    assert(w0.nodes_by_connection@.contains_key(c));
                    assert(w0.nodes_by_connection@[c]@.contains(n));
                    assert(!r.contains(n));
                }
                assert forall|c: u64| #[trigger] self.nodes_by_connection@.contains_key(c)
                    implies self.nodes_by_connection@[c]@ != Set::<u64>::empty() by {
                    if self.nodes_by_connection@[c]@ == Set::<u64>::empty() {
                        assert(w0.nodes_by_connection@[c]@.subset_of(r)) by {
                            assert forall|n: u64| w0.nodes_by_connection@[c]@.contains(n) implies r.contains(n) by {
                                if !r.contains(n) {
                                    assert(self.nodes_by_connection@[c]@.contains(n));
                                }
                            }
                        }
                    }
                }
            }
        }
    }

    /// The match keys of the nodes of `ids`.
    fn keys_of(&self, ids: &Vec<u64>) -> (keys: Vec<NodeMatchKey>)
        requires
            forall|j: int| 0 <= j < ids@.len() ==> #[trigger] self.nodes@.contains_key(ids@[j]),
        ensures
            keys@.len() == ids@.len(),
            forall|j: int| 0 <= j < ids@.len() ==> #[trigger] keys@[j]@ == key_of(self.nodes@[ids@[j]]@),
    {
        let mut keys: Vec<NodeMatchKey> = Vec::new();
        let n = ids.len();
        for j in 0..n
            invariant
                n == ids@.len(),
                forall|j: int| 0 <= j < ids@.len() ==> #[trigger] self.nodes@.contains_key(ids@[j]),
                keys@.len() == j,
                forall|i: int| 0 <= i < j ==> #[trigger] keys@[i]@ == key_of(self.nodes@[ids@[i]]@),
        {
            let id = ids[j];
            assert(self.nodes@.contains_key(ids@[j as int]));
            let node = self.nodes.get(&id).unwrap();
            keys.push(NodeMatchKey::from_flat_node(&**node));
        }
        keys
    }

    /// Replaces the content of an existing node with content of the same kind.
    fn replace_content(&mut self, id: u64, node: FlatNode)
        requires
            old(self).wf(),
            old(self).nodes@.contains_key(id),
            same_kind(old(self).nodes@[id]@, node@),
        ensures
            final(self).wf(),
            final(self).nodes@ == old(self).nodes@.insert(id, final(self).nodes@[id]),
            final(self).nodes@[id]@ == node@,
            final(self).parents@ == old(self).parents@,
            final(self).children@ == old(self).children@,
            final(self).connection_by_node@ == old(self).connection_by_node@,
            final(self).nodes_by_connection@ == old(self).nodes_by_connection@,
            final(self).connections@ == old(self).connections@,
            final(self).next_node_id == old(self).next_node_id,
            final(self).next_connection_id == old(self).next_connection_id,
    {
        self.nodes.insert(id, Arc::new(node));
    }

    /// Matches `new_children` against the current children of `m`: each new
    /// child takes the first current child with the same key that is not
    /// taken yet, whose content is updated to the new child's and whose own
    /// children are queued on `pending`; a new child that matches none is
    /// placed as a new subtree. Returns the resulting children in order, the
    /// positions of the current children that were taken, and the identities
    /// of the new subtrees.
    #[verifier::rlimit(80)]
    #[verifier::spinoff_prover]
    fn match_children(
        &mut self,
        m: u64,
        current: &Vec<u64>,
        new_children: Vec<Node>,
        connection: u64,
        event: &mut WorldDidChangeResponse,
        pending: &mut VecDeque<(u64, Vec<Node>)>,
    ) -> (r: (Vec<u64>, Vec<bool>, Ghost<Seq<u64>>))
        requires
            old(self).wf(),
            old(self).children@.contains_key(m),
            old(self).children@[m]@ == current@,
            old(self).next_node_id + forest_size(new_children@) + pend_size(old(pending)@) <= u64::MAX,
        ensures
            final(self).wf(),
            ({
                let (no, taken, appended) = r;
                let cur = current@;
                &&& taken@.len() == cur.len()
                &&& final(self).children@.contains_key(m)
                &&& final(self).children@[m]@ == cur + appended@
                &&& forall|k: int| 0 <= k < no@.len() ==> (exists|j: int| 0 <= j < cur.len() && taken@[j]
                    && cur[j] == #[trigger] no@[k]) || appended@.contains(no@[k])
                &&& forall|j: int| 0 <= j < cur.len() && #[trigger] taken@[j] ==> no@.contains(cur[j])
                &&& forall|k: int| 0 <= k < appended@.len() ==> no@.contains(#[trigger] appended@[k])
                &&& no@.no_duplicates()
                &&& appended@ == without(no@, cur.to_set())
                &&& forall|k: int| 0 <= k < appended@.len() ==> final(self).parents@.contains_key(#[trigger] appended@[k])
                    && final(self).parents@[appended@[k]].0 == m
                &&& final(self).next_node_id + pend_size(final(pending)@) <= old(self).next_node_id
                    + forest_size(new_children@) + pend_size(old(pending)@)
                &&& pend_size(final(pending)@) + final(pending)@.len() <= pend_size(old(pending)@)
                    + old(pending)@.len() + forest_size(new_children@)
                &&& forall|k: int| old(pending)@.len() <= k < final(pending)@.len()
                    ==> final(self).children@.contains_key(#[trigger] final(pending)@[k].0)
                &&& forall|k1: int, k2: int| old(pending)@.len() <= k1 < k2 < final(pending)@.len()
                    ==> #[trigger] final(pending)@[k1].0 != #[trigger] final(pending)@[k2].0
                &&& final(pending)@.len() >= old(pending)@.len()
                &&& final(pending)@.subrange(0, old(pending)@.len() as int) == old(pending)@
                &&& forall|k: int| old(pending)@.len() <= k < final(pending)@.len() ==> exists|j: int|
                    0 <= j < cur.len() && taken@[j] && cur[j] == (#[trigger] final(pending)@[k]).0
                &&& no@.len() == new_children@.len()
                &&& forall|k: int| 0 <= k < no@.len() ==> final(self).nodes@.contains_key(#[trigger] no@[k])
                    && final(self).nodes@[no@[k]]@ == flat_of(new_children@[k])
                &&& forall|z: u64| #[trigger] old(self).nodes@.contains_key(z) && !cur.contains(z)
                    ==> final(self).nodes@[z] == old(self).nodes@[z]
                &&& forall|k: int| 0 <= k < no@.len() && #[trigger] no@[k] >= old(self).next_node_id
                    ==> holds_tree(*final(self), no@[k], new_children@[k])
                &&& forall|k: int| 0 <= k < no@.len() && #[trigger] no@[k] < old(self).next_node_id
                    ==> cur.contains(no@[k])
                &&& forall|k: int| 0 <= k < no@.len() && #[trigger] no@[k] < old(self).next_node_id
                    && new_children@[k] is Element ==> exists|j: int| old(pending)@.len() <= j < final(pending)@.len()
                    && final(pending)@[j].0 == no@[k] && final(pending)@[j].1@ == new_children@[k]->Element_0.children@
            }),
            forall|z: u64| #[trigger] final(self).nodes@.contains_key(z) && !old(self).nodes@.contains_key(z)
                ==> final(self).parents@.contains_key(z) && (final(self).parents@[z].0 == m
                || final(self).parents@[z].0 >= old(self).next_node_id),
            forall|z: u64| #[trigger] old(self).nodes@.contains_key(z) ==> final(self).nodes@.contains_key(z)
                && same_kind(old(self).nodes@[z]@, final(self).nodes@[z]@),
            forall|z: u64| #[trigger] old(self).parents@.contains_key(z) ==> final(self).parents@.contains_key(z)
                && final(self).parents@[z] == old(self).parents@[z],
            forall|p: u64| #[trigger] old(self).children@.contains_key(p) ==> final(self).children@.contains_key(p)
                && (p != m ==> final(self).children@[p]@ == old(self).children@[p]@),
            forall|z: u64| #[trigger] final(self).nodes@.contains_key(z) && !old(self).nodes@.contains_key(z)
                ==> z >= old(self).next_node_id,
            final(self).next_node_id >= old(self).next_node_id,
            final(self).next_connection_id == old(self).next_connection_id,
            forall|n: u64| #[trigger] final(self).connection_by_node@.contains_key(n) ==> final(self).connection_by_node@[n]
                == if old(self).connection_by_node@.contains_key(n) {
                old(self).connection_by_node@[n]
            } else {
                connection
            },
            final(event)@.len() >= old(event)@.len(),
            final(event)@.subrange(0, old(event)@.len() as int) == old(event)@,
            World::created_or_updated(*final(self), final(event)@, old(event)@.len() as int, old(self).next_node_id),
            World::updates_taken(final(event)@, old(event)@.len() as int, current@, r.1@),
            World::updates_apply(*old(self), *final(self), final(event)@, old(event)@.len() as int),
            World::match_cover(*old(self), *final(self), final(event)@, old(event)@.len() as int),
            creates_in(final(event)@, old(event)@.len() as int, old(self).next_node_id as int, final(self).next_node_id as int),
            updates_distinct(final(event)@.subrange(old(event)@.len() as int, final(event)@.len() as int)),
            updates_of(final(event)@.subrange(old(event)@.len() as int, final(event)@.len() as int)) == updates_for(
                old(self).node_map(),
                final(self).node_map(),
                r.0@,
            ),
            final(self).connections@ == old(self).connections@,
            forall|k: int| 0 <= k < r.0@.len() ==> match #[trigger] picked(
                keys_of_ids(old(self).node_map(), current@),
                node_keys(new_children@),
                k,
            ) {
                Some(j) => 0 <= j < current@.len() && r.0@[k] == current@[j],
                None => r.0@[k] >= old(self).next_node_id,
            },
    {
        let ghost w1 = *self;
        let ghost ev0 = event@;
        let ghost cur = current@;
        let ghost p0 = pending@;
        let n = current.len();
        proof {
            assert forall|j: int| 0 <= j < cur.len() implies #[trigger] self.nodes@.contains_key(cur[j]) by {
                assert(self.parents@.contains_key(self.children@[m]@[j]));
            }
        }
        let keys = self.keys_of(current);
        let ghost ck = Seq::new(n as nat, |j: int| key_of(w1.nodes@[cur[j]]@));
        let ghost nk = node_keys(new_children@);
        let mut taken: Vec<bool> = Vec::new();
        for j in 0..n
            invariant
                taken@.len() == j,
                forall|i: int| 0 <= i < j ==> !#[trigger] taken@[i],
        {
            taken.push(false);
        }
        let mut no: Vec<u64> = Vec::new();
        let ghost mut appended: Seq<u64> = Seq::empty();
        let ghost kids_seq = new_children@;
        proof {
            assert(taken@ =~= taken_after(ck, nk, 0));
            assert(kids_seq.skip(0) =~= kids_seq);
            assert(pending@.subrange(0, p0.len() as int) =~= p0);
            reveal(World::created_or_updated);
            reveal(World::updates_taken);
            reveal(World::updates_apply);
            assert(event@.subrange(0, ev0.len() as int) =~= ev0);
            reveal(World::match_cover);
            lemma_creates_in_start(ev0, w1.next_node_id as int);
            lemma_updates_of_none(ev0.subrange(ev0.len() as int, ev0.len() as int));
        }
        for child in it: new_children
            invariant
                it.seq() == kids_seq,
                n == cur.len(),
                current@ == cur,
                self.wf(),
                w1.wf(),
                w1.children@.contains_key(m),
                w1.children@[m]@ == cur,
                self.children@.contains_key(m),
                self.children@[m]@ == cur + appended,
                keys@.len() == n,
                taken@.len() == n,
                forall|j: int| 0 <= j < n ==> #[trigger] keys@[j]@ == key_of(w1.nodes@[cur[j]]@),
                forall|k: int| 0 <= k < no@.len() ==> (exists|j: int| 0 <= j < n && taken@[j]
                    && cur[j] == #[trigger] no@[k]) || appended.contains(no@[k]),
                forall|j: int| 0 <= j < n && #[trigger] taken@[j] ==> no@.contains(cur[j]),
                forall|k: int| 0 <= k < appended.len() ==> no@.contains(#[trigger] appended[k]),
                no@.no_duplicates(),
                appended == without(no@, cur.to_set()),
                forall|k: int| 0 <= k < appended.len() ==> self.parents@.contains_key(#[trigger] appended[k])
                    && self.parents@[appended[k]].0 == m,
                forall|k: int| 0 <= k < appended.len() ==> #[trigger] appended[k] >= w1.next_node_id,
                self.next_node_id + forest_size(kids_seq.skip(it.index())) + pend_size(pending@) <= w1.next_node_id
                    + forest_size(kids_seq) + pend_size(p0),
                pend_size(pending@) + pending@.len() + forest_size(kids_seq.skip(it.index())) <= pend_size(p0)
                    + p0.len() + forest_size(kids_seq),
                w1.next_node_id + forest_size(kids_seq) + pend_size(p0) <= u64::MAX,
                forall|k: int| p0.len() <= k < pending@.len() ==> self.children@.contains_key(#[trigger] pending@[k].0),
                forall|k: int| p0.len() <= k < pending@.len() ==> no@.contains(#[trigger] pending@[k].0),
                forall|k1: int, k2: int| p0.len() <= k1 < k2 < pending@.len()
                    ==> #[trigger] pending@[k1].0 != #[trigger] pending@[k2].0,
                pending@.len() >= p0.len(),
                pending@.subrange(0, p0.len() as int) == p0,
                forall|k: int| p0.len() <= k < pending@.len() ==> exists|j: int|
                    0 <= j < n && taken@[j] && cur[j] == (#[trigger] pending@[k]).0,
                forall|z: u64| #[trigger] w1.nodes@.contains_key(z) ==> self.nodes@.contains_key(z)
                    && same_kind(w1.nodes@[z]@, self.nodes@[z]@),
                forall|z: u64| #[trigger] w1.parents@.contains_key(z) ==> self.parents@.contains_key(z)
                    && self.parents@[z] == w1.parents@[z],
                forall|p: u64| #[trigger] w1.children@.contains_key(p) ==> self.children@.contains_key(p)
                    && (p != m ==> self.children@[p]@ == w1.children@[p]@),
                forall|z: u64| #[trigger] self.nodes@.contains_key(z) && !w1.nodes@.contains_key(z)
                    ==> z >= w1.next_node_id,
                self.next_node_id >= w1.next_node_id,
                self.next_connection_id == w1.next_connection_id,
                no@.len() == it.index(),
                forall|k: int| 0 <= k < no@.len() ==> self.nodes@.contains_key(#[trigger] no@[k])
                    && self.nodes@[no@[k]]@ == flat_of(kids_seq[k]),
                forall|z: u64| #[trigger] w1.nodes@.contains_key(z) && !no@.contains(z)
                    ==> self.nodes@[z] == w1.nodes@[z],
                forall|k: int| 0 <= k < no@.len() && #[trigger] no@[k] >= w1.next_node_id
                    ==> holds_tree(*self, no@[k], kids_seq[k]),
                forall|k: int| 0 <= k < no@.len() && #[trigger] no@[k] < w1.next_node_id ==> cur.contains(no@[k]),
                forall|k: int| 0 <= k < no@.len() && #[trigger] no@[k] < w1.next_node_id && kids_seq[k] is Element
                    ==> exists|j: int| p0.len() <= j < pending@.len() && pending@[j].0 == no@[k]
                    && pending@[j].1@ == kids_seq[k]->Element_0.children@,
                forall|z: u64| #[trigger] self.nodes@.contains_key(z) && !w1.nodes@.contains_key(z)
                    ==> self.parents@.contains_key(z) && (self.parents@[z].0 == m || self.parents@[z].0 >= w1.next_node_id),
                forall|n: u64| #[trigger] self.connection_by_node@.contains_key(n) ==> self.connection_by_node@[n]
                    == if w1.connection_by_node@.contains_key(n) {
                    w1.connection_by_node@[n]
                } else {
                    connection
                },
                event@.len() >= ev0.len(),
                event@.subrange(0, ev0.len() as int) == ev0,
                World::created_or_updated(*self, event@, ev0.len() as int, w1.next_node_id),
                World::updates_taken(event@, ev0.len() as int, cur, taken@),
                World::updates_apply(w1, *self, event@, ev0.len() as int),
                creates_in(event@, ev0.len() as int, w1.next_node_id as int, self.next_node_id as int),
                updates_distinct(event@.subrange(ev0.len() as int, event@.len() as int)),
                updates_of(event@.subrange(ev0.len() as int, event@.len() as int)) == updates_for(w1.node_map(),
                    self.node_map(), no@),
                World::match_cover(w1, *self, event@, ev0.len() as int),
                ck.len() == n,
                forall|j: int| 0 <= j < n ==> #[trigger] ck[j] == key_of(w1.nodes@[cur[j]]@),
                nk == node_keys(kids_seq),
                taken@ == taken_after(ck, nk, it.index() as nat),
                self.connections@ == w1.connections@,
                forall|k: int| 0 <= k < no@.len() ==> match #[trigger] picked(ck, nk, k) {
                    Some(j) => 0 <= j < n && no@[k] == cur[j],
                    None => no@[k] >= w1.next_node_id,
                },
        {
            let ghost t = it.index();
            let ghost step0 = *self;
            let ghost pend0 = pending@;
            proof {
                lemma_forest_skip(kids_seq, t);
            }
            let key = NodeMatchKey::from_node(&child);
            let found = find_unmatched(&keys, &taken, &key);
            proof {
                assert(child == kids_seq[t]);
                assert(key@ == nk[t]);
                let g: Option<int> = match found {
                    Some(j) => Some(j as int),
                    None => None,
                };
                assert forall|i: int| 0 <= i < n implies #[trigger] keys@[i]@ == ck[i] by {}
                lemma_first_free(ck, taken@, nk[t], 0, g);
                assert(picked(ck, nk, t) == g);
            }
            match found {
                Some(j) => {
                    let mid = current[j];
                    proof {
                        assert(w1.parents@.contains_key(w1.children@[m]@[j as int]));
                        assert(w1.nodes@.contains_key(mid));
                        lemma_key_same_kind(w1.nodes@[mid]@, flat_of(child));
                        assert(!no@.contains(mid)) by {
                            if no@.contains(mid) {
                                let k = choose|k: int| 0 <= k < no@.len() && no@[k] == mid;
                                if appended.contains(mid) {
                                    let a = choose|a: int| 0 <= a < appended.len() && appended[a] == mid;
                                    assert(appended[a] >= w1.next_node_id);
                                    assert(w1.nodes@.contains_key(mid));
                                } else {
                                    let j2 = choose|j2: int| 0 <= j2 < n && taken@[j2] && cur[j2] == no@[k];
                                    self.lemma_lists_distinct(m);
                                    assert((cur + appended)[j2] == (cur + appended)[j as int]);
                                }
                            }
                        }
                    }
                    let ghost taken_before = taken@;
                    taken.set(j, true);
                    let (flat, grandkids) = child.into_flat_and_children();
                    let current_node = self.nodes.get(&mid).unwrap().clone();
                    let ghost nodes_before = self.nodes@;
                    proof {
                        assert(self.nodes@[mid] == w1.nodes@[mid]);
                        assert(key_of(w1.nodes@[mid]@) == key_of(flat_of(child)));
                    }
                    let ghost ev_before = event@;
                    let ghost w_before = *self;
                    let ghost mut upd = false;
                    match node_update(&*current_node, &flat) {
                        Some(update) => {
                            event.push(WorldChange::Updated(UpdatedNodeChange { id: NodeId(mid), update }));
                            self.replace_content(mid, flat);
                            proof {
                                upd = true;
                            }
                        },
                        None => {},
                    }
                    proof {
                        let tail = event@.subrange(ev_before.len() as int, event@.len() as int);
                        assert(event@ =~= ev_before + tail);
                        assert forall|k: int| 0 <= k < tail.len() implies !(#[trigger] tail[k] is Created) by {
                            assert(tail[k] == event@[ev_before.len() + k]);
                        }
                        assert(self.next_node_id == w_before.next_node_id);
                        lemma_creates_in_other(ev_before, tail, ev0.len() as int, w1.next_node_id as int,
                            w_before.next_node_id as int);
                        assert(updates_distinct(event@.subrange(ev0.len() as int, event@.len() as int))) by {
                            reveal(World::updates_taken);
                            let seg = event@.subrange(ev0.len() as int, event@.len() as int);
                            let seg0 = ev_before.subrange(ev0.len() as int, ev_before.len() as int);
                            assert forall|k1: int, k2: int| 0 <= k1 < k2 < seg.len() && #[trigger] seg[k1] is Updated
                                && #[trigger] seg[k2] is Updated implies seg[k1]->Updated_id != seg[k2]->Updated_id by {
                                if k2 < seg0.len() {
                                    assert(seg[k1] == seg0[k1] && seg[k2] == seg0[k2]);
                                } else {
                                    assert(seg[k2] == tail[0]);
                                    assert(seg[k1] == ev_before[ev0.len() + k1]);
                                    let id1 = seg[k1]->Updated_id;
                                    let j2 = choose|j2: int| 0 <= j2 < cur.len() && taken_before[j2] && cur[j2] == id1;
                                    assert(j2 != j);
                                    w1.lemma_lists_distinct(m);
                                    assert(w1.children@[m]@[j2] == cur[j2] && w1.children@[m]@[j as int] == cur[j as int]);
                                }
                            }
                        }
                    }
                    proof {
                        reveal(World::match_cover);
                        assert(World::match_cover(w1, *self, event@, ev0.len() as int)) by {
                            assert forall|n: u64| #[trigger] self.nodes@.contains_key(n) && !w1.nodes@.contains_key(n) implies exists|k: int|
                                ev0.len() <= k < event@.len() && #[trigger] creates(event@[k], n) by {
                                assert(w_before.nodes@.contains_key(n));
                                let k = choose|k: int| ev0.len() <= k < ev_before.len() && #[trigger] creates(ev_before[k], n);
                                assert(event@[k] == ev_before[k]);
                            }
                            assert forall|n: u64| #[trigger] w1.nodes@.contains_key(n) && self.nodes@[n]@ != w1.nodes@[n]@ implies exists|k: int|
                                ev0.len() <= k < event@.len() && #[trigger] updates(event@[k], n) by {
                                if upd && n == mid {
                                    assert(updates(event@[ev_before.len() as int], n));
                                } else {
                                    if !upd {
                                        assert(current_node@ == flat@);
                                    }
                                    assert(self.nodes@[n] == w_before.nodes@[n]);
                                    assert(w_before.nodes@.contains_key(n));
                                    let k = choose|k: int| ev0.len() <= k < ev_before.len() && #[trigger] updates(ev_before[k], n);
                                    assert(event@[k] == ev_before[k]);
                                }
                            }
                        }
                    }
                    proof {
                        reveal(World::created_or_updated);
                        reveal(World::updates_taken);
                        reveal(World::updates_apply);
                        assert(mid < w1.next_node_id);
                        assert(event@.subrange(0, ev0.len() as int) =~= ev0) by {
                            assert(ev_before.subrange(0, ev0.len() as int) == ev0);
                        }
                        assert forall|k: int| ev0.len() <= k < event@.len() implies (#[trigger] event@[k] matches ChangeView::Updated {
                            id,
                            ..
                        } ==> exists|j2: int| 0 <= j2 < cur.len() && taken@[j2] && cur[j2] == id) by {
                            if k < ev_before.len() {
                                assert(event@[k] == ev_before[k]);
                                match ev_before[k] {
                                    ChangeView::Updated { id, .. } => {
                                        let j2 = choose|j2: int| 0 <= j2 < cur.len() && taken_before[j2] && cur[j2] == id;
                                        assert(taken@[j2]);
                                    },
                                    _ => {},
                                }
                            } else {
                                assert(taken@[j as int] && cur[j as int] == mid);
                            }
                        }
                        assert forall|k: int| ev0.len() <= k < event@.len() implies (#[trigger] event@[k] matches ChangeView::Updated {
                            id,
                            update,
                        } ==> {
                            &&& w1.nodes@.contains_key(id)
                            &&& self.nodes@.contains_key(id)
                            &&& apply_update(w1.nodes@[id]@, update) == self.nodes@[id]@
                            &&& update == update_between(w1.nodes@[id]@, self.nodes@[id]@)
                            &&& w1.nodes@[id]@ != self.nodes@[id]@
                        }) by {
                            if k < ev_before.len() {
                                assert(event@[k] == ev_before[k]);
                                match ev_before[k] {
                                    ChangeView::Updated { id, .. } => {
                                        let j2 = choose|j2: int| 0 <= j2 < cur.len() && taken_before[j2] && cur[j2] == id;
                                        assert(j2 != j);
                                        self.lemma_lists_distinct(m);
                                        w1.lemma_lists_distinct(m);
                                        assert(w1.children@[m]@[j2] == cur[j2] && w1.children@[m]@[j as int] == cur[j as int]);
                                        assert(id != mid);
                                        assert(w_before.nodes@.contains_key(id));
                                    },
                                    _ => {},
                                }
                            } else {
                                assert(event@[k] matches ChangeView::Updated { id, .. } && id == mid);
                                lemma_apply_update_between(w1.nodes@[mid]@, flat_of(child));
                            }
                        }
                        assert(World::created_or_updated(*self, event@, ev0.len() as int, w1.next_node_id));
                        assert(World::updates_taken(event@, ev0.len() as int, cur, taken@));
                        assert(World::updates_apply(w1, *self, event@, ev0.len() as int));
                        assert forall|k: int| ev0.len() <= k < event@.len() implies match #[trigger] event@[k] {
                            ChangeView::Updated { .. } => true,
                            ChangeView::Created { id, parent, before: b, node } => {
                                &&& b is None
                                &&& id >= w1.next_node_id
                                &&& self.nodes@.contains_key(id)
                                &&& self.nodes@[id]@ == node
                                &&& self.parents@.contains_key(id)
                                &&& self.parents@[id].0 == parent
                            },
                            _ => false,
                        } by {
                            if k < ev_before.len() {
                                assert(event@[k] == ev_before[k]);
                                match ev_before[k] {
                                    ChangeView::Created { id, .. } => {
                                        assert(w_before.nodes@.contains_key(id));
                                    },
                                    _ => {},
                                }
                            }
                        }
                    }
                    proof {
                        assert(self.nodes@[mid]@ == flat_of(kids_seq[t]));
                        assert forall|z: u64| z != mid && #[trigger] nodes_before.contains_key(z)
                            implies self.nodes@[z] == nodes_before[z] by {}
                        assert(self.nodes@.contains_key(mid));
                    }
                    let ghost pend_before = pending@;
                    match grandkids {
                        Some(gk) => {
                            proof {
                                lemma_pend_size_push(pending@, (mid, gk));
                            }
                            pending.push_back((mid, gk));
                        },
                        None => {},
                    }
                    let ghost no_before = no@;
                    no.push(mid);
                    proof {
                        assert(updates_of(event@.subrange(ev0.len() as int, event@.len() as int)) == updates_for(
                            w1.node_map(),
                            self.node_map(),
                            no@,
                        )) by {
                            let nm1 = w1.node_map();
                            let nmb = w_before.node_map();
                            let nms = self.node_map();
                            assert(no@ == no_before.push(mid));
                            lemma_updates_for_push(nm1, nms, no_before, mid);
                            assert forall|i: int| 0 <= i < no_before.len() implies (nm1.contains_key(#[trigger] no_before[i])
                                <==> nm1.contains_key(no_before[i])) && (nm1.contains_key(no_before[i]) ==> nm1[no_before[i]]
                                == nm1[no_before[i]] && nms[no_before[i]] == nmb[no_before[i]]) by {
                                assert(no_before[i] != mid);
                                assert(w_before.nodes@.contains_key(no_before[i]));
                                assert(self.nodes@[no_before[i]] == nodes_before[no_before[i]]);
                            }
                            lemma_updates_for_same(nm1, nms, nm1, nmb, no_before);
                            let seg = event@.subrange(ev0.len() as int, event@.len() as int);
                            let seg0 = ev_before.subrange(ev0.len() as int, ev_before.len() as int);
                            if upd {
                                assert(seg =~= seg0.push(event@.last()));
                                lemma_updates_of_push(seg0, event@.last());
                                assert(nm1[mid] != nms[mid]);
                            } else {
                                assert(seg =~= seg0);
                                assert(nms[mid] == nmb[mid]);
                            }
                        }
                        assert(appended == without(no@, cur.to_set())) by {
                            assert(no@.drop_last() =~= no_before);
                            assert(cur[j as int] == mid);
                            assert(cur.to_set().contains(mid));
                        }
                        assert forall|z: u64| #[trigger] w1.nodes@.contains_key(z) && !no@.contains(z)
                            implies self.nodes@[z] == w1.nodes@[z] by {
                            assert(no@[no@.len() - 1] == mid);
                            assert(!no_before.contains(z)) by {
                                if no_before.contains(z) {
                                    let k = choose|k: int| 0 <= k < no_before.len() && no_before[k] == z;
                                    assert(no@[k] == z);
                                }
                            }
                            assert(nodes_before.contains_key(z));
                        }
                        assert forall|k: int| 0 <= k < no@.len() implies self.nodes@.contains_key(#[trigger] no@[k])
                            && self.nodes@[no@[k]]@ == flat_of(kids_seq[k]) by {
                            if k < no_before.len() {
                                assert(no@[k] == no_before[k]);
                                assert(no_before[k] != mid);
                                assert(nodes_before.contains_key(no_before[k]));
                            } else {
                                assert(no@[k] == mid);
                            }
                        }
                        assert(crate::tree::tree_size(kids_seq[t]) >= 1);
                        match kids_seq[t] {
                            Node::Text(_) => {},
                            Node::Element(e) => {
                                assert(crate::tree::tree_size(kids_seq[t]) == 1 + forest_size(e.children@));
                            },
                        }
                        assert forall|k: int| 0 <= k < no@.len() implies (exists|j2: int| 0 <= j2 < n && taken@[j2]
                            && cur[j2] == #[trigger] no@[k]) || appended.contains(no@[k]) by {
                            if k == no@.len() - 1 {
                                assert(taken@[j as int] && cur[j as int] == no@[k]);
                            } else {
                                if !appended.contains(no@[k]) {
                                    let j2 = choose|j2: int| 0 <= j2 < n && taken_before[j2] && cur[j2] == no@[k];
                                    assert(taken@[j2]);
                                }
                            }
                        }
                        assert forall|i: int| 0 <= i < n && #[trigger] taken@[i] implies no@.contains(cur[i]) by {
                            if i == j {
                                assert(no@[no@.len() - 1] == cur[i]);
                            } else {
                                assert(taken_before[i]);
                                assert(no_before.contains(cur[i]));
                                let k = choose|k: int| 0 <= k < no_before.len() && no_before[k] == cur[i];
                                assert(no@[k] == cur[i]);
                            }
                        }
                        assert forall|k: int| 0 <= k < appended.len() implies no@.contains(#[trigger] appended[k]) by {
                            assert(no_before.contains(appended[k]));
                            let k2 = choose|k2: int| 0 <= k2 < no_before.len() && no_before[k2] == appended[k];
                            assert(no@[k2] == appended[k]);
                        }
                        assert(pending@.subrange(0, p0.len() as int) =~= p0);
                        assert forall|k: int| p0.len() <= k < pending@.len() implies exists|j2: int|
                            0 <= j2 < n && taken@[j2] && cur[j2] == (#[trigger] pending@[k]).0 by {
                            if k < pend_before.len() {
                                assert(pending@[k] == pend_before[k]);
                                let j2 = choose|j2: int| 0 <= j2 < n && taken_before[j2] && cur[j2] == pend_before[k].0;
                                assert(taken@[j2]);
                            } else {
                                assert(pending@[k].0 == mid);
                                assert(taken@[j as int] && cur[j as int] == mid);
                            }
                        }
                    }
                    proof {
                        World::lemma_holds_seq_frame(step0, *self, no_before, kids_seq, w1.next_node_id);
                        assert forall|k: int| 0 <= k < no@.len() && #[trigger] no@[k] >= w1.next_node_id
                            implies holds_tree(*self, no@[k], kids_seq[k]) by {
                            if k < no_before.len() {
                                assert(no@[k] == no_before[k]);
                            } else {
                                assert(no@[k] == mid);
                                assert(w1.nodes@.contains_key(mid));
                            }
                        }
                        assert forall|k: int| 0 <= k < no@.len() && #[trigger] no@[k] < w1.next_node_id
                            implies cur.contains(no@[k]) by {
                            if k < no_before.len() {
                                assert(no@[k] == no_before[k]);
                            } else {
                                assert(cur[j as int] == mid);
                            }
                        }
                        assert forall|k: int| 0 <= k < no@.len() && #[trigger] no@[k] < w1.next_node_id
                            && kids_seq[k] is Element implies exists|jj: int| p0.len() <= jj < pending@.len()
                            && pending@[jj].0 == no@[k] && pending@[jj].1@ == kids_seq[k]->Element_0.children@ by {
                            if k < no_before.len() {
                                assert(no@[k] == no_before[k]);
                                let jj = choose|jj: int| p0.len() <= jj < pend0.len() && pend0[jj].0 == no_before[k]
                                    && pend0[jj].1@ == kids_seq[k]->Element_0.children@;
                                assert(pending@[jj] == pend0[jj]);
                            } else {
                                assert(no@[k] == mid);
                                assert(k == t);
                                match kids_seq[t] {
                                    Node::Element(e) => {
                                        assert(pending@[pending@.len() - 1] == (mid, e.children));
                                    },
                                    Node::Text(_) => {},
                                }
                            }
                        }
                    }
                },
                None => {
                    let ghost before = *self;
                    let ghost no_before = no@;
                    let ghost ev_before = event@;
                    let id = self.append_node_inner(child, m, connection, event);
                    no.push(id);
                    proof {
                        lemma_creates_in_entries(ev_before, bfs_entries(seq![(kids_seq[t], m)], before.next_node_id as int),
                            ev0.len() as int, w1.next_node_id as int, before.next_node_id as int);
                        assert(updates_of(event@.subrange(ev0.len() as int, event@.len() as int)) == updates_for(
                            w1.node_map(),
                            self.node_map(),
                            no@,
                        )) by {
                            let seg = event@.subrange(ev0.len() as int, event@.len() as int);
                            let seg0 = ev_before.subrange(ev0.len() as int, ev_before.len() as int);
                            let cv = created_views(bfs_entries(seq![(kids_seq[t], m)], before.next_node_id as int),
                                before.next_node_id as int);
                            assert(event@ == ev_before + cv);
                            assert(seg =~= seg0 + cv);
                            Seq::filter_distributes_over_add(seg0, cv, |c: ChangeView| c is Updated);
                            assert forall|k: int| 0 <= k < cv.len() implies !(#[trigger] cv[k] is Updated) by {}
                            lemma_updates_of_none(cv);
                            assert(updates_of(seg0) + Seq::<ChangeView>::empty() =~= updates_of(seg0));
                            let nm1 = w1.node_map();
                            let nmb = before.node_map();
                            let nms = self.node_map();
                            assert(no@ == no_before.push(id));
                            lemma_updates_for_push(nm1, nms, no_before, id);
                            assert(!nm1.contains_key(id));
                            assert forall|i: int| 0 <= i < no_before.len() implies (nm1.contains_key(#[trigger] no_before[i])
                                <==> nm1.contains_key(no_before[i])) && (nm1.contains_key(no_before[i]) ==> nm1[no_before[i]]
                                == nm1[no_before[i]] && nms[no_before[i]] == nmb[no_before[i]]) by {
                                assert(before.nodes@.contains_key(no_before[i]));
                            }
                            lemma_updates_for_same(nm1, nms, nm1, nmb, no_before);
                            assert(updates_for(nm1, nms, no@) =~= updates_for(nm1, nmb, no_before));
                        }
                        assert(updates_distinct(event@.subrange(ev0.len() as int, event@.len() as int))) by {
                            let seg = event@.subrange(ev0.len() as int, event@.len() as int);
                            let seg0 = ev_before.subrange(ev0.len() as int, ev_before.len() as int);
                            let cv = created_views(bfs_entries(seq![(kids_seq[t], m)], before.next_node_id as int),
                                before.next_node_id as int);
                            assert(event@ == ev_before + cv);
                            assert forall|k1: int, k2: int| 0 <= k1 < k2 < seg.len() && #[trigger] seg[k1] is Updated
                                && #[trigger] seg[k2] is Updated implies seg[k1]->Updated_id != seg[k2]->Updated_id by {
                                if k2 < seg0.len() {
                                    assert(seg[k1] == seg0[k1] && seg[k2] == seg0[k2]);
                                } else {
                                    assert(seg[k2] == cv[k2 - seg0.len()]);
                                }
                            }
                        }
                        reveal(World::created_or_updated);
                        reveal(World::updates_taken);
                        reveal(World::updates_apply);
                        let entries = bfs_entries(seq![(kids_seq[t], m)], before.next_node_id as int);
                        let nx = before.next_node_id as int;
                        assert(event@.subrange(0, ev0.len() as int) =~= ev0) by {
                            assert(ev_before.subrange(0, ev0.len() as int) == ev0);
                            assert(event@ == ev_before + created_views(entries, nx));
                        }
                        assert forall|k: int| ev0.len() <= k < event@.len() implies (#[trigger] event@[k] matches ChangeView::Updated {
                            id,
                            ..
                        } ==> exists|j2: int| 0 <= j2 < cur.len() && taken@[j2] && cur[j2] == id) by {
                            if k < ev_before.len() {
                                assert(event@[k] == ev_before[k]);
                            } else {
                                let j = k - ev_before.len();
                                assert(event@[k] == created_view(nx + j, entries[j]));
                            }
                        }
                        assert forall|k: int| ev0.len() <= k < event@.len() implies (#[trigger] event@[k] matches ChangeView::Updated {
                            id,
                            update,
                        } ==> {
                            &&& w1.nodes@.contains_key(id)
                            &&& self.nodes@.contains_key(id)
                            &&& apply_update(w1.nodes@[id]@, update) == self.nodes@[id]@
                            &&& update == update_between(w1.nodes@[id]@, self.nodes@[id]@)
                            &&& w1.nodes@[id]@ != self.nodes@[id]@
                        }) by {
                            if k < ev_before.len() {
                                assert(event@[k] == ev_before[k]);
                                match ev_before[k] {
                                    ChangeView::Updated { id, .. } => {
                                        assert(before.nodes@.contains_key(id));
                                    },
                                    _ => {},
                                }
                            } else {
                                let j = k - ev_before.len();
                                assert(event@[k] == created_view(nx + j, entries[j]));
                            }
                        }
                        assert forall|k: int| ev0.len() <= k < event@.len() implies match #[trigger] event@[k] {
                            ChangeView::Updated { .. } => true,
                            ChangeView::Created { id, parent, before: b, node } => {
                                &&& b is None
                                &&& id >= w1.next_node_id
                                &&& self.nodes@.contains_key(id)
                                &&& self.nodes@[id]@ == node
                                &&& self.parents@.contains_key(id)
                                &&& self.parents@[id].0 == parent
                            },
                            _ => false,
                        } by {
                            if k < ev_before.len() {
                                assert(event@[k] == ev_before[k]);
                                match ev_before[k] {
                                    ChangeView::Created { id, .. } => {
                                        assert(before.nodes@.contains_key(id));
                                        assert(before.parents@.contains_key(id));
                                    },
                                    _ => {},
                                }
                            } else {
                                let j = k - ev_before.len();
                                assert(event@[k] == created_view(nx + j, entries[j]));
                                assert(self.nodes@[(nx + j) as u64]@ == entries[j].0);
                                assert(self.parents@[(nx + j) as u64].0 == entries[j].1);
                                assert(self.nodes@.contains_key((nx + j) as u64));
                            }
                        }
                        assert(World::created_or_updated(*self, event@, ev0.len() as int, w1.next_node_id));
                        assert(World::updates_taken(event@, ev0.len() as int, cur, taken@));
                        assert(World::updates_apply(w1, *self, event@, ev0.len() as int));
                        reveal(World::match_cover);
                        assert(World::match_cover(w1, *self, event@, ev0.len() as int)) by {
                            assert forall|n: u64| #[trigger] self.nodes@.contains_key(n) && !w1.nodes@.contains_key(n) implies exists|k: int|
                                ev0.len() <= k < event@.len() && #[trigger] creates(event@[k], n) by {
                                if before.nodes@.contains_key(n) {
                                    let k = choose|k: int| ev0.len() <= k < ev_before.len() && #[trigger] creates(ev_before[k], n);
                                    assert(event@[k] == ev_before[k]);
                                } else {
                                    let j = n - nx;
                                    assert(0 <= j < entries.len());
                                    assert(event@[ev_before.len() + j] == created_view(nx + j, entries[j]));
                                    assert(creates(event@[ev_before.len() + j], n));
                                }
                            }
                            assert forall|n: u64| #[trigger] w1.nodes@.contains_key(n) && self.nodes@[n]@ != w1.nodes@[n]@ implies exists|k: int|
                                ev0.len() <= k < event@.len() && #[trigger] updates(event@[k], n) by {
                                assert(before.nodes@.contains_key(n));
                                assert(self.nodes@[n] == before.nodes@[n]);
                                let k = choose|k: int| ev0.len() <= k < ev_before.len() && #[trigger] updates(ev_before[k], n);
                                assert(event@[k] == ev_before[k]);
                            }
                        }
                        assert(entries[0].1 == m && entries[0].0 == flat_of(kids_seq[t])) by {
                            lemma_queue_size_step(seq![(kids_seq[t], m)], before.next_node_id);
                        }
                        assert(self.nodes@[(before.next_node_id + 0) as u64]@ == entries[0].0);
                        assert forall|z: u64| #[trigger] w1.nodes@.contains_key(z) && !no@.contains(z)
                            implies self.nodes@[z] == w1.nodes@[z] by {
                            assert(before.nodes@.contains_key(z));
                            assert(!no_before.contains(z)) by {
                                if no_before.contains(z) {
                                    let k = choose|k: int| 0 <= k < no_before.len() && no_before[k] == z;
                                    assert(no@[k] == z);
                                }
                            }
                        }
                        assert forall|k: int| 0 <= k < no@.len() implies self.nodes@.contains_key(#[trigger] no@[k])
                            && self.nodes@[no@[k]]@ == flat_of(kids_seq[k]) by {
                            if k < no_before.len() {
                                assert(no@[k] == no_before[k]);
                                assert(before.nodes@.contains_key(no_before[k]));
                            } else {
                                assert(no@[k] == id);
                            }
                        }
                        assert(self.parents@[(before.next_node_id + 0) as u64].0 == entries[0].1);
                        assert(!before.nodes@.contains_key(id));
                        assert(!no_before.contains(id)) by {
                            if no_before.contains(id) {
                                let k = choose|k: int| 0 <= k < no_before.len() && no_before[k] == id;
                                if !appended.contains(no_before[k]) {
                                    let j2 = choose|j2: int| 0 <= j2 < n && taken@[j2] && cur[j2] == no_before[k];
                                    assert(w1.parents@.contains_key(w1.children@[m]@[j2]));
                                    assert(w1.nodes@.contains_key(id));
                                } else {
                                    let a = choose|a: int| 0 <= a < appended.len() && appended[a] == id;
                                    assert(self.parents@.contains_key(appended[a]));
                                    assert(before.parents@.contains_key(appended[a]));
                                    assert(before.nodes@.contains_key(id));
                                }
                            }
                        }
                        assert forall|pp: u64| #[trigger] w1.children@.contains_key(pp) implies self.children@.contains_key(pp)
                            && (pp != m ==> self.children@[pp]@ == w1.children@[pp]@) by {
                            assert(before.children@.contains_key(pp));
                            assert(before.nodes@.contains_key(pp) && before.nodes@[pp]@ is Element);
                            assert(self.nodes@.contains_key(pp));
                            assert(self.nodes@[pp] == before.nodes@[pp]);
                            assert(self.tree_wf());
                            assert(self.children@.contains_key(pp));
                            if pp != m {
                                assert(pp < before.next_node_id);
                                lemma_placed_children_none(entries, before.next_node_id as int, pp);
                                assert(before.child_map()[pp] == before.children@[pp]@);
                                assert(self.children@[pp]@ =~= before.children@[pp]@);
                            }
                        }
                        let app2 = appended.push(id);
                        assert(self.nodes@.contains_key(m));
                        assert(self.children@.contains_key(m));
                        assert(self.children@[m]@ == cur + app2) by {
                            assert(before.child_map().contains_key(m));
                            assert(before.child_map()[m] == before.children@[m]@);
                            assert(list_or_empty(before.child_map(), m) == cur + appended);
                            assert(before.nodes@.contains_key(m) && before.nodes@[m]@ is Element);
                            assert(self.nodes@.contains_key(m));
                            assert(self.nodes@[m] == before.nodes@[m]);
                            assert(self.tree_wf());
                            assert(self.children@.contains_key(m));
                            assert(m < before.next_node_id);
                            lemma_placed_children_single(entries, before.next_node_id as int, m);
                            assert(cur + appended + seq![id] =~= cur + app2);
                        }
                        assert forall|k: int| 0 <= k < no@.len() implies (exists|j2: int| 0 <= j2 < n && taken@[j2]
                            && cur[j2] == #[trigger] no@[k]) || app2.contains(no@[k]) by {
                            if k == no@.len() - 1 {
                                assert(app2[app2.len() - 1] == id);
                            } else {
                                if appended.contains(no@[k]) {
                                    let a = choose|a: int| 0 <= a < appended.len() && appended[a] == no@[k];
                                    assert(app2[a] == no@[k]);
                                }
                            }
                        }
                        assert forall|i: int| 0 <= i < n && #[trigger] taken@[i] implies no@.contains(cur[i]) by {
                            let k = choose|k: int| 0 <= k < no_before.len() && no_before[k] == cur[i];
                            assert(no@[k] == cur[i]);
                        }
                        assert forall|k: int| 0 <= k < app2.len() implies no@.contains(#[trigger] app2[k]) by {
                            if k == app2.len() - 1 {
                                assert(no@[no@.len() - 1] == id);
                            } else {
                                let k2 = choose|k2: int| 0 <= k2 < no_before.len() && no_before[k2] == app2[k];
                                assert(no@[k2] == app2[k]);
                            }
                        }
                        assert(self.parents@.contains_key(id) && self.parents@[id].0 == m) by {
                            assert(id == (before.next_node_id + 0) as u64);
                            assert(self.nodes@.contains_key(id));
                            assert(id != ROOT_NODE_RAW);
                            assert(self.tree_wf());
                        }
                        assert forall|k: int| 0 <= k < app2.len() implies self.parents@.contains_key(#[trigger] app2[k])
                            && self.parents@[app2[k]].0 == m by {
                            if k < appended.len() {
                                assert(app2[k] == appended[k]);
                                assert(before.parents@.contains_key(appended[k]));
                                assert(before.parents@[appended[k]].0 == m);
                                assert(self.parents@[appended[k]] == before.parents@[appended[k]]);
                            } else {
                                assert(app2[k] == id);
                                assert(id == (before.next_node_id + 0) as u64);
                                assert(self.nodes@.contains_key(id));
                                assert(id != ROOT_NODE_RAW);
                                assert(self.tree_wf());
                                assert(self.parents@.contains_key(id));
                                assert(self.parents@[id].0 == m);
                            }
                        }
                        assert(next_ok(before, kids_seq[t])) by {
                            lemma_forest_skip(kids_seq, t);
                        }
                        World::lemma_placed_holds(*self, before, kids_seq[t], m, before.next_node_id as int, 0);
                        crate::tree::lemma_bfs_trees_len(seq![(kids_seq[t], m)], before.next_node_id as int);
                        World::lemma_append_frame(before, *self, kids_seq[t], m, w1.next_node_id);
                        World::lemma_holds_seq_frame(before, *self, no_before, kids_seq, w1.next_node_id);
                        assert forall|k: int| 0 <= k < no@.len() && #[trigger] no@[k] >= w1.next_node_id
                            implies holds_tree(*self, no@[k], kids_seq[k]) by {
                            if k < no_before.len() {
                                assert(no@[k] == no_before[k]);
                            } else {
                                assert(no@[k] == id);
                                assert(k == t);
                                assert(id == (before.next_node_id + 0) as u64);
                            }
                        }
                        assert forall|k: int| 0 <= k < no@.len() && #[trigger] no@[k] < w1.next_node_id
                            implies cur.contains(no@[k]) by {
                            if k < no_before.len() {
                                assert(no@[k] == no_before[k]);
                            } else {
                                assert(no@[k] == id);
                            }
                        }
                        assert forall|k: int| 0 <= k < no@.len() && #[trigger] no@[k] < w1.next_node_id
                            && kids_seq[k] is Element implies exists|jj: int| p0.len() <= jj < pending@.len()
                            && pending@[jj].0 == no@[k] && pending@[jj].1@ == kids_seq[k]->Element_0.children@ by {
                            if k < no_before.len() {
                                assert(no@[k] == no_before[k]);
                            } else {
                                assert(no@[k] == id);
                            }
                        }
                        assert forall|z: u64| #[trigger] self.nodes@.contains_key(z) && !w1.nodes@.contains_key(z)
                            implies self.parents@.contains_key(z) && (self.parents@[z].0 == m
                            || self.parents@[z].0 >= w1.next_node_id) by {
                            if before.nodes@.contains_key(z) {
                                assert(before.parents@.contains_key(z));
                            } else {
                                let k = z - before.next_node_id;
                                assert(0 <= k < entries.len());
                                assert(z == (before.next_node_id + k) as u64);
                                assert(self.parents@[(before.next_node_id + k) as u64].0 == entries[k].1);
                                assert(self.nodes@.contains_key(z) && z != ROOT_NODE_RAW);
                            }
                        }
                        assert(app2 == without(no@, cur.to_set())) by {
                            assert(no@.drop_last() =~= no_before);
                            assert(no@.last() == id);
                            assert(!cur.to_set().contains(id)) by {
                                if cur.contains(id) {
                                    let j2 = choose|j2: int| 0 <= j2 < cur.len() && cur[j2] == id;
                                    assert(w1.children@[m]@[j2] == id);
                                    assert(w1.parents@.contains_key(w1.children@[m]@[j2]));
                                    assert(w1.nodes@.contains_key(id));
                                }
                            }
                        }
                        appended = app2;
                    }
                },
            }
        }
        proof {
            assert forall|z: u64| #[trigger] w1.nodes@.contains_key(z) && !cur.contains(z)
                implies self.nodes@[z] == w1.nodes@[z] by {
                if no@.contains(z) {
                    let k = choose|k: int| 0 <= k < no@.len() && no@[k] == z;
                    if appended.contains(z) {
                        let a = choose|a: int| 0 <= a < appended.len() && appended[a] == z;
                        assert(appended[a] >= w1.next_node_id);
                    } else {
                        let j = choose|j: int| 0 <= j < n && taken@[j] && cur[j] == no@[k];
                    }
                }
            }
            assert(ck =~= keys_of_ids(w1.node_map(), cur));
        }
        (no, taken, Ghost(appended))
    }

    /// Deleting distinct children of `m` with their descendants deletes no
    /// node twice.
    proof fn lemma_settle_distinct(w: World, q: Seq<u64>, m: u64)
        requires
            w.wf(),
            q.no_duplicates(),
            forall|i: int| 0 <= i < q.len() ==> #[trigger] q[i] > m && w.parents@.contains_key(q[i]) && w.parents@[q[i]].0
                == m,
        ensures
            removal_order(w.children@, q).no_duplicates(),
    {
        let ch = w.children@;
        assert forall|y: u64, c: u64| #[trigger] ch.contains_key(y) && #[trigger] ch[y]@.contains(c) implies
            w.parents@.contains_key(c) && w.parents@[c].0 == y by {
            let i = choose|i: int| 0 <= i < ch[y]@.len() && ch[y]@[i] == c;
            assert(w.parents@.contains_key(w.children@[y]@[i]));
        }
        assert forall|x: u64, i: int| #[trigger] ch.contains_key(x) && 0 <= i < ch[x]@.len() implies #[trigger] ch[x]@[i]
            > x by {
            assert(w.parents@.contains_key(w.children@[x]@[i]));
        }
        assert forall|y: u64| #[trigger] ch.contains_key(y) implies ch[y]@.no_duplicates() by {
            w.lemma_lists_distinct(y);
        }
        lemma_removal_distinct(ch, w.parents@, q, m);
    }

    /// The current children that no new child took are those of the list
    /// that the new order leaves out.
    proof fn lemma_gone_set(w: World, m: u64, cur: Seq<u64>, appended: Seq<u64>, taken: Seq<bool>, no: Seq<u64>)
        requires
            w.wf(),
            w.children@.contains_key(m),
            w.children@[m]@ == cur + appended,
            taken.len() == cur.len(),
            forall|k: int| 0 <= k < no.len() ==> (exists|j: int| 0 <= j < cur.len() && taken[j]
                && cur[j] == #[trigger] no[k]) || appended.contains(no[k]),
            forall|j: int| 0 <= j < cur.len() && #[trigger] taken[j] ==> no.contains(cur[j]),
            forall|k: int| 0 <= k < appended.len() ==> no.contains(#[trigger] appended[k]),
        ensures
            untaken(cur, taken) == w.children@[m]@.to_set().difference(no.to_set()),
    {
        let l = cur + appended;
        w.lemma_lists_distinct(m);
        assert forall|z: u64| untaken(cur, taken).contains(z) <==> #[trigger] l.to_set().difference(no.to_set()).contains(z) by {
            if untaken(cur, taken).contains(z) {
                let j = choose|j: int| 0 <= j < cur.len() && !taken[j] && cur[j] == z;
                assert(l[j] == z);
                assert(l.to_set().contains(z));
                if no.to_set().contains(z) {
                    assert(no.contains(z));
                    let k = choose|k: int| 0 <= k < no.len() && no[k] == z;
                    if appended.contains(no[k]) {
                        let a = choose|a: int| 0 <= a < appended.len() && appended[a] == z;
                        assert(l[cur.len() + a] == z);
                    } else {
                        let j2 = choose|j2: int| 0 <= j2 < cur.len() && taken[j2] && cur[j2] == no[k];
                        assert(l[j2] == z);
                    }
                }
            }
            if l.to_set().difference(no.to_set()).contains(z) {
                assert(l.contains(z));
                let i = choose|i: int| 0 <= i < l.len() && l[i] == z;
                if i >= cur.len() {
                    assert(appended[i - cur.len()] == z);
                    assert(no.contains(z));
                    assert(no.to_set().contains(z));
                } else {
                    assert(cur[i] == z);
                    if taken[i] {
                        assert(no.contains(z));
                        assert(no.to_set().contains(z));
                    }
                }
            }
        }
        assert(untaken(cur, taken) =~= l.to_set().difference(no.to_set()));
    }

    /// The moves that settling `m` reports after its deletions are those of
    /// `moved_from` over the positions in the list left after the deletions.
    #[verifier::rlimit(40)]
    proof fn lemma_settle_moves(
        w1: World,
        m: u64,
        nos: Seq<u64>,
        order: Seq<u64>,
        before: Seq<u64>,
        ev0: Seq<ChangeView>,
        ev: Seq<ChangeView>,
        ch0: Map<u64, Vec<u64>>,
        q: Seq<u64>,
    )
        requires
            ch0.dom().finite(),
            order == removal_order(ch0, q),
            ascending(q),
            q.no_duplicates(),
            q.to_set() == before.to_set().difference(nos.to_set()),
            w1.wf(),
            w1.children@.contains_key(m),
            w1.children@[m]@ == without(before, order.to_set()),
            nos.to_set() == w1.children@[m]@.to_set(),
            ev == ev0 + deleted_views(order) + moved_from(m, nos, w1.parents@, 0),
            order.no_duplicates(),
        ensures
            deletes_distinct(ev.subrange(ev0.len() as int, ev.len() as int)),
            deletes_of(ev.subrange(ev0.len() as int, ev.len() as int)) == deleted_views(order),
            exists|qq: Seq<u64>| #![trigger removal_order(ch0, qq)] ascending(qq) && qq.no_duplicates() && qq.to_set()
                == before.to_set().difference(nos.to_set()) && deletes_of(ev.subrange(ev0.len() as int, ev.len() as int))
                == deleted_views(removal_order(ch0, qq)),
            forall|pp: u64| #[trigger] moves_of(ev.subrange(ev0.len() as int, ev.len() as int), pp) == if pp == m {
                moved_from(m, nos, index_map(m, without(before, order.to_set())), 0)
            } else {
                Seq::<ChangeView>::empty()
            },
    {
        let l = without(before, order.to_set());
        let pos1 = w1.parents@;
        let tail = ev.subrange(ev0.len() as int, ev.len() as int);
        assert(tail =~= deleted_views(order) + moved_from(m, nos, pos1, 0));
        assert(deletes_of(tail) == deleted_views(order)) by {
            let d = deleted_views(order);
            let mv = moved_from(m, nos, pos1, 0);
            lemma_moved_from_moves(m, nos, pos1, 0);
            Seq::filter_distributes_over_add(d, mv, |c: ChangeView| c is Deleted);
            assert forall|k: int| 0 <= k < d.len() implies #[trigger] d[k] is Deleted by {}
            lemma_deletes_of_all(d);
            assert forall|k: int| 0 <= k < mv.len() implies !(#[trigger] mv[k] is Deleted) by {}
            lemma_deletes_of_none(mv);
            assert(d + Seq::<ChangeView>::empty() =~= d);
        }
        assert(deletes_distinct(tail)) by {
            let d = deleted_views(order);
            let mv = moved_from(m, nos, pos1, 0);
            lemma_moved_from_moves(m, nos, pos1, 0);
            assert forall|k1: int, k2: int| 0 <= k1 < k2 < tail.len() && #[trigger] tail[k1] is Deleted
                && #[trigger] tail[k2] is Deleted implies tail[k1]->Deleted_id != tail[k2]->Deleted_id by {
                if k2 >= d.len() {
                    assert(tail[k2] == mv[k2 - d.len()]);
                } else {
                    assert(tail[k1] == d[k1] && tail[k2] == d[k2]);
                }
            }
        }
        assert forall|i: int| 0 <= i < nos.len() implies pos1[#[trigger] nos[i]].1 == index_map(m, l)[nos[i]].1 by {
            assert(w1.children@[m]@.to_set().contains(nos[i])) by {
                assert(nos.to_set().contains(nos[i]));
            }
            let j = choose|j: int| 0 <= j < l.len() && l[j] == nos[i];
            assert(w1.parents@.contains_key(w1.children@[m]@[j]));
            w1.lemma_lists_distinct(m);
            lemma_index_of_distinct(l, j);
            assert(l.contains(nos[i]));
        }
        lemma_moved_from_same(m, nos, pos1, index_map(m, l), 0);
        assert forall|pp: u64| #[trigger] moves_of(tail, pp) == if pp == m {
            moved_from(m, nos, index_map(m, l), 0)
        } else {
            Seq::<ChangeView>::empty()
        } by {
            let d = deleted_views(order);
            let mv = moved_from(m, nos, pos1, 0);
            lemma_moves_of_add(d, mv, pp);
            assert forall|k: int| 0 <= k < d.len() implies !moves_under(#[trigger] d[k], pp) by {
                assert(d[k] == ChangeView::Deleted { id: order[k] });
            }
            lemma_moves_of_none(d, pp);
            lemma_moved_from_moves(m, nos, pos1, 0);
            if pp == m {
                assert forall|k: int| 0 <= k < mv.len() implies moves_under(#[trigger] mv[k], pp) by {}
                lemma_moves_of_all(mv, pp);
                assert(moves_of(d, pp) + moves_of(mv, pp) =~= mv);
            } else {
                assert forall|k: int| 0 <= k < mv.len() implies !moves_under(#[trigger] mv[k], pp) by {}
                lemma_moves_of_none(mv, pp);
                assert(moves_of(d, pp) + moves_of(mv, pp) =~= Seq::<ChangeView>::empty());
            }
        }
    }

    /// Deletes the current children of `m` that no new child took, with
    /// their descendants, then puts the children of `m` in the order `no`.
    /// Returns the deleted nodes; no node kept under `x` (see [`kept_set`])
    /// is among them.
    #[verifier::rlimit(100)]
    #[verifier::spinoff_prover]
    fn settle(
        &mut self,
        m: u64,
        current: &Vec<u64>,
        taken: &Vec<bool>,
        no: Vec<u64>,
        Ghost(appended): Ghost<Seq<u64>>,
        event: &mut WorldDidChangeResponse,
        Ghost(x): Ghost<u64>,
        Ghost(done): Ghost<Set<u64>>,
        Ghost(lo): Ghost<u64>,
    ) -> (r: Ghost<Set<u64>>)
        requires
            old(self).wf(),
            old(self).children@.contains_key(m),
            old(self).children@[m]@ == current@ + appended,
            taken@.len() == current@.len(),
            forall|k: int| 0 <= k < no@.len() ==> (exists|j: int| 0 <= j < current@.len() && taken@[j]
                && current@[j] == #[trigger] no@[k]) || appended.contains(no@[k]),
            forall|j: int| 0 <= j < current@.len() && #[trigger] taken@[j] ==> no@.contains(current@[j]),
            forall|k: int| 0 <= k < appended.len() ==> no@.contains(#[trigger] appended[k]),
            no@.no_duplicates(),
            x <= m,
            !done.contains(m),
            m == x || (old(self).parents@.contains_key(m) && done.contains(old(self).parents@[m].0)),
            forall|p: u64| #[trigger] done.contains(p) ==> p == x || (old(self).parents@.contains_key(p)
                && done.contains(old(self).parents@[p].0)),
            forall|j: int| 0 <= j < current@.len() ==> #[trigger] current@[j] < lo,
            forall|z: u64| #[trigger] old(self).nodes@.contains_key(z) && z >= lo ==> old(self).parents@.contains_key(z)
                && (old(self).parents@[z].0 >= lo || old(self).parents@[z].0 == m || done.contains(
                old(self).parents@[z].0)),
        ensures
            final(self).wf(),
            final(self).children@.contains_key(m),
            final(self).children@[m] == no,
            forall|z: u64| #[trigger] r@.contains(z) ==> z > m,
            forall|z: u64| #[trigger] kept_set(x, done.insert(m), old(self).parents@,
                untaken(current@, taken@)).contains(z) ==> !r@.contains(z),
            forall|z: u64| #[trigger] old(self).nodes@.contains_key(z) && z >= lo ==> !r@.contains(z),
            final(self).nodes@ == old(self).nodes@.remove_keys(r@),
            final(self).connection_by_node@ == old(self).connection_by_node@.remove_keys(r@),
            final(self).parents@.dom() == old(self).parents@.dom().difference(r@),
            forall|c: u64| #[trigger] final(self).parents@.contains_key(c) ==> final(self).parents@[c].0
                == old(self).parents@[c].0,
            final(self).children@.dom() == old(self).children@.dom().difference(r@),
            forall|p: u64| #[trigger] final(self).children@.contains_key(p) && p != m ==> final(self).children@[p]@
                == without(old(self).children@[p]@, r@),
            forall|c: u64| #[trigger] final(self).connections@.contains_key(c) ==> old(self).connections@.contains_key(c)
                && final(self).connections@[c] == old(self).connections@[c],
            forall|c: u64| #[trigger] old(self).connections@.contains_key(c) && !final(self).connections@.contains_key(c)
                ==> !old(self).connections@[c].connected && forall|n: u64| #[trigger] old(self).connection_by_node@.contains_key(n)
                && old(self).connection_by_node@[n] == c ==> !final(self).nodes@.contains_key(n),
            forall|z: u64| #[trigger] r@.contains(z) ==> old(self).parents@.contains_key(z) && (untaken(current@, taken@).contains(
                z) || r@.contains(old(self).parents@[z].0)),
            final(self).next_node_id == old(self).next_node_id,
            final(self).next_connection_id == old(self).next_connection_id,
            final(event)@.len() >= old(event)@.len(),
            final(event)@.subrange(0, old(event)@.len() as int) == old(event)@,
            forall|k: int| old(event)@.len() <= k < final(event)@.len() ==> match #[trigger] final(event)@[k] {
                ChangeView::Moved { id, parent, before } => parent == m && no@.contains(id) && placed_before(no@, id, before),
                ChangeView::Deleted { id } => old(self).nodes@.contains_key(id) && id < lo && !final(self).nodes@.contains_key(
                    id,
                ),
                _ => false,
            },
            forall|n: u64| #[trigger] old(self).nodes@.contains_key(n) && !final(self).nodes@.contains_key(n) ==> exists|k: int|
                old(event)@.len() <= k < final(event)@.len() && #[trigger] deletes(final(event)@[k], n),
            no@ != without(old(self).children@[m]@, r@) ==> exists|k: int| old(event)@.len() <= k < final(event)@.len()
                && #[trigger] moves_under(final(event)@[k], m),
            forall|z: u64| untaken(current@, taken@).contains(z) ==> #[trigger] r@.contains(z),
            deletes_distinct(final(event)@.subrange(old(event)@.len() as int, final(event)@.len() as int)),
            exists|q: Seq<u64>| #![trigger removal_order(old(self).children@, q)] ascending(q) && q.no_duplicates()
                && q.to_set() == old(self).children@[m]@.to_set().difference(no@.to_set()) && deletes_of(
                final(event)@.subrange(old(event)@.len() as int, final(event)@.len() as int),
            ) == deleted_views(removal_order(old(self).children@, q)),
            forall|p: u64| #[trigger] moves_of(final(event)@.subrange(old(event)@.len() as int, final(event)@.len() as int), p)
                == if p == m {
                moved_from(m, no@, index_map(m, without(old(self).children@[m]@, r@)), 0)
            } else {
                Seq::<ChangeView>::empty()
            },
    {
        let ghost w0 = *self;
        let ghost ev0 = event@;
        let ghost cur = current@;
        let ghost u = untaken(cur, taken@);
        let mut gone: BTreeSet<u64> = BTreeSet::new();
        let n = current.len();
        for j in 0..n
            invariant
                n == cur.len(),
                current@ == cur,
                taken@.len() == n,
                forall|z: u64| #[trigger] gone@.contains(z) <==> exists|i: int| 0 <= i < j && !taken@[i] && cur[i] == z,
        {
            if !taken[j] {
                gone.insert(current[j]);
            }
            proof {
                assert forall|z: u64| #[trigger] gone@.contains(z) <==> exists|i: int| 0 <= i < j + 1 && !taken@[i]
                    && cur[i] == z by {
                    if gone@.contains(z) && !(exists|i: int| 0 <= i < j && !taken@[i] && cur[i] == z) {
                        assert(!taken@[j as int] && cur[j as int] == z);
                    }
                }
            }
        }
        proof {
            assert(gone@ =~= u);
        }
        let queue = sorted_queue(&gone);
        let ghost q = queue@;
        let ghost ch = w0.children@;
        let ghost order = removal_order(ch, q);
        let ghost r = order.to_set();
        let ghost kept = kept_set(x, done.insert(m), w0.parents@, u);
        proof {
            w0.lemma_lists_distinct(m);
            assert forall|i: int| 0 <= i < q.len() implies #[trigger] q[i] > m && w0.parents@.contains_key(q[i])
                && w0.parents@[q[i]].0 == m by {
                assert(q.to_set().contains(q[i]));
                let j = choose|j: int| 0 <= j < cur.len() && !taken@[j] && cur[j] == q[i];
                assert(w0.children@[m]@[j] == cur[j]);
                assert(w0.parents@.contains_key(w0.children@[m]@[j]));
            }
            World::lemma_settle_distinct(w0, q, m);
            assert forall|y: u64, i: int| #[trigger] ch.contains_key(y) && 0 <= i < ch[y]@.len() implies #[trigger] ch[y]@[i] > y by {
                assert(w0.parents@.contains_key(w0.children@[y]@[i]));
            }
            lemma_removal_above(ch, q, m);
            assert forall|y: u64, c: u64| #[trigger] ch.contains_key(y) && #[trigger] ch[y]@.contains(c)
                implies w0.parents@.contains_key(c) && w0.parents@[c].0 == y by {
                let i = choose|i: int| 0 <= i < ch[y]@.len() && ch[y]@[i] == c;
                assert(w0.parents@.contains_key(w0.children@[y]@[i]));
            }
            assert forall|c: u64| #[trigger] kept.contains(c) implies c == x || (w0.parents@.contains_key(c)
                && kept.contains(w0.parents@[c].0)) by {
                if c != x {
                    let p = w0.parents@[c].0;
                    assert(!u.contains(p)) by {
                        if u.contains(p) {
                            let j = choose|j: int| 0 <= j < cur.len() && !taken@[j] && cur[j] == p;
                            assert(w0.children@[m]@[j] == p);
                            assert(w0.parents@.contains_key(w0.children@[m]@[j]));
                            assert(w0.parents@[p].0 == m);
                            assert(p > m);
                            if p != x {
                                assert(done.contains(p));
                            }
                        }
                    }
                }
            }
            assert forall|c: u64| q.contains(c) implies !#[trigger] kept.contains(c) by {
                assert(q.to_set().contains(c));
                let j = choose|j: int| 0 <= j < cur.len() && !taken@[j] && cur[j] == c;
                assert(w0.children@[m]@[j] == c);
                assert(w0.parents@.contains_key(w0.children@[m]@[j]));
                assert(u.contains(c));
            }
            assert(!order.contains(x));
            let fresh = Set::new(|z: u64| w0.nodes@.contains_key(z) && z >= lo);
            let wide = kept.union(fresh);
            assert forall|c: u64| #[trigger] wide.contains(c) implies c == x || (w0.parents@.contains_key(c)
                && wide.contains(w0.parents@[c].0)) by {
                if kept.contains(c) {
                } else {
                    assert(fresh.contains(c));
                    let p = w0.parents@[c].0;
                    if p >= lo {
                        assert(w0.nodes@.contains_key(p)) by {
                            assert(w0.children@.contains_key(p));
                        }
                        assert(fresh.contains(p));
                    } else {
                        assert(p == m || done.contains(p));
                        assert(kept.contains(p)) by {
                            if p != x {
                                if p != m {
                                    assert(w0.parents@.contains_key(p) && done.contains(w0.parents@[p].0));
                                }
                                assert(!u.contains(p)) by {
                                    if u.contains(p) {
                                        let j = choose|j: int| 0 <= j < cur.len() && !taken@[j] && cur[j] == p;
                                        assert(w0.children@[m]@[j] == p);
                                        assert(w0.parents@.contains_key(w0.children@[m]@[j]));
                                        assert(w0.parents@[p].0 == m);
                                        assert(p > m);
                                        if p != x {
                                            assert(done.contains(p) || p == m);
                                        }
                                    }
                                }
                            }
                        }
                    }
                }
            }
            assert forall|c: u64| q.contains(c) implies !#[trigger] wide.contains(c) by {
                assert(q.to_set().contains(c));
                let j = choose|j: int| 0 <= j < cur.len() && !taken@[j] && cur[j] == c;
                assert(cur[j] < lo);
                assert(!kept.contains(c));
            }
            lemma_removal_avoids(ch, w0.parents@, q, wide, x);
            lemma_removal_covers_queue(ch, q);
        }
        self.remove_nodes_inner(queue, event);
        let ghost ev1 = event@;
        let ghost w1 = *self;
        proof {
            assert forall|c: u64| #[trigger] w0.connections@.contains_key(c) && !w1.connections@.contains_key(c)
                implies !w0.connections@[c].connected && forall|n: u64| #[trigger] w0.connection_by_node@.contains_key(n)
                && w0.connection_by_node@[n] == c ==> !w1.nodes@.contains_key(n) by {
                let e = emptied_connections(w0.nodes_by_connection@, w0.connections@, r);
                assert(e.contains(c));
                assert forall|n: u64| #[trigger] w0.connection_by_node@.contains_key(n)
                    && w0.connection_by_node@[n] == c implies !w1.nodes@.contains_key(n) by {
                    assert(w0.nodes_by_connection@[c]@.contains(n));
                }
            }
        }
        proof {
            lemma_removal_source(ch, q);
            assert forall|z: u64| #[trigger] order.contains(z) implies w0.nodes@.contains_key(z) && z < lo by {
                if q.contains(z) {
                    assert(q.to_set().contains(z));
                    let j = choose|j: int| 0 <= j < cur.len() && !taken@[j] && cur[j] == z;
                    assert(w0.children@[m]@[j] == cur[j]);
                    assert(w0.parents@.contains_key(w0.children@[m]@[j]));
                } else {
                    let y = choose|y: u64| order.contains(y) && ch.contains_key(y) && #[trigger] ch[y]@.contains(z);
                    let i = choose|i: int| 0 <= i < ch[y]@.len() && ch[y]@[i] == z;
                    assert(w0.parents@.contains_key(w0.children@[y]@[i]));
                }
                assert(r.contains(z));
            }
        }
        proof {
            let l = without(cur + appended, r);
            lemma_without(cur + appended, r);
            assert(self.children@.contains_key(m)) by {
                assert(kept.contains(m));
                assert(!r.contains(m));
            }
            assert(self.children@[m]@ == l);
            assert forall|z: u64| #[trigger] no@.to_set().contains(z) implies l.to_set().contains(z) by {
                assert(no@.contains(z));
                let k = choose|k: int| 0 <= k < no@.len() && no@[k] == z;
                assert((cur + appended).contains(z)) by {
                    if appended.contains(z) {
                        let a = choose|a: int| 0 <= a < appended.len() && appended[a] == z;
                        assert((cur + appended)[cur.len() + a] == z);
                    } else {
                        let j = choose|j: int| 0 <= j < cur.len() && taken@[j] && cur[j] == no@[k];
                        assert((cur + appended)[j] == z);
                    }
                }
                let i = choose|i: int| 0 <= i < (cur + appended).len() && (cur + appended)[i] == z;
                assert(w0.parents@.contains_key(w0.children@[m]@[i]));
                assert(!u.contains(z)) by {
                    if u.contains(z) {
                        let j = choose|j: int| 0 <= j < cur.len() && !taken@[j] && cur[j] == z;
                        assert((cur + appended)[j] == z);
                        if appended.contains(z) {
                            let a = choose|a: int| 0 <= a < appended.len() && appended[a] == z;
                            assert((cur + appended)[cur.len() + a] == z);
                        } else {
                            let j2 = choose|j2: int| 0 <= j2 < cur.len() && taken@[j2] && cur[j2] == no@[k];
                            assert((cur + appended)[j2] == z);
                        }
                    }
                }
                assert(kept.contains(z));
                assert(l.contains(z));
            }
            assert forall|z: u64| #[trigger] l.to_set().contains(z) implies no@.to_set().contains(z) by {
                assert(l.contains(z));
                let i = choose|i: int| 0 <= i < l.len() && l[i] == z;
                assert((cur + appended).contains(l[i]) && !r.contains(l[i]));
                let i2 = choose|i2: int| 0 <= i2 < (cur + appended).len() && (cur + appended)[i2] == z;
                if i2 < cur.len() {
                    if !taken@[i2] {
                        assert(u.contains(z));
                        assert(q.to_set().contains(z));
                        assert(q.contains(z));
                        assert(order.contains(z));
                    }
                    assert(no@.contains(cur[i2]));
                } else {
                    assert(appended[i2 - cur.len()] == z);
                    assert(no@.contains(appended[i2 - cur.len()]));
                }
            }
            assert(no@.to_set() =~= self.children@[m]@.to_set());
        }
        let ghost nos = no@;
        let ghost pos1 = self.parents@;
        self.reorder(m, no, event);
        proof {
            assert forall|c: u64| #[trigger] self.connections@.contains_key(c) implies w0.connections@.contains_key(c)
                && self.connections@[c] == w0.connections@[c] by {}
            let mv = moved_from(m, nos, pos1, 0);
            lemma_moved_from_moves(m, nos, pos1, 0);
            assert(event@ == ev0 + deleted_views(order) + mv);
            assert(event@.subrange(0, ev0.len() as int) =~= ev0);
            assert forall|k: int| ev0.len() <= k < event@.len() implies match #[trigger] event@[k] {
                ChangeView::Moved { id, parent, before } => parent == m && nos.contains(id) && placed_before(nos, id, before),
                ChangeView::Deleted { id } => w0.nodes@.contains_key(id) && id < lo && !self.nodes@.contains_key(id),
                _ => false,
            } by {
                let d = deleted_views(order);
                if k < ev0.len() + d.len() {
                    let i = k - ev0.len();
                    assert(event@[k] == d[i]);
                    assert(d[i] == ChangeView::Deleted { id: order[i] });
                    assert(order.contains(order[i]));
                    assert(r.contains(order[i]));
                } else {
                    let i = k - ev0.len() - d.len();
                    assert(event@[k] == mv[i]);
                }
            }
            assert forall|n: u64| #[trigger] w0.nodes@.contains_key(n) && !self.nodes@.contains_key(n) implies exists|k: int|
                ev0.len() <= k < event@.len() && #[trigger] deletes(event@[k], n) by {
                assert(r.contains(n));
                assert(order.contains(n));
                let i = choose|i: int| 0 <= i < order.len() && order[i] == n;
                let d = deleted_views(order);
                assert(event@[ev0.len() + i] == d[i]);
                assert(deletes(event@[ev0.len() + i], n));
            }
            assert(nos != without(w0.children@[m]@, r) ==> exists|k: int| ev0.len() <= k < event@.len()
                && #[trigger] moves_under(event@[k], m)) by {
                if nos != without(w0.children@[m]@, r) {
                    World::lemma_reorder_moves(m, nos, w1);
                    let mv = moved_from(m, nos, pos1, 0);
                    let d = deleted_views(order);
                    let j = choose|j: int| 0 <= j < mv.len() && #[trigger] moves_under(mv[j], m);
                    assert(event@[ev0.len() + d.len() + j] == mv[j]);
                }
            }
            assert forall|z: u64| #[trigger] r.contains(z) implies w0.parents@.contains_key(z) && (u.contains(z)
                || r.contains(w0.parents@[z].0)) by {
                assert(order.contains(z));
                if q.contains(z) {
                    assert(q.to_set().contains(z));
                    let j = choose|j: int| 0 <= j < cur.len() && !taken@[j] && cur[j] == z;
                    assert(w0.children@[m]@[j] == cur[j]);
                    assert(w0.parents@.contains_key(w0.children@[m]@[j]));
                    lemma_removal_source(ch, q);
                } else {
                    let y = choose|y: u64| order.contains(y) && ch.contains_key(y) && #[trigger] ch[y]@.contains(z);
                    let i = choose|i: int| 0 <= i < ch[y]@.len() && ch[y]@[i] == z;
                    assert(w0.parents@.contains_key(w0.children@[y]@[i]));
                    assert(order.to_set().contains(y));
                }
            }
            lemma_queue_removed(ch, q, u);
            World::lemma_gone_set(w0, m, cur, appended, taken@, nos);
            World::lemma_settle_moves(w1, m, nos, order, w0.children@[m]@, ev0, event@, ch, q);
        }
        Ghost(r)
    }

    /// What holds between the rounds of [`World::set_node_children`] under
    /// `x`: the entries still `pending` are live elements below `x` whose
    /// parents are settled (in `done`), and once `x` is settled its children
    /// are `res`, with the content of `input`.
    #[verifier::opaque]
    closed spec fn render_inv(
        &self,
        w0: World,
        x: u64,
        input: Seq<Node>,
        first: Vec<Node>,
        pending: Seq<(u64, Vec<Node>)>,
        done: Set<u64>,
        res: Seq<u64>,
    ) -> bool {
        &&& w0.wf()
        &&& w0.children@.contains_key(x)
        &&& self.children@.contains_key(x)
        &&& self.nodes@.contains_key(x)
        &&& self.nodes@[x] == w0.nodes@[x]
        &&& self.next_node_id >= w0.next_node_id
        &&& self.next_connection_id == w0.next_connection_id
        &&& self.next_node_id + pend_size(pending) <= u64::MAX
        &&& first@ == input
        &&& (!done.contains(x) ==> pending == seq![(x, first)] && done == Set::<u64>::empty())
        &&& forall|k: int| 0 <= k < pending.len() ==> self.children@.contains_key(#[trigger] pending[k].0)
        &&& forall|k: int| 0 <= k < pending.len() ==> !done.contains(#[trigger] pending[k].0)
        &&& forall|k: int| 0 <= k < pending.len() ==> x <= #[trigger] pending[k].0
        &&& forall|k: int| 0 <= k < pending.len() ==> #[trigger] pending[k].0 == x || (
            self.parents@.contains_key(pending[k].0) && done.contains(self.parents@[pending[k].0].0))
        &&& forall|k1: int, k2: int| 0 <= k1 < k2 < pending.len() ==> #[trigger] pending[k1].0
            != #[trigger] pending[k2].0
        &&& forall|p: u64| #[trigger] done.contains(p) ==> p == x || (self.parents@.contains_key(p)
            && done.contains(self.parents@[p].0))
        &&& (done.contains(x) ==> {
            &&& self.children@[x]@ == res
            &&& res.len() == input.len()
            &&& forall|i: int| 0 <= i < res.len() ==> self.nodes@.contains_key(#[trigger] res[i])
                && self.nodes@[res[i]]@ == flat_of(input[i])
                && self.parents@.contains_key(res[i]) && self.parents@[res[i]].0 == x
        })
    }

    /// What the calls of one round of [`World::set_node_children`] establish
    /// about the worlds before (`wa`), between (`wb`) and after (`wc`) it.
    #[verifier::opaque]
    closed spec fn round_facts(
        w0: World,
        wa: World,
        wb: World,
        wc: World,
        x: u64,
        input: Seq<Node>,
        first: Vec<Node>,
        q: Seq<(u64, Vec<Node>)>,
        pend_b: Seq<(u64, Vec<Node>)>,
        done: Set<u64>,
        res: Seq<u64>,
        cur: Seq<u64>,
        taken: Seq<bool>,
        appended: Seq<u64>,
        no: Seq<u64>,
        r: Set<u64>,
    ) -> bool {
        &&& wa.wf()
        &&& wb.wf()
        &&& wc.wf()
        &&& wa.render_inv(w0, x, input, first, q, done, res)
        &&& q.len() > 0
        &&& wa.children@.contains_key(q[0].0)
        &&& cur == wa.children@[q[0].0]@
        &&& taken.len() == cur.len()
        &&& wb.children@.contains_key(q[0].0)
        &&& wb.children@[q[0].0]@ == cur + appended
        &&& appended == without(no, cur.to_set())
        &&& forall|z: u64| untaken(cur, taken).contains(z) ==> #[trigger] r.contains(z)
        &&& forall|z: u64| #[trigger] r.contains(z) ==> wb.parents@.contains_key(z) && (untaken(cur, taken).contains(z)
            || r.contains(wb.parents@[z].0))
        &&& forall|k: int| 0 <= k < no.len() ==> (exists|j: int| 0 <= j < cur.len() && taken[j]
                    && cur[j] == #[trigger] no[k]) || appended.contains(no[k])
        &&& forall|j: int| 0 <= j < cur.len() && #[trigger] taken[j] ==> no.contains(cur[j])
        &&& forall|k: int| 0 <= k < appended.len() ==> no.contains(#[trigger] appended[k])
        &&& no.no_duplicates()
        &&& forall|k: int| 0 <= k < appended.len() ==> wb.parents@.contains_key(#[trigger] appended[k])
                    && wb.parents@[appended[k]].0 == q[0].0
        &&& wb.next_node_id + pend_size(pend_b) <= u64::MAX
        &&& pend_b.len() >= q.len() - 1
        &&& pend_b.subrange(0, q.len() - 1) == q.drop_first()
        &&& forall|k: int| q.len() - 1 <= k < pend_b.len() ==> exists|j: int|
                    0 <= j < cur.len() && taken[j] && cur[j] == (#[trigger] pend_b[k]).0
        &&& forall|k: int| q.len() - 1 <= k < pend_b.len() ==> wb.children@.contains_key(#[trigger] pend_b[k].0)
        &&& forall|k1: int, k2: int| q.len() - 1 <= k1 < k2 < pend_b.len()
                    ==> #[trigger] pend_b[k1].0 != #[trigger] pend_b[k2].0
        &&& no.len() == q[0].1@.len()
        &&& forall|k: int| 0 <= k < no.len() ==> wb.nodes@.contains_key(#[trigger] no[k])
                    && wb.nodes@[no[k]]@ == flat_of(q[0].1@[k])
        &&& forall|z: u64| #[trigger] wa.nodes@.contains_key(z) && !cur.contains(z) ==> wb.nodes@[z] == wa.nodes@[z]
        &&& forall|z: u64| #[trigger] wa.nodes@.contains_key(z) ==> wb.nodes@.contains_key(z)
        &&& forall|z: u64| #[trigger] wa.parents@.contains_key(z) ==> wb.parents@.contains_key(z)
                    && wb.parents@[z] == wa.parents@[z]
        &&& forall|p: u64| #[trigger] wa.children@.contains_key(p) ==> wb.children@.contains_key(p)
                    && (p != q[0].0 ==> wb.children@[p]@ == wa.children@[p]@)
        &&& wb.next_node_id >= wa.next_node_id
        &&& wb.next_connection_id == wa.next_connection_id
        &&& wc.children@.contains_key(q[0].0)
        &&& wc.children@[q[0].0]@ == no
        &&& forall|z: u64| #[trigger] kept_set(x, done.insert(q[0].0), wb.parents@, untaken(cur, taken)).contains(z)
                    ==> !r.contains(z)
        &&& wc.nodes@ == wb.nodes@.remove_keys(r)
        &&& wc.parents@.dom() == wb.parents@.dom().difference(r)
        &&& forall|c: u64| #[trigger] wc.parents@.contains_key(c) ==> wc.parents@[c].0 == wb.parents@[c].0
        &&& wc.children@.dom() == wb.children@.dom().difference(r)
        &&& forall|p: u64| #[trigger] wc.children@.contains_key(p) && p != q[0].0 ==> wc.children@[p]@
                    == without(wb.children@[p]@, r)
        &&& wc.next_node_id == wb.next_node_id
        &&& wc.next_connection_id == wb.next_connection_id
    }

    /// What [`World::render_inv`] says of the pending entries.
    proof fn lemma_inv_pending(
        w: World,
        w0: World,
        x: u64,
        input: Seq<Node>,
        first: Vec<Node>,
        q: Seq<(u64, Vec<Node>)>,
        done: Set<u64>,
        res: Seq<u64>,
    )
        requires
            w.render_inv(w0, x, input, first, q, done, res),
        ensures
            forall|k: int| 0 <= k < q.len() ==> w.children@.contains_key(#[trigger] q[k].0),
            forall|k: int| 0 <= k < q.len() ==> !done.contains(#[trigger] q[k].0),
            forall|k: int| 0 <= k < q.len() ==> x <= #[trigger] q[k].0,
            forall|k: int| 0 <= k < q.len() ==> #[trigger] q[k].0 == x || (
                w.parents@.contains_key(q[k].0) && done.contains(w.parents@[q[k].0].0)),
            forall|k1: int, k2: int| 0 <= k1 < k2 < q.len() ==> #[trigger] q[k1].0 != #[trigger] q[k2].0,
            forall|p: u64| #[trigger] done.contains(p) ==> p == x || (w.parents@.contains_key(p)
                && done.contains(w.parents@[p].0)),
    {
        reveal(World::render_inv);
    }

    /// The entries still pending after a round are kept, live, unsettled
    /// elements below `x` whose parents are settled.
    #[verifier::rlimit(50)]
    proof fn lemma_round_pending(
        w0: World,
        wa: World,
        wb: World,
        wc: World,
        x: u64,
        input: Seq<Node>,
        first: Vec<Node>,
        q: Seq<(u64, Vec<Node>)>,
        pend_b: Seq<(u64, Vec<Node>)>,
        done: Set<u64>,
        res: Seq<u64>,
        cur: Seq<u64>,
        taken: Seq<bool>,
        appended: Seq<u64>,
        no: Seq<u64>,
        r: Set<u64>,
    )
        requires
            World::round_facts(w0, wa, wb, wc, x, input, first, q, pend_b, done, res, cur, taken, appended, no, r),
        ensures
            forall|k: int| 0 <= k < pend_b.len() ==> wc.children@.contains_key(#[trigger] pend_b[k].0)
                && !done.insert(q[0].0).contains(pend_b[k].0) && x <= pend_b[k].0
                && (pend_b[k].0 == x || (wc.parents@.contains_key(pend_b[k].0)
                && done.insert(q[0].0).contains(wc.parents@[pend_b[k].0].0))),
    {
        reveal(World::round_facts);
        World::lemma_inv_pending(wa, w0, x, input, first, q, done, res);
        let m = q[0].0;
        let rest = q.drop_first();
        let u = untaken(cur, taken);
        let done2 = done.insert(m);
        let kept = kept_set(x, done2, wb.parents@, u);
        wa.lemma_lists_distinct(m);
        assert forall|k: int| 0 <= k < pend_b.len() implies wc.children@.contains_key(#[trigger] pend_b[k].0)
            && !done2.contains(pend_b[k].0) && x <= pend_b[k].0
            && (pend_b[k].0 == x || (wc.parents@.contains_key(pend_b[k].0)
            && done2.contains(wc.parents@[pend_b[k].0].0))) by {
            let e = pend_b[k].0;
            if k < rest.len() {
                assert(pend_b.subrange(0, rest.len() as int)[k] == rest[k]);
                assert(rest[k] == q[k + 1]);
                assert(q[0].0 != q[k + 1].0);
                if e != x {
                    assert(wa.parents@.contains_key(e) && done.contains(wa.parents@[e].0));
                    assert(!u.contains(e)) by {
                        if u.contains(e) {
                            let j = choose|j: int| 0 <= j < cur.len() && !taken[j] && cur[j] == e;
                            assert(wa.children@[m]@[j] == e);
                            assert(wa.parents@.contains_key(wa.children@[m]@[j]));
                        }
                    }
                }
                assert(kept.contains(e));
                assert(wa.children@.contains_key(e));
            } else {
                let j = choose|j: int| 0 <= j < cur.len() && taken[j] && cur[j] == pend_b[k].0;
                assert(wa.children@[m]@[j] == e);
                assert(wa.parents@.contains_key(wa.children@[m]@[j]));
                assert(!u.contains(e)) by {
                    if u.contains(e) {
                        let j2 = choose|j2: int| 0 <= j2 < cur.len() && !taken[j2] && cur[j2] == e;
                        assert(wa.children@[m]@[j2] == e);
                    }
                }
                assert(kept.contains(e));
                assert(e > m);
                if done.contains(e) {
                    assert(wa.parents@[e].0 == m);
                }
            }
            assert(!r.contains(e));
        }
    }

    /// The entries still pending after a round are distinct.
    #[verifier::rlimit(80)]
    #[verifier::spinoff_prover]
    proof fn lemma_round_distinct(
        w0: World,
        wa: World,
        wb: World,
        wc: World,
        x: u64,
        input: Seq<Node>,
        first: Vec<Node>,
        q: Seq<(u64, Vec<Node>)>,
        pend_b: Seq<(u64, Vec<Node>)>,
        done: Set<u64>,
        res: Seq<u64>,
        cur: Seq<u64>,
        taken: Seq<bool>,
        appended: Seq<u64>,
        no: Seq<u64>,
        r: Set<u64>,
    )
        requires
            World::round_facts(w0, wa, wb, wc, x, input, first, q, pend_b, done, res, cur, taken, appended, no, r),
        ensures
            forall|k1: int, k2: int| 0 <= k1 < k2 < pend_b.len() ==> #[trigger] pend_b[k1].0
                != #[trigger] pend_b[k2].0,
    {
        reveal(World::round_facts);
        World::lemma_inv_pending(wa, w0, x, input, first, q, done, res);
        let m = q[0].0;
        let rest = q.drop_first();
        assert forall|k1: int, k2: int| 0 <= k1 < k2 < pend_b.len()
            implies #[trigger] pend_b[k1].0 != #[trigger] pend_b[k2].0 by {
            if k2 < rest.len() {
                assert(pend_b.subrange(0, rest.len() as int)[k1] == rest[k1]);
                assert(pend_b.subrange(0, rest.len() as int)[k2] == rest[k2]);
                assert(rest[k1] == q[k1 + 1]);
                assert(rest[k2] == q[k2 + 1]);
            } else if k1 < rest.len() {
                assert(pend_b.subrange(0, rest.len() as int)[k1] == rest[k1]);
                assert(rest[k1] == q[k1 + 1]);
                let e1 = pend_b[k1].0;
                let j = choose|j: int| 0 <= j < cur.len() && taken[j] && cur[j] == pend_b[k2].0;
                assert(wa.children@[m]@[j] == pend_b[k2].0);
                assert(wa.parents@.contains_key(wa.children@[m]@[j]));
                if e1 != x {
                    assert(done.contains(wa.parents@[e1].0));
                }
            }
        }
    }

    /// After a round the settled nodes, with the one just settled, still
    /// hang from `x` through settled nodes, and `x` is kept.
    #[verifier::rlimit(50)]
    proof fn lemma_round_done(
        w0: World,
        wa: World,
        wb: World,
        wc: World,
        x: u64,
        input: Seq<Node>,
        first: Vec<Node>,
        q: Seq<(u64, Vec<Node>)>,
        pend_b: Seq<(u64, Vec<Node>)>,
        done: Set<u64>,
        res: Seq<u64>,
        cur: Seq<u64>,
        taken: Seq<bool>,
        appended: Seq<u64>,
        no: Seq<u64>,
        r: Set<u64>,
    )
        requires
            World::round_facts(w0, wa, wb, wc, x, input, first, q, pend_b, done, res, cur, taken, appended, no, r),
        ensures
            forall|p: u64| #[trigger] done.insert(q[0].0).contains(p) ==> p == x || (wc.parents@.contains_key(p)
                && done.insert(q[0].0).contains(wc.parents@[p].0)),
            wc.children@.contains_key(x),
            wc.nodes@.contains_key(x),
            wc.nodes@[x] == wa.nodes@[x],
    {
        reveal(World::round_facts);
        reveal(World::render_inv);
        let m = q[0].0;
        let u = untaken(cur, taken);
        let done2 = done.insert(m);
        let kept = kept_set(x, done2, wb.parents@, u);
        assert forall|z: u64| #[trigger] u.contains(z) implies wb.parents@.contains_key(z) && wb.parents@[z].0 == m by {
            let j = choose|j: int| 0 <= j < cur.len() && !taken[j] && cur[j] == z;
            assert(wa.children@[m]@[j] == z);
            assert(wa.parents@.contains_key(wa.children@[m]@[j]));
        }
        assert forall|p: u64| #[trigger] done2.contains(p) implies p == x || (wc.parents@.contains_key(p)
            && done2.contains(wc.parents@[p].0)) by {
            if p != x {
                assert(kept.contains(p)) by {
                    if p != m {
                        assert(wb.parents@.contains_key(p));
                        if u.contains(p) {
                            assert(wb.parents@[p].0 == m);
                        }
                    }
                }
                assert(!r.contains(p));
            }
        }
        assert(kept.contains(x));
        assert(!r.contains(x));
        assert(!cur.contains(x)) by {
            if cur.contains(x) {
                let j = choose|j: int| 0 <= j < cur.len() && cur[j] == x;
                assert(wa.children@[m]@[j] == x);
                assert(wa.parents@.contains_key(wa.children@[m]@[j]));
            }
        }
        assert(wb.children@.contains_key(x));
    }

    /// After the round that settles `x`, its children have the content of
    /// `input`.
    #[verifier::rlimit(50)]
    proof fn lemma_round_result_first(
        w0: World,
        wa: World,
        wb: World,
        wc: World,
        x: u64,
        input: Seq<Node>,
        first: Vec<Node>,
        q: Seq<(u64, Vec<Node>)>,
        pend_b: Seq<(u64, Vec<Node>)>,
        done: Set<u64>,
        res: Seq<u64>,
        cur: Seq<u64>,
        taken: Seq<bool>,
        appended: Seq<u64>,
        no: Seq<u64>,
        r: Set<u64>,
    )
        requires
            World::round_facts(w0, wa, wb, wc, x, input, first, q, pend_b, done, res, cur, taken, appended, no, r),
            q[0].0 == x,
        ensures
            wc.children@[x]@ == no,
            no.len() == input.len(),
            forall|i: int| 0 <= i < no.len() ==> wc.nodes@.contains_key(#[trigger] no[i])
                && wc.nodes@[no[i]]@ == flat_of(input[i])
                && wc.parents@.contains_key(no[i]) && wc.parents@[no[i]].0 == x,
    {
        reveal(World::round_facts);
        reveal(World::render_inv);
        let m = q[0].0;
        let u = untaken(cur, taken);
        let done2 = done.insert(m);
        let kept = kept_set(x, done2, wb.parents@, u);
        wa.lemma_lists_distinct(m);
        assert forall|z: u64| #[trigger] u.contains(z) implies wb.parents@.contains_key(z) && wb.parents@[z].0 == m by {
            let j = choose|j: int| 0 <= j < cur.len() && !taken[j] && cur[j] == z;
            assert(wa.children@[m]@[j] == z);
            assert(wa.parents@.contains_key(wa.children@[m]@[j]));
        }
        assert forall|i: int| 0 <= i < no.len() implies wc.nodes@.contains_key(#[trigger] no[i])
            && wc.nodes@[no[i]]@ == flat_of(input[i])
            && wc.parents@.contains_key(no[i]) && wc.parents@[no[i]].0 == x by {
            let z = no[i];
            assert(wb.nodes@.contains_key(z));
            assert(q[0].1 == first);
            assert(wb.parents@.contains_key(z) && wb.parents@[z].0 == m) by {
                if !appended.contains(z) {
                    let j = choose|j: int| 0 <= j < cur.len() && taken[j] && cur[j] == no[i];
                    assert(wa.children@[m]@[j] == z);
                    assert(wa.parents@.contains_key(wa.children@[m]@[j]));
                } else {
                    let a = choose|a: int| 0 <= a < appended.len() && appended[a] == z;
                }
            }
            assert(!u.contains(z)) by {
                if u.contains(z) {
                    let j2 = choose|j2: int| 0 <= j2 < cur.len() && !taken[j2] && cur[j2] == z;
                    assert(wa.children@[m]@[j2] == z);
                    if appended.contains(z) {
                        let a = choose|a: int| 0 <= a < appended.len() && appended[a] == z;
                        assert((cur + appended)[cur.len() + a] == z);
                        assert((cur + appended)[j2] == z);
                    } else {
                        let j = choose|j: int| 0 <= j < cur.len() && taken[j] && cur[j] == no[i];
                        assert((cur + appended)[j] == z);
                        assert((cur + appended)[j2] == z);
                    }
                }
            }
            assert(kept.contains(z));
            assert(!r.contains(z));
        }
    }

    /// What [`World::render_inv`] says of the first pending entry and of a
    /// settled `x`.
    proof fn lemma_inv_settled(
        w: World,
        w0: World,
        x: u64,
        input: Seq<Node>,
        first: Vec<Node>,
        q: Seq<(u64, Vec<Node>)>,
        done: Set<u64>,
        res: Seq<u64>,
    )
        requires
            w.render_inv(w0, x, input, first, q, done, res),
            q.len() > 0,
        ensures
            x <= q[0].0,
            !done.contains(q[0].0),
            done.contains(x) ==> {
                &&& w.children@.contains_key(x)
                &&& w.children@[x]@ == res
                &&& res.len() == input.len()
                &&& forall|i: int| 0 <= i < res.len() ==> w.nodes@.contains_key(#[trigger] res[i])
                    && w.nodes@[res[i]]@ == flat_of(input[i])
                    && w.parents@.contains_key(res[i]) && w.parents@[res[i]].0 == x
            },
    {
        reveal(World::render_inv);
        assert(x <= q[0].0);
        assert(!done.contains(q[0].0));
    }

    /// A round that settles another node keeps the children of a settled `x`.
    #[verifier::rlimit(50)]
    proof fn lemma_round_result_later(
        w0: World,
        wa: World,
        wb: World,
        wc: World,
        x: u64,
        input: Seq<Node>,
        first: Vec<Node>,
        q: Seq<(u64, Vec<Node>)>,
        pend_b: Seq<(u64, Vec<Node>)>,
        done: Set<u64>,
        res: Seq<u64>,
        cur: Seq<u64>,
        taken: Seq<bool>,
        appended: Seq<u64>,
        no: Seq<u64>,
        r: Set<u64>,
    )
        requires
            World::round_facts(w0, wa, wb, wc, x, input, first, q, pend_b, done, res, cur, taken, appended, no, r),
            q[0].0 != x,
            done.contains(x),
        ensures
            wc.children@[x]@ == res,
            res.len() == input.len(),
            forall|i: int| 0 <= i < res.len() ==> wc.nodes@.contains_key(#[trigger] res[i])
                && wc.nodes@[res[i]]@ == flat_of(input[i])
                && wc.parents@.contains_key(res[i]) && wc.parents@[res[i]].0 == x,
    {
        reveal(World::round_facts);
        World::lemma_inv_settled(wa, w0, x, input, first, q, done, res);
        let m = q[0].0;
        assert(x <= m);
        let u = untaken(cur, taken);
        let done2 = done.insert(m);
        let kept = kept_set(x, done2, wb.parents@, u);
        wa.lemma_lists_distinct(m);
        assert forall|z: u64| #[trigger] u.contains(z) implies wb.parents@.contains_key(z) && wb.parents@[z].0 == m by {
            let j = choose|j: int| 0 <= j < cur.len() && !taken[j] && cur[j] == z;
            assert(wa.children@[m]@[j] == z);
            assert(wa.parents@.contains_key(wa.children@[m]@[j]));
        }
        assert(kept.contains(x));
        assert(!r.contains(x));
        assert(wb.children@.contains_key(x));
        assert(wc.children@.contains_key(x));
        assert(wc.children@[x]@ == res) by {
            assert(wb.children@[x]@ == res);
            lemma_without(res, r);
            assert forall|i: int| 0 <= i < res.len() implies !r.contains(#[trigger] res[i]) by {
                assert(wa.parents@[res[i]].0 == x);
                assert(!u.contains(res[i])) by {
                    if u.contains(res[i]) {
                        assert(wb.parents@[res[i]].0 == m);
                    }
                }
                assert(kept.contains(res[i]));
            }
        }
        assert forall|i: int| 0 <= i < res.len() implies wc.nodes@.contains_key(#[trigger] res[i])
            && wc.nodes@[res[i]]@ == flat_of(input[i])
            && wc.parents@.contains_key(res[i]) && wc.parents@[res[i]].0 == x by {
            let z = res[i];
            assert(wa.parents@[z].0 == x);
            assert(!cur.contains(z)) by {
                if cur.contains(z) {
                    let j = choose|j: int| 0 <= j < cur.len() && cur[j] == z;
                    assert(wa.children@[m]@[j] == z);
                    assert(wa.parents@.contains_key(wa.children@[m]@[j]));
                }
            }
            assert(wb.nodes@[z] == wa.nodes@[z]);
            assert(!u.contains(z)) by {
                if u.contains(z) {
                    assert(wb.parents@[z].0 == m);
                }
            }
            assert(kept.contains(z));
            assert(!r.contains(z));
        }
    }

    /// After a round the children of `x`, once settled, have the content of
    /// `input`; returns them.
    proof fn lemma_round_result(
        w0: World,
        wa: World,
        wb: World,
        wc: World,
        x: u64,
        input: Seq<Node>,
        first: Vec<Node>,
        q: Seq<(u64, Vec<Node>)>,
        pend_b: Seq<(u64, Vec<Node>)>,
        done: Set<u64>,
        res: Seq<u64>,
        cur: Seq<u64>,
        taken: Seq<bool>,
        appended: Seq<u64>,
        no: Seq<u64>,
        r: Set<u64>,
    ) -> (res2: Seq<u64>)
        requires
            World::round_facts(w0, wa, wb, wc, x, input, first, q, pend_b, done, res, cur, taken, appended, no, r),
        ensures
            done.insert(q[0].0).contains(x) ==> {
                &&& wc.children@[x]@ == res2
                &&& res2.len() == input.len()
                &&& forall|i: int| 0 <= i < res2.len() ==> wc.nodes@.contains_key(#[trigger] res2[i])
                    && wc.nodes@[res2[i]]@ == flat_of(input[i])
                    && wc.parents@.contains_key(res2[i]) && wc.parents@[res2[i]].0 == x
            },
            res2 == if q[0].0 == x { no } else { res },
    {
        if q[0].0 == x {
            World::lemma_round_result_first(w0, wa, wb, wc, x, input, first, q, pend_b, done, res, cur, taken, appended, no, r);
            no
        } else {
            if done.contains(x) {
                World::lemma_round_result_later(w0, wa, wb, wc, x, input, first, q, pend_b, done, res, cur, taken, appended, no, r);
            }
            res
        }
    }

    /// One round of [`World::set_node_children`] keeps [`World::render_inv`].
    proof fn lemma_round(
        w0: World,
        wa: World,
        wb: World,
        wc: World,
        x: u64,
        input: Seq<Node>,
        first: Vec<Node>,
        q: Seq<(u64, Vec<Node>)>,
        pend_b: Seq<(u64, Vec<Node>)>,
        done: Set<u64>,
        res: Seq<u64>,
        cur: Seq<u64>,
        taken: Seq<bool>,
        appended: Seq<u64>,
        no: Seq<u64>,
        r: Set<u64>,
    ) -> (res2: Seq<u64>)
        requires
            World::round_facts(w0, wa, wb, wc, x, input, first, q, pend_b, done, res, cur, taken, appended, no, r),
        ensures
            wc.render_inv(w0, x, input, first, pend_b, done.insert(q[0].0), res2),
            res2 == if q[0].0 == x { no } else { res },
    {
        World::lemma_round_pending(w0, wa, wb, wc, x, input, first, q, pend_b, done, res, cur, taken, appended, no, r);
        World::lemma_round_distinct(w0, wa, wb, wc, x, input, first, q, pend_b, done, res, cur, taken, appended, no, r);
        World::lemma_round_done(w0, wa, wb, wc, x, input, first, q, pend_b, done, res, cur, taken, appended, no, r);
        let res2 = World::lemma_round_result(w0, wa, wb, wc, x, input, first, q, pend_b, done, res, cur, taken, appended, no, r);
        reveal(World::round_facts);
        reveal(World::render_inv);
        assert(done.contains(x) ==> done.insert(q[0].0).contains(x));
        res2
    }

    /// What a settled child `c` rendering `s` satisfies: it has the content
    /// of `s`; a node created by this rendering (from `lo` on) holds the whole
    /// tree `s`; an element kept from before has its children rendered in a
    /// later round (pending) or settled with the children of `s`.
    pub closed spec fn child_ok(
        &self,
        lo: u64,
        pending: Seq<(u64, Vec<Node>)>,
        done: Set<u64>,
        inputs: Map<u64, Seq<Node>>,
        c: u64,
        s: Node,
    ) -> bool {
        &&& self.nodes@.contains_key(c)
        &&& self.nodes@[c]@ == flat_of(s)
        &&& c >= lo ==> holds_tree(*self, c, s)
        &&& (c < lo && s is Element) ==> ((done.contains(c) && inputs.contains_key(c) && inputs[c]
            == s->Element_0.children@) || exists|k: int| 0 <= k < pending.len() && pending[k].0 == c
            && #[trigger] pending[k].1@ == s->Element_0.children@)
    }

    /// The shape of the settled part while rendering from `w0`: nodes from
    /// before the rendering that are not settled keep children from before;
    /// pending nodes are from before; new nodes hang below new or settled
    /// nodes; each settled node has the children its input asks for.
    #[verifier::opaque]
    closed spec fn tree_inv(
        &self,
        w0: World,
        pending: Seq<(u64, Vec<Node>)>,
        done: Set<u64>,
        inputs: Map<u64, Seq<Node>>,
    ) -> bool {
        let lo = w0.next_node_id;
        &&& forall|z: u64, i: int| #[trigger] self.children@.contains_key(z) && z < lo && !done.contains(z) && 0 <= i
            < self.children@[z]@.len() ==> #[trigger] self.children@[z]@[i] < lo
        &&& forall|k: int| 0 <= k < pending.len() ==> #[trigger] pending[k].0 < lo
        &&& forall|z: u64| #[trigger] self.nodes@.contains_key(z) && z >= lo ==> self.parents@.contains_key(z) && (
            self.parents@[z].0 >= lo || done.contains(self.parents@[z].0))
        &&& forall|p: u64| #[trigger] done.contains(p) ==> self.children@.contains_key(p) && inputs.contains_key(p)
            && self.children@[p]@.len() == inputs[p].len()
        &&& forall|p: u64, i: int| #[trigger] done.contains(p) && 0 <= i < inputs[p].len() ==> self.child_ok(lo, pending,
            done, inputs, #[trigger] self.children@[p]@[i], inputs[p][i])
    }

    /// Further facts of one round, on what rendering adds.
    #[verifier::opaque]
    closed spec fn round_extra(
        w0: World,
        wa: World,
        wb: World,
        wc: World,
        q: Seq<(u64, Vec<Node>)>,
        pend_b: Seq<(u64, Vec<Node>)>,
        cur: Seq<u64>,
        no: Seq<u64>,
        r: Set<u64>,
    ) -> bool {
        let kids = q[0].1@;
        &&& wa.next_node_id >= w0.next_node_id
        &&& forall|k: int| 0 <= k < no.len() && #[trigger] no[k] >= wa.next_node_id ==> holds_tree(wb, no[k], kids[k])
        &&& forall|k: int| 0 <= k < no.len() && #[trigger] no[k] < wa.next_node_id ==> cur.contains(no[k])
        &&& forall|k: int| 0 <= k < no.len() && #[trigger] no[k] < wa.next_node_id && kids[k] is Element
            ==> exists|j: int| q.len() - 1 <= j < pend_b.len() && pend_b[j].0 == no[k] && pend_b[j].1@
            == kids[k]->Element_0.children@
        &&& forall|z: u64| #[trigger] wb.nodes@.contains_key(z) && !wa.nodes@.contains_key(z)
            ==> wb.parents@.contains_key(z) && (wb.parents@[z].0 == q[0].0 || wb.parents@[z].0 >= wa.next_node_id)
        &&& forall|z: u64| #[trigger] wb.nodes@.contains_key(z) && z >= w0.next_node_id ==> !r.contains(z)
        &&& forall|z: u64| #[trigger] wb.nodes@.contains_key(z) && !wa.nodes@.contains_key(z) ==> z >= wa.next_node_id
        &&& forall|z: u64| #[trigger] wa.nodes@.contains_key(z) ==> same_kind(wa.nodes@[z]@, wb.nodes@[z]@)
    }

    /// At the start of a rendering under `x`, nothing is settled and `x` is pending.
    proof fn lemma_tree_init(w0: World, x: u64, first: Vec<Node>)
        requires
            w0.wf(),
            w0.nodes@.contains_key(x),
        ensures
            w0.tree_inv(w0, seq![(x, first)], Set::empty(), Map::empty()),
    {
        reveal(World::tree_inv);
        assert forall|z: u64, i: int| #[trigger] w0.children@.contains_key(z) && z < w0.next_node_id && 0 <= i
            < w0.children@[z]@.len() implies #[trigger] w0.children@[z]@[i] < w0.next_node_id by {
            assert(w0.parents@.contains_key(w0.children@[z]@[i]));
        }
    }

    /// The nodes from `lo` on keep their content and children from `w1` to `w2`.
    pub closed spec fn frame_from(w1: World, w2: World, lo: u64) -> bool {
        &&& forall|z: u64| #[trigger] w1.nodes@.contains_key(z) && z >= lo ==> w2.nodes@.contains_key(z)
            && w2.nodes@[z]@ == w1.nodes@[z]@
        &&& forall|z: u64| #[trigger] w1.children@.contains_key(z) && z >= lo ==> w2.children@.contains_key(z)
            && w2.children@[z]@ == w1.children@[z]@
    }

    /// Settling a node below `lo` that deletes no node from `lo` on keeps the
    /// nodes from `lo` on.
    proof fn lemma_settle_frame(wb: World, wc: World, m: u64, lo: u64, r: Set<u64>)
        requires
            wb.wf(),
            m < lo,
            forall|z: u64| #[trigger] wb.nodes@.contains_key(z) && z >= lo ==> !r.contains(z),
            wc.nodes@ == wb.nodes@.remove_keys(r),
            wc.children@.dom() == wb.children@.dom().difference(r),
            forall|p: u64| #[trigger] wc.children@.contains_key(p) && p != m ==> wc.children@[p]@ == without(
                wb.children@[p]@, r),
        ensures
            World::frame_from(wb, wc, lo),
    {
        assert forall|z: u64| #[trigger] wb.children@.contains_key(z) && z >= lo implies wc.children@.contains_key(z)
            && wc.children@[z]@ == wb.children@[z]@ by {
            assert(wb.nodes@.contains_key(z));
            assert(!r.contains(z));
            let l = wb.children@[z]@;
            assert forall|i: int| 0 <= i < l.len() implies !r.contains(#[trigger] l[i]) by {
                assert(wb.parents@.contains_key(wb.children@[z]@[i]));
                assert(wb.parents@[l[i]].0 == z);
                assert(l[i] > z);
                assert(wb.nodes@.contains_key(l[i]));
            }
            lemma_without(l, r);
            assert(z != m);
            assert(wb.children@.dom().difference(r).contains(z));
            assert(wc.children@.dom().contains(z));
            assert(wc.children@.contains_key(z));
            assert(wc.children@[z]@ == without(l, r));
            assert(without(l, r) == l);
        }
    }

    /// Whether the changes of `ev` from position `from` on are updates, or
    /// creations of nodes from identity `lo` on that `w` holds as created.
    #[verifier::opaque]
    spec fn created_or_updated(w: World, ev: Seq<ChangeView>, from: int, lo: u64) -> bool {
        forall|k: int| from <= k < ev.len() ==> match #[trigger] ev[k] {
            ChangeView::Updated { .. } => true,
            ChangeView::Created { id, parent, before: b, node } => {
                &&& b is None
                &&& id >= lo
                &&& w.nodes@.contains_key(id)
                &&& w.nodes@[id]@ == node
                &&& w.parents@.contains_key(id)
                &&& w.parents@[id].0 == parent
            },
            _ => false,
        }
    }

    /// Whether every creation in `ev` is of a node from identity `lo` on that
    /// `w` holds as created, and every deletion is of a node of `w0` below
    /// `lo` that `w` no longer has.
    #[verifier::opaque]
    spec fn changes_sound(w: World, w0: World, ev: Seq<ChangeView>, lo: u64) -> bool {
        forall|k: int| 0 <= k < ev.len() ==> match #[trigger] ev[k] {
            ChangeView::Created { id, parent, before: b, node } => {
                &&& b is None
                &&& id >= lo
                &&& w.nodes@.contains_key(id)
                &&& w.nodes@[id]@ == node
                &&& w.parents@.contains_key(id)
                &&& w.parents@[id].0 == parent
            },
            ChangeView::Deleted { id } => {
                &&& id < lo
                &&& w0.nodes@.contains_key(id)
                &&& !w.nodes@.contains_key(id)
            },
            _ => true,
        }
    }

    /// Whether every update in `ev` from position `from` on is of a current
    /// child that was taken.
    #[verifier::opaque]
    spec fn updates_taken(ev: Seq<ChangeView>, from: int, cur: Seq<u64>, taken: Seq<bool>) -> bool {
        forall|k: int| from <= k < ev.len() ==> (#[trigger] ev[k] matches ChangeView::Updated { id, .. } ==> exists|j: int|
            0 <= j < cur.len() && taken[j] && cur[j] == id)
    }

    /// Whether every update in `ev` from position `from` on turns the content
    /// that `w1` had into the content that `w` has.
    #[verifier::opaque]
    spec fn updates_apply(w1: World, w: World, ev: Seq<ChangeView>, from: int) -> bool {
        forall|k: int| from <= k < ev.len() ==> (#[trigger] ev[k] matches ChangeView::Updated { id, update } ==> {
            &&& w1.nodes@.contains_key(id)
            &&& w.nodes@.contains_key(id)
            &&& apply_update(w1.nodes@[id]@, update) == w.nodes@[id]@
            &&& update == update_between(w1.nodes@[id]@, w.nodes@[id]@)
            &&& w1.nodes@[id]@ != w.nodes@[id]@
        })
    }

    /// Whether the changes of `ev` from position `from` on create every node
    /// that `w` has and `w1` had not, and update every node of `w1` whose
    /// content differs in `w`.
    #[verifier::opaque]
    spec fn match_cover(w1: World, w: World, ev: Seq<ChangeView>, from: int) -> bool {
        &&& forall|n: u64| #[trigger] w.nodes@.contains_key(n) && !w1.nodes@.contains_key(n) ==> exists|k: int|
            from <= k < ev.len() && #[trigger] creates(ev[k], n)
        &&& forall|n: u64| #[trigger] w1.nodes@.contains_key(n) && w.nodes@[n]@ != w1.nodes@[n]@ ==> exists|k: int|
            from <= k < ev.len() && #[trigger] updates(ev[k], n)
    }

    /// Whether every update in `ev` is of a node of `w0` that `w` still has
    /// under a settled parent, and every move is of a node that `w` has
    /// under the settled parent the move names.
    #[verifier::opaque]
    spec fn changes_kept(w: World, w0: World, ev: Seq<ChangeView>, done: Set<u64>) -> bool {
        forall|k: int| 0 <= k < ev.len() ==> match #[trigger] ev[k] {
            ChangeView::Updated { id, update } => {
                &&& w0.nodes@.contains_key(id)
                &&& w.nodes@.contains_key(id)
                &&& w.parents@.contains_key(id)
                &&& done.contains(w.parents@[id].0)
                &&& apply_update(w0.nodes@[id]@, update) == w.nodes@[id]@
                &&& update == update_between(w0.nodes@[id]@, w.nodes@[id]@)
                &&& w0.nodes@[id]@ != w.nodes@[id]@
            },
            ChangeView::Moved { id, parent, .. } => {
                &&& w.nodes@.contains_key(id)
                &&& w.parents@.contains_key(id)
                &&& w.parents@[id].0 == parent
                &&& done.contains(parent)
            },
            _ => true,
        }
    }

    /// Whether the changes `ev` report every difference between `w0` and `w`.
    #[verifier::opaque]
    spec fn world_cover(w: World, w0: World, ev: Seq<ChangeView>) -> bool {
        &&& forall|n: u64| #[trigger] w.nodes@.contains_key(n) && !w0.nodes@.contains_key(n) ==> exists|k: int|
            0 <= k < ev.len() && #[trigger] creates(ev[k], n)
        &&& forall|n: u64| #[trigger] w0.nodes@.contains_key(n) && !w.nodes@.contains_key(n) ==> exists|k: int|
            0 <= k < ev.len() && #[trigger] deletes(ev[k], n)
        &&& forall|n: u64| #[trigger] w0.nodes@.contains_key(n) && w.nodes@.contains_key(n) && w.nodes@[n]@ != w0.nodes@[n]@
            ==> exists|k: int| 0 <= k < ev.len() && #[trigger] updates(ev[k], n)
    }

    /// A round of rendering reports every difference it makes.
    proof fn lemma_round_cover(
        w0: World,
        wa: World,
        wb: World,
        wc: World,
        ev_a: Seq<ChangeView>,
        ev_b: Seq<ChangeView>,
        ev_c: Seq<ChangeView>,
        r: Set<u64>,
    )
        requires
            w0.wf(),
            World::world_cover(wa, w0, ev_a),
            wa.next_node_id >= w0.next_node_id,
            ev_b.len() >= ev_a.len(),
            ev_b.subrange(0, ev_a.len() as int) == ev_a,
            World::match_cover(wa, wb, ev_b, ev_a.len() as int),
            forall|z: u64| #[trigger] wa.nodes@.contains_key(z) ==> wb.nodes@.contains_key(z),
            forall|z: u64| #[trigger] wb.nodes@.contains_key(z) && !wa.nodes@.contains_key(z) ==> z >= wa.next_node_id,
            ev_c.len() >= ev_b.len(),
            ev_c.subrange(0, ev_b.len() as int) == ev_b,
            forall|n: u64| #[trigger] wb.nodes@.contains_key(n) && !wc.nodes@.contains_key(n) ==> exists|k: int|
                ev_b.len() <= k < ev_c.len() && #[trigger] deletes(ev_c[k], n),
            wc.nodes@ == wb.nodes@.remove_keys(r),
        ensures
            World::world_cover(wc, w0, ev_c),
    {
        reveal(World::world_cover);
        reveal(World::match_cover);
        assert forall|k: int| 0 <= k < ev_a.len() implies #[trigger] ev_c[k] == ev_a[k] by {
            assert(ev_b[k] == ev_b.subrange(0, ev_a.len() as int)[k]);
            assert(ev_c[k] == ev_c.subrange(0, ev_b.len() as int)[k]);
        }
        assert forall|k: int| 0 <= k < ev_b.len() implies #[trigger] ev_c[k] == ev_b[k] by {
            assert(ev_c[k] == ev_c.subrange(0, ev_b.len() as int)[k]);
        }
        assert forall|n: u64| #[trigger] wc.nodes@.contains_key(n) && !w0.nodes@.contains_key(n) implies exists|k: int|
            0 <= k < ev_c.len() && #[trigger] creates(ev_c[k], n) by {
            if wa.nodes@.contains_key(n) {
                let k = choose|k: int| 0 <= k < ev_a.len() && #[trigger] creates(ev_a[k], n);
                assert(ev_c[k] == ev_a[k]);
            } else {
                let k = choose|k: int| ev_a.len() <= k < ev_b.len() && #[trigger] creates(ev_b[k], n);
                assert(ev_c[k] == ev_b[k]);
            }
        }
        assert forall|n: u64| #[trigger] w0.nodes@.contains_key(n) && !wc.nodes@.contains_key(n) implies exists|k: int|
            0 <= k < ev_c.len() && #[trigger] deletes(ev_c[k], n) by {
            if !wa.nodes@.contains_key(n) {
                let k = choose|k: int| 0 <= k < ev_a.len() && #[trigger] deletes(ev_a[k], n);
                assert(ev_c[k] == ev_a[k]);
            } else {
                assert(wb.nodes@.contains_key(n));
                let k = choose|k: int| ev_b.len() <= k < ev_c.len() && #[trigger] deletes(ev_c[k], n);
            }
        }
        assert forall|n: u64| #[trigger] w0.nodes@.contains_key(n) && wc.nodes@.contains_key(n) && wc.nodes@[n]@
            != w0.nodes@[n]@ implies exists|k: int| 0 <= k < ev_c.len() && #[trigger] updates(ev_c[k], n) by {
            assert(n < w0.next_node_id);
            assert(wb.nodes@.contains_key(n));
            assert(wa.nodes@.contains_key(n));
            assert(wc.nodes@[n] == wb.nodes@[n]);
            if wb.nodes@[n]@ != wa.nodes@[n]@ {
                let k = choose|k: int| ev_a.len() <= k < ev_b.len() && #[trigger] updates(ev_b[k], n);
                assert(ev_c[k] == ev_b[k]);
            } else {
                let k = choose|k: int| 0 <= k < ev_a.len() && #[trigger] updates(ev_a[k], n);
                assert(ev_c[k] == ev_a[k]);
            }
        }
    }

    /// A round of rendering keeps the content that the world started with on
    /// every node whose parent is not settled yet.
    proof fn lemma_round_untouched(w0: World, wa: World, wb: World, wc: World, done: Set<u64>, m: u64, cur: Seq<u64>, r: Set<u64>)
        requires
            wa.wf(),
            wb.wf(),
            wa.children@.contains_key(m),
            wa.children@[m]@ == cur,
            wa.next_node_id >= w0.next_node_id,
            forall|z: u64| #[trigger] wa.nodes@.contains_key(z) && z < w0.next_node_id && wa.parents@.contains_key(z)
                && !done.contains(wa.parents@[z].0) ==> wa.nodes@[z] == w0.nodes@[z],
            forall|z: u64| #[trigger] wb.nodes@.contains_key(z) && !wa.nodes@.contains_key(z) ==> z >= wa.next_node_id,
            forall|z: u64| #[trigger] wa.parents@.contains_key(z) ==> wb.parents@.contains_key(z) && wb.parents@[z]
                == wa.parents@[z],
            forall|z: u64| #[trigger] wa.nodes@.contains_key(z) && !cur.contains(z) ==> wb.nodes@[z] == wa.nodes@[z],
            wc.nodes@ == wb.nodes@.remove_keys(r),
            wc.parents@.dom() == wb.parents@.dom().difference(r),
            forall|c: u64| #[trigger] wc.parents@.contains_key(c) ==> wc.parents@[c].0 == wb.parents@[c].0,
        ensures
            forall|z: u64| #[trigger] wc.nodes@.contains_key(z) && z < w0.next_node_id && wc.parents@.contains_key(z)
                && !done.insert(m).contains(wc.parents@[z].0) ==> wc.nodes@[z] == w0.nodes@[z],
    {
        assert forall|z: u64| #[trigger] wc.nodes@.contains_key(z) && z < w0.next_node_id && wc.parents@.contains_key(z)
            && !done.insert(m).contains(wc.parents@[z].0) implies wc.nodes@[z] == w0.nodes@[z] by {
            assert(wb.nodes@.contains_key(z));
            assert(wa.nodes@.contains_key(z));
            assert(wb.parents@.contains_key(z));
            if !wa.parents@.contains_key(z) {
                assert(z == ROOT_NODE_RAW);
                assert(wb.tree_wf());
                assert(wb.parents@[z].0 < z);
            }
            assert(wb.parents@[z] == wa.parents@[z]);
            assert(!cur.contains(z)) by {
                if cur.contains(z) {
                    let j = choose|j: int| 0 <= j < cur.len() && cur[j] == z;
                    assert(wa.children@[m]@[j] == cur[j]);
                }
            }
        }
    }

    /// Every node that a round deletes lies below `x`: it is an untaken
    /// child of `m`, which lies below `x`, or a child of a deleted node.
    proof fn lemma_removed_in_subtree(
        w0: World,
        wb: World,
        x: u64,
        m: u64,
        cur: Seq<u64>,
        tk: Seq<bool>,
        r: Set<u64>,
        z: u64,
    )
        requires
            w0.wf(),
            in_subtree(w0.parents@, x, m),
            forall|y: u64| #[trigger] r.contains(y) ==> wb.parents@.contains_key(y) && (untaken(cur, tk).contains(y)
                || r.contains(wb.parents@[y].0)),
            forall|y: u64| #[trigger] r.contains(y) ==> y < w0.next_node_id,
            forall|y: u64| #[trigger] wb.parents@.contains_key(y) && y < w0.next_node_id ==> w0.parents@.contains_key(y)
                && wb.parents@[y].0 == w0.parents@[y].0,
            forall|j: int| 0 <= j < cur.len() ==> #[trigger] wb.parents@.contains_key(cur[j]) && wb.parents@[cur[j]].0 == m,
            r.contains(z),
        ensures
            in_subtree(w0.parents@, x, z),
        decreases z,
    {
        if z != x {
            let p = wb.parents@[z].0;
            assert(w0.parents@.contains_key(z) && w0.parents@[z].0 == p);
            assert(p < z);
            if untaken(cur, tk).contains(z) {
                let j = choose|j: int| 0 <= j < cur.len() && !tk[j] && cur[j] == z;
                assert(p == m);
            } else {
                World::lemma_removed_in_subtree(w0, wb, x, m, cur, tk, r, p);
            }
        }
    }

    /// The children of a node outside the subtree of `x` are `x` or lie
    /// outside it too, so none of them is among the deleted `r`.
    proof fn lemma_list_outside(w0: World, x: u64, r: Set<u64>, p: u64)
        requires
            w0.wf(),
            w0.children@.contains_key(p),
            !in_subtree(w0.parents@, x, p),
            forall|y: u64| #[trigger] r.contains(y) ==> in_subtree(w0.parents@, x, y),
            !r.contains(x),
        ensures
            forall|i: int| 0 <= i < w0.children@[p]@.len() ==> !r.contains(#[trigger] w0.children@[p]@[i]),
    {
        assert forall|i: int| 0 <= i < w0.children@[p]@.len() implies !r.contains(#[trigger] w0.children@[p]@[i]) by {
            let c = w0.children@[p]@[i];
            assert(w0.parents@.contains_key(c) && w0.parents@[c].0 == p && p < c);
            if c != x && r.contains(c) {
                assert(in_subtree(w0.parents@, x, c));
            }
        }
    }

    /// Whether the settled nodes `done` and the nodes of `pending` lie in the
    /// subtree of `x`.
    #[verifier::opaque]
    spec fn subtree_inv(w0: World, x: u64, done: Set<u64>, pending: Seq<(u64, Vec<Node>)>) -> bool {
        &&& forall|p: u64| #[trigger] done.contains(p) ==> in_subtree(w0.parents@, x, p)
        &&& forall|k: int| 0 <= k < pending.len() ==> in_subtree(w0.parents@, x, #[trigger] pending[k].0)
    }

    /// Whether `w` keeps every connection of `w0` that it has, unchanged, and
    /// drops only disconnected ones whose nodes are all gone.
    #[verifier::opaque]
    spec fn conns_kept(w: World, w0: World) -> bool {
        &&& forall|c: u64| #[trigger] w.connections@.contains_key(c) ==> w0.connections@.contains_key(c)
            && w.connections@[c] == w0.connections@[c]
        &&& forall|c: u64| #[trigger] w0.connections@.contains_key(c) && !w.connections@.contains_key(c)
            ==> !w0.connections@[c].connected && forall|n: u64| #[trigger] w0.connection_by_node@.contains_key(n)
            && w0.connection_by_node@[n] == c ==> !w.nodes@.contains_key(n)
    }

    /// Whether every node of `w0` outside the subtree of `x` is in `w` as it
    /// was: content, parent and position, and child list.
    #[verifier::opaque]
    spec fn outside_kept(w: World, w0: World, x: u64) -> bool {
        forall|z: u64| #[trigger] w0.nodes@.contains_key(z) && !in_subtree(w0.parents@, x, z) ==> {
            &&& w.nodes@.contains_key(z)
            &&& w.nodes@[z] == w0.nodes@[z]
            &&& (w0.parents@.contains_key(z) ==> w.parents@.contains_key(z) && w.parents@[z] == w0.parents@[z])
            &&& (w0.children@.contains_key(z) ==> w.children@.contains_key(z) && w.children@[z]@ == w0.children@[z]@)
        }
    }

    /// A round of rendering under `x` keeps the nodes outside its subtree.
    #[verifier::rlimit(80)]
    #[verifier::spinoff_prover]
    proof fn lemma_round_outside(
        w0: World,
        wa: World,
        wb: World,
        wc: World,
        x: u64,
        m: u64,
        cur: Seq<u64>,
        r: Set<u64>,
    )
        requires
            w0.wf(),
            wa.wf(),
            wb.wf(),
            wc.wf(),
            World::outside_kept(wa, w0, x),
            in_subtree(w0.parents@, x, m),
            wa.children@.contains_key(m),
            wa.children@[m]@ == cur,
            forall|j: int| 0 <= j < cur.len() ==> #[trigger] cur[j] < w0.next_node_id,
            forall|z: u64| #[trigger] wa.parents@.contains_key(z) && z < w0.next_node_id
                ==> w0.parents@.contains_key(z) && wa.parents@[z].0 == w0.parents@[z].0,
            forall|z: u64| #[trigger] wa.nodes@.contains_key(z) && !cur.contains(z) ==> wb.nodes@[z] == wa.nodes@[z],
            forall|z: u64| #[trigger] wa.nodes@.contains_key(z) ==> wb.nodes@.contains_key(z),
            forall|z: u64| #[trigger] wa.parents@.contains_key(z) ==> wb.parents@.contains_key(z) && wb.parents@[z]
                == wa.parents@[z],
            forall|p: u64| #[trigger] wa.children@.contains_key(p) ==> wb.children@.contains_key(p)
                && (p != m ==> wb.children@[p]@ == wa.children@[p]@),
            wc.nodes@ == wb.nodes@.remove_keys(r),
            wc.parents@.dom() == wb.parents@.dom().difference(r),
            forall|c: u64| #[trigger] wc.parents@.contains_key(c) ==> wc.parents@[c].0 == wb.parents@[c].0,
            wc.children@.dom() == wb.children@.dom().difference(r),
            forall|p: u64| #[trigger] wc.children@.contains_key(p) && p != m ==> wc.children@[p]@
                == without(wb.children@[p]@, r),
            forall|z: u64| #[trigger] r.contains(z) ==> in_subtree(w0.parents@, x, z),
            !r.contains(x),
        ensures
            World::outside_kept(wc, w0, x),
    {
        reveal(World::outside_kept);
        assert forall|z: u64| #[trigger] w0.nodes@.contains_key(z) && !in_subtree(w0.parents@, x, z) implies {
            &&& wc.nodes@.contains_key(z)
            &&& wc.nodes@[z] == w0.nodes@[z]
            &&& (w0.parents@.contains_key(z) ==> wc.parents@.contains_key(z) && wc.parents@[z] == w0.parents@[z])
            &&& (w0.children@.contains_key(z) ==> wc.children@.contains_key(z) && wc.children@[z]@ == w0.children@[z]@)
        } by {
            assert(z != x);
            assert(!r.contains(z));
            assert(!cur.contains(z)) by {
                if cur.contains(z) {
                    let j = choose|j: int| 0 <= j < cur.len() && cur[j] == z;
                    assert(wa.children@[m]@[j] == z);
                    assert(wa.parents@.contains_key(z) && wa.parents@[z].0 == m);
                    assert(w0.parents@[z].0 == m);
                    assert(m < z) by {
                        assert(w0.children@.contains_key(w0.parents@[z].0));
                    }
                }
            }
            assert(wc.nodes@.contains_key(z));
            assert(wc.nodes@[z] == w0.nodes@[z]);
            if w0.parents@.contains_key(z) {
                let p = w0.parents@[z].0;
                let i0 = w0.parents@[z].1;
                assert(w0.children@.contains_key(p) && w0.children@[p]@[i0 as int] == z && p < z);
                assert(!in_subtree(w0.parents@, x, p));
                assert(w0.nodes@.contains_key(p));
                assert(wa.children@[p]@ == w0.children@[p]@);
                assert(p != m);
                assert(!r.contains(p));
                assert(wb.children@.contains_key(p));
                assert(wc.children@.contains_key(p));
                World::lemma_list_outside(w0, x, r, p);
                lemma_without(wb.children@[p]@, r);
                assert(wc.children@[p]@ == w0.children@[p]@);
                assert(wa.parents@[z] == w0.parents@[z]);
                assert(wc.parents@.contains_key(z));
                let i = wc.parents@[z].1;
                assert(wc.parents@[z].0 == p);
                assert(wc.children@[p]@[i as int] == z);
                w0.lemma_lists_distinct(p);
                assert(i == i0);
            }
            if w0.children@.contains_key(z) {
                assert(wa.children@[z]@ == w0.children@[z]@);
                assert(z != m);
                assert(wc.children@.contains_key(z));
                World::lemma_list_outside(w0, x, r, z);
                lemma_without(wb.children@[z]@, r);
            }
        }
    }

    /// Whether the changes `ev` report every child list of `w0` that differs
    /// in `w`.
    #[verifier::opaque]
    spec fn list_cover(w: World, w0: World, ev: Seq<ChangeView>) -> bool {
        forall|p: u64| #[trigger] w.children@.contains_key(p) && w0.children@.contains_key(p)
            && w.children@[p]@ != w0.children@[p]@ ==> exists|k: int| 0 <= k < ev.len()
            && #[trigger] touches_list(ev[k], w0.parents@, p)
    }

    /// A child of `p` that a round deletes is reported as a deletion of a
    /// child of `p`.
    proof fn lemma_deleted_child_reported(
        w0: World,
        wa: World,
        wb: World,
        wc: World,
        ev_b: Seq<ChangeView>,
        ev_c: Seq<ChangeView>,
        r: Set<u64>,
        p: u64,
        i: int,
    )
        requires
            wa.wf(),
            wb.wf(),
            wa.next_node_id >= w0.next_node_id,
            forall|z: u64| #[trigger] wa.parents@.contains_key(z) && z < w0.next_node_id
                ==> w0.parents@.contains_key(z) && wa.parents@[z].0 == w0.parents@[z].0,
            forall|z: u64| #[trigger] wa.parents@.contains_key(z) ==> wb.parents@.contains_key(z) && wb.parents@[z]
                == wa.parents@[z],
            forall|z: u64| #[trigger] wb.nodes@.contains_key(z) && !wa.nodes@.contains_key(z) ==> z >= wa.next_node_id,
            wb.children@.contains_key(p),
            0 <= i < wb.children@[p]@.len(),
            r.contains(wb.children@[p]@[i]),
            forall|z: u64| #[trigger] wb.nodes@.contains_key(z) && z >= w0.next_node_id ==> !r.contains(z),
            wc.nodes@ == wb.nodes@.remove_keys(r),
            forall|n: u64| #[trigger] wb.nodes@.contains_key(n) && !wc.nodes@.contains_key(n) ==> exists|k: int|
                ev_b.len() <= k < ev_c.len() && #[trigger] deletes(ev_c[k], n),
        ensures
            exists|k: int| 0 <= k < ev_c.len() && #[trigger] touches_list(ev_c[k], w0.parents@, p),
    {
        let c = wb.children@[p]@[i];
        assert(wb.parents@.contains_key(c));
        assert(wb.parents@[c].0 == p);
        assert(wb.nodes@.contains_key(c));
        assert(c < w0.next_node_id);
        assert(wa.nodes@.contains_key(c));
        assert(wb.parents@[c].0 < c);
        assert(wa.parents@.contains_key(c));
        assert(w0.parents@[c].0 == p);
        assert(!wc.nodes@.contains_key(c));
        let k = choose|k: int| ev_b.len() <= k < ev_c.len() && #[trigger] deletes(ev_c[k], c);
        assert(touches_list(ev_c[k], w0.parents@, p));
    }

    /// A round of rendering reports every child list it changes: the list
    /// of `m` gets creations, deletions or moves, and another list changes
    /// only when a child is deleted.
    #[verifier::rlimit(60)]
    #[verifier::spinoff_prover]
    proof fn lemma_round_lists(
        w0: World,
        wa: World,
        wb: World,
        wc: World,
        ev_a: Seq<ChangeView>,
        ev_b: Seq<ChangeView>,
        ev_c: Seq<ChangeView>,
        m: u64,
        cur: Seq<u64>,
        appended: Seq<u64>,
        no: Seq<u64>,
        r: Set<u64>,
    )
        requires
            w0.wf(),
            wa.wf(),
            wb.wf(),
            wc.wf(),
            World::list_cover(wa, w0, ev_a),
            wa.next_node_id >= w0.next_node_id,
            forall|z: u64| #[trigger] wa.parents@.contains_key(z) && z < w0.next_node_id
                ==> w0.parents@.contains_key(z) && wa.parents@[z].0 == w0.parents@[z].0,
            wa.children@.contains_key(m),
            wa.children@[m]@ == cur,
            wb.children@.contains_key(m),
            wb.children@[m]@ == cur + appended,
            forall|p: u64| #[trigger] wa.children@.contains_key(p) ==> wb.children@.contains_key(p)
                && (p != m ==> wb.children@[p]@ == wa.children@[p]@),
            forall|z: u64| #[trigger] wa.parents@.contains_key(z) ==> wb.parents@.contains_key(z) && wb.parents@[z]
                == wa.parents@[z],
            forall|z: u64| #[trigger] wb.nodes@.contains_key(z) && !wa.nodes@.contains_key(z) ==> z >= wa.next_node_id,
            forall|z: u64| #[trigger] wa.nodes@.contains_key(z) ==> wb.nodes@.contains_key(z)
                && same_kind(wa.nodes@[z]@, wb.nodes@[z]@),
            ev_b.len() >= ev_a.len(),
            ev_b.subrange(0, ev_a.len() as int) == ev_a,
            World::created_or_updated(wb, ev_b, ev_a.len() as int, wa.next_node_id),
            World::match_cover(wa, wb, ev_b, ev_a.len() as int),
            ev_c.len() >= ev_b.len(),
            ev_c.subrange(0, ev_b.len() as int) == ev_b,
            forall|z: u64| #[trigger] wb.nodes@.contains_key(z) && z >= w0.next_node_id ==> !r.contains(z),
            wc.nodes@ == wb.nodes@.remove_keys(r),
            wc.children@.dom() == wb.children@.dom().difference(r),
            forall|p: u64| #[trigger] wc.children@.contains_key(p) && p != m ==> wc.children@[p]@
                == without(wb.children@[p]@, r),
            wc.children@.contains_key(m),
            wc.children@[m]@ == no,
            forall|n: u64| #[trigger] wb.nodes@.contains_key(n) && !wc.nodes@.contains_key(n) ==> exists|k: int|
                ev_b.len() <= k < ev_c.len() && #[trigger] deletes(ev_c[k], n),
            no != without(wb.children@[m]@, r) ==> exists|k: int| ev_b.len() <= k < ev_c.len()
                && #[trigger] moves_under(ev_c[k], m),
        ensures
            World::list_cover(wc, w0, ev_c),
    {
        reveal(World::list_cover);
        assert(w0.wf());
        let lo = w0.next_node_id;
        assert forall|k: int| 0 <= k < ev_a.len() implies #[trigger] ev_c[k] == ev_a[k] by {
            assert(ev_b[k] == ev_b.subrange(0, ev_a.len() as int)[k]);
            assert(ev_c[k] == ev_c.subrange(0, ev_b.len() as int)[k]);
        }
        assert forall|k: int| 0 <= k < ev_b.len() implies #[trigger] ev_c[k] == ev_b[k] by {
            assert(ev_c[k] == ev_c.subrange(0, ev_b.len() as int)[k]);
        }
        assert forall|p: u64| #[trigger] wc.children@.contains_key(p) && w0.children@.contains_key(p)
            && wc.children@[p]@ != w0.children@[p]@ implies exists|k: int| 0 <= k < ev_c.len()
            && #[trigger] touches_list(ev_c[k], w0.parents@, p) by {
            assert(wb.children@.contains_key(p));
            assert(wb.nodes@.contains_key(p) && wb.nodes@[p]@ is Element);
            assert(p < lo) by {
                assert(w0.nodes@.contains_key(p));
            }
            assert(wa.nodes@.contains_key(p));
            assert(wa.children@.contains_key(p));
            if wa.children@[p]@ != w0.children@[p]@ {
                let k = choose|k: int| 0 <= k < ev_a.len() && #[trigger] touches_list(ev_a[k], w0.parents@, p);
                assert(ev_c[k] == ev_a[k]);
            } else if p != m {
                let l = wb.children@[p]@;
                assert(l == wa.children@[p]@);
                lemma_without(l, r);
                assert(exists|i: int| 0 <= i < l.len() && r.contains(#[trigger] l[i]));
                let i = choose|i: int| 0 <= i < l.len() && r.contains(#[trigger] l[i]);
                World::lemma_deleted_child_reported(w0, wa, wb, wc, ev_b, ev_c, r, p, i);
            } else if no != without(wb.children@[m]@, r) {
                let k = choose|k: int| ev_b.len() <= k < ev_c.len() && #[trigger] moves_under(ev_c[k], m);
                assert(touches_list(ev_c[k], w0.parents@, p));
            } else if appended.len() > 0 {
                let a = appended[0];
                assert(wb.children@[m]@[cur.len() as int] == a);
                assert(wb.parents@.contains_key(wb.children@[m]@[cur.len() as int]));
                assert(wb.parents@[a].0 == m && wb.parents@[a].1 as int == cur.len());
                assert(!wa.parents@.contains_key(a)) by {
                    if wa.parents@.contains_key(a) {
                        assert(wb.parents@[a] == wa.parents@[a]);
                    }
                }
                assert(wb.nodes@.contains_key(a));
                assert(wb.parents@[a].0 < a);
                assert(!wa.nodes@.contains_key(a));
                reveal(World::match_cover);
                reveal(World::created_or_updated);
                let k = choose|k: int| ev_a.len() <= k < ev_b.len() && #[trigger] creates(ev_b[k], a);
                assert(ev_c[k] == ev_b[k]);
                assert(touches_list(ev_c[k], w0.parents@, p));
            } else {
                let l = wb.children@[m]@;
                assert(l =~= cur);
                lemma_without(l, r);
                let i = choose|i: int| 0 <= i < l.len() && r.contains(#[trigger] l[i]);
                World::lemma_deleted_child_reported(w0, wa, wb, wc, ev_b, ev_c, r, p, i);
            }
        }
    }

    /// What the changes of one round of rendering `m` are: first creations
    /// and updates, then deletions of nodes below `lo` and moves under `m`,
    /// whose moves are those of `moved_from` over the list left after the
    /// deletions.
    #[verifier::opaque]
    spec fn round_events(
        wa: World,
        wb: World,
        wc: World,
        ev_a: Seq<ChangeView>,
        ev_b: Seq<ChangeView>,
        ev_c: Seq<ChangeView>,
        m: u64,
        no: Seq<u64>,
        r: Set<u64>,
        lo: u64,
    ) -> bool {
        &&& ev_b.len() >= ev_a.len()
        &&& ev_b.subrange(0, ev_a.len() as int) == ev_a
        &&& World::created_or_updated(wb, ev_b, ev_a.len() as int, wa.next_node_id)
        &&& creates_in(ev_b, ev_a.len() as int, wa.next_node_id as int, wb.next_node_id as int)
        &&& updates_distinct(ev_b.subrange(ev_a.len() as int, ev_b.len() as int))
        &&& updates_of(ev_b.subrange(ev_a.len() as int, ev_b.len() as int)) == updates_for(wa.node_map(), wb.node_map(), no)
        &&& deletes_distinct(ev_c.subrange(ev_b.len() as int, ev_c.len() as int))
        &&& exists|rq: Seq<u64>| #![trigger removal_order(wb.children@, rq)] ascending(rq) && rq.no_duplicates()
            && rq.to_set() == wb.children@[m]@.to_set().difference(no.to_set()) && deletes_of(
            ev_c.subrange(ev_b.len() as int, ev_c.len() as int),
        ) == deleted_views(removal_order(wb.children@, rq))
        &&& ev_c.len() >= ev_b.len()
        &&& ev_c.subrange(0, ev_b.len() as int) == ev_b
        &&& forall|k: int| ev_b.len() <= k < ev_c.len() ==> match #[trigger] ev_c[k] {
            ChangeView::Moved { id, parent, before } => parent == m && no.contains(id) && placed_before(no, id, before),
            ChangeView::Deleted { id } => wb.nodes@.contains_key(id) && id < lo && !wc.nodes@.contains_key(id),
            _ => false,
        }
        &&& forall|p: u64| #[trigger] moves_of(ev_c.subrange(ev_b.len() as int, ev_c.len() as int), p) == if p == m {
            moved_from(m, no, index_map(m, without(wb.children@[m]@, r)), 0)
        } else {
            Seq::<ChangeView>::empty()
        }
    }

    /// Whether, under each settled node of `done`, the deletions of `ev` of
    /// the nodes below its children that its new children left out are, in
    /// order, those of `removal_order` from the ascending list of those
    /// children.
    #[verifier::opaque]
    spec fn all_deletes(w0: World, w: World, ev: Seq<ChangeView>, done: Set<u64>) -> bool {
        forall|p: u64| #[trigger] done.contains(p) ==> exists|q: Seq<u64>| #![trigger removal_order(w0.children@, q)]
            ascending(q) && q.no_duplicates() && q.to_set() == w0.children@[p]@.to_set().difference(
            w.children@[p]@.to_set(),
        ) && deletes_in(ev, removal_order(w0.children@, q).to_set()) == deleted_views(removal_order(w0.children@, q))
    }

    /// A round of rendering keeps [`World::all_deletes`].
    #[verifier::rlimit(100)]
    #[verifier::spinoff_prover]
    proof fn lemma_round_deletes(
        w0: World,
        wa: World,
        wb: World,
        wc: World,
        x: u64,
        input: Seq<Node>,
        first: Vec<Node>,
        q: Seq<(u64, Vec<Node>)>,
        pend_b: Seq<(u64, Vec<Node>)>,
        done: Set<u64>,
        res: Seq<u64>,
        ev_a: Seq<ChangeView>,
        ev_b: Seq<ChangeView>,
        ev_c: Seq<ChangeView>,
        cur: Seq<u64>,
        taken: Seq<bool>,
        appended: Seq<u64>,
        no: Seq<u64>,
        r: Set<u64>,
    )
        requires
            World::round_facts(w0, wa, wb, wc, x, input, first, q, pend_b, done, res, cur, taken, appended, no, r),
            World::round_extra(w0, wa, wb, wc, q, pend_b, cur, no, r),
            World::round_events(wa, wb, wc, ev_a, ev_b, ev_c, q[0].0, no, r, w0.next_node_id),
            World::all_deletes(w0, wa, ev_a, done),
            World::changes_sound(wa, w0, ev_a, w0.next_node_id),
            q[0].0 < w0.next_node_id,
            forall|z: u64| #[trigger] wa.nodes@.contains_key(z) && z < w0.next_node_id && wa.parents@.contains_key(z)
                && !done.contains(wa.parents@[z].0) ==> wa.nodes@[z] == w0.nodes@[z],
            forall|p: u64| #[trigger] wa.children@.contains_key(p) && !done.contains(p) && p < w0.next_node_id
                ==> w0.children@.contains_key(p) && wa.children@[p]@ == w0.children@[p]@,
            forall|p: u64| #[trigger] done.contains(p) ==> wc.children@.contains_key(p) && wc.children@[p]@ == wa.children@[p]@,
            w0.children@.contains_key(q[0].0) && cur == w0.children@[q[0].0]@,
        ensures
            World::all_deletes(w0, wc, ev_c, done.insert(q[0].0)),
    {
        reveal(World::round_facts);
        reveal(World::round_extra);
        reveal(World::round_events);
        reveal(World::all_deletes);
        reveal(World::render_inv);
        reveal(World::changes_sound);
        reveal(World::created_or_updated);
        let m = q[0].0;
        let lo = w0.next_node_id;
        let d2 = done.insert(m);
        let u = untaken(cur, taken);
        let seg_b = ev_b.subrange(ev_a.len() as int, ev_b.len() as int);
        let seg_c = ev_c.subrange(ev_b.len() as int, ev_c.len() as int);
        assert(ev_b =~= ev_a + seg_b);
        assert(ev_c =~= ev_b + seg_c);
        assert(ev_c =~= ev_a + seg_b + seg_c);
        assert(w0.children@.dom().finite() && wb.children@.dom().finite());
        let rq = choose|rq: Seq<u64>| #![trigger removal_order(wb.children@, rq)] ascending(rq) && rq.no_duplicates()
            && rq.to_set() == wb.children@[m]@.to_set().difference(no.to_set()) && deletes_of(seg_c) == deleted_views(
            removal_order(wb.children@, rq));
        let ord = removal_order(wb.children@, rq);
        assert forall|j: int| 0 <= j < cur.len() implies wa.parents@.contains_key(#[trigger] cur[j])
            && wa.parents@[cur[j]].0 == m by {
            assert(wa.children@[m]@[j] == cur[j]);
        }
        // the nodes of the round's deletion order are deleted in it, and not settled
        assert forall|z: u64| #[trigger] ord.contains(z) implies r.contains(z) && z < lo && !done.contains(z) && z != m
            && wb.nodes@.contains_key(z) && wa.nodes@.contains_key(z) by {
            let i = choose|i: int| 0 <= i < ord.len() && ord[i] == z;
            let dv = deleted_views(ord);
            assert(dv[i] == ChangeView::Deleted { id: z });
            assert(deletes_of(seg_c).contains(dv[i])) by {
                assert(deletes_of(seg_c)[i] == dv[i]);
            }
            lemma_filter_member(seg_c, |c: ChangeView| c is Deleted, i);
            let k = choose|k: int| 0 <= k < seg_c.len() && seg_c[k] == deletes_of(seg_c)[i];
            assert(seg_c[k] == ev_c[ev_b.len() + k]);
            assert(wb.nodes@.contains_key(z) && z < lo && !wc.nodes@.contains_key(z));
            assert(r.contains(z));
            if done.contains(z) {
                if z != x {
                    assert(wa.parents@.contains_key(z) && done.contains(wa.parents@[z].0));
                    assert(!u.contains(z)) by {
                        if u.contains(z) {
                            let j = choose|j: int| 0 <= j < cur.len() && !taken[j] && cur[j] == z;
                        }
                    }
                }
                assert(kept_set(x, d2, wb.parents@, u).contains(z));
            }
            if z == m {
                if m != x {
                    assert(wa.parents@.contains_key(m) && done.contains(wa.parents@[m].0));
                    assert(!u.contains(m)) by {
                        if u.contains(m) {
                            let j = choose|j: int| 0 <= j < cur.len() && !taken[j] && cur[j] == m;
                            assert(wa.parents@[cur[j]].0 < cur[j]);
                        }
                    }
                }
                assert(kept_set(x, d2, wb.parents@, u).contains(m));
            }
            assert(wa.nodes@.contains_key(z));
        }
        // which the children of the world before describe alike
        assert forall|z: u64| #[trigger] ord.contains(z) implies (wb.children@.contains_key(z) <==> w0.children@.contains_key(z))
            && (wb.children@.contains_key(z) ==> wb.children@[z]@ == w0.children@[z]@) by {
            assert(r.contains(z) && z < lo && !done.contains(z) && z != m && wa.nodes@.contains_key(z));
            assert(wb.parents@.contains_key(z));
            assert(wa.parents@.contains_key(z));
            assert(wb.parents@[z] == wa.parents@[z]);
            assert(!done.contains(wa.parents@[z].0)) by {
                if !u.contains(z) {
                    assert(r.contains(wb.parents@[z].0));
                    let pz = wb.parents@[z].0;
                    if done.contains(pz) {
                        if pz != x {
                            assert(wa.parents@.contains_key(pz) && done.contains(wa.parents@[pz].0));
                            assert(!u.contains(pz)) by {
                                if u.contains(pz) {
                                    let j = choose|j: int| 0 <= j < cur.len() && !taken[j] && cur[j] == pz;
                                }
                            }
                        }
                        assert(kept_set(x, d2, wb.parents@, u).contains(pz));
                    }
                } else {
                    let j = choose|j: int| 0 <= j < cur.len() && !taken[j] && cur[j] == z;
                }
            }
            assert(wa.nodes@[z] == w0.nodes@[z]);
            if wb.children@.contains_key(z) {
                assert(wb.nodes@.contains_key(z));
                assert(same_kind(wa.nodes@[z]@, wb.nodes@[z]@));
                assert(wa.children@.contains_key(z));
            }
            if w0.children@.contains_key(z) {
                assert(w0.nodes@[z]@ is Element);
                assert(wa.children@.contains_key(z));
            }
            if wa.children@.contains_key(z) {
                assert(wb.children@.contains_key(z) && wb.children@[z]@ == wa.children@[z]@);
            }
        }
        lemma_removal_agree(wb.children@, w0.children@, rq);
        let ord0 = removal_order(w0.children@, rq);
        assert(ord0 == ord);
        let sm = ord0.to_set();
        // the children the new ones left out
        assert(rq.to_set() == w0.children@[m]@.to_set().difference(wc.children@[m]@.to_set())) by {
            assert(wb.children@[m]@ == cur + appended);
            assert(wc.children@[m]@ == no);
            assert forall|z: u64| #[trigger] (cur + appended).to_set().difference(no.to_set()).contains(z) <==> cur.to_set().difference(
                no.to_set(),
            ).contains(z) by {
                if (cur + appended).to_set().contains(z) && !cur.to_set().contains(z) {
                    let i = choose|i: int| 0 <= i < (cur + appended).len() && (cur + appended)[i] == z;
                    if i < cur.len() {
                        assert(cur[i] == z);
                    } else {
                        assert(appended[i - cur.len()] == z);
                        assert(no.contains(z));
                    }
                }
                if cur.to_set().contains(z) {
                    let i = choose|i: int| 0 <= i < cur.len() && cur[i] == z;
                    assert((cur + appended)[i] == z);
                }
            }
            assert((cur + appended).to_set().difference(no.to_set()) =~= cur.to_set().difference(no.to_set()));
        }
        // no deletion before the round deletes any of them
        assert forall|pp: u64| #[trigger] d2.contains(pp) implies exists|qq: Seq<u64>| #![trigger removal_order(w0.children@, qq)]
            ascending(qq) && qq.no_duplicates() && qq.to_set() == w0.children@[pp]@.to_set().difference(
            wc.children@[pp]@.to_set(),
        ) && deletes_in(ev_c, removal_order(w0.children@, qq).to_set()) == deleted_views(removal_order(w0.children@, qq)) by {
            if pp == m {
                assert forall|k: int| 0 <= k < ev_a.len() implies !(#[trigger] ev_a[k] is Deleted && sm.contains(
                    ev_a[k]->Deleted_id,
                )) by {
                    if ev_a[k] is Deleted && sm.contains(ev_a[k]->Deleted_id) {
                        let z = ev_a[k]->Deleted_id;
                        assert(ord.contains(z));
                        assert(!wa.nodes@.contains_key(z));
                    }
                }
                lemma_deletes_in_none(ev_a, sm);
                assert forall|k: int| 0 <= k < seg_b.len() implies !(#[trigger] seg_b[k] is Deleted && sm.contains(
                    seg_b[k]->Deleted_id,
                )) by {
                    assert(seg_b[k] == ev_b[ev_a.len() + k]);
                }
                lemma_deletes_in_none(seg_b, sm);
                assert forall|k: int| 0 <= k < seg_c.len() && #[trigger] seg_c[k] is Deleted implies sm.contains(
                    seg_c[k]->Deleted_id,
                ) by {
                    seg_c.lemma_filter_contains(|c: ChangeView| c is Deleted, k);
                    assert(deletes_of(seg_c).contains(seg_c[k]));
                    let i = choose|i: int| 0 <= i < deletes_of(seg_c).len() && deletes_of(seg_c)[i] == seg_c[k];
                    assert(deleted_views(ord)[i] == ChangeView::Deleted { id: ord[i] });
                    assert(ord.contains(ord[i]));
                }
                lemma_deletes_in_of(seg_c, sm);
                lemma_deletes_in_add(ev_a, seg_b, sm);
                lemma_deletes_in_add(ev_a + seg_b, seg_c, sm);
                assert(deletes_in(ev_c, sm) =~= deleted_views(ord0));
            } else {
                assert(done.contains(pp));
                let qq = choose|qq: Seq<u64>| #![trigger removal_order(w0.children@, qq)] ascending(qq) && qq.no_duplicates()
                    && qq.to_set() == w0.children@[pp]@.to_set().difference(wa.children@[pp]@.to_set()) && deletes_in(
                    ev_a,
                    removal_order(w0.children@, qq).to_set(),
                ) == deleted_views(removal_order(w0.children@, qq));
                let op = removal_order(w0.children@, qq);
                let sp = op.to_set();
                assert forall|k: int| 0 <= k < seg_b.len() implies !(#[trigger] seg_b[k] is Deleted && sp.contains(
                    seg_b[k]->Deleted_id,
                )) by {
                    assert(seg_b[k] == ev_b[ev_a.len() + k]);
                }
                lemma_deletes_in_none(seg_b, sp);
                assert forall|k: int| 0 <= k < seg_c.len() implies !(#[trigger] seg_c[k] is Deleted && sp.contains(
                    seg_c[k]->Deleted_id,
                )) by {
                    if seg_c[k] is Deleted && sp.contains(seg_c[k]->Deleted_id) {
                        let z = seg_c[k]->Deleted_id;
                        assert(seg_c[k] == ev_c[ev_b.len() + k]);
                        assert(wb.nodes@.contains_key(z) && z < lo);
                        assert(wa.nodes@.contains_key(z));
                        let i = choose|i: int| 0 <= i < op.len() && op[i] == z;
                        assert(deleted_views(op)[i] == ChangeView::Deleted { id: z });
                        lemma_filter_member(ev_a, |c: ChangeView| c is Deleted && sp.contains(c->Deleted_id), i);
                        let k2 = choose|k2: int| 0 <= k2 < ev_a.len() && ev_a[k2] == deletes_in(ev_a, sp)[i];
                        assert(ev_a[k2] == ChangeView::Deleted { id: z });
                    }
                }
                lemma_deletes_in_none(seg_c, sp);
                lemma_deletes_in_add(ev_a, seg_b, sp);
                lemma_deletes_in_add(ev_a + seg_b, seg_c, sp);
                assert(deletes_in(ev_c, sp) =~= deletes_in(ev_a, sp));
                assert(wc.children@[pp]@ == wa.children@[pp]@);
            }
        }
    }

    /// Whether, under each settled node of `done`, the updates of `ev` of
    /// its children are, in the order of its children in `w`, those of
    /// [`updates_for`] from `w0` to `w`.
    #[verifier::opaque]
    spec fn all_updates(w0: World, w: World, ev: Seq<ChangeView>, done: Set<u64>) -> bool {
        forall|p: u64| #[trigger] done.contains(p) ==> updates_in(ev, w.children@[p]@.to_set()) == updates_for(
            w0.node_map(),
            w.node_map(),
            w.children@[p]@,
        )
    }

    /// A round of rendering keeps [`World::all_updates`].
    #[verifier::rlimit(100)]
    #[verifier::spinoff_prover]
    proof fn lemma_round_updates(
        w0: World,
        wa: World,
        wb: World,
        wc: World,
        x: u64,
        input: Seq<Node>,
        first: Vec<Node>,
        q: Seq<(u64, Vec<Node>)>,
        pend_b: Seq<(u64, Vec<Node>)>,
        done: Set<u64>,
        res: Seq<u64>,
        ev_a: Seq<ChangeView>,
        ev_b: Seq<ChangeView>,
        ev_c: Seq<ChangeView>,
        cur: Seq<u64>,
        taken: Seq<bool>,
        appended: Seq<u64>,
        no: Seq<u64>,
        r: Set<u64>,
    )
        requires
            World::round_facts(w0, wa, wb, wc, x, input, first, q, pend_b, done, res, cur, taken, appended, no, r),
            World::round_extra(w0, wa, wb, wc, q, pend_b, cur, no, r),
            World::round_events(wa, wb, wc, ev_a, ev_b, ev_c, q[0].0, no, r, w0.next_node_id),
            World::all_updates(w0, wa, ev_a, done),
            World::changes_kept(wa, w0, ev_a, done),
            World::updates_taken(ev_b, ev_a.len() as int, cur, taken),
            q[0].0 < w0.next_node_id,
            forall|z: u64| #[trigger] wa.nodes@.contains_key(z) && z < w0.next_node_id && wa.parents@.contains_key(z)
                && !done.contains(wa.parents@[z].0) ==> wa.nodes@[z] == w0.nodes@[z],
            forall|p: u64| #[trigger] done.contains(p) ==> wc.children@.contains_key(p) && wc.children@[p]@ == wa.children@[p]@,
            w0.children@.contains_key(q[0].0) && cur == w0.children@[q[0].0]@,
        ensures
            World::all_updates(w0, wc, ev_c, done.insert(q[0].0)),
    {
        reveal(World::round_facts);
        reveal(World::round_extra);
        reveal(World::round_events);
        reveal(World::all_updates);
        reveal(World::render_inv);
        reveal(World::changes_kept);
        reveal(World::updates_taken);
        let m = q[0].0;
        let lo = w0.next_node_id;
        let d2 = done.insert(m);
        let u = untaken(cur, taken);
        let seg_b = ev_b.subrange(ev_a.len() as int, ev_b.len() as int);
        let seg_c = ev_c.subrange(ev_b.len() as int, ev_c.len() as int);
        assert(ev_b =~= ev_a + seg_b);
        assert(ev_c =~= ev_b + seg_c);
        assert(ev_c =~= ev_a + seg_b + seg_c);
        assert(!done.contains(m));
        assert forall|j: int| 0 <= j < cur.len() implies wa.parents@.contains_key(#[trigger] cur[j])
            && wa.parents@[cur[j]].0 == m by {
            assert(wa.children@[m]@[j] == cur[j]);
        }
        assert forall|k: int| 0 <= k < seg_c.len() implies !(#[trigger] seg_c[k] is Updated) by {
            assert(seg_c[k] == ev_c[ev_b.len() + k]);
        }
        assert forall|k: int| 0 <= k < seg_b.len() && #[trigger] seg_b[k] is Updated implies cur.contains(seg_b[k]->Updated_id)
            && no.contains(seg_b[k]->Updated_id) by {
            assert(seg_b[k] == ev_b[ev_a.len() + k]);
            let j = choose|j: int| 0 <= j < cur.len() && taken[j] && cur[j] == seg_b[k]->Updated_id;
        }
        assert forall|pp: u64| #[trigger] d2.contains(pp) implies updates_in(ev_c, wc.children@[pp]@.to_set()) == updates_for(
            w0.node_map(),
            wc.node_map(),
            wc.children@[pp]@,
        ) by {
            let l = wc.children@[pp]@;
            let sl = l.to_set();
            lemma_updates_in_add(ev_a, seg_b, sl);
            lemma_updates_in_add(ev_a + seg_b, seg_c, sl);
            lemma_updates_in_none(seg_c, sl);
            if pp == m {
                assert(l == no);
                assert forall|k: int| 0 <= k < ev_a.len() implies !(#[trigger] ev_a[k] is Updated && sl.contains(
                    ev_a[k]->Updated_id,
                )) by {
                    if ev_a[k] is Updated && sl.contains(ev_a[k]->Updated_id) {
                        let z = ev_a[k]->Updated_id;
                        assert(no.contains(z));
                        assert(wa.nodes@.contains_key(z));
                        assert(z < wa.next_node_id);
                        let i = choose|i: int| 0 <= i < no.len() && no[i] == z;
                        assert(cur.contains(no[i]));
                        let j = choose|j: int| 0 <= j < cur.len() && cur[j] == z;
                        assert(done.contains(wa.parents@[z].0));
                    }
                }
                lemma_updates_in_none(ev_a, sl);
                assert forall|k: int| 0 <= k < seg_b.len() && #[trigger] seg_b[k] is Updated implies sl.contains(
                    seg_b[k]->Updated_id,
                ) by {
                    assert(no.contains(seg_b[k]->Updated_id));
                }
                lemma_updates_in_of(seg_b, sl);
                assert(updates_in(ev_c, sl) =~= updates_for(wa.node_map(), wb.node_map(), no));
                assert forall|i: int| 0 <= i < no.len() implies (wa.node_map().contains_key(#[trigger] no[i])
                    <==> w0.node_map().contains_key(no[i])) && (wa.node_map().contains_key(no[i]) ==> wa.node_map()[no[i]]
                    == w0.node_map()[no[i]] && wb.node_map()[no[i]] == wc.node_map()[no[i]]) by {
                    let c = no[i];
                    assert(wc.children@[m]@[i] == c);
                    assert(wc.parents@.contains_key(wc.children@[m]@[i]));
                    assert(wc.nodes@.contains_key(c));
                    assert(wb.nodes@.contains_key(c) && wc.nodes@[c] == wb.nodes@[c]);
                    if wa.nodes@.contains_key(c) {
                        assert(c < wa.next_node_id);
                        assert(cur.contains(c));
                        let j = choose|j: int| 0 <= j < cur.len() && cur[j] == c;
                        assert(w0.children@[m]@[j] == c);
                        assert(w0.parents@.contains_key(w0.children@[m]@[j]));
                        assert(c < lo);
                        assert(wa.nodes@[c] == w0.nodes@[c]);
                    }
                    if w0.nodes@.contains_key(c) {
                        assert(c < lo);
                        if !wa.nodes@.contains_key(c) {
                            assert(c >= wa.next_node_id);
                        }
                    }
                }
                lemma_updates_for_same(wa.node_map(), wb.node_map(), w0.node_map(), wc.node_map(), no);
            } else {
                assert(done.contains(pp));
                assert(l == wa.children@[pp]@);
                assert forall|k: int| 0 <= k < seg_b.len() implies !(#[trigger] seg_b[k] is Updated && sl.contains(
                    seg_b[k]->Updated_id,
                )) by {
                    if seg_b[k] is Updated && sl.contains(seg_b[k]->Updated_id) {
                        let z = seg_b[k]->Updated_id;
                        assert(cur.contains(z));
                        let j = choose|j: int| 0 <= j < cur.len() && cur[j] == z;
                        let i = choose|i: int| 0 <= i < l.len() && l[i] == z;
                        assert(wa.children@[pp]@[i] == z);
                        assert(wa.parents@.contains_key(wa.children@[pp]@[i]));
                    }
                }
                lemma_updates_in_none(seg_b, sl);
                assert(updates_in(ev_c, sl) =~= updates_in(ev_a, sl));
                assert forall|i: int| 0 <= i < l.len() implies (w0.node_map().contains_key(#[trigger] l[i])
                    <==> w0.node_map().contains_key(l[i])) && (w0.node_map().contains_key(l[i]) ==> w0.node_map()[l[i]]
                    == w0.node_map()[l[i]] && wa.node_map()[l[i]] == wc.node_map()[l[i]]) by {
                    let c = l[i];
                    assert(wa.children@[pp]@[i] == c);
                    assert(wa.parents@.contains_key(wa.children@[pp]@[i]));
                    assert(wa.nodes@.contains_key(c));
                    assert(!cur.contains(c)) by {
                        if cur.contains(c) {
                            let j = choose|j: int| 0 <= j < cur.len() && cur[j] == c;
                        }
                    }
                    assert(wb.nodes@[c] == wa.nodes@[c]);
                    assert(!u.contains(c)) by {
                        if u.contains(c) {
                            let j = choose|j: int| 0 <= j < cur.len() && !taken[j] && cur[j] == c;
                        }
                    }
                    assert(wb.parents@[c] == wa.parents@[c]);
                    assert(kept_set(x, d2, wb.parents@, u).contains(c));
                    assert(!r.contains(c));
                    assert(wc.nodes@[c] == wb.nodes@[c]);
                }
                lemma_updates_for_same(w0.node_map(), wa.node_map(), w0.node_map(), wc.node_map(), l);
            }
        }
    }

    /// Whether the moves of `ev` are those of the settled nodes: under each
    /// node of `done` the moves of `moved_from` over [`arranged`] from its
    /// children in `w0` to those in `w`; under every other node none; and
    /// each node from before `w0`'s next identity that is not settled keeps
    /// its children from `w0`.
    #[verifier::opaque]
    spec fn all_moves(w0: World, w: World, ev: Seq<ChangeView>, done: Set<u64>) -> bool {
        &&& forall|p: u64| #[trigger] done.contains(p) ==> w0.children@.contains_key(p) && w.children@.contains_key(p)
            && moves_of(ev, p) == moved_from(
            p,
            w.children@[p]@,
            index_map(p, arranged(w0.children@[p]@, w.children@[p]@)),
            0,
        )
        &&& forall|p: u64| !done.contains(p) ==> #[trigger] moves_of(ev, p) == Seq::<ChangeView>::empty()
        &&& creates_in(ev, 0, w0.next_node_id as int, w.next_node_id as int)
        &&& deletes_distinct(ev)
        &&& updates_distinct(ev)
        &&& World::all_deletes(w0, w, ev, done)
        &&& World::all_updates(w0, w, ev, done)
        &&& forall|p: u64| #[trigger] w.children@.contains_key(p) && !done.contains(p) && p < w0.next_node_id
            ==> w0.children@.contains_key(p) && w.children@[p]@ == w0.children@[p]@
    }

    /// A round of rendering keeps [`World::all_moves`]: the round of `m`
    /// makes the moves under `m`, and keeps the children of every other node
    /// that stays.
    #[verifier::rlimit(100)]
    #[verifier::spinoff_prover]
    proof fn lemma_round_all_moves(
        w0: World,
        wa: World,
        wb: World,
        wc: World,
        x: u64,
        input: Seq<Node>,
        first: Vec<Node>,
        q: Seq<(u64, Vec<Node>)>,
        pend_b: Seq<(u64, Vec<Node>)>,
        done: Set<u64>,
        res: Seq<u64>,
        ev_a: Seq<ChangeView>,
        ev_b: Seq<ChangeView>,
        ev_c: Seq<ChangeView>,
        cur: Seq<u64>,
        taken: Seq<bool>,
        appended: Seq<u64>,
        no: Seq<u64>,
        r: Set<u64>,
    )
        requires
            World::round_facts(w0, wa, wb, wc, x, input, first, q, pend_b, done, res, cur, taken, appended, no, r),
            World::round_extra(w0, wa, wb, wc, q, pend_b, cur, no, r),
            World::round_events(wa, wb, wc, ev_a, ev_b, ev_c, q[0].0, no, r, w0.next_node_id),
            World::all_moves(w0, wa, ev_a, done),
            World::changes_sound(wa, w0, ev_a, w0.next_node_id),
            World::changes_kept(wa, w0, ev_a, done),
            World::updates_taken(ev_b, ev_a.len() as int, cur, taken),
            q[0].0 < w0.next_node_id,
            forall|z: u64| #[trigger] wa.nodes@.contains_key(z) && z < w0.next_node_id && wa.parents@.contains_key(z)
                && !done.contains(wa.parents@[z].0) ==> wa.nodes@[z] == w0.nodes@[z],
        ensures
            World::all_moves(w0, wc, ev_c, done.insert(q[0].0)),
            forall|p: u64| #[trigger] done.contains(p) ==> wc.children@.contains_key(p) && wc.children@[p]@ == wa.children@[p]@,
            w0.children@.contains_key(q[0].0) && cur == w0.children@[q[0].0]@,
    {
        reveal(World::round_facts);
        reveal(World::round_extra);
        reveal(World::round_events);
        reveal(World::all_moves);
        reveal(World::render_inv);
        reveal(World::created_or_updated);
        let m = q[0].0;
        let d2 = done.insert(m);
        let u = untaken(cur, taken);
        let seg_b = ev_b.subrange(ev_a.len() as int, ev_b.len() as int);
        let seg_c = ev_c.subrange(ev_b.len() as int, ev_c.len() as int);
        assert(ev_b =~= ev_a + seg_b);
        assert(ev_c =~= ev_b + seg_c);
        assert(!done.contains(m));
        assert forall|j: int| 0 <= j < cur.len() implies wa.parents@.contains_key(#[trigger] cur[j])
            && wa.parents@[cur[j]].0 == m by {
            assert(wa.children@[m]@[j] == cur[j]);
        }
        assert forall|p: u64| #[trigger] moves_of(ev_c, p) == moves_of(ev_a, p) + moves_of(seg_b, p) + moves_of(seg_c, p) by {
            lemma_moves_of_add(ev_a, seg_b, p);
            lemma_moves_of_add(ev_b, seg_c, p);
        }
        assert forall|p: u64| #[trigger] moves_of(seg_b, p) == Seq::<ChangeView>::empty() by {
            assert forall|k: int| 0 <= k < seg_b.len() implies !moves_under(#[trigger] seg_b[k], p) by {
                assert(seg_b[k] == ev_b[ev_a.len() + k]);
            }
            lemma_moves_of_none(seg_b, p);
        }
        // the round of m
        assert(wa.children@.contains_key(m) && !done.contains(m) && m < w0.next_node_id);
        assert(w0.children@.contains_key(m) && cur == w0.children@[m]@);
        wa.lemma_lists_distinct(m);
        assert forall|i: int| 0 <= i < cur.len() && r.contains(#[trigger] cur[i]) implies u.contains(cur[i]) by {
            assert(!kept_set(x, d2, wb.parents@, u).contains(cur[i]));
        }
        lemma_without(no, cur.to_set());
        assert forall|k: int| 0 <= k < appended.len() implies !r.contains(#[trigger] appended[k]) by {
            assert(!cur.to_set().contains(appended[k]));
            assert(!u.contains(appended[k])) by {
                if u.contains(appended[k]) {
                    let j = choose|j: int| 0 <= j < cur.len() && !taken[j] && cur[j] == appended[k];
                    assert(cur.to_set().contains(cur[j]));
                }
            }
            assert(kept_set(x, d2, wb.parents@, u).contains(appended[k]));
        }
        lemma_arranged(cur, appended, no, taken, r);
        assert(moves_of(ev_c, m) =~= moved_from(m, no, index_map(m, arranged(w0.children@[m]@, no)), 0));
        // settled nodes other than m keep their children
        assert forall|p: u64| #[trigger] done.contains(p) implies wc.children@.contains_key(p)
            && wc.children@[p]@ == wa.children@[p]@ by {
            assert(wa.children@.contains_key(p));
            assert(p != m);
            let list = wa.children@[p]@;
            assert(wb.children@[p]@ == list);
            assert(!u.contains(p)) by {
                if u.contains(p) {
                    let j = choose|j: int| 0 <= j < cur.len() && !taken[j] && cur[j] == p;
                    assert(wa.parents@[cur[j]].0 < cur[j]);
                    if p != x {
                        assert(wb.parents@[p] == wa.parents@[p]);
                    }
                }
            }
            assert(kept_set(x, d2, wb.parents@, u).contains(p));
            assert(!r.contains(p));
            assert forall|i: int| 0 <= i < list.len() implies !r.contains(#[trigger] list[i]) by {
                let c = list[i];
                assert(wa.children@[p]@[i] == c);
                assert(wa.parents@.contains_key(wa.children@[p]@[i]));
                assert(wa.parents@[c].0 == p);
                assert(wb.parents@[c] == wa.parents@[c]);
                assert(!u.contains(c)) by {
                    if u.contains(c) {
                        let j = choose|j: int| 0 <= j < cur.len() && !taken[j] && cur[j] == c;
                    }
                }
                assert(kept_set(x, d2, wb.parents@, u).contains(c));
            }
            lemma_without(list, r);
            assert(wc.children@.dom().contains(p));
        }
        assert forall|p: u64| #[trigger] d2.contains(p) implies w0.children@.contains_key(p) && wc.children@.contains_key(p)
            && moves_of(ev_c, p) == moved_from(p, wc.children@[p]@, index_map(p, arranged(w0.children@[p]@, wc.children@[p]@)), 0) by {
            if p != m {
                assert(done.contains(p));
                assert(moves_of(ev_c, p) =~= moves_of(ev_a, p));
            }
        }
        assert forall|p: u64| !d2.contains(p) implies #[trigger] moves_of(ev_c, p) == Seq::<ChangeView>::empty() by {
            assert(moves_of(ev_c, p) =~= Seq::<ChangeView>::empty());
        }
        // the creations of the round continue those before it
        assert(wc.next_node_id == wb.next_node_id);
        assert forall|k: int| 0 <= k < seg_c.len() implies !(#[trigger] seg_c[k] is Created) by {
            assert(seg_c[k] == ev_c[ev_b.len() + k]);
        }
        lemma_creates_in_other(ev_b, seg_c, ev_a.len() as int, wa.next_node_id as int, wb.next_node_id as int);
        assert(ev_c.subrange(0, ev_a.len() as int) =~= ev_a);
        lemma_creates_in_join(ev_a, ev_c, w0.next_node_id as int, wa.next_node_id as int, wc.next_node_id as int);
        // no node is deleted twice
        assert(deletes_distinct(ev_c)) by {
            reveal(World::changes_sound);
            assert(wa.next_node_id >= w0.next_node_id);
            assert forall|k1: int, k2: int| 0 <= k1 < k2 < ev_c.len() && #[trigger] ev_c[k1] is Deleted
                && #[trigger] ev_c[k2] is Deleted implies ev_c[k1]->Deleted_id != ev_c[k2]->Deleted_id by {
                if k2 < ev_a.len() {
                    assert(ev_c[k1] == ev_a[k1] && ev_c[k2] == ev_a[k2]);
                } else if k2 < ev_b.len() {
                    assert(ev_c[k2] == ev_b[k2]);
                    assert(ev_b[k2] == seg_b[k2 - ev_a.len()]);
                } else if k1 >= ev_b.len() {
                    assert(ev_c[k1] == seg_c[k1 - ev_b.len()] && ev_c[k2] == seg_c[k2 - ev_b.len()]);
                } else if k1 < ev_a.len() {
                    let z = ev_c[k2]->Deleted_id;
                    assert(ev_c[k1] == ev_a[k1]);
                    assert(!wa.nodes@.contains_key(ev_a[k1]->Deleted_id));
                    assert(wb.nodes@.contains_key(z) && z < w0.next_node_id);
                    assert(wa.nodes@.contains_key(z));
                } else {
                    assert(ev_c[k1] == ev_b[k1]);
                    assert(ev_b[k1] == seg_b[k1 - ev_a.len()]);
                }
            }
        }
        // no node is updated twice
        assert(updates_distinct(ev_c)) by {
            reveal(World::changes_kept);
            reveal(World::updates_taken);
            assert forall|k1: int, k2: int| 0 <= k1 < k2 < ev_c.len() && #[trigger] ev_c[k1] is Updated
                && #[trigger] ev_c[k2] is Updated implies ev_c[k1]->Updated_id != ev_c[k2]->Updated_id by {
                if k2 < ev_a.len() {
                    assert(ev_c[k1] == ev_a[k1] && ev_c[k2] == ev_a[k2]);
                } else if k2 >= ev_b.len() {
                    assert(ev_c[k2] == seg_c[k2 - ev_b.len()]);
                } else if k1 >= ev_a.len() {
                    assert(ev_c[k1] == seg_b[k1 - ev_a.len()] && ev_c[k2] == seg_b[k2 - ev_a.len()]);
                } else {
                    let z = ev_c[k2]->Updated_id;
                    assert(ev_c[k1] == ev_a[k1]);
                    assert(ev_c[k2] == ev_b[k2]);
                    let j = choose|j: int| 0 <= j < cur.len() && taken[j] && cur[j] == z;
                    assert(wa.parents@[cur[j]].0 == m);
                    let z1 = ev_a[k1]->Updated_id;
                    assert(done.contains(wa.parents@[z1].0));
                }
            }
        }
        World::lemma_round_deletes(w0, wa, wb, wc, x, input, first, q, pend_b, done, res, ev_a, ev_b, ev_c, cur, taken,
            appended, no, r);
        World::lemma_round_updates(w0, wa, wb, wc, x, input, first, q, pend_b, done, res, ev_a, ev_b, ev_c, cur, taken,
            appended, no, r);
        // nodes neither settled nor new keep their children
        assert forall|p: u64| #[trigger] wc.children@.contains_key(p) && !d2.contains(p) && p < w0.next_node_id
            implies w0.children@.contains_key(p) && wc.children@[p]@ == w0.children@[p]@ by {
            assert(wb.children@.contains_key(p));
            assert(wb.nodes@.contains_key(p));
            assert(wa.nodes@.contains_key(p));
            assert(same_kind(wa.nodes@[p]@, wb.nodes@[p]@));
            assert(wa.children@.contains_key(p));
            let list = wa.children@[p]@;
            assert(wb.children@[p]@ == list);
            assert forall|i: int| 0 <= i < list.len() implies !r.contains(#[trigger] list[i]) by {
                let c = list[i];
                assert(wa.children@[p]@[i] == c);
                assert(wa.parents@.contains_key(wa.children@[p]@[i]));
                assert(wb.parents@[c] == wa.parents@[c]);
                if r.contains(c) {
                    if u.contains(c) {
                        let j = choose|j: int| 0 <= j < cur.len() && !taken[j] && cur[j] == c;
                    }
                    assert(r.contains(p));
                }
            }
            lemma_without(list, r);
        }
    }

    /// A round of rendering keeps [`World::changes_sound`], and every node
    /// below `w0`'s next identity that stays is one of `w0`.
    #[verifier::rlimit(100)]
    #[verifier::spinoff_prover]
    proof fn lemma_round_sound(
        w0: World,
        wa: World,
        wb: World,
        wc: World,
        x: u64,
        input: Seq<Node>,
        first: Vec<Node>,
        q: Seq<(u64, Vec<Node>)>,
        pend_b: Seq<(u64, Vec<Node>)>,
        done: Set<u64>,
        res: Seq<u64>,
        ev_a: Seq<ChangeView>,
        ev_b: Seq<ChangeView>,
        ev_c: Seq<ChangeView>,
        cur: Seq<u64>,
        taken: Seq<bool>,
        appended: Seq<u64>,
        no: Seq<u64>,
        r: Set<u64>,
        inputs: Map<u64, Seq<Node>>,
    )
        requires
            World::round_facts(w0, wa, wb, wc, x, input, first, q, pend_b, done, res, cur, taken, appended, no, r),
            World::round_extra(w0, wa, wb, wc, q, pend_b, cur, no, r),
            World::round_events(wa, wb, wc, ev_a, ev_b, ev_c, q[0].0, no, r, w0.next_node_id),
            wa.tree_inv(w0, q, done, inputs),
            World::changes_sound(wa, w0, ev_a, w0.next_node_id),
            forall|z: u64| #[trigger] wa.nodes@.contains_key(z) && z < w0.next_node_id ==> w0.nodes@.contains_key(z),
        ensures
            World::changes_sound(wc, w0, ev_c, w0.next_node_id),
            forall|z: u64| #[trigger] wc.nodes@.contains_key(z) && z < w0.next_node_id ==> w0.nodes@.contains_key(z),
    {
        reveal(World::round_facts);
        reveal(World::round_extra);
        reveal(World::round_events);
        let m = q[0].0;
                    reveal(World::changes_sound);
                    reveal(World::created_or_updated);
                    let lo = w0.next_node_id;
                    
                    assert forall|j: int| 0 <= j < cur.len() implies #[trigger] cur[j] < lo by {
                        assert(wa.children@[m]@[j] == cur[j]);
                        reveal(World::tree_inv);
                        World::lemma_inv_pending(wa, w0, x, input, first, q, done, res);
                    }
                    assert(wa.next_node_id >= lo) by {
                        reveal(World::render_inv);
                    }
                    // what the earlier changes say still holds after matching
                    assert forall|z: u64| #[trigger] wa.nodes@.contains_key(z) && z >= lo implies wb.nodes@.contains_key(z)
                        && wb.nodes@[z] == wa.nodes@[z] by {
                        if cur.contains(z) {
                            let j = choose|j: int| 0 <= j < cur.len() && cur[j] == z;
                            assert(cur[j] < lo);
                        }
                    }
                    World::lemma_sound_frame(wa, wb, w0, ev_a, lo);
                    assert(World::changes_sound(wb, w0, ev_b, lo)) by {
                        assert forall|k: int| 0 <= k < ev_b.len() implies match #[trigger] ev_b[k] {
                            ChangeView::Created { id, parent, before: b, node } => {
                                &&& b is None
                                &&& id >= lo
                                &&& wb.nodes@.contains_key(id)
                                &&& wb.nodes@[id]@ == node
                                &&& wb.parents@.contains_key(id)
                                &&& wb.parents@[id].0 == parent
                            },
                            ChangeView::Deleted { id } => {
                                &&& id < lo
                                &&& w0.nodes@.contains_key(id)
                                &&& !wb.nodes@.contains_key(id)
                            },
                            _ => true,
                        } by {
                            if k < ev_a.len() {
                                assert(ev_b[k] == ev_b.subrange(0, ev_a.len() as int)[k]);
                                assert(ev_b[k] == ev_a[k]);
                            }
                        }
                    }
                    assert forall|z: u64| #[trigger] wb.nodes@.contains_key(z) && z < lo implies w0.nodes@.contains_key(z) by {
                        assert(wa.nodes@.contains_key(z));
                    }
                    // and after settling
                    assert forall|z: u64| #[trigger] wb.parents@.contains_key(z) && z >= lo implies wc.parents@.contains_key(z)
                        && wc.parents@[z].0 == wb.parents@[z].0 by {
                        assert(wb.nodes@.contains_key(z)) by {
                            assert(wb.tree_wf());
                        }
                        assert(!r.contains(z));
                    }
                    assert forall|z: u64| #[trigger] wb.nodes@.contains_key(z) && z >= lo implies wc.nodes@.contains_key(z)
                        && wc.nodes@[z] == wb.nodes@[z] by {
                        assert(!r.contains(z));
                    }
                    World::lemma_sound_frame(wb, wc, w0, ev_b, lo);
                    let ev_c = ev_c;
                    assert(World::changes_sound(wc, w0, ev_c, lo)) by {
                        assert forall|k: int| 0 <= k < ev_c.len() implies match #[trigger] ev_c[k] {
                            ChangeView::Created { id, parent, before: b, node } => {
                                &&& b is None
                                &&& id >= lo
                                &&& wc.nodes@.contains_key(id)
                                &&& wc.nodes@[id]@ == node
                                &&& wc.parents@.contains_key(id)
                                &&& wc.parents@[id].0 == parent
                            },
                            ChangeView::Deleted { id } => {
                                &&& id < lo
                                &&& w0.nodes@.contains_key(id)
                                &&& !wc.nodes@.contains_key(id)
                            },
                            _ => true,
                        } by {
                            if k < ev_b.len() {
                                assert(ev_c[k] == ev_c.subrange(0, ev_b.len() as int)[k]);
                                assert(ev_c[k] == ev_b[k]);
                            } else {
                                match ev_c[k] {
                                    ChangeView::Deleted { id } => {
                                        assert(wb.nodes@.contains_key(id) && id < lo);
                                    },
                                    _ => {},
                                }
                            }
                        }
                    }
                    assert forall|z: u64| #[trigger] wc.nodes@.contains_key(z) && z < lo implies w0.nodes@.contains_key(z) by {
                        assert(wb.nodes@.contains_key(z));
                    }
    }

    /// What [`World::all_moves`] says of the nodes that have children before
    /// and after: their moves are those of `moved_from` over [`arranged`].
    proof fn lemma_final_moves(w0: World, w: World, ev: Seq<ChangeView>, done: Set<u64>)
        requires
            w0.wf(),
            w.wf(),
            World::all_moves(w0, w, ev, done),
            World::moves_placed(w, ev, done),
            World::changes_kept(w, w0, ev, done),
            forall|z: u64| #[trigger] w.nodes@.contains_key(z) && z < w0.next_node_id && w.parents@.contains_key(z)
                && !done.contains(w.parents@[z].0) ==> w.nodes@[z] == w0.nodes@[z],
        ensures
            forall|p: u64| #![trigger w0.child_map().contains_key(p), w.child_map().contains_key(p)]
                w0.child_map().contains_key(p) && w.child_map().contains_key(p) ==> updates_in(ev, w.child_map()[p].to_set())
                == updates_for(w0.node_map(), w.node_map(), w.child_map()[p]),
            creates_of(ev).len() == w.spec_next_node_id() - w0.spec_next_node_id(),
            created_from(creates_of(ev), w0.spec_next_node_id() as int),
            deletes_distinct(ev),
            updates_distinct(ev),
            forall|p: u64| #![trigger w0.child_map().contains_key(p), w.child_map().contains_key(p)]
                w0.child_map().contains_key(p) && w.child_map().contains_key(p) ==> exists|qq: Seq<u64>|
                #![trigger w0.removal_of(qq)] ascending(qq) && qq.no_duplicates() && qq.to_set() == w0.child_map()[p].to_set().difference(
                w.child_map()[p].to_set(),
            ) && deletes_in(ev, w0.removal_of(qq).to_set()) == deleted_views(w0.removal_of(qq)),
            forall|k: int| 0 <= k < ev.len() ==> (#[trigger] ev[k] matches ChangeView::Moved { parent, .. }
                ==> w0.child_map().contains_key(parent)),
            forall|pp: u64| #![trigger moves_of(ev, pp)] w0.child_map().contains_key(pp) && w.child_map().contains_key(pp)
                ==> moves_of(ev, pp) == moved_from(
                pp,
                w.child_map()[pp],
                index_map(pp, arranged(w0.child_map()[pp], w.child_map()[pp])),
                0,
            ),
    {
        reveal(World::all_moves);
        reveal(World::moves_placed);
        reveal(creates_in);
        reveal(World::all_deletes);
        reveal(World::all_updates);
        reveal(World::changes_kept);
        assert forall|p: u64| #![trigger w0.child_map().contains_key(p), w.child_map().contains_key(p)]
            w0.child_map().contains_key(p) && w.child_map().contains_key(p) implies updates_in(ev, w.child_map()[p].to_set())
            == updates_for(w0.node_map(), w.node_map(), w.child_map()[p]) by {
            assert(w.child_map()[p] == w.children@[p]@);
            if !done.contains(p) {
                assert(w0.nodes@.contains_key(p));
                assert(p < w0.next_node_id);
                let l = w.children@[p]@;
                let sl = l.to_set();
                assert forall|k: int| 0 <= k < ev.len() implies !(#[trigger] ev[k] is Updated && sl.contains(ev[k]->Updated_id)) by {
                    if ev[k] is Updated && sl.contains(ev[k]->Updated_id) {
                        let z = ev[k]->Updated_id;
                        let i = choose|i: int| 0 <= i < l.len() && l[i] == z;
                        assert(w.parents@.contains_key(w.children@[p]@[i]));
                    }
                }
                lemma_updates_in_none(ev, sl);
                assert forall|i: int| 0 <= i < l.len() && w0.node_map().contains_key(#[trigger] l[i]) implies w0.node_map()[l[i]]
                    == w.node_map()[l[i]] by {
                    assert(w.parents@.contains_key(w.children@[p]@[i]));
                    assert(w0.nodes@.contains_key(l[i]));
                }
                lemma_updates_for_none(w0.node_map(), w.node_map(), l);
            }
        }
        assert forall|p: u64| #![trigger w0.child_map().contains_key(p), w.child_map().contains_key(p)]
            w0.child_map().contains_key(p) && w.child_map().contains_key(p) implies exists|qq: Seq<u64>|
            #![trigger w0.removal_of(qq)] ascending(qq) && qq.no_duplicates() && qq.to_set() == w0.child_map()[p].to_set().difference(
            w.child_map()[p].to_set(),
        ) && deletes_in(ev, w0.removal_of(qq).to_set()) == deleted_views(w0.removal_of(qq)) by {
            assert(w0.child_map()[p] == w0.children@[p]@);
            assert(w.child_map()[p] == w.children@[p]@);
            if done.contains(p) {
                let qq = choose|qq: Seq<u64>| #![trigger removal_order(w0.children@, qq)] ascending(qq) && qq.no_duplicates()
                    && qq.to_set() == w0.children@[p]@.to_set().difference(w.children@[p]@.to_set()) && deletes_in(
                    ev,
                    removal_order(w0.children@, qq).to_set(),
                ) == deleted_views(removal_order(w0.children@, qq));
                assert(w0.removal_of(qq) == removal_order(w0.children@, qq));
            } else {
                assert(w0.nodes@.contains_key(p));
                assert(p < w0.next_node_id);
                let e = Seq::<u64>::empty();
                assert(w0.children@[p]@.to_set().difference(w.children@[p]@.to_set()) =~= Set::<u64>::empty());
                assert(e.to_set() =~= Set::<u64>::empty());
                w0.lemma_removal_of_none(e);
                lemma_deletes_in_none(ev, w0.removal_of(e).to_set());
                assert(deleted_views(w0.removal_of(e)) =~= Seq::<ChangeView>::empty());
                assert(ascending(e) && e.no_duplicates());
            }
        }
        assert(ev.subrange(0, ev.len() as int) =~= ev);
        assert forall|k: int| 0 <= k < ev.len() implies (#[trigger] ev[k] matches ChangeView::Moved { parent, .. }
            ==> w0.child_map().contains_key(parent)) by {
            match ev[k] {
                ChangeView::Moved { parent, .. } => {
                    assert(done.contains(parent));
                },
                _ => {},
            }
        }
        assert forall|pp: u64| #![trigger moves_of(ev, pp)] w0.child_map().contains_key(pp) && w.child_map().contains_key(pp)
            implies moves_of(ev, pp) == moved_from(pp, w.child_map()[pp], index_map(pp, arranged(w0.child_map()[pp],
            w.child_map()[pp])), 0) by {
            assert(w0.child_map()[pp] == w0.children@[pp]@);
            assert(w.child_map()[pp] == w.children@[pp]@);
            if !done.contains(pp) {
                assert(w0.nodes@.contains_key(pp));
                assert(pp < w0.next_node_id);
                w0.lemma_lists_distinct(pp);
                let l = w0.children@[pp]@;
                if l.len() > 0 {
                    assert(w0.parents@.contains_key(w0.children@[pp]@[l.len() - 1]));
                }
                lemma_no_moves_same(pp, w0.children@[pp]@);
            }
        }
    }

    /// Whether each settled node of `done` has, at each position, the old
    /// child that its input took there, or a node from `w0`'s next identity
    /// on where its input took none.
    #[verifier::opaque]
    spec fn all_picked(w0: World, w: World, done: Set<u64>, inputs: Map<u64, Seq<Node>>) -> bool {
        forall|p: u64, k: int| #![trigger done.contains(p), w.children@[p]@[k]] done.contains(p) && 0 <= k
            < w.children@[p]@.len() ==> match picked(keys_of_ids(w0.node_map(), w0.children@[p]@), node_keys(inputs[p]), k) {
            Some(j) => 0 <= j < w0.children@[p]@.len() && w.children@[p]@[k] == w0.children@[p]@[j],
            None => w.children@[p]@[k] >= w0.next_node_id,
        }
    }

    /// A round of rendering keeps [`World::all_picked`].
    #[verifier::rlimit(60)]
    #[verifier::spinoff_prover]
    proof fn lemma_round_picked(
        w0: World,
        wa: World,
        wb: World,
        wc: World,
        x: u64,
        input: Seq<Node>,
        first: Vec<Node>,
        q: Seq<(u64, Vec<Node>)>,
        pend_b: Seq<(u64, Vec<Node>)>,
        done: Set<u64>,
        res: Seq<u64>,
        ev_a: Seq<ChangeView>,
        ev_b: Seq<ChangeView>,
        ev_c: Seq<ChangeView>,
        cur: Seq<u64>,
        taken: Seq<bool>,
        appended: Seq<u64>,
        no: Seq<u64>,
        r: Set<u64>,
        inputs: Map<u64, Seq<Node>>,
    )
        requires
            World::round_facts(w0, wa, wb, wc, x, input, first, q, pend_b, done, res, cur, taken, appended, no, r),
            World::round_extra(w0, wa, wb, wc, q, pend_b, cur, no, r),
            World::round_events(wa, wb, wc, ev_a, ev_b, ev_c, q[0].0, no, r, w0.next_node_id),
            World::all_moves(w0, wa, ev_a, done),
            World::changes_sound(wa, w0, ev_a, w0.next_node_id),
            World::changes_kept(wa, w0, ev_a, done),
            World::updates_taken(ev_b, ev_a.len() as int, cur, taken),
            World::all_picked(w0, wa, done, inputs),
            q[0].0 < w0.next_node_id,
            forall|k: int| 0 <= k < no.len() ==> match #[trigger] picked(keys_of_ids(wa.node_map(), cur), node_keys(q[0].1@), k) {
                Some(j) => 0 <= j < cur.len() && no[k] == cur[j],
                None => no[k] >= wa.next_node_id,
            },
            forall|z: u64| #[trigger] wa.nodes@.contains_key(z) && z < w0.next_node_id && wa.parents@.contains_key(z)
                && !done.contains(wa.parents@[z].0) ==> wa.nodes@[z] == w0.nodes@[z],
        ensures
            World::all_picked(w0, wc, done.insert(q[0].0), inputs.insert(q[0].0, q[0].1@)),
    {
        World::lemma_round_all_moves(w0, wa, wb, wc, x, input, first, q, pend_b, done, res, ev_a, ev_b, ev_c, cur, taken,
            appended, no, r);
        reveal(World::round_facts);
        reveal(World::all_picked);
        reveal(World::render_inv);
        let m = q[0].0;
        let d2 = done.insert(m);
        let in2 = inputs.insert(m, q[0].1@);
        assert(w0.children@.contains_key(m) && cur == w0.children@[m]@);
        assert(keys_of_ids(wa.node_map(), cur) =~= keys_of_ids(w0.node_map(), cur)) by {
            assert forall|j: int| 0 <= j < cur.len() implies wa.node_map()[cur[j]] == w0.node_map()[cur[j]] by {
                assert(wa.children@[m]@[j] == cur[j]);
                assert(wa.parents@.contains_key(wa.children@[m]@[j]));
                assert(wa.nodes@.contains_key(cur[j]));
                assert(cur[j] < w0.next_node_id);
                assert(w0.nodes@.contains_key(cur[j]));
            }
        }
        assert forall|p: u64, k: int| #![trigger d2.contains(p), wc.children@[p]@[k]] d2.contains(p) && 0 <= k
            < wc.children@[p]@.len() implies match picked(keys_of_ids(w0.node_map(), w0.children@[p]@), node_keys(in2[p]), k) {
            Some(j) => 0 <= j < w0.children@[p]@.len() && wc.children@[p]@[k] == w0.children@[p]@[j],
            None => wc.children@[p]@[k] >= w0.next_node_id,
        } by {
            if p == m {
                assert(wc.children@[m]@ == no);
                assert(in2[m] == q[0].1@);
                match picked(keys_of_ids(wa.node_map(), cur), node_keys(q[0].1@), k) {
                    Some(j) => {},
                    None => {},
                }
            } else {
                assert(done.contains(p));
                assert(in2[p] == inputs[p]);
                assert(wc.children@[p]@ == wa.children@[p]@);
                assert(wa.children@[p]@[k] == wc.children@[p]@[k]);
            }
        }
    }

    /// What [`World::all_picked`] says of the nodes that have children before
    /// and after: each position holds the old child whose key the greedy
    /// match took there, or a new node.
    #[verifier::rlimit(40)]
    proof fn lemma_final_picked(w0: World, w: World, ev: Seq<ChangeView>, done: Set<u64>, inputs: Map<u64, Seq<Node>>)
        requires
            w0.wf(),
            w.wf(),
            World::all_moves(w0, w, ev, done),
            World::all_picked(w0, w, done, inputs),
            w.tree_inv(w0, Seq::empty(), done, inputs),
            forall|z: u64| #[trigger] w.nodes@.contains_key(z) && z < w0.next_node_id && w.parents@.contains_key(z)
                && !done.contains(w.parents@[z].0) ==> w.nodes@[z] == w0.nodes@[z],
        ensures
            forall|p: u64, k: int| #![trigger w.child_map()[p][k], w0.child_map().contains_key(p)]
                w0.child_map().contains_key(p) && w.child_map().contains_key(p) && 0 <= k < w.child_map()[p].len()
                ==> match picked(keys_of_ids(w0.node_map(), w0.child_map()[p]), keys_of_ids(w.node_map(), w.child_map()[p]), k) {
                Some(j) => 0 <= j < w0.child_map()[p].len() && w.child_map()[p][k] == w0.child_map()[p][j],
                None => !w0.node_map().contains_key(w.child_map()[p][k]),
            },
    {
        reveal(World::all_moves);
        reveal(World::all_picked);
        assert forall|p: u64, k: int| #![trigger w.child_map()[p][k], w0.child_map().contains_key(p)]
            w0.child_map().contains_key(p) && w.child_map().contains_key(p) && 0 <= k < w.child_map()[p].len()
            implies match picked(keys_of_ids(w0.node_map(), w0.child_map()[p]), keys_of_ids(w.node_map(), w.child_map()[p]), k) {
            Some(j) => 0 <= j < w0.child_map()[p].len() && w.child_map()[p][k] == w0.child_map()[p][j],
            None => !w0.node_map().contains_key(w.child_map()[p][k]),
        } by {
            let l0 = w0.children@[p]@;
            let l = w.children@[p]@;
            assert(w0.child_map()[p] == l0);
            assert(w.child_map()[p] == l);
            if done.contains(p) {
                reveal(World::tree_inv);
                assert(keys_of_ids(w.node_map(), l) =~= node_keys(inputs[p])) by {
                    assert forall|i: int| 0 <= i < l.len() implies w.node_map()[l[i]] == flat_of(inputs[p][i]) by {
                        World::lemma_tree_final(w, w0, done, inputs, p, i);
                    }
                }
                assert(w.children@[p]@[k] == l[k]);
                match picked(keys_of_ids(w0.node_map(), l0), node_keys(inputs[p]), k) {
                    Some(j) => {},
                    None => {
                        if w0.node_map().contains_key(l[k]) {
                            assert(w0.nodes@.contains_key(l[k]));
                        }
                    },
                }
            } else {
                assert(w0.nodes@.contains_key(p));
                assert(p < w0.next_node_id);
                assert(l == l0);
                assert(keys_of_ids(w.node_map(), l) =~= keys_of_ids(w0.node_map(), l0)) by {
                    assert forall|i: int| 0 <= i < l.len() implies w.node_map()[l[i]] == w0.node_map()[l[i]] by {
                        assert(w0.parents@.contains_key(w0.children@[p]@[i]));
                        assert(w.parents@.contains_key(w.children@[p]@[i]));
                        assert(w0.nodes@.contains_key(l[i]));
                    }
                }
                lemma_same_keys_take_in_place(keys_of_ids(w0.node_map(), l0), k);
            }
        }
    }

    /// With nothing settled, a well-formed world meets [`World::tree_inv`]
    /// against itself.
    proof fn lemma_tree_none(w: World)
        requires
            w.wf(),
        ensures
            w.tree_inv(w, Seq::empty(), Set::empty(), Map::empty()),
    {
        reveal(World::tree_inv);
        assert forall|z: u64, i: int| #[trigger] w.children@.contains_key(z) && z < w.next_node_id && 0 <= i
            < w.children@[z]@.len() implies #[trigger] w.children@[z]@[i] < w.next_node_id by {
            assert(w.parents@.contains_key(w.children@[z]@[i]));
        }
    }

    /// A round of rendering keeps [`World::outside_kept`].
    #[verifier::rlimit(60)]
    #[verifier::spinoff_prover]
    proof fn lemma_round_outside_all(
        w0: World,
        wa: World,
        wb: World,
        wc: World,
        x: u64,
        input: Seq<Node>,
        first: Vec<Node>,
        q: Seq<(u64, Vec<Node>)>,
        pend_b: Seq<(u64, Vec<Node>)>,
        done: Set<u64>,
        res: Seq<u64>,
        cur: Seq<u64>,
        taken: Seq<bool>,
        appended: Seq<u64>,
        no: Seq<u64>,
        r: Set<u64>,
        inputs: Map<u64, Seq<Node>>,
    )
        requires
            World::round_facts(w0, wa, wb, wc, x, input, first, q, pend_b, done, res, cur, taken, appended, no, r),
            World::round_extra(w0, wa, wb, wc, q, pend_b, cur, no, r),
            wa.tree_inv(w0, q, done, inputs),
            World::subtree_inv(w0, x, done, q),
            World::outside_kept(wa, w0, x),
            forall|z: u64| #[trigger] wa.parents@.contains_key(z) && z < w0.next_node_id
                ==> w0.parents@.contains_key(z) && wa.parents@[z].0 == w0.parents@[z].0,
        ensures
            World::outside_kept(wc, w0, x),
    {
        reveal(World::round_facts);
        reveal(World::round_extra);
        let m = q[0].0;
                    reveal(World::subtree_inv);
                    let lo = w0.next_node_id;
                    assert(wa.next_node_id >= lo && w0.wf()) by {
                        reveal(World::render_inv);
                    }
                    assert(in_subtree(w0.parents@, x, m)) by {
                        assert(q[0].0 == m);
                    }
                    assert(kept_set(x, done.insert(m), wb.parents@, untaken(cur, taken)).contains(x));
                    assert forall|j: int| 0 <= j < cur.len() implies #[trigger] cur[j] < lo by {
                        reveal(World::tree_inv);
                        World::lemma_inv_pending(wa, w0, x, input, first, q, done, res);
                        assert(wa.children@[m]@[j] == cur[j]);
                    }
                    assert forall|j: int| 0 <= j < cur.len() implies #[trigger] wb.parents@.contains_key(cur[j])
                        && wb.parents@[cur[j]].0 == m by {
                        assert(wa.children@[m]@[j] == cur[j]);
                        assert(wa.parents@.contains_key(wa.children@[m]@[j]));
                    }
                    assert forall|y: u64| #[trigger] wb.parents@.contains_key(y) && y < lo implies w0.parents@.contains_key(y)
                        && wb.parents@[y].0 == w0.parents@[y].0 by {
                        assert(wb.nodes@.contains_key(y));
                        assert(wa.nodes@.contains_key(y));
                        assert(wb.parents@[y].0 < y);
                        assert(wa.parents@.contains_key(y));
                    }
                    assert forall|y: u64| #[trigger] r.contains(y) implies y < lo by {
                        assert(wb.parents@.contains_key(y));
                        assert(wb.nodes@.contains_key(y));
                    }
                    assert forall|z: u64| #[trigger] r.contains(z) implies in_subtree(w0.parents@, x, z) by {
                        World::lemma_removed_in_subtree(w0, wb, x, m, cur, taken, r, z);
                    }
                    World::lemma_round_outside(w0, wa, wb, wc, x, m, cur, r);
    }

    /// A round of rendering keeps [`World::changes_kept`], and the nodes
    /// from before whose parent is not settled keep their content.
    #[verifier::rlimit(60)]
    #[verifier::spinoff_prover]
    proof fn lemma_round_kept_all(
        w0: World,
        wa: World,
        wb: World,
        wc: World,
        x: u64,
        input: Seq<Node>,
        first: Vec<Node>,
        q: Seq<(u64, Vec<Node>)>,
        pend_b: Seq<(u64, Vec<Node>)>,
        done: Set<u64>,
        res: Seq<u64>,
        ev_a: Seq<ChangeView>,
        ev_b: Seq<ChangeView>,
        ev_c: Seq<ChangeView>,
        cur: Seq<u64>,
        taken: Seq<bool>,
        appended: Seq<u64>,
        no: Seq<u64>,
        r: Set<u64>,
        inputs: Map<u64, Seq<Node>>,
    )
        requires
            World::round_facts(w0, wa, wb, wc, x, input, first, q, pend_b, done, res, cur, taken, appended, no, r),
            World::round_extra(w0, wa, wb, wc, q, pend_b, cur, no, r),
            World::round_events(wa, wb, wc, ev_a, ev_b, ev_c, q[0].0, no, r, w0.next_node_id),
            wa.tree_inv(w0, q, done, inputs),
            World::changes_kept(wa, w0, ev_a, done),
            World::updates_taken(ev_b, ev_a.len() as int, cur, taken),
            World::updates_apply(wa, wb, ev_b, ev_a.len() as int),
            forall|z: u64| #[trigger] wa.nodes@.contains_key(z) && z < w0.next_node_id ==> w0.nodes@.contains_key(z),
            forall|z: u64| #[trigger] wa.nodes@.contains_key(z) && z < w0.next_node_id && wa.parents@.contains_key(z)
                && !done.contains(wa.parents@[z].0) ==> wa.nodes@[z] == w0.nodes@[z],
        ensures
            World::changes_kept(wc, w0, ev_c, done.insert(q[0].0)),
            forall|z: u64| #[trigger] wc.nodes@.contains_key(z) && z < w0.next_node_id && wc.parents@.contains_key(z)
                && !done.insert(q[0].0).contains(wc.parents@[z].0) ==> wc.nodes@[z] == w0.nodes@[z],
    {
        reveal(World::round_facts);
        reveal(World::round_extra);
        reveal(World::round_events);
        let m = q[0].0;
        let tk = taken;
        let lo = w0.next_node_id;
        assert(!done.contains(m)) by {
            reveal(World::render_inv);
        }
        reveal(World::tree_inv);
        World::lemma_inv_pending(wa, w0, x, input, first, q, done, res);
        assert forall|jj: int| 0 <= jj < cur.len() implies #[trigger] cur[jj] < lo && wa.nodes@.contains_key(cur[jj]) by {
            assert(wa.children@[m]@[jj] == cur[jj]);
            assert(wa.parents@.contains_key(wa.children@[m]@[jj]));
        }
        assert forall|k: int| ev_a.len() <= k < ev_b.len() implies #[trigger] ev_b[k] is Created || ev_b[k] is Updated by {
            reveal(World::created_or_updated);
        }
        World::lemma_round_kept(w0, wa, wb, wc, ev_a, ev_b, ev_c, done, m, cur, tk, no, r, x);
        assert(wa.next_node_id >= lo) by {
            reveal(World::render_inv);
        }
        World::lemma_round_untouched(w0, wa, wb, wc, done, m, cur, r);
    }

    /// A round of rendering keeps [`World::tree_inv`], with `m` settled on
    /// its input.
    #[verifier::rlimit(60)]
    #[verifier::spinoff_prover]
    proof fn lemma_round_tree_all(
        w0: World,
        wa: World,
        wb: World,
        wc: World,
        x: u64,
        input: Seq<Node>,
        first: Vec<Node>,
        q: Seq<(u64, Vec<Node>)>,
        pend_b: Seq<(u64, Vec<Node>)>,
        done: Set<u64>,
        res: Seq<u64>,
        current: Seq<u64>,
        taken: Seq<bool>,
        appended: Seq<u64>,
        no: Seq<u64>,
        r: Set<u64>,
        inputs: Map<u64, Seq<Node>>,
    )
        requires
            World::round_facts(w0, wa, wb, wc, x, input, first, q, pend_b, done, res, current, taken, appended, no, r),
            World::round_extra(w0, wa, wb, wc, q, pend_b, current, no, r),
            wa.tree_inv(w0, q, done, inputs),
        ensures
            wc.tree_inv(w0, pend_b, done.insert(q[0].0), inputs.insert(q[0].0, q[0].1@)),
    {
        let m = q[0].0;
                let cur = current;
                let tk = taken;
                let ap = appended;
                World::lemma_round_tree_shape(w0, wa, wb, wc, x, input, first, q, pend_b, done, res, cur, tk, ap, no,
                    r, inputs);
                World::lemma_round_tree_new(w0, wa, wb, wc, x, input, first, q, pend_b, done, res, cur, tk, ap, no,
                    r, inputs);
                assert forall|p: u64| done.contains(p) implies {
                    &&& wc.children@.contains_key(p)
                    &&& inputs.insert(m, q[0].1@).contains_key(p)
                    &&& wc.children@[p]@.len() == inputs.insert(m, q[0].1@)[p].len()
                    &&& forall|i: int| 0 <= i < inputs[p].len() ==> wc.child_ok(w0.next_node_id, pend_b, done.insert(m),
                        inputs.insert(m, q[0].1@), #[trigger] wc.children@[p]@[i], inputs.insert(m, q[0].1@)[p][i])
                } by {
                    World::lemma_round_tree_old(w0, wa, wb, wc, x, input, first, q, pend_b, done, res, cur, tk, ap,
                        no, r, inputs, p);
                }
                let inputs2 = inputs.insert(m, q[0].1@);
                let done2 = done.insert(m);
                assert(wc.tree_inv(w0, pend_b, done2, inputs2)) by {
                    reveal(World::tree_inv);
                    reveal(World::render_inv);
                    assert forall|pp: u64| #[trigger] done2.contains(pp) implies wc.children@.contains_key(pp)
                        && inputs2.contains_key(pp) && wc.children@[pp]@.len() == inputs2[pp].len() by {
                        if pp != m {
                            assert(done.contains(pp));
                        }
                    }
                    assert forall|pp: u64, i: int| #[trigger] done2.contains(pp) && 0 <= i < inputs2[pp].len()
                        implies wc.child_ok(w0.next_node_id, pend_b, done2, inputs2, #[trigger] wc.children@[pp]@[i],
                        inputs2[pp][i]) by {
                        if pp != m {
                            assert(done.contains(pp));
                            assert(inputs2[pp] == inputs[pp]);
                        }
                    }
                }
    }

    /// A round of rendering keeps [`World::moves_placed`].
    #[verifier::rlimit(60)]
    proof fn lemma_round_placed_all(
        w0: World,
        wa: World,
        wb: World,
        wc: World,
        x: u64,
        input: Seq<Node>,
        first: Vec<Node>,
        q: Seq<(u64, Vec<Node>)>,
        pend_b: Seq<(u64, Vec<Node>)>,
        done: Set<u64>,
        res: Seq<u64>,
        ev_a: Seq<ChangeView>,
        ev_b: Seq<ChangeView>,
        ev_c: Seq<ChangeView>,
        cur: Seq<u64>,
        taken: Seq<bool>,
        appended: Seq<u64>,
        no: Seq<u64>,
        r: Set<u64>,
    )
        requires
            World::round_facts(w0, wa, wb, wc, x, input, first, q, pend_b, done, res, cur, taken, appended, no, r),
            World::round_events(wa, wb, wc, ev_a, ev_b, ev_c, q[0].0, no, r, w0.next_node_id),
            World::moves_placed(wa, ev_a, done),
        ensures
            World::moves_placed(wc, ev_c, done.insert(q[0].0)),
    {
        reveal(World::round_facts);
        reveal(World::round_events);
        reveal(World::render_inv);
        let m = q[0].0;
        assert forall|k: int| ev_a.len() <= k < ev_b.len() implies #[trigger] ev_b[k] is Created || ev_b[k] is Updated by {
            reveal(World::created_or_updated);
        }
        assert forall|p: u64| #[trigger] done.contains(p) implies p == x || (wb.parents@.contains_key(p)
            && done.contains(wb.parents@[p].0)) by {
            if p != x {
                assert(wa.parents@.contains_key(p));
            }
        }
        World::lemma_round_placed(wa, wb, wc, ev_a, ev_b, ev_c, done, m, cur, taken, no, r, x);
    }

    /// A round of rendering keeps the parents of the nodes from before.
    proof fn lemma_round_parents(
        w0: World,
        wa: World,
        wb: World,
        wc: World,
        x: u64,
        input: Seq<Node>,
        first: Vec<Node>,
        q: Seq<(u64, Vec<Node>)>,
        pend_b: Seq<(u64, Vec<Node>)>,
        done: Set<u64>,
        res: Seq<u64>,
        cur: Seq<u64>,
        taken: Seq<bool>,
        appended: Seq<u64>,
        no: Seq<u64>,
        r: Set<u64>,
    )
        requires
            World::round_facts(w0, wa, wb, wc, x, input, first, q, pend_b, done, res, cur, taken, appended, no, r),
            World::round_extra(w0, wa, wb, wc, q, pend_b, cur, no, r),
            forall|z: u64| #[trigger] wa.parents@.contains_key(z) && z < w0.next_node_id
                ==> w0.parents@.contains_key(z) && wa.parents@[z].0 == w0.parents@[z].0,
        ensures
            forall|z: u64| #[trigger] wc.parents@.contains_key(z) && z < w0.next_node_id
                ==> w0.parents@.contains_key(z) && wc.parents@[z].0 == w0.parents@[z].0,
    {
        reveal(World::round_facts);
        reveal(World::round_extra);
        assert forall|z: u64| #[trigger] wc.parents@.contains_key(z) && z < w0.next_node_id
            implies w0.parents@.contains_key(z) && wc.parents@[z].0 == w0.parents@[z].0 by {
            assert(wb.parents@.contains_key(z));
            assert(wb.nodes@.contains_key(z));
            assert(wa.nodes@.contains_key(z));
            assert(wb.parents@[z].0 < z);
            assert(wa.parents@.contains_key(z));
        }
    }

    /// A round of rendering keeps [`World::subtree_inv`].
    #[verifier::rlimit(40)]
    proof fn lemma_round_subtree(
        w0: World,
        wa: World,
        wb: World,
        wc: World,
        x: u64,
        input: Seq<Node>,
        first: Vec<Node>,
        q: Seq<(u64, Vec<Node>)>,
        pend_b: Seq<(u64, Vec<Node>)>,
        done: Set<u64>,
        res: Seq<u64>,
        cur: Seq<u64>,
        taken: Seq<bool>,
        appended: Seq<u64>,
        no: Seq<u64>,
        r: Set<u64>,
        inputs: Map<u64, Seq<Node>>,
    )
        requires
            World::round_facts(w0, wa, wb, wc, x, input, first, q, pend_b, done, res, cur, taken, appended, no, r),
            wa.tree_inv(w0, q, done, inputs),
            World::subtree_inv(w0, x, done, q),
            forall|z: u64| #[trigger] wa.parents@.contains_key(z) && z < w0.next_node_id
                ==> w0.parents@.contains_key(z) && wa.parents@[z].0 == w0.parents@[z].0,
        ensures
            World::subtree_inv(w0, x, done.insert(q[0].0), pend_b),
    {
        reveal(World::round_facts);
        reveal(World::subtree_inv);
        let m = q[0].0;
        let lo = w0.next_node_id;
        assert(in_subtree(w0.parents@, x, m));
        assert forall|k: int| 0 <= k < pend_b.len() implies in_subtree(w0.parents@, x, #[trigger] pend_b[k].0) by {
            if k < q.len() - 1 {
                assert(pend_b[k] == pend_b.subrange(0, q.len() - 1)[k]);
                assert(pend_b[k] == q[k + 1]);
            } else {
                let j = choose|j: int| 0 <= j < cur.len() && taken[j] && cur[j] == pend_b[k].0;
                let c = cur[j];
                assert(wa.children@[m]@[j] == c);
                assert(wa.parents@.contains_key(c) && wa.parents@[c].0 == m);
                assert(c < lo) by {
                    reveal(World::tree_inv);
                    World::lemma_inv_pending(wa, w0, x, input, first, q, done, res);
                }
                assert(w0.parents@.contains_key(c) && w0.parents@[c].0 == m);
                assert(w0.wf()) by {
                    reveal(World::render_inv);
                }
                assert(m < c) by {
                    assert(w0.children@.contains_key(w0.parents@[c].0));
                }
            }
        }
    }

    /// Whether every move in `ev` is of a child of a settled node of `done`,
    /// and names the sibling that follows it in that node's children in `w`.
    #[verifier::opaque]
    spec fn moves_placed(w: World, ev: Seq<ChangeView>, done: Set<u64>) -> bool {
        forall|k: int| 0 <= k < ev.len() ==> match #[trigger] ev[k] {
            ChangeView::Moved { id, parent, before } => {
                &&& done.contains(parent)
                &&& w.children@.contains_key(parent)
                &&& placed_before(w.children@[parent]@, id, before)
            },
            _ => true,
        }
    }

    /// A round of rendering keeps the moves it reported placed: the children
    /// of settled nodes other than `m` stay as they were, and the moves of
    /// the round name the order `no` that `m` ends with.
    #[verifier::rlimit(40)]
    proof fn lemma_round_placed(
        wa: World,
        wb: World,
        wc: World,
        ev_a: Seq<ChangeView>,
        ev_b: Seq<ChangeView>,
        ev_c: Seq<ChangeView>,
        done: Set<u64>,
        m: u64,
        cur: Seq<u64>,
        tk: Seq<bool>,
        no: Seq<u64>,
        r: Set<u64>,
        x: u64,
    )
        requires
            wa.wf(),
            wb.wf(),
            World::moves_placed(wa, ev_a, done),
            !done.contains(m),
            x <= m,
            wa.children@.contains_key(m),
            wa.children@[m]@ == cur,
            forall|p: u64| #[trigger] done.contains(p) ==> p == x || (wb.parents@.contains_key(p)
                && done.contains(wb.parents@[p].0)),
            ev_b.len() >= ev_a.len(),
            ev_b.subrange(0, ev_a.len() as int) == ev_a,
            forall|k: int| ev_a.len() <= k < ev_b.len() ==> #[trigger] ev_b[k] is Created || ev_b[k] is Updated,
            forall|z: u64| #[trigger] wa.parents@.contains_key(z) ==> wb.parents@.contains_key(z) && wb.parents@[z]
                == wa.parents@[z],
            forall|p: u64| #[trigger] wa.children@.contains_key(p) ==> wb.children@.contains_key(p)
                && (p != m ==> wb.children@[p]@ == wa.children@[p]@),
            ev_c.len() >= ev_b.len(),
            ev_c.subrange(0, ev_b.len() as int) == ev_b,
            forall|k: int| ev_b.len() <= k < ev_c.len() ==> match #[trigger] ev_c[k] {
                ChangeView::Moved { id, parent, before } => parent == m && no.contains(id) && placed_before(no, id, before),
                ChangeView::Deleted { .. } => true,
                _ => false,
            },
            forall|z: u64| #[trigger] kept_set(x, done.insert(m), wb.parents@, untaken(cur, tk)).contains(z) ==> !r.contains(z),
            wc.children@.dom() == wb.children@.dom().difference(r),
            forall|p: u64| #[trigger] wc.children@.contains_key(p) && p != m ==> wc.children@[p]@
                == without(wb.children@[p]@, r),
            wc.children@.contains_key(m),
            wc.children@[m]@ == no,
        ensures
            World::moves_placed(wc, ev_c, done.insert(m)),
    {
        reveal(World::moves_placed);
        let d2 = done.insert(m);
        let u = untaken(cur, tk);
        assert forall|j: int| 0 <= j < cur.len() implies wa.parents@.contains_key(#[trigger] cur[j])
            && wa.parents@[cur[j]].0 == m by {
            assert(wa.children@[m]@[j] == cur[j]);
        }
        assert forall|k: int| 0 <= k < ev_c.len() implies match #[trigger] ev_c[k] {
            ChangeView::Moved { id, parent, before } => {
                &&& d2.contains(parent)
                &&& wc.children@.contains_key(parent)
                &&& placed_before(wc.children@[parent]@, id, before)
            },
            _ => true,
        } by {
            if k < ev_b.len() {
                assert(ev_c[k] == ev_c.subrange(0, ev_b.len() as int)[k]);
                if k < ev_a.len() {
                    assert(ev_b[k] == ev_b.subrange(0, ev_a.len() as int)[k]);
                    match ev_a[k] {
                        ChangeView::Moved { id, parent, before } => {
                            assert(done.contains(parent));
                            assert(parent != m);
                            let list = wa.children@[parent]@;
                            assert(wb.children@[parent]@ == list);
                            assert(!u.contains(parent)) by {
                                if u.contains(parent) {
                                    let j = choose|j: int| 0 <= j < cur.len() && !tk[j] && cur[j] == parent;
                                    assert(wa.parents@[cur[j]].0 == m);
                                    assert(wa.parents@[cur[j]].0 < cur[j]);
                                    if parent != x {
                                        assert(wb.parents@[parent] == wa.parents@[parent]);
                                    }
                                }
                            }
                            assert(kept_set(x, d2, wb.parents@, u).contains(parent));
                            assert(!r.contains(parent));
                            assert forall|i: int| 0 <= i < list.len() implies !r.contains(#[trigger] list[i]) by {
                                let c = list[i];
                                assert(wa.children@[parent]@[i] == c);
                                assert(wa.parents@[c].0 == parent);
                                assert(wb.parents@[c] == wa.parents@[c]);
                                assert(!u.contains(c)) by {
                                    if u.contains(c) {
                                        let j = choose|j: int| 0 <= j < cur.len() && !tk[j] && cur[j] == c;
                                        assert(wa.parents@[cur[j]].0 == m);
                                    }
                                }
                                assert(kept_set(x, d2, wb.parents@, u).contains(c));
                            }
                            lemma_without(list, r);
                            assert(wb.children@.contains_key(parent));
                            assert(wc.children@.dom().contains(parent));
                            assert(wc.children@[parent]@ == without(wb.children@[parent]@, r));
                            assert(wc.children@[parent]@ == list);
                        },
                        _ => {},
                    }
                } else {
                    assert(ev_b[k] is Created || ev_b[k] is Updated);
                }
            }
        }
    }

    /// A round of rendering keeps what the updates and moves reported so far
    /// say, and what its own updates and moves say.
    proof fn lemma_round_kept(
        w0: World,
        wa: World,
        wb: World,
        wc: World,
        ev_a: Seq<ChangeView>,
        ev_b: Seq<ChangeView>,
        ev_c: Seq<ChangeView>,
        done: Set<u64>,
        m: u64,
        cur: Seq<u64>,
        tk: Seq<bool>,
        no: Seq<u64>,
        r: Set<u64>,
        x: u64,
    )
        requires
            wa.wf(),
            wb.wf(),
            wc.wf(),
            World::changes_kept(wa, w0, ev_a, done),
            !done.contains(m),
            wa.children@.contains_key(m),
            wa.children@[m]@ == cur,
            forall|j: int| 0 <= j < cur.len() ==> #[trigger] cur[j] < w0.next_node_id && wa.nodes@.contains_key(cur[j]),
            forall|z: u64| #[trigger] wa.nodes@.contains_key(z) && z < w0.next_node_id ==> w0.nodes@.contains_key(z),
            tk.len() == cur.len(),
            ev_b.len() >= ev_a.len(),
            ev_b.subrange(0, ev_a.len() as int) == ev_a,
            World::updates_taken(ev_b, ev_a.len() as int, cur, tk),
            World::updates_apply(wa, wb, ev_b, ev_a.len() as int),
            forall|z: u64| #[trigger] wa.nodes@.contains_key(z) && !cur.contains(z) ==> wb.nodes@[z] == wa.nodes@[z],
            forall|z: u64| #[trigger] wa.nodes@.contains_key(z) && z < w0.next_node_id && wa.parents@.contains_key(z)
                && !done.contains(wa.parents@[z].0) ==> wa.nodes@[z] == w0.nodes@[z],
            forall|k: int| ev_a.len() <= k < ev_b.len() ==> #[trigger] ev_b[k] is Created || ev_b[k] is Updated,
            forall|j: int| 0 <= j < cur.len() && #[trigger] tk[j] ==> no.contains(cur[j]),
            forall|z: u64| #[trigger] wa.nodes@.contains_key(z) ==> wb.nodes@.contains_key(z),
            forall|z: u64| #[trigger] wa.parents@.contains_key(z) ==> wb.parents@.contains_key(z) && wb.parents@[z]
                == wa.parents@[z],
            ev_c.len() >= ev_b.len(),
            ev_c.subrange(0, ev_b.len() as int) == ev_b,
            forall|k: int| ev_b.len() <= k < ev_c.len() ==> match #[trigger] ev_c[k] {
                ChangeView::Moved { id, parent, before } => parent == m && no.contains(id) && placed_before(no, id, before),
                ChangeView::Deleted { .. } => true,
                _ => false,
            },
            forall|z: u64| #[trigger] kept_set(x, done.insert(m), wb.parents@, untaken(cur, tk)).contains(z) ==> !r.contains(z),
            wc.nodes@ == wb.nodes@.remove_keys(r),
            wc.parents@.dom() == wb.parents@.dom().difference(r),
            forall|c: u64| #[trigger] wc.parents@.contains_key(c) ==> wc.parents@[c].0 == wb.parents@[c].0,
            wc.children@.contains_key(m),
            wc.children@[m]@ == no,
        ensures
            World::changes_kept(wc, w0, ev_c, done.insert(m)),
    {
        reveal(World::changes_kept);
        reveal(World::updates_taken);
        reveal(World::updates_apply);
        let d2 = done.insert(m);
        assert forall|j: int| 0 <= j < cur.len() implies wa.parents@.contains_key(#[trigger] cur[j]) && wa.parents@[cur[j]].0 == m by {
            assert(wa.children@[m]@[j] == cur[j]);
        }
        assert forall|k: int| 0 <= k < ev_c.len() implies match #[trigger] ev_c[k] {
            ChangeView::Updated { id, update } => {
                &&& w0.nodes@.contains_key(id)
                &&& wc.nodes@.contains_key(id)
                &&& wc.parents@.contains_key(id)
                &&& d2.contains(wc.parents@[id].0)
                &&& apply_update(w0.nodes@[id]@, update) == wc.nodes@[id]@
                &&& update == update_between(w0.nodes@[id]@, wc.nodes@[id]@)
                &&& w0.nodes@[id]@ != wc.nodes@[id]@
            },
            ChangeView::Moved { id, parent, .. } => {
                &&& wc.nodes@.contains_key(id)
                &&& wc.parents@.contains_key(id)
                &&& wc.parents@[id].0 == parent
                &&& d2.contains(parent)
            },
            _ => true,
        } by {
            if k < ev_a.len() {
                assert(ev_b[k] == ev_b.subrange(0, ev_a.len() as int)[k]);
                assert(ev_c[k] == ev_c.subrange(0, ev_b.len() as int)[k]);
                assert(ev_c[k] == ev_a[k]);
                if ev_a[k] is Updated || ev_a[k] is Moved {
                    let z = match ev_a[k] {
                        ChangeView::Updated { id, .. } => id,
                        ChangeView::Moved { id, .. } => id,
                        _ => 0,
                    };
                    assert(wa.nodes@.contains_key(z) && wa.parents@.contains_key(z) && done.contains(wa.parents@[z].0));
                    assert(wb.parents@[z] == wa.parents@[z]);
                    assert(!untaken(cur, tk).contains(z)) by {
                        if untaken(cur, tk).contains(z) {
                            let j = choose|j: int| 0 <= j < cur.len() && !tk[j] && cur[j] == z;
                            assert(wa.parents@[cur[j]].0 == m);
                        }
                    }
                    assert(kept_set(x, d2, wb.parents@, untaken(cur, tk)).contains(z));
                    assert(!r.contains(z));
                    assert(wb.nodes@.contains_key(z));
                    assert(wc.nodes@.contains_key(z));
                    assert(wc.parents@.contains_key(z));
                    assert(!cur.contains(z)) by {
                        if cur.contains(z) {
                            let j = choose|j: int| 0 <= j < cur.len() && cur[j] == z;
                            assert(wa.parents@[cur[j]].0 == m);
                        }
                    }
                    assert(wb.nodes@[z] == wa.nodes@[z]);
                    assert(wc.nodes@[z] == wb.nodes@[z]);
                }
            } else if k < ev_b.len() {
                assert(ev_c[k] == ev_c.subrange(0, ev_b.len() as int)[k]);
                assert(ev_c[k] == ev_b[k]);
                match ev_b[k] {
                    ChangeView::Updated { id, .. } => {
                        let j = choose|j: int| 0 <= j < cur.len() && tk[j] && cur[j] == id;
                        assert(no.contains(cur[j]));
                        let i = choose|i: int| 0 <= i < no.len() && no[i] == id;
                        assert(wc.children@[m]@[i] == id);
                        assert(wc.parents@.contains_key(wc.children@[m]@[i]));
                        assert(wa.parents@[cur[j]].0 == m);
                        assert(wa.nodes@[id] == w0.nodes@[id]);
                        assert(!untaken(cur, tk).contains(id)) by {
                            if untaken(cur, tk).contains(id) {
                                let j2 = choose|j2: int| 0 <= j2 < cur.len() && !tk[j2] && cur[j2] == id;
                                wa.lemma_lists_distinct(m);
                                assert(wa.children@[m]@[j2] == wa.children@[m]@[j]);
                            }
                        }
                        assert(kept_set(x, d2, wb.parents@, untaken(cur, tk)).contains(id));
                        assert(!r.contains(id));
                        assert(wc.nodes@[id] == wb.nodes@[id]);
                    },
                    _ => {},
                }
            } else {
                match ev_c[k] {
                    ChangeView::Moved { id, .. } => {
                        let i = choose|i: int| 0 <= i < no.len() && no[i] == id;
                        assert(wc.children@[m]@[i] == id);
                        assert(wc.parents@.contains_key(wc.children@[m]@[i]));
                    },
                    _ => {},
                }
            }
        }
    }

    /// Changes that hold of one world hold of another that keeps the nodes
    /// and parents from `lo` on and adds no node below `lo`.
    proof fn lemma_sound_frame(wa: World, wb: World, w0: World, ev: Seq<ChangeView>, lo: u64)
        requires
            World::changes_sound(wa, w0, ev, lo),
            forall|z: u64| #[trigger] wa.nodes@.contains_key(z) && z >= lo ==> wb.nodes@.contains_key(z)
                && wb.nodes@[z] == wa.nodes@[z],
            forall|z: u64| #[trigger] wa.parents@.contains_key(z) && z >= lo ==> wb.parents@.contains_key(z)
                && wb.parents@[z].0 == wa.parents@[z].0,
            forall|z: u64| #[trigger] wb.nodes@.contains_key(z) && z < lo ==> wa.nodes@.contains_key(z),
        ensures
            World::changes_sound(wb, w0, ev, lo),
    {
        reveal(World::changes_sound);
        assert forall|k: int| 0 <= k < ev.len() implies match #[trigger] ev[k] {
            ChangeView::Created { id, parent, before: b, node } => {
                &&& b is None
                &&& id >= lo
                &&& wb.nodes@.contains_key(id)
                &&& wb.nodes@[id]@ == node
                &&& wb.parents@.contains_key(id)
                &&& wb.parents@[id].0 == parent
            },
            ChangeView::Deleted { id } => {
                &&& id < lo
                &&& w0.nodes@.contains_key(id)
                &&& !wb.nodes@.contains_key(id)
            },
            _ => true,
        } by {
            match ev[k] {
                ChangeView::Created { id, .. } => {
                    assert(wa.nodes@.contains_key(id));
                    assert(wa.parents@.contains_key(id));
                },
                ChangeView::Deleted { id } => {
                    if wb.nodes@.contains_key(id) {
                        assert(wa.nodes@.contains_key(id));
                    }
                },
                _ => {},
            }
        }
    }

    /// A round of rendering keeps every node from `w0`'s next identity on.
    proof fn lemma_round_frame(
        w0: World,
        wa: World,
        wb: World,
        wc: World,
        x: u64,
        input: Seq<Node>,
        first: Vec<Node>,
        q: Seq<(u64, Vec<Node>)>,
        pend_b: Seq<(u64, Vec<Node>)>,
        done: Set<u64>,
        res: Seq<u64>,
        cur: Seq<u64>,
        taken: Seq<bool>,
        appended: Seq<u64>,
        no: Seq<u64>,
        r: Set<u64>,
        inputs: Map<u64, Seq<Node>>,
    )
        requires
            World::round_facts(w0, wa, wb, wc, x, input, first, q, pend_b, done, res, cur, taken, appended, no, r),
            World::round_extra(w0, wa, wb, wc, q, pend_b, cur, no, r),
            wa.tree_inv(w0, q, done, inputs),
        ensures
            World::frame_from(wa, wb, w0.next_node_id),
            World::frame_from(wb, wc, w0.next_node_id),
            World::frame_from(wa, wc, w0.next_node_id),
            q[0].0 < w0.next_node_id,
            forall|j: int| 0 <= j < cur.len() ==> #[trigger] cur[j] < w0.next_node_id,
    {
        reveal(World::round_facts);
        reveal(World::round_extra);
        reveal(World::tree_inv);
        World::lemma_inv_pending(wa, w0, x, input, first, q, done, res);
        let lo = w0.next_node_id;
        let m = q[0].0;
        assert(m < lo);
        assert forall|j: int| 0 <= j < cur.len() implies #[trigger] cur[j] < lo by {
            assert(wa.children@[m]@[j] == cur[j]);
        }
        assert forall|z: u64| #[trigger] wa.nodes@.contains_key(z) && z >= lo implies wb.nodes@.contains_key(z)
            && wb.nodes@[z]@ == wa.nodes@[z]@ by {
            assert(!cur.contains(z)) by {
                if cur.contains(z) {
                    let j = choose|j: int| 0 <= j < cur.len() && cur[j] == z;
                }
            }
        }
        World::lemma_settle_frame(wb, wc, m, lo, r);
    }

    /// A round of rendering keeps the unsettled nodes from before with
    /// children from before, the pending nodes from before, and new nodes
    /// below new or settled ones.
    #[verifier::rlimit(50)]
    proof fn lemma_round_tree_shape(
        w0: World,
        wa: World,
        wb: World,
        wc: World,
        x: u64,
        input: Seq<Node>,
        first: Vec<Node>,
        q: Seq<(u64, Vec<Node>)>,
        pend_b: Seq<(u64, Vec<Node>)>,
        done: Set<u64>,
        res: Seq<u64>,
        cur: Seq<u64>,
        taken: Seq<bool>,
        appended: Seq<u64>,
        no: Seq<u64>,
        r: Set<u64>,
        inputs: Map<u64, Seq<Node>>,
    )
        requires
            World::round_facts(w0, wa, wb, wc, x, input, first, q, pend_b, done, res, cur, taken, appended, no, r),
            World::round_extra(w0, wa, wb, wc, q, pend_b, cur, no, r),
            wa.tree_inv(w0, q, done, inputs),
        ensures
            ({
                let lo = w0.next_node_id;
                let done2 = done.insert(q[0].0);
                &&& forall|z: u64, i: int| #[trigger] wc.children@.contains_key(z) && z < lo && !done2.contains(z) && 0
                    <= i < wc.children@[z]@.len() ==> #[trigger] wc.children@[z]@[i] < lo
                &&& forall|k: int| 0 <= k < pend_b.len() ==> #[trigger] pend_b[k].0 < lo
                &&& forall|z: u64| #[trigger] wc.nodes@.contains_key(z) && z >= lo ==> wc.parents@.contains_key(z) && (
                    wc.parents@[z].0 >= lo || done2.contains(wc.parents@[z].0))
            }),
    {
        World::lemma_round_frame(w0, wa, wb, wc, x, input, first, q, pend_b, done, res, cur, taken, appended, no, r, inputs);
        reveal(World::round_facts);
        reveal(World::round_extra);
        reveal(World::tree_inv);
        let lo = w0.next_node_id;
        let m = q[0].0;
        let done2 = done.insert(m);
        assert forall|z: u64, i: int| #[trigger] wc.children@.contains_key(z) && z < lo && !done2.contains(z) && 0 <= i
            < wc.children@[z]@.len() implies #[trigger] wc.children@[z]@[i] < lo by {
            assert(wb.children@.contains_key(z));
            assert(wb.nodes@.contains_key(z));
            assert(wa.nodes@.contains_key(z));
            assert(same_kind(wa.nodes@[z]@, wb.nodes@[z]@));
            assert(wa.children@.contains_key(z));
            assert(wb.children@[z]@ == wa.children@[z]@);
            lemma_without(wb.children@[z]@, r);
            let c = wc.children@[z]@[i];
            assert(wb.children@[z]@.contains(c));
            let j = choose|j: int| 0 <= j < wa.children@[z]@.len() && wa.children@[z]@[j] == c;
            assert(wa.children@[z]@[j] < lo);
        }
        assert forall|k: int| 0 <= k < pend_b.len() implies #[trigger] pend_b[k].0 < lo by {
            if k < q.len() - 1 {
                assert(pend_b.subrange(0, q.len() - 1)[k] == q.drop_first()[k]);
                assert(q.drop_first()[k] == q[k + 1]);
            } else {
                let j = choose|j: int| 0 <= j < cur.len() && taken[j] && cur[j] == (pend_b[k]).0;
                assert(cur[j] < lo);
            }
        }
        assert forall|z: u64| #[trigger] wc.nodes@.contains_key(z) && z >= lo implies wc.parents@.contains_key(z) && (
            wc.parents@[z].0 >= lo || done2.contains(wc.parents@[z].0)) by {
            assert(wb.nodes@.contains_key(z));
            assert(!r.contains(z));
            assert(wb.parents@.contains_key(z)) by {
                assert(z != ROOT_NODE_RAW);
            }
            assert(wc.parents@.contains_key(z));
            if wa.nodes@.contains_key(z) {
                assert(wb.parents@[z] == wa.parents@[z]);
            }
        }
    }

    /// A round of rendering keeps the children of the nodes settled before.
    #[verifier::rlimit(80)]
    proof fn lemma_round_tree_old(
        w0: World,
        wa: World,
        wb: World,
        wc: World,
        x: u64,
        input: Seq<Node>,
        first: Vec<Node>,
        q: Seq<(u64, Vec<Node>)>,
        pend_b: Seq<(u64, Vec<Node>)>,
        done: Set<u64>,
        res: Seq<u64>,
        cur: Seq<u64>,
        taken: Seq<bool>,
        appended: Seq<u64>,
        no: Seq<u64>,
        r: Set<u64>,
        inputs: Map<u64, Seq<Node>>,
        p: u64,
    )
        requires
            World::round_facts(w0, wa, wb, wc, x, input, first, q, pend_b, done, res, cur, taken, appended, no, r),
            World::round_extra(w0, wa, wb, wc, q, pend_b, cur, no, r),
            wa.tree_inv(w0, q, done, inputs),
            done.contains(p),
        ensures
            wc.children@.contains_key(p),
            inputs.insert(q[0].0, q[0].1@).contains_key(p),
            wc.children@[p]@.len() == inputs.insert(q[0].0, q[0].1@)[p].len(),
            forall|i: int| 0 <= i < inputs[p].len() ==> wc.child_ok(w0.next_node_id, pend_b, done.insert(q[0].0),
                inputs.insert(q[0].0, q[0].1@), #[trigger] wc.children@[p]@[i], inputs.insert(q[0].0, q[0].1@)[p][i]),
    {
        World::lemma_round_frame(w0, wa, wb, wc, x, input, first, q, pend_b, done, res, cur, taken, appended, no, r, inputs);
        reveal(World::round_facts);
        World::lemma_inv_pending(wa, w0, x, input, first, q, done, res);
        reveal(World::round_extra);
        reveal(World::tree_inv);
        let lo = w0.next_node_id;
        let m = q[0].0;
        let done2 = done.insert(m);
        let inputs2 = inputs.insert(m, q[0].1@);
        let u = untaken(cur, taken);
        let kept = kept_set(x, done2, wb.parents@, u);
        assert(p != m);
        assert(inputs2[p] == inputs[p]);
        let l = wa.children@[p]@;
        // the children of p are kept
        assert forall|i: int| 0 <= i < l.len() implies #[trigger] kept.contains(l[i]) && !cur.contains(l[i]) by {
            let c = l[i];
            assert(wa.parents@.contains_key(wa.children@[p]@[i]));
            assert(wa.parents@[c].0 == p);
            assert(wb.parents@[c] == wa.parents@[c]);
            assert(!u.contains(c)) by {
                if u.contains(c) {
                    let j = choose|j: int| 0 <= j < cur.len() && !taken[j] && cur[j] == c;
                    assert(wa.children@[m]@[j] == c);
                    assert(wa.parents@.contains_key(wa.children@[m]@[j]));
                }
            }
            assert(!cur.contains(c)) by {
                if cur.contains(c) {
                    let j = choose|j: int| 0 <= j < cur.len() && cur[j] == c;
                    assert(wa.children@[m]@[j] == c);
                    assert(wa.parents@.contains_key(wa.children@[m]@[j]));
                }
            }
        }
        assert(wb.children@.contains_key(p));
        assert(kept.contains(p)) by {
            if p != x {
                assert(wa.parents@.contains_key(p) && done.contains(wa.parents@[p].0));
                assert(wb.parents@[p] == wa.parents@[p]);
                assert(!u.contains(p)) by {
                    if u.contains(p) {
                        let j = choose|j: int| 0 <= j < cur.len() && !taken[j] && cur[j] == p;
                        assert(wa.children@[m]@[j] == p);
                        assert(wa.parents@.contains_key(wa.children@[m]@[j]));
                    }
                }
            }
        }
        assert(!r.contains(p));
        assert(wc.children@.contains_key(p));
        assert(wc.children@[p]@ == l) by {
            assert(wb.children@[p]@ == l);
            lemma_without(l, r);
            assert forall|i: int| 0 <= i < l.len() implies !r.contains(#[trigger] l[i]) by {
                assert(kept.contains(l[i]));
            }
        }
        assert forall|i: int| 0 <= i < inputs[p].len() implies wc.child_ok(lo, pend_b, done2, inputs2,
            #[trigger] wc.children@[p]@[i], inputs2[p][i]) by {
            let c = l[i];
            assert(wa.child_ok(lo, q, done, inputs, wa.children@[p]@[i], inputs[p][i]));
            assert(kept.contains(c) && !cur.contains(c));
            assert(!r.contains(c));
            assert(wb.nodes@[c] == wa.nodes@[c]);
            World::lemma_old_child(w0, wa, wb, wc, q, pend_b, done, inputs, c, inputs[p][i], r);
        }
    }

    /// A child settled before a round stays as its input asks after it.
    proof fn lemma_old_child(
        w0: World,
        wa: World,
        wb: World,
        wc: World,
        q: Seq<(u64, Vec<Node>)>,
        pend_b: Seq<(u64, Vec<Node>)>,
        done: Set<u64>,
        inputs: Map<u64, Seq<Node>>,
        c: u64,
        sn: Node,
        r: Set<u64>,
    )
        requires
            wa.wf(),
            q.len() > 0,
            !done.contains(q[0].0),
            pend_b.len() >= q.len() - 1,
            pend_b.subrange(0, q.len() - 1) == q.drop_first(),
            wa.child_ok(w0.next_node_id, q, done, inputs, c, sn),
            !r.contains(c),
            wb.nodes@.contains_key(c),
            wb.nodes@[c] == wa.nodes@[c],
            wc.nodes@ == wb.nodes@.remove_keys(r),
            World::frame_from(wa, wc, w0.next_node_id),
        ensures
            wc.child_ok(w0.next_node_id, pend_b, done.insert(q[0].0), inputs.insert(q[0].0, q[0].1@), c, sn),
    {
        let lo = w0.next_node_id;
        let m = q[0].0;
        let done2 = done.insert(m);
        let inputs2 = inputs.insert(m, q[0].1@);
        assert(wc.nodes@.contains_key(c));
        assert(wc.nodes@[c] == wb.nodes@[c]);
        if c >= lo {
            World::lemma_holds_frame(wa, wc, c, sn, lo);
        }
        if c < lo && sn is Element {
            if done.contains(c) && inputs.contains_key(c) && inputs[c] == sn->Element_0.children@ {
                assert(c != m);
                assert(inputs2[c] == inputs[c]);
            } else {
                let k = choose|k: int| 0 <= k < q.len() && q[k].0 == c && #[trigger] q[k].1@ == sn->Element_0.children@;
                if k == 0 {
                    assert(c == m);
                    assert(inputs2[c] == q[0].1@);
                } else {
                    assert(pend_b.subrange(0, q.len() - 1)[k - 1] == q.drop_first()[k - 1]);
                    assert(pend_b[k - 1] == q[k]);
                }
            }
        }
    }

    /// After a round the node just settled has the children its input asks for.
    #[verifier::rlimit(80)]
    #[verifier::spinoff_prover]
    proof fn lemma_round_tree_new(
        w0: World,
        wa: World,
        wb: World,
        wc: World,
        x: u64,
        input: Seq<Node>,
        first: Vec<Node>,
        q: Seq<(u64, Vec<Node>)>,
        pend_b: Seq<(u64, Vec<Node>)>,
        done: Set<u64>,
        res: Seq<u64>,
        cur: Seq<u64>,
        taken: Seq<bool>,
        appended: Seq<u64>,
        no: Seq<u64>,
        r: Set<u64>,
        inputs: Map<u64, Seq<Node>>,
    )
        requires
            World::round_facts(w0, wa, wb, wc, x, input, first, q, pend_b, done, res, cur, taken, appended, no, r),
            World::round_extra(w0, wa, wb, wc, q, pend_b, cur, no, r),
            wa.tree_inv(w0, q, done, inputs),
        ensures
            wc.children@.contains_key(q[0].0),
            wc.children@[q[0].0]@.len() == q[0].1@.len(),
            forall|i: int| 0 <= i < q[0].1@.len() ==> wc.child_ok(w0.next_node_id, pend_b, done.insert(q[0].0),
                inputs.insert(q[0].0, q[0].1@), #[trigger] wc.children@[q[0].0]@[i], q[0].1@[i]),
    {
        World::lemma_round_frame(w0, wa, wb, wc, x, input, first, q, pend_b, done, res, cur, taken, appended, no, r, inputs);
        reveal(World::round_facts);
        World::lemma_inv_pending(wa, w0, x, input, first, q, done, res);
        reveal(World::round_extra);
        let lo = w0.next_node_id;
        let m = q[0].0;
        let kids = q[0].1@;
        let done2 = done.insert(m);
        let inputs2 = inputs.insert(m, kids);
        let u = untaken(cur, taken);
        let kept = kept_set(x, done2, wb.parents@, u);
        wa.lemma_lists_distinct(m);
        assert forall|i: int| 0 <= i < kids.len() implies wc.child_ok(lo, pend_b, done2, inputs2,
            #[trigger] wc.children@[m]@[i], kids[i]) by {
            let c = no[i];
            assert(wc.children@[m]@[i] == c);
            assert(wb.nodes@.contains_key(c) && wb.nodes@[c]@ == flat_of(kids[i]));
            if c >= wa.next_node_id {
                assert(c >= lo);
                assert(!r.contains(c));
                assert(holds_tree(wb, c, kids[i]));
                World::lemma_holds_frame(wb, wc, c, kids[i], lo);
            } else {
                assert(cur.contains(c));
                let j = choose|j: int| 0 <= j < cur.len() && cur[j] == c;
                assert(c < lo);
                assert(wa.children@[m]@[j] == c);
                assert(wa.parents@.contains_key(wa.children@[m]@[j]));
                assert(wb.parents@[c] == wa.parents@[c]);
                assert(!u.contains(c)) by {
                    if u.contains(c) {
                        let j2 = choose|j2: int| 0 <= j2 < cur.len() && !taken[j2] && cur[j2] == c;
                        assert((cur + appended)[j2] == c);
                        assert((cur + appended)[j] == c);
                        assert(j2 == j);
                        assert(!appended.contains(c)) by {
                            if appended.contains(c) {
                                let a = choose|a: int| 0 <= a < appended.len() && appended[a] == c;
                                assert((cur + appended)[cur.len() + a] == c);
                            }
                        }
                        let jt = choose|jt: int| 0 <= jt < cur.len() && taken[jt] && cur[jt] == no[i];
                        assert((cur + appended)[jt] == c);
                    }
                }
                assert(kept.contains(c));
                assert(!r.contains(c));
                if kids[i] is Element {
                    let jj = choose|jj: int| q.len() - 1 <= jj < pend_b.len() && pend_b[jj].0 == no[i] && pend_b[jj].1@
                        == kids[i]->Element_0.children@;
                    assert(pend_b[jj].1@ == kids[i]->Element_0.children@);
                }
            }
        }
    }

    /// Once nothing is pending, every settled node holds, below each child,
    /// the tree its input asks for.
    proof fn lemma_tree_final(w: World, w0: World, done: Set<u64>, inputs: Map<u64, Seq<Node>>, p: u64, i: int)
        requires
            w.wf(),
            w.tree_inv(w0, Seq::empty(), done, inputs),
            done.contains(p),
            0 <= i < inputs[p].len(),
        ensures
            holds_tree(w, w.children@[p]@[i], inputs[p][i]),
        decreases inputs[p][i],
    {
        reveal(World::tree_inv);
        let lo = w0.next_node_id;
        let c = w.children@[p]@[i];
        let sn = inputs[p][i];
        assert(w.child_ok(lo, Seq::empty(), done, inputs, w.children@[p]@[i], inputs[p][i]));
        if c < lo {
            match sn {
                Node::Text(_) => {},
                Node::Element(e) => {
                    assert(done.contains(c) && inputs[c] == e.children@);
                    assert(w.child_map()[c] == w.children@[c]@);
                    assert forall|j: int| 0 <= j < e.children@.len() implies holds_tree(w, #[trigger] w.child_map()[c][j],
                        e.children@[j]) by {
                        World::lemma_tree_final(w, w0, done, inputs, c, j);
                    }
                },
            }
        }
    }

    /// What rendering `children` under `x` in `w0` gives: the world `w`,
    /// in which `x` holds the tree of `children`, each node that keeps its
    /// place holds the old child its input matched, nothing outside the
    /// subtree of `x` changes, and `ev`, the changes from `w0` to `w`.
    pub open spec fn renders(w0: World, w: World, x: u64, children: Seq<Node>, ev: Seq<ChangeView>) -> bool {
        &&& w.node_map().contains_key(x)
        &&& w.node_map()[x] == w0.node_map()[x]
        &&& w.child_map().contains_key(x)
        &&& w.child_map()[x].len() == children.len()
        &&& forall|i: int| 0 <= i < children.len() ==> holds_tree(w,
            #[trigger] w.child_map()[x][i], children[i])
        &&& changes_fit(w0, w, ev)
        &&& changes_cover(w0, w, ev)
        &&& lists_cover(w0, w, ev)
        &&& forall|k: int| 0 <= k < ev.len() ==> (#[trigger] ev[k] matches ChangeView::Moved { parent, .. }
            ==> w0.child_map().contains_key(parent))
        &&& forall|k: int| 0 <= k < ev.len() ==> (#[trigger] ev[k] matches ChangeView::Updated { id, update }
            ==> update == update_between(w0.node_map()[id], w.node_map()[id]))
        &&& creates_of(ev).len() == w.spec_next_node_id() - w0.spec_next_node_id()
        &&& created_from(creates_of(ev), w0.spec_next_node_id() as int)
        &&& deletes_distinct(ev)
        &&& updates_distinct(ev)
        &&& forall|p: u64| #![trigger w0.child_map().contains_key(p), w.child_map().contains_key(p)]
            w0.child_map().contains_key(p) && w.child_map().contains_key(p) ==> updates_in(ev, w.child_map()[p].to_set())
            == updates_for(w0.node_map(), w.node_map(), w.child_map()[p])
        &&& forall|p: u64| #![trigger w0.child_map().contains_key(p), w.child_map().contains_key(p)]
            w0.child_map().contains_key(p) && w.child_map().contains_key(p) ==> exists|qq: Seq<u64>|
            #![trigger w0.removal_of(qq)] ascending(qq) && qq.no_duplicates() && qq.to_set() == w0.child_map()[p].to_set().difference(
            w.child_map()[p].to_set(),
        ) && deletes_in(ev, w0.removal_of(qq).to_set()) == deleted_views(w0.removal_of(qq))
        &&& forall|p: u64, k: int| #![trigger w.child_map()[p][k], w0.child_map().contains_key(p)]
            w0.child_map().contains_key(p) && w.child_map().contains_key(p) && 0 <= k
            < w.child_map()[p].len() ==> match picked(
            keys_of_ids(w0.node_map(), w0.child_map()[p]),
            keys_of_ids(w.node_map(), w.child_map()[p]),
            k,
        ) {
            Some(j) => 0 <= j < w0.child_map()[p].len() && w.child_map()[p][k]
                == w0.child_map()[p][j],
            None => !w0.node_map().contains_key(w.child_map()[p][k]),
        }
        &&& forall|p: u64| #![trigger moves_of(ev, p)] w0.child_map().contains_key(p)
            && w.child_map().contains_key(p) ==> moves_of(ev, p) == moved_from(
            p,
            w.child_map()[p],
            index_map(p, arranged(w0.child_map()[p], w.child_map()[p])),
            0,
        )
        &&& forall|k: int| 0 <= k < children.len() ==> match #[trigger] picked(
            keys_of_ids(w0.node_map(), w0.child_map()[x]),
            node_keys(children),
            k,
        ) {
            Some(j) => 0 <= j < w0.child_map()[x].len() && w.child_map()[x][k]
                == w0.child_map()[x][j],
            None => !w0.node_map().contains_key(w.child_map()[x][k]),
        }
        &&& forall|z: u64| #[trigger] w0.node_map().contains_key(z) && !in_subtree(w0.parent_map(), x, z) ==> {
            &&& w.node_map().contains_key(z)
            &&& w.node_map()[z] == w0.node_map()[z]
            &&& (w0.parent_map().contains_key(z) ==> w.parent_map().contains_key(z)
                && w.parent_map()[z] == w0.parent_map()[z])
            &&& (w0.child_map().contains_key(z) ==> w.child_map().contains_key(z)
                && w.child_map()[z] == w0.child_map()[z])
        }
    }

    /// Renders `children` as the children of `node_id`: each new child takes
    /// the first current child with the same key (see [`NodeMatchKey`]) that
    /// is not taken yet, whose content is updated and whose own children are
    /// rendered in turn, breadth first; a new child that matches none is
    /// created with its subtree, owned by `connection`. The current children
    /// that no new child takes are deleted with their descendants, and the
    /// children are then put in the new order, from the last position to the
    /// first. A node that stays keeps its parent. Returns whether anything
    /// changed, and the changes, which report every difference they make
    /// (see [`World::renders`]): the creations take the identities from the
    /// next free one on, in order; under each node that has children before
    /// and after, the updates of its children come in their order with the
    /// update [`update_between`] gives, the deletions below the children it
    /// lost come in the order of [`World::removal_of`] from their ascending
    /// list, and the moves are exactly those of [`moved_from`] from the list
    /// the deletions leave ([`arranged`]) to the new one.
    #[verifier::rlimit(100)]
    #[verifier::spinoff_prover]
    pub fn set_node_children(
        &mut self,
        node_id: NodeId,
        children: Vec<Node>,
        connection: ConnectionId,
    ) -> (r: Result<(bool, WorldDidChangeResponse), SetNodeChildrenFailed>)
        requires
            old(self).wf(),
            old(self).spec_next_node_id() + forest_size(children@) <= u64::MAX,
        ensures
            final(self).wf(),
            !old(self).node_map().contains_key(node_id.0) ==> (r matches Err(SetNodeChildrenFailed::NodeNotFound))
                && *final(self) == *old(self),
            old(self).node_map().contains_key(node_id.0) && old(self).node_map()[node_id.0] is Text
                ==> (r matches Err(SetNodeChildrenFailed::InvalidNodeType)) && *final(self) == *old(self),
            old(self).node_map().contains_key(node_id.0) && old(self).node_map()[node_id.0] is Element ==> (
                r matches Ok((changed, event)) && {
                    let x = node_id.0;
                    &&& changed == (event@.len() > 0)
                    &&& World::renders(*old(self), *final(self), x, children@, event@)
                }),
            forall|c: u64| #[trigger] final(self).connection_map().contains_key(c) ==> old(self).connection_map().contains_key(c)
                && final(self).connection_map()[c] == old(self).connection_map()[c],
            forall|c: u64| #[trigger] old(self).connection_map().contains_key(c) && !final(self).connection_map().contains_key(c)
                ==> !old(self).connection_map()[c].connected && forall|n: u64| #[trigger] old(self).owner_map().contains_key(n)
                && old(self).owner_map()[n] == c ==> !final(self).node_map().contains_key(n),
            old(self).node_map().contains_key(node_id.0) && old(self).node_map()[node_id.0] is Element
                && old(self).child_map()[node_id.0].len() == 0 && children@.len() == 0 ==> (r matches Ok((changed, event))
                && !changed && event@.len() == 0) && *final(self) == *old(self),
            forall|z: u64| #[trigger] old(self).node_map().contains_key(z) && !in_subtree(old(self).parent_map(), node_id.0, z)
                ==> {
                &&& final(self).node_map().contains_key(z)
                &&& final(self).node_map()[z] == old(self).node_map()[z]
                &&& (old(self).parent_map().contains_key(z) ==> final(self).parent_map().contains_key(z)
                    && final(self).parent_map()[z] == old(self).parent_map()[z])
                &&& (old(self).child_map().contains_key(z) ==> final(self).child_map().contains_key(z)
                    && final(self).child_map()[z] == old(self).child_map()[z])
            },
            forall|n: u64| #[trigger] final(self).owner_map().contains_key(n) ==> final(self).owner_map()[n] == if old(
                self,
            ).owner_map().contains_key(n) {
                old(self).owner_map()[n]
            } else {
                connection.0
            },
            forall|n: u64| #[trigger] final(self).parent_map().contains_key(n) && old(self).parent_map().contains_key(n)
                ==> final(self).parent_map()[n].0 == old(self).parent_map()[n].0,
            final(self).spec_next_connection_id() == old(self).spec_next_connection_id(),
            final(self).spec_next_node_id() >= old(self).spec_next_node_id(),
    {
        let x = node_id.0;
        if !self.nodes.contains_key(&x) {
            return Err(SetNodeChildrenFailed::NodeNotFound);
        }
        if !self.children.contains_key(&x) {
            proof {
                assert(self.nodes@[x]@ is Text);
            }
            return Err(SetNodeChildrenFailed::InvalidNodeType);
        }
        if children.len() == 0 && self.children.get(&x).unwrap().len() == 0 {
            proof {
                assert(self.child_map()[x] == self.children@[x]@);
                assert(World::all_moves(*self, *self, Seq::<ChangeView>::empty(), Set::<u64>::empty())) by {
                    reveal(World::all_moves);
                    reveal(World::all_deletes);
                    reveal(World::all_updates);
                    reveal(Seq::filter);
                    lemma_creates_in_start(Seq::<ChangeView>::empty(), self.next_node_id as int);
                }
                assert(World::moves_placed(*self, Seq::<ChangeView>::empty(), Set::<u64>::empty())) by {
                    reveal(World::moves_placed);
                }
                assert(World::changes_kept(*self, *self, Seq::<ChangeView>::empty(), Set::<u64>::empty())) by {
                    reveal(World::changes_kept);
                }
                World::lemma_final_moves(*self, *self, Seq::<ChangeView>::empty(), Set::<u64>::empty());
                assert(World::all_picked(*self, *self, Set::<u64>::empty(), Map::<u64, Seq<Node>>::empty())) by {
                    reveal(World::all_picked);
                }
                World::lemma_tree_none(*self);
                World::lemma_final_picked(*self, *self, Seq::<ChangeView>::empty(), Set::<u64>::empty(), Map::<u64, Seq<Node>>::empty());
            }
            return Ok((false, WorldDidChangeResponse::default()));
        }
        let ghost w0 = *self;
        let ghost input = children@;
        let ghost first = children;
        let mut event = WorldDidChangeResponse::default();
        let mut pending: VecDeque<(u64, Vec<Node>)> = VecDeque::new();
        pending.push_back((x, children));
        let ghost mut done: Set<u64> = Set::empty();
        let ghost mut res: Seq<u64> = Seq::empty();
        let ghost mut inputs: Map<u64, Seq<Node>> = Map::empty();
        proof {
            World::lemma_tree_init(w0, x, first);
            lemma_pend_size_push(Seq::empty(), (x, first));
            assert(pend_size(Seq::<(u64, Vec<Node>)>::empty()) == 0);
            assert(pending@ == seq![(x, first)]);
            reveal(World::render_inv);
            assert(self.render_inv(w0, x, input, first, pending@, done, res));
            reveal(World::changes_sound);
            reveal(World::changes_kept);
            reveal(World::world_cover);
            reveal(World::moves_placed);
            reveal(World::list_cover);
            reveal(World::outside_kept);
            reveal(World::subtree_inv);
            reveal(World::conns_kept);
            reveal(World::all_moves);
            reveal(World::all_picked);
            reveal(World::all_deletes);
            reveal(World::all_updates);
            lemma_creates_in_start(event@, w0.next_node_id as int);
            assert forall|pp: u64| #[trigger] moves_of(event@, pp) == Seq::<ChangeView>::empty() by {
                reveal(Seq::filter);
            }
        }
        while pending.len() > 0
            invariant
                self.wf(),
                self.render_inv(w0, x, input, first, pending@, done, res),
                self.tree_inv(w0, pending@, done, inputs),
                done.contains(x) ==> inputs.contains_key(x) && inputs[x] == input,
                forall|n: u64| #[trigger] self.connection_by_node@.contains_key(n) ==> self.connection_by_node@[n]
                    == if w0.connection_by_node@.contains_key(n) {
                    w0.connection_by_node@[n]
                } else {
                    connection.0
                },
                World::changes_sound(*self, w0, event@, w0.next_node_id),
                World::changes_kept(*self, w0, event@, done),
                forall|z: u64| #[trigger] self.nodes@.contains_key(z) && z < w0.next_node_id ==> w0.nodes@.contains_key(z),
                forall|z: u64| #[trigger] self.nodes@.contains_key(z) && z < w0.next_node_id && self.parents@.contains_key(z)
                    && !done.contains(self.parents@[z].0) ==> self.nodes@[z] == w0.nodes@[z],
                World::world_cover(*self, w0, event@),
                forall|z: u64| #[trigger] self.parents@.contains_key(z) && z < w0.next_node_id
                    ==> w0.parents@.contains_key(z) && self.parents@[z].0 == w0.parents@[z].0,
                World::moves_placed(*self, event@, done),
                World::all_moves(w0, *self, event@, done),
                World::all_picked(w0, *self, done, inputs),
                World::list_cover(*self, w0, event@),
                World::outside_kept(*self, w0, x),
                World::subtree_inv(w0, x, done, pending@),
                World::conns_kept(*self, w0),
                !done.contains(x) ==> *self == w0,
            decreases pend_size(pending@) + pending@.len(),
        {
            let ghost q = pending@;
            let ghost wa = *self;
            let ghost ev_a = event@;
            let ghost done_a = done;
            let ghost res_a = res;
            let ghost inputs_a = inputs;
            proof {
                lemma_pend_size_pop(q);
                reveal(World::render_inv);
            }
            let (m, new_children) = pending.pop_front().unwrap();
            proof {
                assert(pending@ == q.drop_first());
                assert(q[0].0 == m && q[0].1 == new_children);
                assert(self.children@.contains_key(q[0].0));
            }
            let current = self.children.get(&m).unwrap().clone();
            proof {
                assert(current@ =~= self.children@[m]@);
            }
            let (no, taken, appended) = self.match_children(m, &current, new_children, connection.0, &mut event, &mut pending);
            let ghost wb = *self;
            let ghost ev_b = event@;
            let ghost no_seq = no@;
            let ghost pend_b = pending@;
            proof {
                reveal(World::render_inv);
                assert(m == x || (wb.parents@.contains_key(m) && done.contains(wb.parents@[m].0)));
                assert forall|p: u64| #[trigger] done.contains(p) implies p == x || (wb.parents@.contains_key(p)
                    && done.contains(wb.parents@[p].0)) by {}
            }
            proof {
                reveal(World::tree_inv);
                World::lemma_inv_pending(wa, w0, x, input, first, q, done, res);
                let lo = w0.next_node_id;
                assert(m < lo);
                assert(!done.contains(m));
                assert forall|j: int| 0 <= j < current@.len() implies #[trigger] current@[j] < lo by {
                    assert(wa.children@[m]@[j] == current@[j]);
                }
                assert forall|z: u64| #[trigger] wb.nodes@.contains_key(z) && z >= lo implies wb.parents@.contains_key(z)
                    && (wb.parents@[z].0 >= lo || wb.parents@[z].0 == m || done.contains(wb.parents@[z].0)) by {
                    if wa.nodes@.contains_key(z) {
                        assert(wb.parents@[z] == wa.parents@[z]);
                    }
                }
            }
            let r = self.settle(m, &current, &taken, no, appended, &mut event, Ghost(x), Ghost(done), Ghost(w0.next_node_id));
            let ghost wc_end = *self;
            proof {
                assert(World::round_events(wa, wb, *self, ev_a, ev_b, event@, m, no_seq, r@, w0.next_node_id)) by {
                    reveal(World::round_events);
                }
                assert(World::conns_kept(*self, w0)) by {
                reveal(World::conns_kept);
                assert forall|c: u64| #[trigger] w0.connections@.contains_key(c) && !self.connections@.contains_key(c)
                    implies !w0.connections@[c].connected && forall|n: u64| #[trigger] w0.connection_by_node@.contains_key(n)
                    && w0.connection_by_node@[n] == c ==> !self.nodes@.contains_key(n) by {
                    assert(wa.next_node_id >= w0.next_node_id) by {
                        reveal(World::render_inv);
                    }
                    assert forall|n: u64| #[trigger] w0.connection_by_node@.contains_key(n)
                        && w0.connection_by_node@[n] == c implies !self.nodes@.contains_key(n) by {
                        if self.nodes@.contains_key(n) {
                            assert(w0.nodes@.contains_key(n));
                            assert(n < w0.next_node_id);
                            assert(wb.nodes@.contains_key(n));
                            assert(wa.nodes@.contains_key(n));
                            if wa.connections@.contains_key(c) {
                                assert(wb.connections@.contains_key(c));
                                assert(wb.connection_by_node@.contains_key(n));
                                assert(wb.connection_by_node@[n] == c);
                            }
                        }
                    }
                }
                }
                assert(World::list_cover(*self, w0, event@)) by {
                    reveal(World::render_inv);
                    World::lemma_round_lists(w0, wa, wb, *self, ev_a, ev_b, event@, m, current@, appended@, no_seq, r@);
                }
                assert(World::world_cover(*self, w0, event@)) by {
                    assert(wa.next_node_id >= w0.next_node_id) by {
                        reveal(World::render_inv);
                    }
                    World::lemma_round_cover(w0, wa, wb, *self, ev_a, ev_b, event@, r@);
                }
            }
            proof {
                let wc = *self;
                assert(World::round_facts(w0, wa, wb, wc, x, input, first, q, pend_b, done, res, current@, taken@,
                    appended@, no_seq, r@)) by {
                    reveal(World::round_facts);
                }
                assert(World::round_extra(w0, wa, wb, wc, q, pend_b, current@, no_seq, r@)) by {
                    reveal(World::round_extra);
                    reveal(World::render_inv);
                }
                World::lemma_round_parents(w0, wa, wb, wc, x, input, first, q, pend_b, done, res, current@, taken@,
                    appended@, no_seq, r@);
                assert(World::all_moves(w0, wc, event@, done.insert(m))) by {
                    World::lemma_round_all_moves(w0, wa, wb, wc, x, input, first, q, pend_b, done, res, ev_a, ev_b, event@,
                        current@, taken@, appended@, no_seq, r@);
                }
                assert(World::changes_kept(wc, w0, event@, done.insert(m)) && forall|z: u64| #[trigger] wc.nodes@.contains_key(
                    z,
                ) && z < w0.next_node_id && wc.parents@.contains_key(z) && !done.insert(m).contains(wc.parents@[z].0)
                    ==> wc.nodes@[z] == w0.nodes@[z]) by {
                    World::lemma_round_kept_all(w0, wa, wb, wc, x, input, first, q, pend_b, done, res, ev_a, ev_b, event@,
                        current@, taken@, appended@, no_seq, r@, inputs);
                }
                assert(World::moves_placed(wc, event@, done.insert(m))) by {
                    World::lemma_round_placed_all(w0, wa, wb, wc, x, input, first, q, pend_b, done, res, ev_a, ev_b, event@,
                        current@, taken@, appended@, no_seq, r@);
                }
                assert(World::outside_kept(wc, w0, x)) by {
                    World::lemma_round_outside_all(w0, wa, wb, wc, x, input, first, q, pend_b, done, res, current@, taken@,
                        appended@, no_seq, r@, inputs);
                }
                assert(World::all_picked(w0, wc, done.insert(m), inputs.insert(m, q[0].1@))) by {
                    World::lemma_round_picked(w0, wa, wb, wc, x, input, first, q, pend_b, done, res, ev_a, ev_b, event@,
                        current@, taken@, appended@, no_seq, r@, inputs);
                }
                assert(World::changes_sound(wc, w0, event@, w0.next_node_id) && forall|z: u64| #[trigger] wc.nodes@.contains_key(z)
                    && z < w0.next_node_id ==> w0.nodes@.contains_key(z)) by {
                    World::lemma_round_sound(w0, wa, wb, wc, x, input, first, q, pend_b, done, res, ev_a, ev_b, event@,
                        current@, taken@, appended@, no_seq, r@, inputs);
                }
                let inputs2 = inputs.insert(m, q[0].1@);
                let done2 = done.insert(m);
                World::lemma_round_tree_all(w0, wa, wb, wc, x, input, first, q, pend_b, done, res, current@, taken@,
                    appended@, no_seq, r@, inputs);
                if m == x {
                    assert(q[0].1 == first) by {
                        reveal(World::render_inv);
                    }
                }
                res = World::lemma_round(w0, wa, wb, wc, x, input, first, q, pend_b, done, res, current@, taken@,
                    appended@, no_seq, r@);
                done = done2;
                inputs = inputs2;
            }
            proof {
                reveal(World::render_inv);
                if !done_a.contains(x) {
                    assert(q == seq![(x, first)]);
                    assert(q[0].0 == x);
                    assert(m == x);
                    assert(res == no_seq);
                    assert(new_children@ == input);
                    assert(current@ == w0.children@[x]@);
                }
                assert(done.contains(x));
            }
            proof {
                World::lemma_round_subtree(w0, wa, wb, wc_end, x, input, first, q, pend_b, done_a, res_a, current@, taken@,
                    appended@, no_seq, r@, inputs_a);
                assert(pending@ == pend_b);
                assert(done == done_a.insert(m));
            }
        }
        let changed = !event.is_empty();
        proof {
            reveal(World::render_inv);
            assert(done.contains(x));
            World::lemma_final_moves(w0, *self, event@, done);
            assert(pending@ =~= Seq::<(u64, Vec<Node>)>::empty());
            World::lemma_final_picked(w0, *self, event@, done, inputs);
            assert(self.node_map().contains_key(x));
            assert(self.child_map().contains_key(x));
            assert(self.child_map()[x] == res);
            assert(pending@ =~= Seq::<(u64, Vec<Node>)>::empty());
            assert forall|i: int| 0 <= i < input.len() implies holds_tree(*self, #[trigger] self.child_map()[x][i],
                input[i]) by {
                World::lemma_tree_final(*self, w0, done, inputs, x, i);
            }
            assert(changes_cover(w0, *self, event@)) by {
                reveal(World::world_cover);
                assert forall|n: u64| #[trigger] self.node_map().contains_key(n) && !w0.node_map().contains_key(n)
                    implies exists|k: int| 0 <= k < event@.len() && #[trigger] creates(event@[k], n) by {
                    assert(self.nodes@.contains_key(n) && !w0.nodes@.contains_key(n));
                }
                assert forall|n: u64| #[trigger] w0.node_map().contains_key(n) && !self.node_map().contains_key(n)
                    implies exists|k: int| 0 <= k < event@.len() && #[trigger] deletes(event@[k], n) by {
                    assert(w0.nodes@.contains_key(n) && !self.nodes@.contains_key(n));
                }
                assert forall|n: u64| #[trigger] w0.node_map().contains_key(n) && self.node_map().contains_key(n)
                    && self.node_map()[n] != w0.node_map()[n] implies exists|k: int| 0 <= k < event@.len()
                    && #[trigger] updates(event@[k], n) by {
                    assert(w0.nodes@.contains_key(n) && self.nodes@.contains_key(n) && self.nodes@[n]@ != w0.nodes@[n]@);
                }
            }
            assert forall|k: int| 0 <= k < input.len() implies match #[trigger] picked(
                keys_of_ids(w0.node_map(), w0.child_map()[x]),
                node_keys(input),
                k,
            ) {
                Some(j) => 0 <= j < w0.child_map()[x].len() && self.child_map()[x][k] == w0.child_map()[x][j],
                None => !w0.node_map().contains_key(self.child_map()[x][k]),
            } by {
                reveal(World::render_inv);
                reveal(World::all_picked);
                assert(w0.child_map()[x] == w0.children@[x]@);
                assert(self.child_map()[x] == res);
                assert(res.len() == input.len());
                assert(inputs[x] == input);
                assert(self.children@[x]@[k] == res[k]);
                match picked(keys_of_ids(w0.node_map(), w0.children@[x]@), node_keys(input), k) {
                    Some(j) => {},
                    None => {
                        assert(res[k] >= w0.next_node_id);
                        if w0.nodes@.contains_key(res[k]) {
                            assert(res[k] < w0.next_node_id);
                        }
                    },
                }
            }
            assert forall|z: u64| #[trigger] w0.node_map().contains_key(z) && !in_subtree(w0.parent_map(), x, z) implies {
                &&& self.node_map().contains_key(z)
                &&& self.node_map()[z] == w0.node_map()[z]
                &&& (w0.parent_map().contains_key(z) ==> self.parent_map().contains_key(z)
                    && self.parent_map()[z] == w0.parent_map()[z])
                &&& (w0.child_map().contains_key(z) ==> self.child_map().contains_key(z)
                    && self.child_map()[z] == w0.child_map()[z])
            } by {
                reveal(World::outside_kept);
                assert(w0.nodes@.contains_key(z));
                assert(w0.parent_map() == w0.parents@);
            }
            assert(lists_cover(w0, *self, event@)) by {
                reveal(World::list_cover);
                assert forall|p: u64| #[trigger] self.child_map().contains_key(p) && w0.child_map().contains_key(p)
                    && self.child_map()[p] != w0.child_map()[p] implies exists|k: int| 0 <= k < event@.len()
                    && #[trigger] touches_list(event@[k], w0.parent_map(), p) by {
                    assert(self.children@.contains_key(p) && w0.children@.contains_key(p));
                    assert(self.children@[p]@ != w0.children@[p]@);
                    let k = choose|k: int| 0 <= k < event@.len() && #[trigger] touches_list(event@[k], w0.parents@, p);
                    assert(w0.parent_map() == w0.parents@);
                    assert(touches_list(event@[k], w0.parent_map(), p));
                }
            }
            assert forall|k: int| 0 <= k < event@.len() implies (#[trigger] event@[k] matches ChangeView::Updated { id, update }
                ==> update == update_between(w0.node_map()[id], self.node_map()[id])) by {
                reveal(World::changes_kept);
            }
            assert(changes_fit(w0, *self, event@)) by {
            reveal(World::changes_sound);
            reveal(World::changes_kept);
            reveal(World::moves_placed);
            assert forall|k: int| 0 <= k < event@.len() implies match #[trigger] event@[k] {
                ChangeView::Created { id, parent, before: b, node } => {
                    &&& b is None
                    &&& !w0.node_map().contains_key(id)
                    &&& self.node_map().contains_key(id)
                    &&& self.node_map()[id] == node
                    &&& self.parent_map().contains_key(id)
                    &&& self.parent_map()[id].0 == parent
                },
                ChangeView::Deleted { id } => {
                    &&& w0.node_map().contains_key(id)
                    &&& !self.node_map().contains_key(id)
                },
                ChangeView::Updated { id, update } => {
                    &&& w0.node_map().contains_key(id)
                    &&& self.node_map().contains_key(id)
                    &&& self.node_map()[id] == apply_update(w0.node_map()[id], update)
                    &&& self.node_map()[id] != w0.node_map()[id]
                },
                ChangeView::Moved { id, parent, before: b } => {
                    &&& self.node_map().contains_key(id)
                    &&& self.parent_map().contains_key(id)
                    &&& self.parent_map()[id].0 == parent
                    &&& self.child_map().contains_key(parent)
                    &&& placed_before(self.child_map()[parent], id, b)
                },
            } by {
                match event@[k] {
                    ChangeView::Created { id, .. } => {
                        if w0.nodes@.contains_key(id) {
                            assert(id < w0.next_node_id);
                        }
                    },
                    _ => {},
                }
            }
            }
        }
        Ok((changed, event))
    }

    /// Puts the children of `m` in the order `no`, which holds the same
    /// nodes, visiting the positions from the last to the first and
    /// reporting a `Moved` change for each child whose position changes.
    #[verifier::spinoff_prover]
    fn reorder(&mut self, m: u64, no: Vec<u64>, event: &mut WorldDidChangeResponse)
        requires
            old(self).wf(),
            old(self).children@.contains_key(m),
            no@.no_duplicates(),
            no@.to_set() == old(self).children@[m]@.to_set(),
        ensures
            final(self).wf(),
            final(self).children@ == old(self).children@.insert(m, no),
            final(self).nodes@ == old(self).nodes@,
            final(self).connection_by_node@ == old(self).connection_by_node@,
            final(self).nodes_by_connection@ == old(self).nodes_by_connection@,
            final(self).connections@ == old(self).connections@,
            final(self).next_node_id == old(self).next_node_id,
            final(self).next_connection_id == old(self).next_connection_id,
            final(self).parents@.dom() == old(self).parents@.dom(),
            forall|c: u64| #[trigger] final(self).parents@.contains_key(c) ==> final(self).parents@[c].0
                == old(self).parents@[c].0,
            final(event)@ == old(event)@ + moved_from(m, no@, old(self).parents@, 0),
    {
        let ghost w0 = *self;
        let ghost p0 = self.parents@;
        let ghost ev0 = event@;
        let ghost nos = no@;
        let len = no.len();
        let mut idx = len;
        proof {
            assert forall|i: int| 0 <= i < nos.len() implies #[trigger] p0.contains_key(nos[i])
                && p0[nos[i]].0 == m by {
                assert(nos.contains(nos[i]));
                assert(nos.to_set().contains(nos[i]));
                assert(w0.children@[m]@.to_set().contains(nos[i]));
                assert(w0.children@[m]@.contains(nos[i]));
                let j = choose|j: int| 0 <= j < w0.children@[m]@.len() && w0.children@[m]@[j] == nos[i];
                assert(w0.parents@.contains_key(w0.children@[m]@[j]));
            }
        }
        while idx > 0
            invariant
                idx <= len,
                len == nos.len(),
                no@ == nos,
                nos.no_duplicates(),
                forall|i: int| 0 <= i < nos.len() ==> #[trigger] p0.contains_key(nos[i]) && p0[nos[i]].0 == m,
                self.nodes@ == w0.nodes@,
                self.children@ == w0.children@,
                self.connection_by_node@ == w0.connection_by_node@,
                self.nodes_by_connection@ == w0.nodes_by_connection@,
                self.connections@ == w0.connections@,
                self.next_node_id == w0.next_node_id,
                self.next_connection_id == w0.next_connection_id,
                p0 == w0.parents@,
                self.parents@.dom() == p0.dom(),
                forall|c: u64| #[trigger] self.parents@.contains_key(c) && !nos.subrange(idx as int, len as int).contains(c)
                    ==> self.parents@[c] == p0[c],
                forall|i: int| idx <= i < len ==> #[trigger] self.parents@[nos[i]] == (m, i as usize),
                event@ == ev0 + moved_from(m, nos, p0, idx as int),
            decreases idx,
        {
            idx = idx - 1;
            let c = no[idx];
            proof {
                assert(p0.contains_key(nos[idx as int]));
                assert(!nos.subrange(idx + 1, len as int).contains(c)) by {
                    let sub = nos.subrange(idx + 1, len as int);
                    if sub.contains(c) {
                        let k = choose|k: int| 0 <= k < sub.len() && sub[k] == c;
                        assert(nos[idx + 1 + k] == nos[idx as int]);
                    }
                }
            }
            let current = *self.parents.get(&c).unwrap();
            if current.1 != idx {
                let before = if idx + 1 < len {
                    Some(NodeId(no[idx + 1]))
                } else {
                    None
                };
                event.push(WorldChange::Moved(MovedNodeChange { id: NodeId(c), parent_id: NodeId(m), before_sibling_id: before }));
            }
            self.parents.insert(c, (m, idx));
            proof {
                assert(event@ == ev0 + moved_from(m, nos, p0, idx as int)) by {
                    assert(moved_from(m, nos, p0, idx as int) == moved_from(m, nos, p0, idx + 1) + moved_here(m, nos, p0, idx as int));
                    if current.1 != idx {
                        assert(moved_here(m, nos, p0, idx as int) =~= seq![event@.last()]);
                    } else {
                        assert(moved_here(m, nos, p0, idx as int) =~= Seq::<ChangeView>::empty());
                    }
                }
                assert forall|c2: u64| #[trigger] self.parents@.contains_key(c2) && !nos.subrange(idx as int, len as int).contains(c2)
                    implies self.parents@[c2] == p0[c2] by {
                    assert(c2 != c) by {
                        if c2 == c {
                            assert(nos.subrange(idx as int, len as int)[0] == c);
                        }
                    }
                    let sub = nos.subrange(idx + 1, len as int);
                    if sub.contains(c2) {
                        let k = choose|k: int| 0 <= k < sub.len() && sub[k] == c2;
                        assert(nos.subrange(idx as int, len as int)[k + 1] == c2);
                    }
                }
            }
        }
        let ghost pf = self.parents@;
        self.children.insert(m, no);
        proof {
            assert(nos.subrange(0, len as int) =~= nos);
            assert forall|c: u64| #[trigger] self.parents@.contains_key(c) implies self.parents@[c].0 == p0[c].0 by {
                if nos.contains(c) {
                    let i = choose|i: int| 0 <= i < nos.len() && nos[i] == c;
                    assert(self.parents@[nos[i]] == (m, i as usize));
                }
            }
            assert(self.tree_wf()) by {
                assert forall|p: u64, i: int| #![trigger self.children@[p]@[i]]
                    self.children@.contains_key(p) && 0 <= i < self.children@[p]@.len()
                    implies self.parents@.contains_key(self.children@[p]@[i])
                    && self.parents@[self.children@[p]@[i]].0 == p && self.parents@[self.children@[p]@[i]].1 as int == i by {
                    if p == m {
                        assert(self.children@[p]@ == nos);
                        assert(self.parents@[nos[i]] == (m, i as usize));
                    } else {
                        let c = w0.children@[p]@[i];
                        assert(w0.parents@.contains_key(c) && w0.parents@[c].0 == p);
                        assert(!nos.contains(c)) by {
                            if nos.contains(c) {
                                let k = choose|k: int| 0 <= k < nos.len() && nos[k] == c;
                                assert(p0[nos[k]].0 == m);
                            }
                        }
                        assert(self.parents@[c] == p0[c]);
                    }
                }
                assert forall|c: u64| #[trigger] self.parents@.contains_key(c) implies {
                    let (p, i) = self.parents@[c];
                    &&& self.children@.contains_key(p)
                    &&& (i as int) < self.children@[p]@.len()
                    &&& self.children@[p]@[i as int] == c
                    &&& self.nodes@.contains_key(c)
                    &&& p < c
                } by {
                    assert(w0.parents@.contains_key(c));
                    if nos.contains(c) {
                        let i = choose|i: int| 0 <= i < nos.len() && nos[i] == c;
                        assert(self.parents@[nos[i]] == (m, i as usize));
                    } else {
                        assert(self.parents@[c] == p0[c]);
                        let (p, i) = p0[c];
                        if p == m {
                            assert(w0.children@[m]@[i as int] == c);
                            assert(w0.children@[m]@.contains(c));
                            assert(w0.children@[m]@.to_set().contains(c));
                            assert(nos.to_set().contains(c));
                        }
                    }
                }
                assert forall|n: u64| #[trigger] self.nodes@.contains_key(n) implies n < self.next_node_id
                    && (n != ROOT_NODE_RAW ==> self.parents@.contains_key(n)) by {
                    assert(w0.nodes@.contains_key(n));
                }
                assert forall|p: u64| #[trigger] self.children@.contains_key(p) implies self.nodes@.contains_key(p)
                    && self.nodes@[p]@ is Element by {
                    assert(w0.children@.contains_key(p));
                }
                assert forall|n: u64| #[trigger] self.nodes@.contains_key(n) && self.nodes@[n]@ is Element
                    implies self.children@.contains_key(n) by {
                    assert(w0.nodes@.contains_key(n));
                }
            }
        }
    }

    /// The app that connection `c` said it belongs to, if it is known.
    pub open spec fn app_of(&self, c: u64) -> Option<Seq<char>> {
        if self.connection_map().contains_key(c) {
            opt_text(self.connection_map()[c].init_request.app)
        } else {
            None
        }
    }

    /// A connection belongs to the app `a` exactly when the world knows it
    /// and its first request named the app `a`.
    pub proof fn lemma_app_of_exactly(&self, c: u64, a: Seq<char>)
        ensures
            self.app_of(c) == Some(a) <==> (self.connection_map().contains_key(c)
                && self.connection_map()[c].init_request.app is Some
                && self.connection_map()[c].init_request.app->0@ == a),
    {
    }

    /// Whether node `z` is a top-level replacing window (see
    /// [`is_replacing_window`]) owned by a connection of the app `app` that
    /// went away.
    pub open spec fn replaceable(&self, z: u64, app: Seq<char>) -> bool {
        &&& self.node_map().contains_key(z)
        &&& self.parent_map().contains_key(z)
        &&& self.parent_map()[z].0 == ROOT_NODE_RAW
        &&& is_replacing_window(self.node_map()[z])
        &&& self.owner_map().contains_key(z)
        &&& self.connection_map().contains_key(self.owner_map()[z])
        &&& !self.connection_map()[self.owner_map()[z]].connected
        &&& self.app_of(self.owner_map()[z]) == Some(app)
    }

    /// The nodes that deleting the nodes of `q` deletes, in order.
    pub closed spec fn removal_of(&self, q: Seq<u64>) -> Seq<u64> {
        removal_order(self.children@, q)
    }

    /// Every owned node is a node of the world other than the root, and
    /// every such node has an owner.
    pub proof fn lemma_owners_are_nodes(&self)
        requires
            self.wf(),
        ensures
            forall|n: u64| #[trigger] self.owner_map().contains_key(n) <==> (self.node_map().contains_key(n)
                && n != ROOT_NODE_RAW),
    {
        assert forall|n: u64| #[trigger] self.owner_map().contains_key(n) <==> (self.node_map().contains_key(n)
            && n != ROOT_NODE_RAW) by {
            assert(self.node_map().contains_key(n) == self.nodes@.contains_key(n));
        }
    }

    /// A node that the deletion of `n` reaches lies below `n`.
    proof fn lemma_removal_of_below(&self, n: u64, z: u64)
        requires
            self.wf(),
            self.removal_of(seq![n]).contains(z),
        ensures
            self.node_map().contains_key(z) || z == n,
            in_subtree(self.parent_map(), n, z),
        decreases z,
    {
        let ch = self.children@;
        assert(ch.dom().finite());
        lemma_removal_source(ch, seq![n]);
        if z != n {
            let y = choose|y: u64| removal_order(ch, seq![n]).contains(y) && ch.contains_key(y)
                && #[trigger] ch[y]@.contains(z);
            let i = choose|i: int| 0 <= i < ch[y]@.len() && ch[y]@[i] == z;
            assert(self.parents@.contains_key(self.children@[y]@[i]));
            assert(self.parents@[z].0 == y && y < z);
            self.lemma_removal_of_below(n, y);
            assert(self.parent_map() == self.parents@);
            assert(self.nodes@.contains_key(z));
        }
    }

    /// A node below `n` is reached by the deletion of `n`.
    proof fn lemma_removal_of_reaches(&self, n: u64, z: u64)
        requires
            self.wf(),
            in_subtree(self.parent_map(), n, z),
        ensures
            self.removal_of(seq![n]).contains(z),
        decreases z,
    {
        let ch = self.children@;
        assert(ch.dom().finite());
        lemma_removal_covers_queue(ch, seq![n]);
        lemma_removal_closed(ch, seq![n]);
        if z != n {
            assert(self.parent_map() == self.parents@);
            let p = self.parents@[z].0;
            self.lemma_removal_of_reaches(n, p);
            let i = self.parents@[z].1;
            assert(ch.contains_key(p) && ch[p]@[i as int] == z);
            assert(ch[p]@.contains(z));
        } else {
            assert(seq![n][0] == n);
        }
    }

    /// Deleting node `n` deletes exactly `n` and the nodes below it, `n`
    /// first.
    pub proof fn lemma_removal_of_subtree(&self, n: u64)
        requires
            self.wf(),
        ensures
            self.removal_of(seq![n])[0] == n,
            forall|z: u64| #[trigger] self.removal_of(seq![n]).contains(z) <==> in_subtree(self.parent_map(), n, z),
            forall|z: u64| #[trigger] self.removal_of(seq![n]).contains(z) && z != n ==> self.node_map().contains_key(z),
    {
        self.lemma_removal_of_first(seq![n]);
        assert forall|z: u64| #[trigger] self.removal_of(seq![n]).contains(z) <==> in_subtree(self.parent_map(), n, z) by {
            if self.removal_of(seq![n]).contains(z) {
                self.lemma_removal_of_below(n, z);
            }
            if in_subtree(self.parent_map(), n, z) {
                self.lemma_removal_of_reaches(n, z);
            }
        }
        assert forall|z: u64| #[trigger] self.removal_of(seq![n]).contains(z) && z != n implies self.node_map().contains_key(z) by {
            self.lemma_removal_of_below(n, z);
        }
    }

    /// Deleting nodes none of which has children deletes just them, in order.
    pub proof fn lemma_removal_of_leaves(&self, q: Seq<u64>)
        requires
            forall|i: int| 0 <= i < q.len() ==> !self.child_map().contains_key(#[trigger] q[i])
                || self.child_map()[q[i]].len() == 0,
        ensures
            self.removal_of(q) == q,
    {
        assert(self.children@.dom().finite());
        assert forall|i: int| 0 <= i < q.len() implies !self.children@.contains_key(#[trigger] q[i])
            || self.children@[q[i]]@.len() == 0 by {
            if self.children@.contains_key(q[i]) {
                assert(self.child_map()[q[i]] == self.children@[q[i]]@);
            }
        }
        crate::removal::lemma_removal_of_leaves(self.children@, q);
    }

    /// Removing no node removes nothing.
    pub proof fn lemma_removal_of_none(&self, q: Seq<u64>)
        requires
            q.to_set() == Set::<u64>::empty(),
        ensures
            self.removal_of(q) == Seq::<u64>::empty(),
    {
        if q.len() > 0 {
            assert(q.to_set().contains(q[0]));
        }
        self.lemma_removal_of_leaves(q);
        assert(q =~= Seq::<u64>::empty());
    }

    /// Deleting the nodes of a non-empty `q` deletes the first of them first.
    pub proof fn lemma_removal_of_first(&self, q: Seq<u64>)
        requires
            q.len() > 0,
        ensures
            self.removal_of(q).len() > 0,
            self.removal_of(q)[0] == q[0],
    {
        assert(self.children@.dom().finite());
        let x = q[0];
        if self.children@.contains_key(x) {
            assert(self.removal_of(q) == seq![x] + removal_order(self.children@.remove(x), q.drop_first()
                + self.children@[x]@));
        } else {
            assert(self.removal_of(q) == seq![x] + removal_order(self.children@, q.drop_first()));
        }
    }

    fn is_replaceable(&self, z: u64, app: &String) -> (r: bool)
        ensures
            r == self.replaceable(z, app@),
    {
        let node = match self.nodes.get(&z) {
            Some(n) => n,
            None => return false,
        };
        let window = match &**node {
            FlatNode::Element(e) => {
                if text_is(&e.tag, "Window") {
                    match e.attributes.get("replace") {
                        Some(v) => v.is_true(),
                        None => false,
                    }
                } else {
                    false
                }
            },
            FlatNode::Text(_) => false,
        };
        proof {
            reveal_strlit("Window");
            reveal_strlit("replace");
        }
        if !window {
            return false;
        }
        let top = match self.parents.get(&z) {
            Some(p) => p.0 == ROOT_NODE_RAW,
            None => false,
        };
        if !top {
            return false;
        }
        let c = match self.connection_by_node.get(&z) {
            Some(c) => *c,
            None => return false,
        };
        match self.connections.get(&c) {
            Some(rec) => !rec.connected && match &rec.init_request.app {
                Some(a) => string_eq(a, app),
                None => false,
            },
            None => false,
        }
    }

    /// The top-level replacing windows of disconnected connections of the
    /// app `app`, in ascending order.
    fn replaceable_windows(&self, app: &String) -> (q: VecDeque<u64>)
        requires
            self.wf(),
        ensures
            q@.no_duplicates(),
            ascending(q@),
            forall|z: u64| #[trigger] q@.to_set().contains(z) <==> self.replaceable(z, app@),
    {
        let mut set: BTreeSet<u64> = BTreeSet::new();
        match self.children.get(&ROOT_NODE_RAW) {
            Some(list) => {
                let n = list.len();
                for i in 0..n
                    invariant
                        n == list@.len(),
                        list@ == self.children@[ROOT_NODE_RAW]@,
                        forall|z: u64| #[trigger] set@.contains(z) <==> (self.replaceable(z, app@) && exists|j: int|
                            0 <= j < i && list@[j] == z),
                {
                    let z = list[i];
                    if self.is_replaceable(z, app) {
                        set.insert(z);
                    }
                    proof {
                        assert forall|y: u64| #[trigger] set@.contains(y) <==> (self.replaceable(y, app@) && exists|j: int|
                            0 <= j < i + 1 && list@[j] == y) by {
                            if self.replaceable(y, app@) && list@[i as int] == y {
                                assert(set@.contains(y));
                            }
                        }
                    }
                }
                proof {
                    assert forall|z: u64| self.replaceable(z, app@) implies #[trigger] set@.contains(z) by {
                        let k = self.parents@[z].1;
                        assert(list@[k as int] == z);
                    }
                }
            },
            None => {
                proof {
                    assert forall|z: u64| self.replaceable(z, app@) implies #[trigger] set@.contains(z) by {
                        assert(self.children@.contains_key(self.parents@[z].0));
                    }
                }
            },
        }
        sorted_queue(&set)
    }

    /// Whether appending `node` under `parent` for connection `conn` replaces
    /// windows: the node is a replacing window placed at the top level by a
    /// connection that names its app.
    pub open spec fn replaces(&self, node: Node, parent: u64, conn: u64) -> bool {
        parent == ROOT_NODE_RAW && is_replacing_window(flat_of(node)) && self.app_of(conn) is Some
    }

    /// The windows that appending `node` under `parent` for `conn` replaces.
    pub open spec fn replaced_by(&self, node: Node, parent: u64, conn: u64) -> Set<u64> {
        if self.replaces(node, parent, conn) {
            Set::new(|z: u64| self.replaceable(z, self.app_of(conn)->0))
        } else {
            Set::empty()
        }
    }

    /// Appending a node replaces nothing unless it is an element `Window`
    /// appended at the root whose `replace` attribute is `true`.
    pub proof fn lemma_replaces_only_replacing_windows(&self, node: Node, parent: u64, conn: u64)
        requires
            !(parent == ROOT_NODE_RAW && flat_of(node) is Element && flat_of(node)->Element_0.tag == "Window"@
                && flat_of(node)->Element_0.attributes.contains_key("replace"@)
                && flat_of(node)->Element_0.attributes["replace"@] == crate::json::JsonView::Bool(true)),
        ensures
            self.replaced_by(node, parent, conn) == Set::<u64>::empty(),
    {
    }

    /// Each node that appending `node` replaces is an element `Window`
    /// directly under the root whose `replace` attribute is `true`, owned by
    /// a connection that went away and belonged to the same app as `conn`.
    pub proof fn lemma_replaced_windows(&self, node: Node, parent: u64, conn: u64, z: u64)
        requires
            self.replaced_by(node, parent, conn).contains(z),
        ensures
            parent == ROOT_NODE_RAW,
            flat_of(node) is Element && flat_of(node)->Element_0.tag == "Window"@,
            flat_of(node)->Element_0.attributes.contains_key("replace"@) && flat_of(node)->Element_0.attributes["replace"@]
                == crate::json::JsonView::Bool(true),
            self.node_map().contains_key(z) && self.node_map()[z] is Element && self.node_map()[z]->Element_0.tag == "Window"@,
            self.node_map()[z]->Element_0.attributes.contains_key("replace"@) && self.node_map()[z]->Element_0.attributes["replace"@]
                == crate::json::JsonView::Bool(true),
            self.parent_map().contains_key(z) && self.parent_map()[z].0 == ROOT_NODE_RAW,
            self.owner_map().contains_key(z) && self.connection_map().contains_key(self.owner_map()[z])
                && !self.connection_map()[self.owner_map()[z]].connected,
            self.app_of(conn) is Some && self.app_of(self.owner_map()[z]) == self.app_of(conn),
    {
    }

    /// Appends `node`, with its subtree, as the last child of `parent_id`,
    /// owned by `connection_id`, and returns the identity of its top node
    /// and the changes. Before that, a top-level window with `replace` set
    /// deletes the windows with `replace` set that disconnected connections
    /// of the same app left behind.
    #[verifier::rlimit(80)]
    #[verifier::spinoff_prover]
    pub fn append_node(&mut self, node: Node, parent_id: NodeId, connection_id: ConnectionId) -> (r: (
        NodeId,
        WorldDidChangeResponse,
    ))
        requires
            old(self).wf(),
            old(self).child_map().contains_key(parent_id.0),
            old(self).spec_next_node_id() + tree_size(node) <= u64::MAX,
        ensures
            final(self).wf(),
            ({
                let next = old(self).spec_next_node_id() as int;
                let id = r.0.0;
                let entries = bfs_entries(seq![(node, parent_id.0)], next);
                let gone = old(self).replaced_by(node, parent_id.0, connection_id.0);
                &&& id == next
                &&& final(self).spec_next_node_id() == next + tree_size(node)
                &&& exists|q: Seq<u64>| #![trigger old(self).removal_of(q)] q.to_set() == gone && q.no_duplicates() && ascending(q)
                    && r.1@ == deleted_views(old(self).removal_of(q)) + created_views(entries, next)
                    && (forall|z: u64| #[trigger] old(self).node_map().contains_key(z) && !old(self).removal_of(q).contains(z)
                        ==> final(self).node_map().contains_key(z) && final(self).node_map()[z] == old(self).node_map()[z])
                    && (forall|p: u64| #[trigger] old(self).child_map().contains_key(p) && !old(self).removal_of(q).contains(p)
                        ==> final(self).child_map().contains_key(p))
                    && (forall|p: u64| #[trigger] final(self).child_map().contains_key(p) && old(self).child_map().contains_key(p)
                        ==> final(self).child_map()[p] == if p == parent_id.0 {
                            without(old(self).child_map()[p], old(self).removal_of(q).to_set()).push(id)
                        } else {
                            without(old(self).child_map()[p], old(self).removal_of(q).to_set())
                        })
                    && (forall|z: u64| #[trigger] old(self).parent_map().contains_key(z) && !old(self).removal_of(q).contains(z)
                        ==> final(self).parent_map().contains_key(z) && final(self).parent_map()[z].0 == old(self).parent_map()[z].0)
                    && (forall|z: u64| #[trigger] old(self).owner_map().contains_key(z) && !old(self).removal_of(q).contains(z)
                        ==> final(self).owner_map().contains_key(z) && final(self).owner_map()[z] == old(self).owner_map()[z])
                    && final(self).connection_map() == old(self).connection_map().remove_keys(
                        old(self).emptied_by(old(self).removal_of(q).to_set()))
                &&& gone == Set::<u64>::empty() ==> final(self).connection_map() == old(self).connection_map()
                &&& forall|z: u64| #[trigger] final(self).node_map().contains_key(z) ==> old(self).node_map().contains_key(z)
                    || (next <= z < next + tree_size(node))
                &&& final(self).node_map().contains_key(id)
                &&& final(self).node_map()[id] == flat_of(node)
                &&& final(self).parent_map().contains_key(id)
                &&& final(self).parent_map()[id].0 == parent_id.0
                &&& final(self).owner_map().contains_key(id)
                &&& final(self).owner_map()[id] == connection_id.0
                &&& final(self).child_map().contains_key(parent_id.0)
                &&& final(self).child_map()[parent_id.0].last() == id
                &&& holds_tree(*final(self), id, node)
                &&& forall|z: u64| next <= z < next + tree_size(node) ==> #[trigger] final(self).owner_map().contains_key(z)
                    && final(self).owner_map()[z] == connection_id.0
            }),
            final(self).spec_next_connection_id() == old(self).spec_next_connection_id(),
    {
        let ghost w0 = *self;
        let mut event = WorldDidChangeResponse::default();
        let ghost next = self.next_node_id as int;
        let replacing = parent_id.0 == ROOT_NODE_RAW && match &node {
            Node::Element(e) => text_is(&e.element.tag, "Window") && match e.element.attributes.get("replace") {
                Some(v) => v.is_true(),
                None => false,
            },
            Node::Text(_) => false,
        };
        proof {
            reveal_strlit("Window");
            reveal_strlit("replace");
        }
        let app = match self.connections.get(&connection_id.0) {
            Some(rec) => clone_opt_string(&rec.init_request.app),
            None => None,
        };
        let queue = match app {
            Some(a) => {
                if replacing {
                    self.replaceable_windows(&a)
                } else {
                    VecDeque::new()
                }
            },
            None => VecDeque::new(),
        };
        let ghost q = queue@;
        proof {
            let gone = w0.replaced_by(node, parent_id.0, connection_id.0);
            assert(q.to_set() =~= gone);
            assert forall|i: int| 0 <= i < q.len() implies #[trigger] q[i] > 0 by {
                assert(q.to_set().contains(q[i]));
                assert(w0.parents@.contains_key(q[i]));
            }
            assert forall|y: u64, i: int| #[trigger] w0.children@.contains_key(y) && 0 <= i < w0.children@[y]@.len()
                implies #[trigger] w0.children@[y]@[i] > y by {
                assert(w0.parents@.contains_key(w0.children@[y]@[i]));
            }
            lemma_removal_above(w0.children@, q, 0);
            if parent_id.0 != ROOT_NODE_RAW {
                assert(q.len() == 0) by {
                    if q.len() > 0 {
                        assert(q.to_set().contains(q[0]));
                    }
                }
                assert(removal_order(w0.children@, q) =~= Seq::<u64>::empty());
            }
        }
        self.remove_nodes_inner(queue, &mut event);
        let ghost w1 = *self;
        let ghost ev1 = event@;
        proof {
            let r = removal_order(w0.children@, q).to_set();
            assert(!r.contains(parent_id.0));
            assert(self.children@.contains_key(parent_id.0));
        }
        let id = self.append_node_inner(node, parent_id.0, connection_id.0, &mut event);
        proof {
            let order = removal_order(w0.children@, q);
            let r = order.to_set();
            let entries = bfs_entries(seq![(node, parent_id.0)], next);
            assert(entries[0].1 == parent_id.0 && entries[0].0 == flat_of(node)) by {
                crate::tree::lemma_queue_size_step(seq![(node, parent_id.0)], w0.next_node_id);
            }
            assert(self.nodes@[(next + 0) as u64]@ == entries[0].0);
            assert(self.parents@[(next + 0) as u64].0 == entries[0].1);
            assert(self.nodes@.contains_key(id));
            assert(self.connection_by_node@.contains_key(id));
            assert(!w1.connection_by_node@.contains_key(id));
            assert(self.children@[parent_id.0]@ == list_or_empty(w1.child_map(), parent_id.0)
                + placed_children(entries, next, parent_id.0));
            assert(w1.child_map().contains_key(parent_id.0));
            assert forall|k: int| 1 <= k < entries.len() implies #[trigger] entries[k].1 != parent_id.0 by {
                assert(entries[k].1 >= next);
                assert(parent_id.0 < next);
            }
            lemma_placed_children_single(entries, next, parent_id.0);
            assert(self.child_map()[parent_id.0] == w1.children@[parent_id.0]@.push(id));
            assert(w0.removal_of(q) == order);
            assert forall|z: u64| #[trigger] w0.node_map().contains_key(z) && !w0.removal_of(q).contains(z)
                implies self.node_map().contains_key(z) && self.node_map()[z] == w0.node_map()[z] by {
                assert(w1.nodes@.contains_key(z));
            }
            assert(event@ == deleted_views(w0.removal_of(q)) + created_views(entries, next));
            assert forall|z: u64| #[trigger] self.node_map().contains_key(z) implies w0.node_map().contains_key(z)
                || (next <= z < next + tree_size(node)) by {
                assert(self.nodes@.contains_key(z));
                if !w1.nodes@.contains_key(z) {
                } else {
                    assert(w0.nodes@.contains_key(z));
                }
            }
            assert forall|z: u64| next <= z < next + tree_size(node) implies #[trigger] self.owner_map().contains_key(z)
                && self.owner_map()[z] == connection_id.0 by {
                assert(self.nodes@.contains_key(z));
                assert(!w1.nodes@.contains_key(z));
                assert(!w1.connection_by_node@.contains_key(z));
                assert(w0.nodes@.contains_key(parent_id.0));
                assert(z != ROOT_NODE_RAW);
                assert(self.connection_by_node@.contains_key(z));
            }
            assert forall|j: int| 0 <= j < tree_size(node) implies #[trigger] self.nodes@.contains_key((next + j) as u64)
                && self.nodes@[(next + j) as u64]@ == entries[j].0 by {
                assert(self.nodes@.contains_key((next + j) as u64));
            }
            World::lemma_placed_holds(*self, w1, node, parent_id.0, next, 0);
            assert(crate::tree::bfs_trees(seq![(node, parent_id.0)], next)[0] == node) by {
                crate::tree::lemma_bfs_trees_len(seq![(node, parent_id.0)], next);
            }
        }
        proof {
            let order = removal_order(w0.children@, q);
            let r = order.to_set();
            let entries = bfs_entries(seq![(node, parent_id.0)], next);
            assert(w0.removal_of(q) == order);
            assert forall|p: u64| #[trigger] self.child_map().contains_key(p) && w0.child_map().contains_key(p)
                implies self.child_map()[p] == if p == parent_id.0 {
                    without(w0.child_map()[p], r).push(id)
                } else {
                    without(w0.child_map()[p], r)
                } by {
                assert(self.children@.contains_key(p));
                assert(self.nodes@.contains_key(p));
                assert(p < next) by {
                    assert(w0.nodes@.contains_key(p));
                }
                assert(w1.nodes@.contains_key(p));
                assert(!r.contains(p));
                assert(w1.children@.contains_key(p));
                assert(w1.children@[p]@ == without(w0.children@[p]@, r));
                assert(list_or_empty(w1.child_map(), p) == w1.children@[p]@);
                if p != parent_id.0 {
                    assert forall|k: int| 0 <= k < entries.len() implies entries[k].1 != p by {
                        if k == 0 {
                            assert(entries[0].1 == parent_id.0) by {
                                crate::tree::lemma_queue_size_step(seq![(node, parent_id.0)], w0.next_node_id);
                            }
                        } else {
                            assert(entries[k].1 >= next);
                        }
                    }
                    lemma_placed_children_none(entries, next, p);
                    assert(self.children@[p]@ =~= w1.children@[p]@);
                }
            }
            assert forall|p: u64| #[trigger] w0.child_map().contains_key(p) && !w0.removal_of(q).contains(p)
                implies self.child_map().contains_key(p) by {
                assert(w0.children@.contains_key(p));
                assert(w0.nodes@.contains_key(p) && w0.nodes@[p]@ is Element);
                assert(!r.contains(p));
                assert(w1.nodes@.contains_key(p));
                assert(self.nodes@.contains_key(p));
                assert(self.nodes@[p] == w1.nodes@[p]);
                assert(self.children@.contains_key(p));
            }
            assert(self.child_map().contains_key(parent_id.0)) by {
                assert(self.parents@.contains_key(id));
                assert(self.children@.contains_key(self.parents@[id].0));
            }
            assert forall|z: u64| #[trigger] w0.parent_map().contains_key(z) && !w0.removal_of(q).contains(z)
                implies self.parent_map().contains_key(z) && self.parent_map()[z].0 == w0.parent_map()[z].0 by {
                assert(!r.contains(z));
                assert(w1.parents@.contains_key(z));
            }
            assert forall|z: u64| #[trigger] w0.owner_map().contains_key(z) && !w0.removal_of(q).contains(z)
                implies self.owner_map().contains_key(z) && self.owner_map()[z] == w0.owner_map()[z] by {
                assert(!r.contains(z));
                assert(w1.connection_by_node@.contains_key(z));
                assert(w1.connection_by_node@[z] == w0.connection_by_node@[z]);
                assert(w0.nodes@.contains_key(z) && z != ROOT_NODE_RAW);
                assert(w1.nodes@.contains_key(z));
                assert(self.nodes@.contains_key(z));
                assert(self.connection_by_node@.contains_key(z));
            }
            assert(w0.emptied_by(r) =~= emptied_connections(w0.nodes_by_connection@, w0.connections@, r));
            if w0.replaced_by(node, parent_id.0, connection_id.0) == Set::<u64>::empty() {
                assert(q.len() == 0) by {
                    if q.len() > 0 {
                        assert(q.to_set().contains(q[0]));
                    }
                }
                assert(order =~= Seq::<u64>::empty());
                assert(r =~= Set::<u64>::empty());
                assert(w0.emptied_by(r) =~= Set::<u64>::empty()) by {
                    assert forall|c: u64| !w0.emptied_by(r).contains(c) by {
                        if w0.emptied_by(r).contains(c) {
                            let s0 = w0.nodes_by_connection@[c]@;
                            assert(s0 != Set::<u64>::empty());
                            assert(s0 =~= Set::<u64>::empty());
                        }
                    }
                }
                assert(self.connection_map() =~= w0.connection_map());
            }
        }
        (NodeId(id), event)
    }

    /// Deletes node `node_id` and, breadth first, its descendants, and
    /// returns a `Deleted` change for each, in that order. The root stays:
    /// without it the world could hold nothing more.
    pub fn remove_node(&mut self, node_id: NodeId) -> (r: WorldDidChangeResponse)
        requires
            old(self).wf(),
            node_id.0 != ROOT_NODE_RAW,
        ensures
            final(self).wf(),
            r@ == deleted_views(old(self).removal_of(seq![node_id.0])),
            final(self).node_map() == old(self).node_map().remove_keys(old(self).removal_of(seq![node_id.0]).to_set()),
            final(self).owner_map() == old(self).owner_map().remove_keys(old(self).removal_of(seq![node_id.0]).to_set()),
            ({
                let r = old(self).removal_of(seq![node_id.0]).to_set();
                &&& final(self).child_map().dom() == old(self).child_map().dom().difference(r)
                &&& forall|p: u64| #[trigger] final(self).child_map().contains_key(p) ==> final(self).child_map()[p] == without(
                    old(self).child_map()[p],
                    r,
                )
                &&& final(self).connection_map() == old(self).connection_map().remove_keys(
                    old(self).emptied_by(r),
                )
            }),
            final(self).spec_next_node_id() == old(self).spec_next_node_id(),
            final(self).spec_next_connection_id() == old(self).spec_next_connection_id(),
    {
        let mut event = WorldDidChangeResponse::default();
        let mut queue: VecDeque<u64> = VecDeque::new();
        queue.push_back(node_id.0);
        proof {
            assert(queue@ == seq![node_id.0]);
        }
        let ghost w0 = *self;
        self.remove_nodes_inner(queue, &mut event);
        proof {
            let r = w0.removal_of(seq![node_id.0]).to_set();
            assert(self.node_map() =~= w0.node_map().remove_keys(r));
            assert(event@ =~= deleted_views(w0.removal_of(seq![node_id.0])));
            assert(self.child_map().dom() =~= w0.child_map().dom().difference(r));
            assert(w0.emptied_by(r) =~= emptied_connections(w0.nodes_by_connection@, w0.connections@, r));
        }
        event
    }

    /// The connections that no longer hold a node once the nodes of `r` are
    /// deleted and that are no longer connected.
    pub open spec fn emptied_by(&self, r: Set<u64>) -> Set<u64> {
        Set::new(
            |c: u64|
                self.conn_nodes_map().contains_key(c) && self.conn_nodes_map()[c].subset_of(r)
                    && self.connection_map().contains_key(c) && !self.connection_map()[c].connected,
        )
    }

    /// Opens a connection for a client that sent `init_request` from
    /// `source`, and returns its identity, the answer to the client, and
    /// the connection event to announce. A client that speaks another
    /// protocol version is refused.
    pub fn create_connection(&mut self, init_request: InitRequest, source: ConnectionSource) -> (r: Result<
        (ConnectionId, InitResponse, ConnectionEvent),
        CreateConnectionError,
    >)
        requires
            old(self).wf(),
        ensures
            final(self).wf(),
            init_request.weird_protocol_version != WeirdProtocolVersion::CURRENT ==> *final(self) == *old(self) && r
                == Err::<(ConnectionId, InitResponse, ConnectionEvent), CreateConnectionError>(
                CreateConnectionError::ProtocolVersionMismatch {
                    client: init_request.weird_protocol_version,
                    current: WeirdProtocolVersion::CURRENT,
                },
            ),
            init_request.weird_protocol_version == WeirdProtocolVersion::CURRENT ==> ({
                let id = old(self).spec_next_connection_id();
                let rec = ConnectionRecord {
                    connected: true,
                    init_request: init_request,
                    weird_protocol_version: WeirdProtocolVersion::CURRENT,
                    source: source,
                };
                &&& r == Ok::<(ConnectionId, InitResponse, ConnectionEvent), CreateConnectionError>((
                    ConnectionId(id),
                    InitResponse { weird_protocol_version: WeirdProtocolVersion::CURRENT, connection_id: ConnectionId(id) },
                    ConnectionEvent::Connected(details_view(id, rec)),
                ))
                &&& final(self).connection_map() == old(self).connection_map().insert(id, rec)
                &&& final(self).spec_next_connection_id() == if id == u64::MAX { 0 } else { id + 1 }
                &&& final(self).node_map() == old(self).node_map()
                &&& final(self).child_map() == old(self).child_map()
                &&& final(self).parent_map() == old(self).parent_map()
                &&& final(self).owner_map() == old(self).owner_map()
                &&& final(self).spec_next_node_id() == old(self).spec_next_node_id()
            }),
    {
        let current = WeirdProtocolVersion::CURRENT;
        if init_request.weird_protocol_version != current {
            return Err(CreateConnectionError::ProtocolVersionMismatch {
                client: init_request.weird_protocol_version,
                current,
            });
        }
        let id = self.next_connection_id;
        self.next_connection_id = id.wrapping_add(1);
        let client = clone_opt_string(&init_request.client);
        let rec = ConnectionRecord { connected: true, init_request, weird_protocol_version: current, source };
        let event = ConnectionEvent::Connected(ConnectionDetails {
            connection_id: ConnectionId(id),
            connected: true,
            weird_protocol_version: current,
            client,
        });
        self.connections.insert(id, rec);
        let response = InitResponse { weird_protocol_version: current, connection_id: ConnectionId(id) };
        Ok((ConnectionId(id), response, event))
    }

    /// The details of every connection the world knows, in ascending order
    /// of identity.
    pub fn connection_details(&self) -> (r: Vec<ConnectionDetails>)
        ensures
            r@.len() == self.connection_map().len(),
            forall|i: int| 0 <= i < r@.len() ==> self.connection_map().contains_key(#[trigger] r@[i].connection_id.0)
                && r@[i] == details_view(r@[i].connection_id.0, self.connection_map()[r@[i].connection_id.0]),
            forall|c: u64| #[trigger] self.connection_map().contains_key(c) ==> exists|i: int| 0 <= i < r@.len()
                && r@[i].connection_id.0 == c,
            forall|i: int, j: int| 0 <= i < j < r@.len() ==> r@[i].connection_id.0 < r@[j].connection_id.0,
    {
        let mut out: Vec<ConnectionDetails> = Vec::new();
        let ghost v = vstd::std_specs::btree::spec_btree_map_iter(&self.connections).remaining();
        proof {
            lemma_ids_ordered();
        }
        let _in_order = self.connections.iter();
        proof {
            lemma_map_iter_ascending(&self.connections);
        }
        for item in it: self.connections.iter()
            invariant
                it.seq() == v,
                out@.len() == it.index(),
                forall|i: int| #![trigger out@[i]] 0 <= i < out@.len() ==> out@[i].connection_id.0 == *v[i].0
                    && out@[i] == details_view(out@[i].connection_id.0, *v[i].1),
        {
            let (id, rec) = item;
            let d = ConnectionDetails {
                connection_id: ConnectionId(*id),
                connected: rec.connected,
                weird_protocol_version: rec.weird_protocol_version,
                client: clone_opt_string(&rec.init_request.client),
            };
            out.push(d);
        }
        proof {
            assert forall|i: int| 0 <= i < out@.len() implies self.connection_map().contains_key(
                #[trigger] out@[i].connection_id.0)
                && out@[i] == details_view(out@[i].connection_id.0, self.connection_map()[out@[i].connection_id.0]) by {
                assert(self.connections@.contains_key(*v[i].0) && self.connections@[*v[i].0] == *v[i].1);
            }
            assert forall|c: u64| #[trigger] self.connection_map().contains_key(c) implies exists|i: int|
                0 <= i < out@.len() && out@[i].connection_id.0 == c by {
                assert(v.contains((&c, &self.connections@[c])));
                let i = choose|i: int| 0 <= i < v.len() && v[i] == (&c, &self.connections@[c]);
                assert(out@[i].connection_id.0 == c);
            }
            assert forall|i: int, j: int| 0 <= i < j < out@.len() implies out@[i].connection_id.0
                != out@[j].connection_id.0 by {
                assert(v.no_duplicates());
                if out@[i].connection_id.0 == out@[j].connection_id.0 {
                    assert(v[i].1 == &self.connections@[*v[i].0]);
                    assert(v[j].1 == &self.connections@[*v[j].0]);
                    assert(v[i] == v[j]);
                }
            }
        }
        out
    }

    /// Every node of the world, with its identity, in ascending order of identity.
    pub fn get_nodes(&self) -> (r: Vec<(NodeId, Arc<FlatNode>)>)
        ensures
            r@.len() == self.node_map().len(),
            forall|i: int| 0 <= i < r@.len() ==> self.node_map().contains_key(#[trigger] r@[i].0.0)
                && r@[i].1@ == self.node_map()[r@[i].0.0],
            forall|z: u64| #[trigger] self.node_map().contains_key(z) ==> exists|i: int| 0 <= i < r@.len()
                && r@[i].0.0 == z,
            forall|i: int, j: int| 0 <= i < j < r@.len() ==> r@[i].0.0 < r@[j].0.0,
    {
        let mut out: Vec<(NodeId, Arc<FlatNode>)> = Vec::new();
        let ghost v = vstd::std_specs::btree::spec_btree_map_iter(&self.nodes).remaining();
        proof {
            lemma_ids_ordered();
        }
        let _in_order = self.nodes.iter();
        proof {
            lemma_map_iter_ascending(&self.nodes);
        }
        for item in it: self.nodes.iter()
            invariant
                it.seq() == v,
                out@.len() == it.index(),
                forall|i: int| #![trigger out@[i]] 0 <= i < out@.len() ==> out@[i].0.0 == *v[i].0 && out@[i].1
                    == *v[i].1,
        {
            let (id, node) = item;
            out.push((NodeId(*id), share_node(node)));
        }
        proof {
            assert(self.node_map().dom() =~= self.nodes@.dom());
            assert forall|i: int| 0 <= i < out@.len() implies self.node_map().contains_key(#[trigger] out@[i].0.0)
                && out@[i].1@ == self.node_map()[out@[i].0.0] by {
                assert(self.nodes@.contains_key(*v[i].0) && self.nodes@[*v[i].0] == *v[i].1);
                assert(out@[i].1 == *v[i].1);
            }
            assert forall|z: u64| #[trigger] self.node_map().contains_key(z) implies exists|i: int|
                0 <= i < out@.len() && out@[i].0.0 == z by {
                assert(v.contains((&z, &self.nodes@[z])));
                let i = choose|i: int| 0 <= i < v.len() && v[i] == (&z, &self.nodes@[z]);
                assert(out@[i].0.0 == z);
            }
            assert forall|i: int, j: int| 0 <= i < j < out@.len() implies out@[i].0.0 != out@[j].0.0 by {
                assert(v.no_duplicates());
                if out@[i].0.0 == out@[j].0.0 {
                    assert(v[i].1 == &self.nodes@[*v[i].0]);
                    assert(v[j].1 == &self.nodes@[*v[j].0]);
                    assert(v[i] == v[j]);
                }
            }
        }
        out
    }

    /// Triggers `event` on its target node. The node's owner must be a
    /// known connection. A `close` event on a top-level window forgets the
    /// owner and deletes the window; any other event is to be delivered to
    /// the owner, with the `id` of the target node.
    pub fn trigger_event(&mut self, event: TriggerEvent) -> (r: Result<TriggerOutcome, TriggerEventFailed>)
        requires
            old(self).wf(),
        ensures
            final(self).wf(),
            ({
                let t = event.target_node_id.0;
                let owned = old(self).owner_map().contains_key(t) && old(self).connection_map().contains_key(
                    old(self).owner_map()[t]);
                let c = old(self).owner_map()[t];
                let gone = old(self).removal_of(seq![t]);
                &&& !owned ==> r == Err::<TriggerOutcome, TriggerEventFailed>(TriggerEventFailed::NoConnectionForNode)
                    && *final(self) == *old(self)
                &&& owned && closes_window(*old(self), t, event.event@) ==> (r matches Ok(TriggerOutcome::WindowClosed(ch))
                    && ch@ == deleted_views(gone))
                    && final(self).node_map() == old(self).node_map().remove_keys(gone.to_set())
                    && !final(self).connection_map().contains_key(c)
                    && (forall|k: u64| #[trigger] final(self).connection_map().contains_key(k)
                        ==> old(self).connection_map().contains_key(k) && final(self).connection_map()[k]
                        == old(self).connection_map()[k])
                &&& owned && !closes_window(*old(self), t, event.event@) ==> *final(self) == *old(self)
                    && (r matches Ok(TriggerOutcome::Deliver(conn, ev)) && conn.0 == c
                    && ev.target_node_id == event.target_node_id && ev.event == event.event && ev.params == event.params
                    && opt_text(ev.target_id) == crate::node::flat_id(old(self).node_map()[t]))
            }),
            final(self).spec_next_node_id() == old(self).spec_next_node_id(),
            final(self).spec_next_connection_id() == old(self).spec_next_connection_id(),
    {
        let t = event.target_node_id.0;
        let c = match self.connection_by_node.get(&t) {
            Some(c) => *c,
            None => return Err(TriggerEventFailed::NoConnectionForNode),
        };
        if !self.connections.contains_key(&c) {
            return Err(TriggerEventFailed::NoConnectionForNode);
        }
        proof {
            assert(self.nodes@.contains_key(t));
        }
        let node = self.nodes.get(&t).unwrap();
        let target_id = match node.get_id() {
            Some(s) => {
                let owned = s.to_string();
                proof {
                    vstd::string::to_string_from_display_ensures_for_str(s, owned);
                }
                Some(owned)
            },
            None => None,
        };
        let is_window = match &**node {
            FlatNode::Element(e) => text_is(&e.tag, "Window"),
            FlatNode::Text(_) => false,
        };
        let top = match self.parents.get(&t) {
            Some(p) => p.0 == ROOT_NODE_RAW,
            None => false,
        };
        let closing = text_is(&event.event, "close") && is_window && top;
        proof {
            reveal_strlit("Window");
            reveal_strlit("close");
            assert(closing == closes_window(*self, t, event.event@));
        }
        if closing {
            let ghost w0 = *self;
            self.connections.remove(&c);
            let mut change_event = WorldDidChangeResponse::default();
            let mut queue: VecDeque<u64> = VecDeque::new();
            queue.push_back(t);
            proof {
                assert(queue@ == seq![t]);
                assert(self.children@ == w0.children@);
            }
            self.remove_nodes_inner(queue, &mut change_event);
            proof {
                let gone = w0.removal_of(seq![t]);
                assert(self.node_map() =~= w0.node_map().remove_keys(gone.to_set()));
                assert(change_event@ =~= deleted_views(gone));
            }
            Ok(TriggerOutcome::WindowClosed(change_event))
        } else {
            let ev = Event { target_id, target_node_id: event.target_node_id, event: event.event, params: event.params };
            Ok(TriggerOutcome::Deliver(ConnectionId(c), ev))
        }
    }

    /// The nodes that connection `c` owns.
    pub open spec fn owned_by(&self, c: u64) -> Set<u64> {
        Set::new(|z: u64| self.owner_map().contains_key(z) && self.owner_map()[z] == c)
    }

    /// Records that connection `connection_id` went away: it is marked
    /// disconnected, each of its windows not yet marked stale is marked
    /// stale (in ascending order of identity), and when it owns no node it
    /// is forgotten. Returns the changes.
    #[verifier::rlimit(80)]
    #[verifier::spinoff_prover]
    pub fn connection_did_close(&mut self, connection_id: ConnectionId) -> (r: WorldDidChangeResponse)
        requires
            old(self).wf(),
        ensures
            final(self).wf(),
            ({
                let c = connection_id.0;
                let owned = old(self).owned_by(c);
                &&& final(self).node_map().dom() == old(self).node_map().dom()
                &&& forall|z: u64| #[trigger] old(self).node_map().contains_key(z) ==> final(self).node_map()[z]
                    == if owned.contains(z) && needs_stale(old(self).node_map()[z]) {
                    with_stale(old(self).node_map()[z])
                } else {
                    old(self).node_map()[z]
                }
                &&& exists|q: Seq<u64>| #![trigger stale_changes(old(self).node_map(), q)] q.to_set() == owned
                    && q.no_duplicates() && ascending(q) && r@ == stale_changes(old(self).node_map(), q)
                &&& final(self).child_map() == old(self).child_map()
                &&& final(self).parent_map() == old(self).parent_map()
                &&& final(self).owner_map() == old(self).owner_map()
                &&& final(self).connection_map() == if owned.is_empty() {
                    old(self).connection_map().remove(c)
                } else if old(self).connection_map().contains_key(c) {
                    old(self).connection_map().insert(c, ConnectionRecord {
                        connected: false,
                        init_request: old(self).connection_map()[c].init_request,
                        weird_protocol_version: old(self).connection_map()[c].weird_protocol_version,
                        source: old(self).connection_map()[c].source,
                    })
                } else {
                    old(self).connection_map()
                }
            }),
            final(self).spec_next_node_id() == old(self).spec_next_node_id(),
            final(self).spec_next_connection_id() == old(self).spec_next_connection_id(),
    {
        let c = connection_id.0;
        let ghost w0 = *self;
        let ghost owned = w0.owned_by(c);
        match self.connections.remove(&c) {
            Some(rec) => {
                let mut rec = rec;
                rec.connected = false;
                self.connections.insert(c, rec);
            },
            None => {},
        }
        let ghost w1 = *self;
        let queue = match self.nodes_by_connection.get(&c) {
            Some(set) => sorted_queue(set),
            None => VecDeque::new(),
        };
        let ghost q = queue@;
        proof {
            assert(ascending(q));
            if w0.nodes_by_connection@.contains_key(c) {
                assert(q.to_set() =~= owned);
            } else {
                assert(q.to_set() =~= owned) by {
                    assert forall|z: u64| !owned.contains(z) by {
                        if owned.contains(z) {
                            assert(w0.connection_by_node@.contains_key(z));
                        }
                    }
                }
            }
        }
        let mut event = WorldDidChangeResponse::default();
        let n = queue.len();
        let mut i: usize = 0;
        while i < n
            invariant
                self.wf(),
                owned == w0.owned_by(c),
                w0.wf(),
                n == q.len(),
                q == queue@,
                q.no_duplicates(),
                q.to_set() == owned,
                i <= n,
                self.nodes@.dom() == w0.nodes@.dom(),
                forall|z: u64| #[trigger] w0.nodes@.contains_key(z) ==> self.nodes@[z]@ == if q.take(i as int).contains(z)
                    && needs_stale(w0.nodes@[z]@) {
                    with_stale(w0.nodes@[z]@)
                } else {
                    w0.nodes@[z]@
                },
                event@ == stale_changes(w0.node_map(), q.take(i as int)),
                self.children@ == w0.children@,
                self.parents@ == w0.parents@,
                self.connection_by_node@ == w0.connection_by_node@,
                self.nodes_by_connection@ == w0.nodes_by_connection@,
                self.connections@ == w1.connections@,
                self.next_node_id == w0.next_node_id,
                self.next_connection_id == w0.next_connection_id,
            decreases n - i,
        {
            let z = queue[i];
            proof {
                assert(q.to_set().contains(q[i as int]));
                assert(w0.connection_by_node@.contains_key(z));
                assert(!q.take(i as int).contains(z)) by {
                    if q.take(i as int).contains(z) {
                        let k = choose|k: int| 0 <= k < i && q.take(i as int)[k] == z;
                        assert(q[k] == q[i as int]);
                    }
                }
                assert(self.nodes@[z]@ == w0.nodes@[z]@);
            }
            let node = self.nodes.get(&z).unwrap();
            let marked = match &**node {
                FlatNode::Element(e) => {
                    if text_is(&e.tag, "Window") {
                        match e.attributes.get("stale") {
                            Some(v) => !v.is_true(),
                            None => true,
                        }
                    } else {
                        false
                    }
                },
                FlatNode::Text(_) => false,
            };
            proof {
                reveal_strlit("Window");
                reveal_strlit("stale");
                assert(marked == needs_stale(w0.nodes@[z]@));
                assert(q.take(i + 1).drop_last() =~= q.take(i as int));
                assert(q.take(i + 1).last() == z);
            }
            if marked {
                let updated = match &**node {
                    FlatNode::Element(e) => {
                        let mut el = e.duplicate();
                        el.attributes.insert("stale".to_string(), JsonValue::Bool(true));
                        FlatNode::Element(el)
                    },
                    FlatNode::Text(t) => FlatNode::Text(t.clone()),
                };
                proof {
                    assert(updated@ == with_stale(w0.nodes@[z]@));
                }
                self.replace_content(z, updated);
                let update = ElementNodeUpdate::default().set_attr("stale", JsonValue::Bool(true));
                proof {
                    assert(update.set_attributes@ =~= Map::<Seq<char>, crate::json::JsonView>::empty().insert(
                        "stale"@, crate::json::JsonView::Bool(true)));
                }
                event.push(WorldChange::Updated(UpdatedNodeChange { id: NodeId(z), update: NodeUpdate::Element(update) }));
            }
            proof {
                assert forall|y: u64| #[trigger] w0.nodes@.contains_key(y) implies self.nodes@[y]@ == if q.take(i + 1).contains(y)
                    && needs_stale(w0.nodes@[y]@) {
                    with_stale(w0.nodes@[y]@)
                } else {
                    w0.nodes@[y]@
                } by {
                    if y == z {
                        assert(q.take(i + 1)[i as int] == z);
                    } else {
                        let a = q.take(i + 1);
                        let b = q.take(i as int);
                        assert(a.contains(y) == b.contains(y)) by {
                            if a.contains(y) {
                                let k = choose|k: int| 0 <= k < a.len() && a[k] == y;
                                assert(b[k] == y);
                            }
                            if b.contains(y) {
                                let k = choose|k: int| 0 <= k < b.len() && b[k] == y;
                                assert(a[k] == y);
                            }
                        }
                    }
                }
            }
            i = i + 1;
        }
        if !self.nodes_by_connection.contains_key(&c) {
            self.connections.remove(&c);
            self.nodes_by_connection.remove(&c);
        }
        proof {
            assert(q.take(n as int) =~= q);
            assert(self.node_map() =~= Map::new(|z: u64| w0.node_map().contains_key(z), |z: u64| if owned.contains(z)
                && needs_stale(w0.node_map()[z]) {
                with_stale(w0.node_map()[z])
            } else {
                w0.node_map()[z]
            }));
            assert(self.child_map() =~= w0.child_map());
            if owned.is_empty() {
                assert(!w0.nodes_by_connection@.contains_key(c)) by {
                    if w0.nodes_by_connection@.contains_key(c) {
                        let z = w0.nodes_by_connection@[c]@.choose();
                        assert(w0.nodes_by_connection@[c]@.contains(z));
                        assert(owned.contains(z));
                    }
                }
                assert(self.connection_map() =~= w0.connection_map().remove(c));
            } else {
                let z = owned.choose();
                assert(owned.contains(z));
                assert(w0.nodes_by_connection@.contains_key(c));
            }
        }
        event
    }

    /// The `Created` change that describes node `z` as it stands: under its
    /// parent, with its content, added after the siblings created before it.
    pub open spec fn created_now(&self, z: u64) -> ChangeView {
        ChangeView::Created { id: z, parent: self.parent_map()[z].0, before: None, node: self.node_map()[z] }
    }

    /// The changes that build the current world from an empty one: a
    /// `Created` change for every node below the root, breadth first from
    /// the root's children, each under its parent and after the siblings
    /// created before it, so that no change names a node not yet created.
    pub fn initial_event(&self) -> (r: WorldDidChangeResponse)
        requires
            self.wf(),
            self.child_map().contains_key(ROOT_NODE_RAW),
        ensures
            r@ == self.removal_of(self.child_map()[ROOT_NODE_RAW]).map_values(|z: u64| self.created_now(z)),
    {
        let mut pending_children = self.children.clone();
        let mut queue: VecDeque<u64> = VecDeque::new();
        let root_children = self.children.get(&ROOT_NODE_RAW).unwrap();
        let ghost root_seq = root_children@;
        let n = root_children.len();
        for i in 0..n
            invariant
                n == root_seq.len(),
                root_children@ == root_seq,
                queue@ == root_seq.take(i as int),
        {
            queue.push_back(root_children[i]);
            assert(root_seq.take(i + 1) =~= queue@);
        }
        proof {
            assert(root_seq.take(n as int) =~= root_seq);
        }
        let ghost full = removal_order(self.children@, root_seq);
        let ghost mut emitted: Seq<u64> = Seq::empty();
        let mut event = WorldDidChangeResponse::default();
        proof {
            assert(emitted + removal_order(pending_children@, queue@) =~= full);
            assert forall|j: int| 0 <= j < queue@.len() implies #[trigger] self.parents@.contains_key(queue@[j]) by {
                assert(self.children@[ROOT_NODE_RAW]@[j] == queue@[j]);
            }
            assert(event@ =~= emitted.map_values(|z: u64| self.created_now(z)));
        }
        while queue.len() > 0
            invariant
                self.wf(),
                full == emitted + removal_order(pending_children@, queue@),
                forall|k: u64| #[trigger] pending_children@.contains_key(k) ==> self.children@.contains_key(k)
                    && pending_children@[k] == self.children@[k],
                forall|j: int| 0 <= j < queue@.len() ==> #[trigger] self.parents@.contains_key(queue@[j]),
                event@ == emitted.map_values(|z: u64| self.created_now(z)),
            decreases pending_children@.dom().len(), queue@.len(),
        {
            let ghost q = queue@;
            let ghost ch_before = pending_children@;
            let x = queue.pop_front().unwrap();
            proof {
                assert(q[0] == x);
                assert(self.parents@.contains_key(q[0]));
            }
            let kids = pending_children.remove(&x);
            match kids {
                Some(list) => {
                    let ghost base = queue@;
                    let ghost list_seq = list@;
                    proof {
                        assert(list_seq == self.children@[x]@);
                    }
                    for k in it: list
                        invariant
                            it.seq() == list_seq,
                            queue@ == base + it.seq().take(it.index()),
                    {
                        queue.push_back(k);
                        assert(base + it.seq().take(it.index() + 1) =~= queue@);
                    }
                    proof {
                        assert(list_seq.take(list_seq.len() as int) =~= list_seq);
                        assert forall|j: int| 0 <= j < queue@.len() implies #[trigger] self.parents@.contains_key(
                            queue@[j]) by {
                            if j < base.len() {
                                assert(queue@[j] == q[j + 1]);
                            } else {
                                assert(queue@[j] == self.children@[x]@[j - base.len()]);
                            }
                        }
                    }
                },
                None => {
                    proof {
                        assert forall|j: int| 0 <= j < queue@.len() implies #[trigger] self.parents@.contains_key(
                            queue@[j]) by {
                            assert(queue@[j] == q[j + 1]);
                        }
                    }
                },
            }
            let (p, _) = *self.parents.get(&x).unwrap();
            let node = share_node(self.nodes.get(&x).unwrap());
            event.push(WorldChange::Created(CreatedNodeChange {
                id: NodeId(x),
                parent_id: NodeId(p),
                before_sibling_id: None,
                node,
            }));
            proof {
                assert(removal_order(ch_before, q) == seq![x] + removal_order(pending_children@, queue@)) by {
                    if ch_before.contains_key(x) {
                        assert(ch_before.remove(x) =~= pending_children@);
                        assert(queue@ =~= q.drop_first() + ch_before[x]@);
                    } else {
                        assert(ch_before =~= pending_children@);
                        assert(queue@ =~= q.drop_first());
                    }
                }
                assert(full == emitted.push(x) + removal_order(pending_children@, queue@)) by {
                    assert(emitted + (seq![x] + removal_order(pending_children@, queue@))
                        =~= emitted.push(x) + removal_order(pending_children@, queue@));
                }
                assert(self.nodes@.contains_key(x));
                assert(self.node_map()[x] == self.nodes@[x]@);
                assert(self.parent_map()[x] == self.parents@[x]);
                assert(event@ =~= emitted.push(x).map_values(|z: u64| self.created_now(z)));
                emitted = emitted.push(x);
            }
        }
        proof {
            assert(removal_order(pending_children@, queue@) =~= Seq::<u64>::empty());
            assert(full =~= emitted);
            assert(self.child_map()[ROOT_NODE_RAW] == root_seq);
        }
        event
    }

    /// The identity the next created node gets.
    pub fn next_node_id(&self) -> (r: u64)
        ensures
            r == self.spec_next_node_id(),
    {
        self.next_node_id
    }

    /// Whether the world knows connection `c`.
    pub fn has_connection(&self, c: ConnectionId) -> (r: bool)
        ensures
            r == self.connection_map().contains_key(c.0),
    {
        self.connections.contains_key(&c.0)
    }

    /// The connection that owns node `id`, if any.
    pub fn owner_of(&self, id: NodeId) -> (r: Option<ConnectionId>)
        ensures
            r == if self.owner_map().contains_key(id.0) {
                Some(ConnectionId(self.owner_map()[id.0]))
            } else {
                None
            },
    {
        match self.connection_by_node.get(&id.0) {
            Some(c) => Some(ConnectionId(*c)),
            None => None,
        }
    }

    /// Whether node `id` can have children: it is an element of the world.
    pub fn has_children_list(&self, id: NodeId) -> (r: bool)
        ensures
            r == self.child_map().contains_key(id.0),
    {
        self.children.contains_key(&id.0)
    }

    /// A tree held by nodes from `lo` on stays held while no node from `lo`
    /// on changes its content or children.
    proof fn lemma_holds_frame(w1: World, w2: World, id: u64, n: Node, lo: u64)
        requires
            w1.wf(),
            holds_tree(w1, id, n),
            id >= lo,
            forall|z: u64| #[trigger] w1.nodes@.contains_key(z) && z >= lo ==> w2.nodes@.contains_key(z)
                && w2.nodes@[z]@ == w1.nodes@[z]@,
            forall|z: u64| #[trigger] w1.children@.contains_key(z) && z >= lo ==> w2.children@.contains_key(z)
                && w2.children@[z]@ == w1.children@[z]@,
        ensures
            holds_tree(w2, id, n),
        decreases n,
    {
        assert(w1.nodes@.contains_key(id));
        match n {
            Node::Text(_) => {},
            Node::Element(e) => {
                assert(w1.children@.contains_key(id));
                assert(w2.child_map()[id] == w1.child_map()[id]);
                assert forall|i: int| 0 <= i < e.children@.len() implies holds_tree(w2, #[trigger] w2.child_map()[id][i],
                    e.children@[i]) by {
                    let c = w1.child_map()[id][i];
                    assert(w1.parents@.contains_key(w1.children@[id]@[i]));
                    assert(c > id);
                    assert(holds_tree(w1, w1.child_map()[id][i], e.children@[i]));
                    World::lemma_holds_frame(w1, w2, c, e.children@[i], lo);
                }
            },
        }
    }

    /// After a breadth-first placement of `node` from identity `next` on,
    /// the node placed `k`-th holds the `k`-th tree of the placement.
    proof fn lemma_placed_holds(w: World, w0: World, node: Node, parent: u64, next: int, k: int)
        requires
            w.wf(),
            w0.wf(),
            next == w0.next_node_id,
            parent < next,
            next + tree_size(node) <= u64::MAX,
            0 <= k < tree_size(node),
            forall|j: int| 0 <= j < tree_size(node) ==> #[trigger] w.nodes@.contains_key((next + j) as u64)
                && w.nodes@[(next + j) as u64]@ == bfs_entries(seq![(node, parent)], next)[j].0,
            forall|p: u64| #[trigger] w.children@.contains_key(p) ==> w.children@[p]@ == list_or_empty(w0.child_map(), p)
                + placed_children(bfs_entries(seq![(node, parent)], next), next, p),
        ensures
            holds_tree(w, (next + k) as u64, bfs_trees(seq![(node, parent)], next)[k]),
        decreases bfs_trees(seq![(node, parent)], next)[k],
    {
        let q = seq![(node, parent)];
        let e = bfs_entries(q, next);
        let t = bfs_trees(q, next);
        lemma_bfs_len(q, next);
        crate::tree::lemma_bfs_trees_len(q, next);
        assert(queue_size(q) == tree_size(node)) by {
            assert(q.drop_first() =~= Seq::<(Node, u64)>::empty());
            assert(queue_size(Seq::<(Node, u64)>::empty()) == 0);
        }
        crate::shape::lemma_bfs_shape(q, next);
        let id = (next + k) as u64;
        assert(w.nodes@.contains_key(id));
        assert(w.nodes@[id]@ == flat_of(t[k]));
        match t[k] {
            Node::Text(_) => {},
            Node::Element(el) => {
                assert(w.children@.contains_key(id)) by {
                    assert(w.nodes@[id]@ is Element);
                }
                assert(!w0.children@.contains_key(id)) by {
                    if w0.children@.contains_key(id) {
                        assert(w0.nodes@.contains_key(id));
                    }
                }
                let pc = placed_children(e, next, id);
                assert(w.child_map()[id] == pc) by {
                    assert(list_or_empty(w0.child_map(), id) =~= Seq::<u64>::empty());
                    assert(Seq::<u64>::empty() + pc =~= pc);
                }
                assert(pc.map_values(|z: u64| t[z - next]) == el.children@);
                assert forall|i: int| 0 <= i < el.children@.len() implies holds_tree(w, #[trigger] w.child_map()[id][i],
                    el.children@[i]) by {
                    let z = pc[i];
                    assert(next <= z < next + t.len());
                    assert(t[z - next] == el.children@[i]);
                    assert(((next + (z - next)) as u64) == z);
                    World::lemma_placed_holds(w, w0, node, parent, next, z - next);
                }
            },
        }
    }

    /// [`World::lemma_holds_frame`] for every new node of a list that holds
    /// the tree at its position.
    proof fn lemma_holds_seq_frame(w1: World, w2: World, ids: Seq<u64>, trees: Seq<Node>, lo: u64)
        requires
            w1.wf(),
            ids.len() <= trees.len(),
            forall|k: int| 0 <= k < ids.len() && #[trigger] ids[k] >= lo ==> holds_tree(w1, ids[k], trees[k]),
            forall|z: u64| #[trigger] w1.nodes@.contains_key(z) && z >= lo ==> w2.nodes@.contains_key(z)
                && w2.nodes@[z]@ == w1.nodes@[z]@,
            forall|z: u64| #[trigger] w1.children@.contains_key(z) && z >= lo ==> w2.children@.contains_key(z)
                && w2.children@[z]@ == w1.children@[z]@,
        ensures
            forall|k: int| 0 <= k < ids.len() && #[trigger] ids[k] >= lo ==> holds_tree(w2, ids[k], trees[k]),
    {
        assert forall|k: int| 0 <= k < ids.len() && #[trigger] ids[k] >= lo implies holds_tree(w2, ids[k], trees[k]) by {
            World::lemma_holds_frame(w1, w2, ids[k], trees[k], lo);
        }
    }

    /// Appending a tree under `m` leaves the content and children of every
    /// node from `lo` on as they were, when `m` is below `lo` and `lo` is at
    /// most the first new identity.
    proof fn lemma_append_frame(before: World, after: World, node: Node, m: u64, lo: u64)
        requires
            before.wf(),
            after.wf(),
            m < lo,
            lo <= before.next_node_id,
            before.children@.contains_key(m),
            ({
                let next = before.next_node_id as int;
                let entries = bfs_entries(seq![(node, m)], next);
                &&& forall|k: int| 1 <= k < entries.len() ==> #[trigger] entries[k].1 >= next
                &&& entries.len() > 0 ==> entries[0].1 == m
                &&& forall|n: u64| #[trigger] before.nodes@.contains_key(n) ==> after.nodes@.contains_key(n)
                    && after.nodes@[n] == before.nodes@[n]
                &&& forall|p: u64| #[trigger] after.children@.contains_key(p) ==> after.children@[p]@
                    == list_or_empty(before.child_map(), p) + placed_children(entries, next, p)
            }),
        ensures
            forall|z: u64| #[trigger] before.nodes@.contains_key(z) && z >= lo ==> after.nodes@.contains_key(z)
                && after.nodes@[z]@ == before.nodes@[z]@,
            forall|z: u64| #[trigger] before.children@.contains_key(z) && z >= lo ==> after.children@.contains_key(z)
                && after.children@[z]@ == before.children@[z]@,
    {
        let next = before.next_node_id as int;
        let entries = bfs_entries(seq![(node, m)], next);
        assert forall|z: u64| #[trigger] before.children@.contains_key(z) && z >= lo implies after.children@.contains_key(z)
            && after.children@[z]@ == before.children@[z]@ by {
            assert(before.nodes@.contains_key(z) && before.nodes@[z]@ is Element);
            assert(after.nodes@.contains_key(z));
            assert(after.children@.contains_key(z));
            assert(z < next);
            assert forall|k: int| 0 <= k < entries.len() implies #[trigger] entries[k].1 != z by {
                if k >= 1 {
                    assert(entries[k].1 >= next);
                }
            }
            lemma_placed_children_none(entries, next, z);
            assert(before.child_map()[z] == before.children@[z]@);
            assert(after.children@[z]@ =~= before.children@[z]@);
        }
    }
}


/// Whether the child list of `p` in `cm` holds `c` at position `i`.
pub open spec fn listed_at(cm: Map<u64, Seq<u64>>, c: u64, p: u64, i: int) -> bool {
    &&& cm.contains_key(p)
    &&& 0 <= i < cm[p].len()
    &&& cm[p][i] == c
}

/// Whether place `(p, i)` comes no later than `(q, j)`: by parent, then by position.
pub open spec fn place_le(p: u64, i: int, q: u64, j: int) -> bool {
    p < q || (p == q && i <= j)
}

impl World {
    /// The nodes of each connection, as the world groups them.
    pub closed spec fn conn_nodes_map(&self) -> Map<u64, Set<u64>> {
        Map::new(|c: u64| self.nodes_by_connection@.contains_key(c), |c: u64| self.nodes_by_connection@[c]@)
    }

    /// Whether the world's maps agree with one another: every node but the
    /// root has an owner and a parent; a text node has no child list; every
    /// child list belongs to a node and lists nodes; the parent map is what
    /// the child lists give (a node listed more than once takes its last
    /// place, by parent and then by position); and the grouping by
    /// connection is what the owner map gives.
    pub open spec fn internally_consistent(&self) -> bool {
        let nm = self.node_map();
        let pm = self.parent_map();
        let cm = self.child_map();
        let om = self.owner_map();
        let gm = self.conn_nodes_map();
        &&& forall|n: u64| #[trigger] nm.contains_key(n) && n != ROOT_NODE_RAW ==> om.contains_key(n)
            && pm.contains_key(n)
        &&& forall|n: u64| #[trigger] nm.contains_key(n) && nm[n] is Text ==> !cm.contains_key(n)
        &&& forall|p: u64| #[trigger] cm.contains_key(p) ==> nm.contains_key(p)
        &&& forall|p: u64, i: int| #![trigger cm[p][i]] cm.contains_key(p) && 0 <= i < cm[p].len() ==> nm.contains_key(
            cm[p][i])
        &&& forall|c: u64| #[trigger] pm.contains_key(c) ==> listed_at(cm, c, pm[c].0, pm[c].1 as int)
        &&& forall|c: u64, p: u64, i: int| #[trigger] listed_at(cm, c, p, i) ==> pm.contains_key(c) && place_le(
            p,
            i,
            pm[c].0,
            pm[c].1 as int,
        )
        &&& forall|n: u64| #[trigger] nm.contains_key(n) && n != ROOT_NODE_RAW ==> gm.contains_key(om[n])
            && gm[om[n]].contains(n)
        &&& forall|g: u64| #[trigger] gm.contains_key(g) ==> !gm[g].is_empty() && forall|x: u64| #[trigger]
            gm[g].contains(x) ==> nm.contains_key(x) && x != ROOT_NODE_RAW && om.contains_key(x) && om[x] == g
    }

    /// A well-formed world is internally consistent.
    pub proof fn lemma_wf_consistent(&self)
        requires
            self.wf(),
        ensures
            self.internally_consistent(),
    {
        let nm = self.node_map();
        let cm = self.child_map();
        let pm = self.parent_map();
        let om = self.owner_map();
        let gm = self.conn_nodes_map();
        assert forall|n: u64| #[trigger] nm.contains_key(n) && n != ROOT_NODE_RAW implies om.contains_key(n)
            && pm.contains_key(n) by {
            assert(self.nodes@.contains_key(n));
        }
        assert forall|n: u64| #[trigger] nm.contains_key(n) && nm[n] is Text implies !cm.contains_key(n) by {
            assert(self.nodes@.contains_key(n));
            if self.children@.contains_key(n) {
                assert(self.nodes@[n]@ is Element);
            }
        }
        assert forall|p: u64| #[trigger] cm.contains_key(p) implies nm.contains_key(p) by {
            assert(self.children@.contains_key(p));
        }
        assert forall|p: u64, i: int| #![trigger cm[p][i]] cm.contains_key(p) && 0 <= i < cm[p].len() implies nm.contains_key(
            cm[p][i]) by {
            assert(self.children@[p]@[i] == cm[p][i]);
            assert(self.parents@.contains_key(self.children@[p]@[i]));
        }
        assert forall|c: u64| #[trigger] pm.contains_key(c) implies listed_at(cm, c, pm[c].0, pm[c].1 as int) by {
            assert(self.parents@.contains_key(c));
        }
        assert forall|c: u64, p: u64, i: int| #[trigger] listed_at(cm, c, p, i) implies pm.contains_key(c) && place_le(
            p,
            i,
            pm[c].0,
            pm[c].1 as int,
        ) by {
            assert(self.children@[p]@[i] == c);
        }
        assert forall|n: u64| #[trigger] nm.contains_key(n) && n != ROOT_NODE_RAW implies gm.contains_key(om[n])
            && gm[om[n]].contains(n) by {
            assert(self.nodes@.contains_key(n));
            assert(self.connection_by_node@.contains_key(n));
            let c = self.connection_by_node@[n];
            assert(self.nodes_by_connection@.contains_key(c));
            assert(self.nodes_by_connection@[c]@.contains(n));
        }
        assert forall|g: u64| #[trigger] gm.contains_key(g) implies !gm[g].is_empty() && forall|x: u64| #[trigger]
            gm[g].contains(x) ==> nm.contains_key(x) && x != ROOT_NODE_RAW && om.contains_key(x) && om[x] == g by {
            assert(self.nodes_by_connection@[g]@ != Set::<u64>::empty());
            assert(gm[g] == self.nodes_by_connection@[g]@);
            assert forall|x: u64| #[trigger] gm[g].contains(x) implies nm.contains_key(x) && x != ROOT_NODE_RAW
                && om.contains_key(x) && om[x] == g by {
                assert(self.nodes_by_connection@[g]@.contains(x));
                assert(self.connection_by_node@.contains_key(x));
            }
        }
    }

    /// What the check of node `n` asks: an owner, a parent and a group
    /// holding it for a node other than the root, and no child list for a
    /// text node.
    spec fn node_checked(&self, n: u64) -> bool {
        &&& n != ROOT_NODE_RAW ==> {
            &&& self.connection_by_node@.contains_key(n)
            &&& self.parents@.contains_key(n)
            &&& self.nodes_by_connection@.contains_key(self.connection_by_node@[n])
            &&& self.nodes_by_connection@[self.connection_by_node@[n]]@.contains(n)
        }
        &&& self.nodes@[n]@ is Text ==> !self.children@.contains_key(n)
    }

    /// Checks every node.
    fn check_nodes(&self) -> (r: bool)
        ensures
            r == forall|n: u64| #[trigger] self.nodes@.contains_key(n) ==> self.node_checked(n),
    {
        let ghost v = vstd::std_specs::btree::spec_btree_map_iter(&self.nodes).remaining();
        for item in it: self.nodes.iter()
            invariant
                it.seq() == v,
                forall|k: int| 0 <= k < it.index() ==> self.node_checked(*#[trigger] v[k].0),
        {
            let ghost k = it.index();
            let (id, node) = item;
            let n = *id;
            proof {
                assert(item == v[k]);
                assert(self.nodes@.contains_key(*v[k].0) && self.nodes@[*v[k].0] == *v[k].1);
            }
            if n != ROOT_NODE_RAW {
                let c = match self.connection_by_node.get(&n) {
                    Some(c) => *c,
                    None => {
                        return false;
                    },
                };
                if !self.parents.contains_key(&n) {
                    return false;
                }
                match self.nodes_by_connection.get(&c) {
                    Some(set) => {
                        if !set.contains(&n) {
                            return false;
                        }
                    },
                    None => {
                        return false;
                    },
                }
            }
            if !node.is_element() && self.children.contains_key(&n) {
                return false;
            }
        }
        proof {
            assert forall|n: u64| #[trigger] self.nodes@.contains_key(n) implies self.node_checked(n) by {
                assert(v.contains((&n, &self.nodes@[n])));
                let k = choose|k: int| 0 <= k < v.len() && v[k] == (&n, &self.nodes@[n]);
                assert(*v[k].0 == n);
            }
        }
        true
    }

    /// What the check of place `i` in the child list of `p` asks: the child
    /// exists, and its parent entry names this place or a later one.
    spec fn child_checked(&self, p: u64, i: int) -> bool {
        let c = self.children@[p]@[i];
        &&& self.nodes@.contains_key(c)
        &&& self.parents@.contains_key(c)
        &&& place_le(p, i, self.parents@[c].0, self.parents@[c].1 as int)
    }

    /// Checks one child list.
    fn check_child_list(&self, p: u64, kids: &Vec<u64>) -> (r: bool)
        requires
            self.children@.contains_key(p),
            self.children@[p] == *kids,
        ensures
            r == forall|i: int| 0 <= i < kids@.len() ==> #[trigger] self.child_checked(p, i),
    {
        let len = kids.len();
        for i in 0..len
            invariant
                len == kids@.len(),
                self.children@.contains_key(p),
                self.children@[p] == *kids,
                forall|j: int| 0 <= j < i ==> #[trigger] self.child_checked(p, j),
        {
            let c = kids[i];
            proof {
                assert(self.children@[p]@[i as int] == c);
            }
            if !self.nodes.contains_key(&c) {
                assert(!self.child_checked(p, i as int));
                return false;
            }
            match self.parents.get(&c) {
                Some(place) => {
                    let (q, j) = *place;
                    if !(p < q || (p == q && i <= j)) {
                        assert(!self.child_checked(p, i as int));
                        return false;
                    }
                },
                None => {
                    assert(!self.child_checked(p, i as int));
                    return false;
                },
            }
        }
        true
    }

    /// Checks every child list.
    fn check_children(&self) -> (r: bool)
        ensures
            r == forall|p: u64| #[trigger] self.children@.contains_key(p) ==> self.nodes@.contains_key(p) && forall|i: int|
                0 <= i < self.children@[p]@.len() ==> #[trigger] self.child_checked(p, i),
    {
        let ghost v = vstd::std_specs::btree::spec_btree_map_iter(&self.children).remaining();
        for item in it: self.children.iter()
            invariant
                it.seq() == v,
                forall|k: int| 0 <= k < it.index() ==> {
                    let p = *#[trigger] v[k].0;
                    self.nodes@.contains_key(p) && forall|i: int| 0 <= i < self.children@[p]@.len() ==> #[trigger] self.child_checked(p, i)
                },
        {
            let ghost k = it.index();
            let (id, kids) = item;
            let p = *id;
            proof {
                assert(item == v[k]);
                assert(self.children@.contains_key(*v[k].0) && self.children@[*v[k].0] == *v[k].1);
            }
            if !self.nodes.contains_key(&p) {
                return false;
            }
            if !self.check_child_list(p, kids) {
                return false;
            }
        }
        proof {
            assert forall|p: u64| #[trigger] self.children@.contains_key(p) implies self.nodes@.contains_key(p) && forall|i: int|
                0 <= i < self.children@[p]@.len() ==> #[trigger] self.child_checked(p, i) by {
                assert(v.contains((&p, &self.children@[p])));
                let k = choose|k: int| 0 <= k < v.len() && v[k] == (&p, &self.children@[p]);
                assert(*v[k].0 == p);
            }
        }
        true
    }

    /// Checks that every parent entry names a place that holds its node.
    fn check_parents(&self) -> (r: bool)
        ensures
            r == forall|c: u64| #[trigger] self.parents@.contains_key(c) ==> listed_at(
                self.child_map(),
                c,
                self.parents@[c].0,
                self.parents@[c].1 as int,
            ),
    {
        let ghost v = vstd::std_specs::btree::spec_btree_map_iter(&self.parents).remaining();
        for item in it: self.parents.iter()
            invariant
                it.seq() == v,
                forall|k: int| 0 <= k < it.index() ==> {
                    let c = *#[trigger] v[k].0;
                    listed_at(self.child_map(), c, self.parents@[c].0, self.parents@[c].1 as int)
                },
        {
            let ghost k = it.index();
            let (id, place) = item;
            let c = *id;
            let (p, i) = *place;
            proof {
                assert(item == v[k]);
                assert(self.parents@.contains_key(*v[k].0) && self.parents@[*v[k].0] == *v[k].1);
            }
            match self.children.get(&p) {
                Some(kids) => {
                    if !(i < kids.len() && kids[i] == c) {
                        return false;
                    }
                },
                None => {
                    return false;
                },
            }
        }
        proof {
            assert forall|c: u64| #[trigger] self.parents@.contains_key(c) implies listed_at(
                self.child_map(),
                c,
                self.parents@[c].0,
                self.parents@[c].1 as int,
            ) by {
                assert(v.contains((&c, &self.parents@[c])));
                let k = choose|k: int| 0 <= k < v.len() && v[k] == (&c, &self.parents@[c]);
                assert(*v[k].0 == c);
            }
        }
        true
    }

    /// What the check of member `x` of the group of `g` asks.
    spec fn member_checked(&self, g: u64, x: u64) -> bool {
        &&& self.nodes@.contains_key(x)
        &&& x != ROOT_NODE_RAW
        &&& self.connection_by_node@.contains_key(x)
        &&& self.connection_by_node@[x] == g
    }

    /// Checks one group.
    fn check_group(&self, g: u64, set: &BTreeSet<u64>) -> (r: bool)
        ensures
            r == (!set@.is_empty() && forall|x: u64| #[trigger] set@.contains(x) ==> self.member_checked(g, x)),
    {
        if set.is_empty() {
            return false;
        }
        let ghost v = vstd::std_specs::btree::spec_btree_keys_iter(set).remaining();
        for item in it: set.iter()
            invariant
                it.seq() == v,
                v.unref().to_set() == set@,
                forall|k: int| 0 <= k < it.index() ==> self.member_checked(g, *#[trigger] v[k]),
        {
            let ghost k = it.index();
            let x = *item;
            proof {
                assert(item == v[k]);
                assert(v.unref()[k] == x);
                assert(v.unref().contains(x));
                assert(set@.contains(x));
            }
            if !self.nodes.contains_key(&x) || x == ROOT_NODE_RAW {
                return false;
            }
            match self.connection_by_node.get(&x) {
                Some(c) => {
                    if *c != g {
                        return false;
                    }
                },
                None => {
                    return false;
                },
            }
        }
        proof {
            assert forall|x: u64| #[trigger] set@.contains(x) implies self.member_checked(g, x) by {
                assert(v.unref().to_set().contains(x));
                let k = choose|k: int| 0 <= k < v.unref().len() && v.unref()[k] == x;
                assert(*v[k] == x);
            }
        }
        true
    }

    /// Checks every group.
    fn check_groups(&self) -> (r: bool)
        ensures
            r == forall|g: u64| #[trigger] self.nodes_by_connection@.contains_key(g) ==> !self.nodes_by_connection@[g]@.is_empty()
                && forall|x: u64| #[trigger] self.nodes_by_connection@[g]@.contains(x) ==> self.member_checked(g, x),
    {
        let ghost v = vstd::std_specs::btree::spec_btree_map_iter(&self.nodes_by_connection).remaining();
        for item in it: self.nodes_by_connection.iter()
            invariant
                it.seq() == v,
                forall|k: int| 0 <= k < it.index() ==> {
                    let g = *#[trigger] v[k].0;
                    !self.nodes_by_connection@[g]@.is_empty() && forall|x: u64| #[trigger] self.nodes_by_connection@[g]@.contains(x)
                        ==> self.member_checked(g, x)
                },
        {
            let ghost k = it.index();
            let (id, set) = item;
            let g = *id;
            proof {
                assert(item == v[k]);
                assert(self.nodes_by_connection@.contains_key(*v[k].0) && self.nodes_by_connection@[*v[k].0] == *v[k].1);
            }
            if !self.check_group(g, set) {
                return false;
            }
        }
        proof {
            assert forall|g: u64| #[trigger] self.nodes_by_connection@.contains_key(g) implies !self.nodes_by_connection@[g]@.is_empty()
                && forall|x: u64| #[trigger] self.nodes_by_connection@[g]@.contains(x) ==> self.member_checked(g, x) by {
                assert(v.contains((&g, &self.nodes_by_connection@[g])));
                let k = choose|k: int| 0 <= k < v.len() && v[k] == (&g, &self.nodes_by_connection@[g]);
                assert(*v[k].0 == g);
            }
        }
        true
    }

    /// Checks that the world's maps agree with one another, as
    /// `internally_consistent` says.
    pub fn is_internally_consistent(&self) -> (r: bool)
        ensures
            r == self.internally_consistent(),
    {
        let ok = self.check_nodes() && self.check_children() && self.check_parents() && self.check_groups();
        proof {
            let nm = self.node_map();
            let cm = self.child_map();
            let pm = self.parent_map();
            let om = self.owner_map();
            let gm = self.conn_nodes_map();
            if ok {
                assert forall|p: u64, i: int| #![trigger cm[p][i]] cm.contains_key(p) && 0 <= i < cm[p].len() implies nm.contains_key(
                    cm[p][i]) by {
                    assert(self.child_checked(p, i));
                }
                assert forall|c: u64, p: u64, i: int| #[trigger] listed_at(cm, c, p, i) implies pm.contains_key(c) && place_le(
                    p,
                    i,
                    pm[c].0,
                    pm[c].1 as int,
                ) by {
                    assert(self.child_checked(p, i));
                }
                assert forall|n: u64| #[trigger] nm.contains_key(n) && n != ROOT_NODE_RAW implies om.contains_key(n) && pm.contains_key(n)
                    && gm.contains_key(om[n]) && gm[om[n]].contains(n) by {
                    assert(self.node_checked(n));
                }
                assert forall|n: u64| #[trigger] nm.contains_key(n) && nm[n] is Text implies !cm.contains_key(n) by {
                    assert(self.node_checked(n));
                }
                assert forall|g: u64| #[trigger] gm.contains_key(g) implies !gm[g].is_empty() && forall|x: u64| #[trigger]
                    gm[g].contains(x) ==> nm.contains_key(x) && x != ROOT_NODE_RAW && om.contains_key(x) && om[x] == g by {
                    assert(gm[g] == self.nodes_by_connection@[g]@);
                    assert forall|x: u64| #[trigger] gm[g].contains(x) implies nm.contains_key(x) && x != ROOT_NODE_RAW
                        && om.contains_key(x) && om[x] == g by {
                        assert(self.member_checked(g, x));
                    }
                }
            } else {
                if self.internally_consistent() {
                    assert forall|n: u64| #[trigger] self.nodes@.contains_key(n) implies self.node_checked(n) by {
                        assert(nm.contains_key(n));
                        if n != ROOT_NODE_RAW {
                            assert(gm.contains_key(om[n]));
                        }
                    }
                    assert forall|p: u64| #[trigger] self.children@.contains_key(p) implies self.nodes@.contains_key(p)
                        && forall|i: int| 0 <= i < self.children@[p]@.len() ==> #[trigger] self.child_checked(p, i) by {
                        assert(cm.contains_key(p));
                        assert forall|i: int| 0 <= i < self.children@[p]@.len() implies #[trigger] self.child_checked(p, i) by {
                            assert(cm[p][i] == self.children@[p]@[i]);
                            assert(listed_at(cm, cm[p][i], p, i));
                        }
                    }
                    assert forall|c: u64| #[trigger] self.parents@.contains_key(c) implies listed_at(
                        cm,
                        c,
                        self.parents@[c].0,
                        self.parents@[c].1 as int,
                    ) by {
                        assert(pm.contains_key(c));
                    }
                    assert forall|g: u64| #[trigger] self.nodes_by_connection@.contains_key(g) implies !self.nodes_by_connection@[g]@.is_empty()
                        && forall|x: u64| #[trigger] self.nodes_by_connection@[g]@.contains(x) ==> self.member_checked(g, x) by {
                        assert(gm.contains_key(g));
                        assert(gm[g] == self.nodes_by_connection@[g]@);
                    }
                }
            }
        }
        ok
    }

    /// A well-formed world passes its consistency check.
    pub fn assert_internally_consistent(&self)
        requires
            self.wf(),
        ensures
            self.internally_consistent(),
    {
        let ok = self.is_internally_consistent();
        proof {
            self.lemma_wf_consistent();
        }
        assert(ok);
    }
}

} // verus!
