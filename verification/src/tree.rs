use vstd::prelude::*;
use crate::node::{FlatNodeView, Node, flat_of};

verus! {

broadcast use vstd::std_specs::vec::axiom_vec_decreases_to_view;

/// The number of nodes in a tree.
pub open spec fn tree_size(n: Node) -> nat
    decreases n,
{
    match n {
        Node::Text(_) => 1,
        Node::Element(e) => 1 + forest_size(e.children@),
    }
}

/// The number of nodes in a sequence of trees.
pub open spec fn forest_size(s: Seq<Node>) -> nat
    decreases s,
{
    if s.len() == 0 {
        0
    } else {
        tree_size(s[0]) + forest_size(s.drop_first())
    }
}

/// The children of a tree's root, each paired with the identity `id` of that root.
pub open spec fn kid_entries(n: Node, id: u64) -> Seq<(Node, u64)> {
    match n {
        Node::Text(_) => Seq::empty(),
        Node::Element(e) => e.children@.map_values(|c: Node| (c, id)),
    }
}

/// The number of nodes in a queue of trees waiting to be placed.
pub open spec fn queue_size(q: Seq<(Node, u64)>) -> nat
    decreases q.len(),
{
    if q.len() == 0 {
        0
    } else {
        tree_size(q[0].0) + queue_size(q.drop_first())
    }
}

pub proof fn lemma_queue_size_append(a: Seq<(Node, u64)>, b: Seq<(Node, u64)>)
    ensures
        queue_size(a + b) == queue_size(a) + queue_size(b),
    decreases a.len(),
{
    if a.len() == 0 {
        assert(a + b =~= b);
    } else {
        assert((a + b).drop_first() =~= a.drop_first() + b);
        lemma_queue_size_append(a.drop_first(), b);
    }
}

pub proof fn lemma_queue_size_forest(s: Seq<Node>, id: u64)
    ensures
        queue_size(s.map_values(|c: Node| (c, id))) == forest_size(s),
    decreases s.len(),
{
    if s.len() > 0 {
        assert(s.map_values(|c: Node| (c, id)).drop_first() =~= s.drop_first().map_values(|c: Node| (c, id)));
        lemma_queue_size_forest(s.drop_first(), id);
    }
}

/// Taking the first tree off a queue and queueing its children leaves one node fewer.
pub proof fn lemma_queue_size_step(q: Seq<(Node, u64)>, id: u64)
    requires
        q.len() > 0,
    ensures
        queue_size(q.drop_first() + kid_entries(q[0].0, id)) + 1 == queue_size(q),
{
    lemma_queue_size_append(q.drop_first(), kid_entries(q[0].0, id));
    match q[0].0 {
        Node::Text(_) => {},
        Node::Element(e) => {
            lemma_queue_size_forest(e.children@, id);
        },
    }
}

/// The nodes of a queue of trees in breadth-first order, as they are placed
/// in the world: each is paired with the identity of its parent. The first
/// node placed gets identity `next`, the one after it `next + 1`, and so on;
/// the children of a node are queued behind the nodes already waiting.
pub open spec fn bfs_entries(q: Seq<(Node, u64)>, next: int) -> Seq<(FlatNodeView, u64)>
    decreases queue_size(q),
{
    if q.len() == 0 {
        Seq::empty()
    } else {
        proof {
            lemma_queue_size_step(q, next as u64);
        }
        seq![(flat_of(q[0].0), q[0].1)] + bfs_entries(q.drop_first() + kid_entries(q[0].0, next as u64), next + 1)
    }
}

pub proof fn lemma_bfs_len(q: Seq<(Node, u64)>, next: int)
    ensures
        bfs_entries(q, next).len() == queue_size(q),
    decreases queue_size(q),
{
    if q.len() > 0 {
        lemma_queue_size_step(q, next as u64);
        lemma_bfs_len(q.drop_first() + kid_entries(q[0].0, next as u64), next + 1);
    }
}

/// The number of nodes in a tree, or `None` when it exceeds `u64::MAX`.
pub fn tree_size_checked(n: &Node) -> (r: Option<u64>)
    ensures
        match r {
            Some(k) => k == tree_size(*n),
            None => tree_size(*n) > u64::MAX,
        },
    decreases *n,
{
    match n {
        Node::Text(_) => Some(1),
        Node::Element(e) => match forest_size_checked(&e.children) {
            Some(k) => k.checked_add(1),
            None => None,
        },
    }
}

/// The number of nodes in a sequence of trees, or `None` when it exceeds `u64::MAX`.
pub fn forest_size_checked(s: &Vec<Node>) -> (r: Option<u64>)
    ensures
        match r {
            Some(k) => k == forest_size(s@),
            None => forest_size(s@) > u64::MAX,
        },
    decreases s@,
{
    let mut total: u64 = 0;
    let n = s.len();
    proof {
        assert(s@.skip(0) =~= s@);
    }
    for i in 0..n
        invariant
            n == s@.len(),
            total + forest_size(s@.skip(i as int)) == forest_size(s@),
    {
        proof {
            lemma_forest_skip_step(s@, i as int);
            assert(decreases_to!(s@ => s@[i as int]));
        }
        match tree_size_checked(&s[i]) {
            Some(k) => {
                match total.checked_add(k) {
                    Some(t) => {
                        total = t;
                    },
                    None => {
                        return None;
                    },
                }
            },
            None => {
                proof {
                    lemma_forest_skip_step(s@, i as int);
                }
                return None;
            },
        }
    }
    proof {
        assert(s@.skip(n as int) =~= Seq::<Node>::empty());
    }
    Some(total)
}

/// A sequence of trees is its first tree and the rest.
pub proof fn lemma_forest_skip_step(s: Seq<Node>, k: int)
    requires
        0 <= k < s.len(),
    ensures
        forest_size(s.skip(k)) == tree_size(s[k]) + forest_size(s.skip(k + 1)),
{
    assert(s.skip(k).drop_first() =~= s.skip(k + 1));
    assert(s.skip(k)[0] == s[k]);
}

/// The trees of a queue in breadth-first order, as they are placed: the
/// source of each entry of [`bfs_entries`].
pub open spec fn bfs_trees(q: Seq<(Node, u64)>, next: int) -> Seq<Node>
    decreases queue_size(q),
{
    if q.len() == 0 {
        Seq::empty()
    } else {
        proof {
            lemma_queue_size_step(q, next as u64);
        }
        seq![q[0].0] + bfs_trees(q.drop_first() + kid_entries(q[0].0, next as u64), next + 1)
    }
}

/// The trees queued under parent `p`, in queue order.
pub open spec fn kids_of(q: Seq<(Node, u64)>, p: u64) -> Seq<Node>
    decreases q.len(),
{
    if q.len() == 0 {
        Seq::empty()
    } else if q[0].1 == p {
        seq![q[0].0] + kids_of(q.drop_first(), p)
    } else {
        kids_of(q.drop_first(), p)
    }
}

pub proof fn lemma_kids_of_append(a: Seq<(Node, u64)>, b: Seq<(Node, u64)>, p: u64)
    ensures
        kids_of(a + b, p) == kids_of(a, p) + kids_of(b, p),
    decreases a.len(),
{
    if a.len() == 0 {
        assert(a + b =~= b);
        assert(kids_of(a, p) + kids_of(b, p) =~= kids_of(b, p));
    } else {
        assert((a + b).drop_first() =~= a.drop_first() + b);
        assert((a + b)[0] == a[0]);
        lemma_kids_of_append(a.drop_first(), b, p);
        if a[0].1 == p {
            assert(seq![a[0].0] + (kids_of(a.drop_first(), p) + kids_of(b, p)) =~= (seq![a[0].0] + kids_of(
                a.drop_first(),
                p,
            )) + kids_of(b, p));
        }
    }
}

/// The children queued by a node placed as `id` are its kids under `id` and
/// nobody else's.
pub proof fn lemma_kids_of_kid_entries(n: Node, id: u64, p: u64)
    ensures
        kids_of(kid_entries(n, id), p) == if p == id {
            match n {
                Node::Element(e) => e.children@,
                Node::Text(_) => Seq::<Node>::empty(),
            }
        } else {
            Seq::<Node>::empty()
        },
{
    match n {
        Node::Text(_) => {
            assert(kid_entries(n, id) =~= Seq::<(Node, u64)>::empty());
        },
        Node::Element(e) => {
            lemma_kids_of_mapped(e.children@, id, p);
        },
    }
}

pub proof fn lemma_kids_of_mapped(s: Seq<Node>, id: u64, p: u64)
    ensures
        kids_of(s.map_values(|c: Node| (c, id)), p) == if p == id {
            s
        } else {
            Seq::<Node>::empty()
        },
    decreases s.len(),
{
    let m = s.map_values(|c: Node| (c, id));
    if s.len() > 0 {
        assert(m.drop_first() =~= s.drop_first().map_values(|c: Node| (c, id)));
        lemma_kids_of_mapped(s.drop_first(), id, p);
        if p == id {
            assert(seq![s[0]] + s.drop_first() =~= s);
        }
    } else {
        assert(m =~= Seq::<(Node, u64)>::empty());
    }
}

/// Queue entries whose parent is not `p` contribute nothing under `p`.
pub proof fn lemma_kids_of_none(q: Seq<(Node, u64)>, p: u64)
    requires
        forall|j: int| 0 <= j < q.len() ==> #[trigger] q[j].1 != p,
    ensures
        kids_of(q, p) == Seq::<Node>::empty(),
    decreases q.len(),
{
    if q.len() > 0 {
        lemma_kids_of_none(q.drop_first(), p);
    }
}

pub proof fn lemma_bfs_trees_len(q: Seq<(Node, u64)>, next: int)
    ensures
        bfs_trees(q, next).len() == bfs_entries(q, next).len(),
        forall|k: int| 0 <= k < bfs_trees(q, next).len() ==> #[trigger] bfs_entries(q, next)[k].0 == flat_of(
            bfs_trees(q, next)[k]),
        q.len() > 0 ==> bfs_trees(q, next)[0] == q[0].0,
    decreases queue_size(q),
{
    if q.len() > 0 {
        lemma_queue_size_step(q, next as u64);
        let q2 = q.drop_first() + kid_entries(q[0].0, next as u64);
        lemma_bfs_trees_len(q2, next + 1);
        let t = bfs_trees(q, next);
        let e = bfs_entries(q, next);
        assert forall|k: int| 0 <= k < t.len() implies #[trigger] e[k].0 == flat_of(t[k]) by {
            if k > 0 {
                assert(t[k] == bfs_trees(q2, next + 1)[k - 1]);
                assert(e[k] == bfs_entries(q2, next + 1)[k - 1]);
            }
        }
    }
}

} // verus!
