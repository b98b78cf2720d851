use vstd::prelude::*;
use crate::node::{FlatNodeView, Node};
use crate::tree::{bfs_entries, bfs_trees, kids_of, lemma_bfs_trees_len, lemma_kids_of_append, lemma_kids_of_kid_entries,
    lemma_kids_of_none, lemma_bfs_len, lemma_queue_size_step, queue_size, kid_entries};
use crate::world::placed_children;

verus! {

/// Placing one more entry in front shifts the identities of the rest by one.
pub proof fn lemma_placed_front(e0: (FlatNodeView, u64), rest: Seq<(FlatNodeView, u64)>, next: int, p: u64)
    ensures
        placed_children(seq![e0] + rest, next, p) == (if e0.1 == p {
            seq![next as u64]
        } else {
            Seq::<u64>::empty()
        }) + placed_children(rest, next + 1, p),
    decreases rest.len(),
{
    let all = seq![e0] + rest;
    let front = if e0.1 == p {
        seq![next as u64]
    } else {
        Seq::<u64>::empty()
    };
    if rest.len() == 0 {
        assert(all =~= seq![e0]);
        assert(all.drop_last() =~= Seq::<(FlatNodeView, u64)>::empty());
        assert(placed_children(Seq::<(FlatNodeView, u64)>::empty(), next, p) =~= Seq::<u64>::empty());
        assert(placed_children(rest, next + 1, p) =~= Seq::<u64>::empty());
        if e0.1 == p {
            assert(placed_children(all, next, p) =~= Seq::<u64>::empty().push((next + 1 - 1) as u64));
        }
        assert(front + placed_children(rest, next + 1, p) =~= front);
    } else {
        assert(all.drop_last() =~= seq![e0] + rest.drop_last());
        assert(all.last() == rest.last());
        lemma_placed_front(e0, rest.drop_last(), next, p);
        if rest.last().1 == p {
            assert(front + placed_children(rest.drop_last(), next + 1, p).push((next + 1 + rest.len() - 1) as u64)
                =~= (front + placed_children(rest.drop_last(), next + 1, p)).push((next + all.len() - 1) as u64));
        }
    }
}

/// The shape that placing a queue of trees breadth first gives: under a
/// parent from before the placement, the new children hold, in order, the
/// trees queued under it; under a placed element, the new children hold,
/// in order, the element's children.
pub proof fn lemma_bfs_shape(q: Seq<(Node, u64)>, next: int)
    requires
        forall|j: int| 0 <= j < q.len() ==> #[trigger] q[j].1 < next,
        0 <= next,
        next + queue_size(q) <= u64::MAX + 1,
    ensures
        ({
            let e = bfs_entries(q, next);
            let t = bfs_trees(q, next);
            &&& forall|p: u64| p < next ==> (#[trigger] placed_children(e, next, p)).map_values(|z: u64| t[z - next])
                == kids_of(q, p)
            &&& forall|k: int| 0 <= k < t.len() && #[trigger] t[k] is Element ==> placed_children(e, next, (next
                + k) as u64).map_values(|z: u64| t[z - next]) == t[k]->Element_0.children@
            &&& forall|p: u64, i: int| 0 <= i < placed_children(e, next, p).len() ==> next <= #[trigger] placed_children(
                e,
                next,
                p,
            )[i] < next + t.len()
        }),
    decreases queue_size(q),
{
    let e = bfs_entries(q, next);
    let t = bfs_trees(q, next);
    lemma_bfs_trees_len(q, next);
    lemma_bfs_len(q, next);
    if q.len() == 0 {
        assert forall|p: u64| p < next implies (#[trigger] placed_children(e, next, p)).map_values(|z: u64| t[z - next])
            == kids_of(q, p) by {
            assert(e =~= Seq::<(FlatNodeView, u64)>::empty());
            assert(placed_children(e, next, p) =~= Seq::<u64>::empty());
            assert(placed_children(e, next, p).map_values(|z: u64| t[z - next]) =~= Seq::<Node>::empty());
        }
        assert forall|p: u64, i: int| 0 <= i < placed_children(e, next, p).len() implies next
            <= #[trigger] placed_children(e, next, p)[i] < next + t.len() by {
            assert(e =~= Seq::<(FlatNodeView, u64)>::empty());
            assert(placed_children(e, next, p) =~= Seq::<u64>::empty());
        }
    } else {
        let q0 = q[0];
        let id = next as u64;
        lemma_queue_size_step(q, id);
        let q2 = q.drop_first() + kid_entries(q0.0, id);
        let e2 = bfs_entries(q2, next + 1);
        let t2 = bfs_trees(q2, next + 1);
        lemma_bfs_trees_len(q2, next + 1);
        assert(e == seq![(crate::node::flat_of(q0.0), q0.1)] + e2);
        assert(t == seq![q0.0] + t2);
        assert forall|j: int| 0 <= j < q2.len() implies #[trigger] q2[j].1 < next + 1 by {
            if j < q.len() - 1 {
                assert(q2[j] == q[j + 1]);
            } else {
                match q0.0 {
                    Node::Element(el) => {
                        assert(q2[j] == el.children@.map_values(|c: Node| (c, id))[j - (q.len() - 1)]);
                    },
                    Node::Text(_) => {},
                }
            }
        }
        lemma_bfs_shape(q2, next + 1);
        let e0 = (crate::node::flat_of(q0.0), q0.1);
        // identities in the rest are above `next`, where `t` is `t2` shifted by one
        assert forall|p: u64| (#[trigger] placed_children(e, next, p)).map_values(|z: u64| t[z - next]) == (if q0.1 == p {
            seq![q0.0]
        } else {
            Seq::<Node>::empty()
        }) + placed_children(e2, next + 1, p).map_values(|z: u64| t2[z - (next + 1)]) by {
            lemma_placed_front(e0, e2, next, p);
            let front = if q0.1 == p {
                seq![id]
            } else {
                Seq::<u64>::empty()
            };
            let pc2 = placed_children(e2, next + 1, p);
            assert(placed_children(e, next, p) == front + pc2);
            assert forall|i: int| 0 <= i < pc2.len() implies #[trigger] t[pc2[i] - next] == t2[pc2[i] - (next + 1)] by {
                assert(next + 1 <= pc2[i]);
            }
            assert((front + pc2).map_values(|z: u64| t[z - next]) =~= (if q0.1 == p {
                seq![q0.0]
            } else {
                Seq::<Node>::empty()
            }) + pc2.map_values(|z: u64| t2[z - (next + 1)]));
        }
        assert forall|p: u64| p < next implies (#[trigger] placed_children(e, next, p)).map_values(|z: u64| t[z - next])
            == kids_of(q, p) by {
            lemma_kids_of_append(q.drop_first(), kid_entries(q0.0, id), p);
            lemma_kids_of_kid_entries(q0.0, id, p);
            assert(kids_of(q2, p) =~= kids_of(q.drop_first(), p));
        }
        assert forall|k: int| 0 <= k < t.len() && #[trigger] t[k] is Element implies placed_children(e, next, (next
            + k) as u64).map_values(|z: u64| t[z - next]) == t[k]->Element_0.children@ by {
            let pk = (next + k) as u64;
            assert(next + k <= u64::MAX);
            assert(pk as int == next + k);
            if k == 0 {
                assert(pk == id);
                assert(q0.1 != pk);
                lemma_kids_of_append(q.drop_first(), kid_entries(q0.0, id), id);
                lemma_kids_of_kid_entries(q0.0, id, id);
                assert forall|j: int| 0 <= j < q.drop_first().len() implies #[trigger] q.drop_first()[j].1 != id by {
                    assert(q.drop_first()[j] == q[j + 1]);
                }
                lemma_kids_of_none(q.drop_first(), id);
                assert(kids_of(q2, id) =~= t[0]->Element_0.children@);
                assert(placed_children(e, next, pk).map_values(|z: u64| t[z - next]) =~= placed_children(e2, next + 1,
                    pk).map_values(|z: u64| t2[z - (next + 1)]));
            } else {
                assert(t[k] == t2[k - 1]);
                assert(q0.1 != pk);
                assert(pk == ((next + 1) + (k - 1)) as u64);
                assert(placed_children(e, next, pk).map_values(|z: u64| t[z - next]) =~= placed_children(e2, next + 1,
                    pk).map_values(|z: u64| t2[z - (next + 1)]));
            }
        }
        assert forall|p: u64, i: int| 0 <= i < placed_children(e, next, p).len() implies next
            <= #[trigger] placed_children(e, next, p)[i] < next + t.len() by {
            lemma_placed_front(e0, e2, next, p);
            let front = if q0.1 == p {
                seq![id]
            } else {
                Seq::<u64>::empty()
            };
            let pc2 = placed_children(e2, next + 1, p);
            if i >= front.len() {
                assert(placed_children(e, next, p)[i] == pc2[i - front.len()]);
            }
        }
    }
}

} // verus!
