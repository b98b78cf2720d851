use vstd::prelude::*;

verus! {

broadcast use vstd::set::group_set_axioms;

/// The nodes that deleting the nodes queued in `q` deletes, in the order it
/// deletes them: breadth first, each node followed (behind the nodes already
/// queued) by its children in `ch`. A node's child list is consumed when the
/// node is deleted, so a node queued twice does not bring its children twice.
pub open spec fn removal_order(ch: Map<u64, Vec<u64>>, q: Seq<u64>) -> Seq<u64>
    decreases ch.dom().len(), q.len(),
    when ch.dom().finite()
{
    if q.len() == 0 {
        Seq::empty()
    } else {
        let x = q[0];
        if ch.contains_key(x) {
            seq![x] + removal_order(ch.remove(x), q.drop_first() + ch[x]@)
        } else {
            seq![x] + removal_order(ch, q.drop_first())
        }
    }
}

/// `s` without the members of `r`, in order.
pub open spec fn without(s: Seq<u64>, r: Set<u64>) -> Seq<u64>
    decreases s.len(),
{
    if s.len() == 0 {
        Seq::empty()
    } else {
        let rest = without(s.drop_last(), r);
        if r.contains(s.last()) {
            rest
        } else {
            rest.push(s.last())
        }
    }
}

pub proof fn lemma_without(s: Seq<u64>, r: Set<u64>)
    ensures
        forall|i: int| 0 <= i < without(s, r).len() ==> s.contains(#[trigger] without(s, r)[i]) && !r.contains(
            without(s, r)[i],
        ),
        forall|x: u64| s.contains(x) && !r.contains(x) ==> #[trigger] without(s, r).contains(x),
        s.no_duplicates() ==> without(s, r).no_duplicates(),
        (forall|i: int| 0 <= i < s.len() ==> !r.contains(#[trigger] s[i])) ==> without(s, r) == s,
        without(s, r).len() <= s.len(),
    decreases s.len(),
{
    if s.len() > 0 {
        let t = s.drop_last();
        lemma_without(t, r);
        let w = without(t, r);
        assert forall|i: int| 0 <= i < without(s, r).len() implies s.contains(#[trigger] without(s, r)[i])
            && !r.contains(without(s, r)[i]) by {
            if i < w.len() {
                assert(t.contains(w[i]));
                let j = choose|j: int| 0 <= j < t.len() && t[j] == w[i];
                assert(s[j] == w[i]);
            } else {
                assert(s[s.len() - 1] == s.last());
            }
        }
        assert forall|x: u64| s.contains(x) && !r.contains(x) implies #[trigger] without(s, r).contains(x) by {
            let j = choose|j: int| 0 <= j < s.len() && s[j] == x;
            if j < s.len() - 1 {
                assert(t[j] == x);
                assert(w.contains(x));
                let k = choose|k: int| 0 <= k < w.len() && w[k] == x;
                assert(without(s, r)[k] == x);
            } else {
                assert(without(s, r)[without(s, r).len() - 1] == x);
            }
        }
        if s.no_duplicates() {
            assert(t.no_duplicates());
            if !r.contains(s.last()) {
                assert(!w.contains(s.last())) by {
                    if w.contains(s.last()) {
                        let k = choose|k: int| 0 <= k < w.len() && w[k] == s.last();
                        assert(t.contains(w[k]));
                        let j = choose|j: int| 0 <= j < t.len() && t[j] == w[k];
                        assert(s[j] == s[s.len() - 1]);
                    }
                }
            }
        }
        if forall|i: int| 0 <= i < s.len() ==> !r.contains(#[trigger] s[i]) {
            assert(forall|i: int| 0 <= i < t.len() ==> !r.contains(#[trigger] t[i]) ==> true);
            assert forall|i: int| 0 <= i < t.len() implies !r.contains(#[trigger] t[i]) by {
                assert(t[i] == s[i]);
            }
            assert(!r.contains(s[s.len() - 1]));
            assert(without(s, r) =~= t.push(s.last()));
            assert(t.push(s.last()) =~= s);
        }
    }
}

/// Every queued node is deleted.
pub proof fn lemma_removal_covers_queue(ch: Map<u64, Vec<u64>>, q: Seq<u64>)
    requires
        ch.dom().finite(),
    ensures
        forall|x: u64| q.contains(x) ==> #[trigger] removal_order(ch, q).contains(x),
    decreases ch.dom().len(), q.len(),
{
    if q.len() > 0 {
        let x = q[0];
        let o = removal_order(ch, q);
        if ch.contains_key(x) {
            let rest = q.drop_first() + ch[x]@;
            lemma_removal_covers_queue(ch.remove(x), rest);
            let sub = removal_order(ch.remove(x), rest);
            assert(o == seq![x] + sub);
            assert forall|y: u64| q.contains(y) implies #[trigger] o.contains(y) by {
                if y == x {
                    assert(o[0] == x);
                } else {
                    let j = choose|j: int| 0 <= j < q.len() && q[j] == y;
                    assert(rest[j - 1] == y);
                    assert(rest.contains(y));
                    assert(sub.contains(y));
                    let k = choose|k: int| 0 <= k < sub.len() && sub[k] == y;
                    assert(o[k + 1] == y);
                }
            }
        } else {
            let rest = q.drop_first();
            lemma_removal_covers_queue(ch, rest);
            let sub = removal_order(ch, rest);
            assert(o == seq![x] + sub);
            assert forall|y: u64| q.contains(y) implies #[trigger] o.contains(y) by {
                if y == x {
                    assert(o[0] == x);
                } else {
                    let j = choose|j: int| 0 <= j < q.len() && q[j] == y;
                    assert(rest[j - 1] == y);
                    assert(rest.contains(y));
                    assert(sub.contains(y));
                    let k = choose|k: int| 0 <= k < sub.len() && sub[k] == y;
                    assert(o[k + 1] == y);
                }
            }
        }
    }
}

/// When a deleted node still has a child list, its children are deleted too.
pub proof fn lemma_removal_closed(ch: Map<u64, Vec<u64>>, q: Seq<u64>)
    requires
        ch.dom().finite(),
    ensures
        forall|x: u64, c: u64| #[trigger] removal_order(ch, q).contains(x) && ch.contains_key(x)
            && #[trigger] ch[x]@.contains(c) ==> removal_order(ch, q).contains(c),
    decreases ch.dom().len(), q.len(),
{
    if q.len() > 0 {
        let x0 = q[0];
        let o = removal_order(ch, q);
        if ch.contains_key(x0) {
            let ch2 = ch.remove(x0);
            let rest = q.drop_first() + ch[x0]@;
            let sub = removal_order(ch2, rest);
            lemma_removal_closed(ch2, rest);
            lemma_removal_covers_queue(ch2, rest);
            assert(o == seq![x0] + sub);
            assert forall|x: u64, c: u64| #[trigger] o.contains(x) && ch.contains_key(x) && #[trigger] ch[x]@.contains(c)
                implies o.contains(c) by {
                let k = choose|k: int| 0 <= k < ch[x]@.len() && ch[x]@[k] == c;
                if x == x0 {
                    assert(rest[q.len() - 1 + k] == c);
                    assert(rest.contains(c));
                    assert(sub.contains(c));
                    let m = choose|m: int| 0 <= m < sub.len() && sub[m] == c;
                    assert(o[m + 1] == c);
                } else {
                    let i = choose|i: int| 0 <= i < o.len() && o[i] == x;
                    assert(i > 0);
                    assert(sub[i - 1] == x);
                    assert(sub.contains(x));
                    assert(ch2.contains_key(x) && ch2[x] == ch[x]);
                    assert(sub.contains(c));
                    let m = choose|m: int| 0 <= m < sub.len() && sub[m] == c;
                    assert(o[m + 1] == c);
                }
            }
        } else {
            let rest = q.drop_first();
            let sub = removal_order(ch, rest);
            lemma_removal_closed(ch, rest);
            assert(o == seq![x0] + sub);
            assert forall|x: u64, c: u64| #[trigger] o.contains(x) && ch.contains_key(x) && #[trigger] ch[x]@.contains(c)
                implies o.contains(c) by {
                let i = choose|i: int| 0 <= i < o.len() && o[i] == x;
                assert(i > 0);
                assert(sub[i - 1] == x);
                assert(sub.contains(x));
                let m = choose|m: int| 0 <= m < sub.len() && sub[m] == c;
                assert(o[m + 1] == c);
            }
        }
    }
}

/// Every deleted node was queued or is a child of a deleted node.
pub proof fn lemma_removal_source(ch: Map<u64, Vec<u64>>, q: Seq<u64>)
    requires
        ch.dom().finite(),
    ensures
        forall|z: u64| #[trigger] removal_order(ch, q).contains(z) ==> q.contains(z) || exists|y: u64|
            removal_order(ch, q).contains(y) && ch.contains_key(y) && #[trigger] ch[y]@.contains(z),
    decreases ch.dom().len(), q.len(),
{
    if q.len() > 0 {
        let x0 = q[0];
        let o = removal_order(ch, q);
        if ch.contains_key(x0) {
            let ch2 = ch.remove(x0);
            let rest = q.drop_first() + ch[x0]@;
            let sub = removal_order(ch2, rest);
            lemma_removal_source(ch2, rest);
            assert(o == seq![x0] + sub);
            assert forall|z: u64| #[trigger] o.contains(z) implies q.contains(z) || exists|y: u64|
                o.contains(y) && ch.contains_key(y) && #[trigger] ch[y]@.contains(z) by {
                if z == x0 {
                    assert(q[0] == z);
                } else {
                    let i = choose|i: int| 0 <= i < o.len() && o[i] == z;
                    assert(sub[i - 1] == z);
                    assert(sub.contains(z));
                    if rest.contains(z) {
                        let j = choose|j: int| 0 <= j < rest.len() && rest[j] == z;
                        if j < q.len() - 1 {
                            assert(q[j + 1] == z);
                        } else {
                            assert(ch[x0]@[j - (q.len() - 1)] == z);
                            assert(ch[x0]@.contains(z));
                            assert(o[0] == x0);
                        }
                    } else {
                        let y = choose|y: u64| sub.contains(y) && ch2.contains_key(y) && #[trigger] ch2[y]@.contains(z);
                        let k = choose|k: int| 0 <= k < sub.len() && sub[k] == y;
                        assert(o[k + 1] == y);
                        assert(ch[y] == ch2[y]);
                    }
                }
            }
        } else {
            let rest = q.drop_first();
            let sub = removal_order(ch, rest);
            lemma_removal_source(ch, rest);
            assert(o == seq![x0] + sub);
            assert forall|z: u64| #[trigger] o.contains(z) implies q.contains(z) || exists|y: u64|
                o.contains(y) && ch.contains_key(y) && #[trigger] ch[y]@.contains(z) by {
                if z == x0 {
                    assert(q[0] == z);
                } else {
                    let i = choose|i: int| 0 <= i < o.len() && o[i] == z;
                    assert(sub[i - 1] == z);
                    assert(sub.contains(z));
                    if rest.contains(z) {
                        let j = choose|j: int| 0 <= j < rest.len() && rest[j] == z;
                        assert(q[j + 1] == z);
                    } else {
                        let y = choose|y: u64| sub.contains(y) && ch.contains_key(y) && #[trigger] ch[y]@.contains(z);
                        let k = choose|k: int| 0 <= k < sub.len() && sub[k] == y;
                        assert(o[k + 1] == y);
                    }
                }
            }
        }
    }
}

/// In a tree, deleting distinct queued nodes whose parents are `m` (never
/// deleted, being below every queued node) or already consumed deletes no
/// node twice.
pub proof fn lemma_removal_distinct(ch: Map<u64, Vec<u64>>, pm: Map<u64, (u64, usize)>, q: Seq<u64>, m: u64)
    requires
        ch.dom().finite(),
        forall|y: u64, c: u64| #[trigger] ch.contains_key(y) && #[trigger] ch[y]@.contains(c) ==> pm.contains_key(c)
            && pm[c].0 == y,
        forall|x: u64, i: int| #[trigger] ch.contains_key(x) && 0 <= i < ch[x]@.len() ==> #[trigger] ch[x]@[i] > x,
        forall|y: u64| #[trigger] ch.contains_key(y) ==> ch[y]@.no_duplicates(),
        q.no_duplicates(),
        forall|i: int| 0 <= i < q.len() ==> #[trigger] q[i] > m,
        forall|i: int| 0 <= i < q.len() ==> pm.contains_key(#[trigger] q[i]) && (pm[q[i]].0 == m || !ch.contains_key(
            pm[q[i]].0)),
    ensures
        removal_order(ch, q).no_duplicates(),
    decreases ch.dom().len(), q.len(),
{
    if q.len() > 0 {
        let x0 = q[0];
        let o = removal_order(ch, q);
        if ch.contains_key(x0) {
            let ch2 = ch.remove(x0);
            let kids = ch[x0]@;
            let rest = q.drop_first() + kids;
            assert forall|i: int| 0 <= i < kids.len() implies kids[i] > x0 && pm.contains_key(#[trigger] kids[i])
                && pm[kids[i]].0 == x0 by {
                assert(kids.contains(kids[i]));
            }
            assert forall|a: int, b: int| 0 <= a < b < rest.len() implies rest[a] != rest[b] by {
                if b < q.len() - 1 {
                    assert(rest[a] == q[a + 1] && rest[b] == q[b + 1]);
                } else if a >= q.len() - 1 {
                    assert(rest[a] == kids[a - (q.len() - 1)] && rest[b] == kids[b - (q.len() - 1)]);
                } else {
                    let z = q[a + 1];
                    assert(rest[a] == z);
                    assert(rest[b] == kids[b - (q.len() - 1)]);
                    if z == rest[b] {
                        assert(pm[z].0 == x0);
                        assert(x0 > m);
                    }
                }
            }
            assert forall|i: int| 0 <= i < rest.len() implies #[trigger] rest[i] > m by {
                if i >= q.len() - 1 {
                    assert(rest[i] == kids[i - (q.len() - 1)]);
                } else {
                    assert(rest[i] == q[i + 1]);
                }
            }
            assert forall|i: int| 0 <= i < rest.len() implies pm.contains_key(#[trigger] rest[i]) && (pm[rest[i]].0 == m
                || !ch2.contains_key(pm[rest[i]].0)) by {
                if i >= q.len() - 1 {
                    assert(rest[i] == kids[i - (q.len() - 1)]);
                } else {
                    assert(rest[i] == q[i + 1]);
                }
            }
            assert forall|y: u64, c: u64| #[trigger] ch2.contains_key(y) && #[trigger] ch2[y]@.contains(c) implies
                pm.contains_key(c) && pm[c].0 == y by {
                assert(ch.contains_key(y) && ch[y]@.contains(c));
            }
            assert forall|x: u64, i: int| #[trigger] ch2.contains_key(x) && 0 <= i < ch2[x]@.len() implies #[trigger] ch2[x]@[i]
                > x by {
                assert(ch.contains_key(x) && ch[x]@[i] == ch2[x]@[i]);
            }
            lemma_removal_distinct(ch2, pm, rest, m);
            let sub = removal_order(ch2, rest);
            assert(o == seq![x0] + sub);
            assert(!sub.contains(x0)) by {
                if sub.contains(x0) {
                    lemma_removal_source(ch2, rest);
                    if rest.contains(x0) {
                        let i = choose|i: int| 0 <= i < rest.len() && rest[i] == x0;
                        if i < q.len() - 1 {
                            assert(q[i + 1] == q[0]);
                        } else {
                            assert(rest[i] == kids[i - (q.len() - 1)]);
                        }
                    } else {
                        let y = choose|y: u64| sub.contains(y) && ch2.contains_key(y) && #[trigger] ch2[y]@.contains(x0);
                        assert(ch.contains_key(y) && ch[y]@.contains(x0));
                        assert(pm[x0].0 == y);
                        assert(y != x0);
                        lemma_removal_above(ch2, rest, m);
                        assert(y > m);
                    }
                }
            }
            assert forall|a: int, b: int| 0 <= a < b < o.len() implies o[a] != o[b] by {
                if a == 0 {
                    assert(o[b] == sub[b - 1]);
                } else {
                    assert(o[a] == sub[a - 1] && o[b] == sub[b - 1]);
                }
            }
        } else {
            let rest = q.drop_first();
            lemma_removal_distinct(ch, pm, rest, m);
            let sub = removal_order(ch, rest);
            assert(o == seq![x0] + sub);
            assert(!sub.contains(x0)) by {
                if sub.contains(x0) {
                    lemma_removal_source(ch, rest);
                    if rest.contains(x0) {
                        let i = choose|i: int| 0 <= i < rest.len() && rest[i] == x0;
                        assert(q[i + 1] == q[0]);
                    } else {
                        let y = choose|y: u64| sub.contains(y) && ch.contains_key(y) && #[trigger] ch[y]@.contains(x0);
                        assert(pm[x0].0 == y);
                        lemma_removal_above(ch, rest, m);
                        assert(y > m);
                    }
                }
            }
            assert forall|a: int, b: int| 0 <= a < b < o.len() implies o[a] != o[b] by {
                if a == 0 {
                    assert(o[b] == sub[b - 1]);
                } else {
                    assert(o[a] == sub[a - 1] && o[b] == sub[b - 1]);
                }
            }
        }
    }
}

/// Two child maps that agree on every node the deletion visits delete the
/// same nodes in the same order.
pub proof fn lemma_removal_agree(ch1: Map<u64, Vec<u64>>, ch2: Map<u64, Vec<u64>>, q: Seq<u64>)
    requires
        ch1.dom().finite(),
        ch2.dom().finite(),
        forall|z: u64| #[trigger] removal_order(ch1, q).contains(z) ==> (ch1.contains_key(z) <==> ch2.contains_key(z))
            && (ch1.contains_key(z) ==> ch1[z]@ == ch2[z]@),
    ensures
        removal_order(ch1, q) == removal_order(ch2, q),
    decreases ch1.dom().len(), q.len(),
{
    if q.len() > 0 {
        let x0 = q[0];
        let o = removal_order(ch1, q);
        assert(o[0] == x0);
        assert(o.contains(x0));
        if ch1.contains_key(x0) {
            let a1 = ch1.remove(x0);
            let a2 = ch2.remove(x0);
            let rest = q.drop_first() + ch1[x0]@;
            assert(rest =~= q.drop_first() + ch2[x0]@);
            let sub = removal_order(a1, rest);
            assert(o == seq![x0] + sub);
            assert forall|z: u64| #[trigger] sub.contains(z) implies (a1.contains_key(z) <==> a2.contains_key(z))
                && (a1.contains_key(z) ==> a1[z]@ == a2[z]@) by {
                let i = choose|i: int| 0 <= i < sub.len() && sub[i] == z;
                assert(o[i + 1] == z);
                assert(o.contains(z));
            }
            lemma_removal_agree(a1, a2, rest);
        } else {
            let rest = q.drop_first();
            let sub = removal_order(ch1, rest);
            assert(o == seq![x0] + sub);
            assert forall|z: u64| #[trigger] sub.contains(z) implies (ch1.contains_key(z) <==> ch2.contains_key(z))
                && (ch1.contains_key(z) ==> ch1[z]@ == ch2[z]@) by {
                let i = choose|i: int| 0 <= i < sub.len() && sub[i] == z;
                assert(o[i + 1] == z);
                assert(o.contains(z));
            }
            lemma_removal_agree(ch1, ch2, rest);
        }
    }
}

/// When every queued node and every child is greater than `b` (a child
/// being greater than its parent), every deleted node is greater than `b`.
pub proof fn lemma_removal_above(ch: Map<u64, Vec<u64>>, q: Seq<u64>, b: u64)
    requires
        ch.dom().finite(),
        forall|i: int| 0 <= i < q.len() ==> #[trigger] q[i] > b,
        forall|x: u64, i: int| #[trigger] ch.contains_key(x) && 0 <= i < ch[x]@.len() ==> #[trigger] ch[x]@[i] > x,
    ensures
        forall|z: u64| #[trigger] removal_order(ch, q).contains(z) ==> z > b,
    decreases ch.dom().len(), q.len(),
{
    if q.len() > 0 {
        let x0 = q[0];
        let o = removal_order(ch, q);
        assert(q[0] > b);
        if ch.contains_key(x0) {
            let ch2 = ch.remove(x0);
            let rest = q.drop_first() + ch[x0]@;
            assert forall|i: int| 0 <= i < rest.len() implies #[trigger] rest[i] > b by {
                if i < q.len() - 1 {
                    assert(rest[i] == q[i + 1]);
                } else {
                    assert(rest[i] == ch[x0]@[i - (q.len() - 1)]);
                }
            }
            assert forall|x: u64, i: int| #[trigger] ch2.contains_key(x) && 0 <= i < ch2[x]@.len() implies #[trigger] ch2[x]@[i] > x by {
                assert(ch[x] == ch2[x]);
            }
            lemma_removal_above(ch2, rest, b);
            let sub = removal_order(ch2, rest);
            assert(o == seq![x0] + sub);
            assert forall|z: u64| #[trigger] o.contains(z) implies z > b by {
                let i = choose|i: int| 0 <= i < o.len() && o[i] == z;
                if i > 0 {
                    assert(sub[i - 1] == z);
                    assert(sub.contains(z));
                }
            }
        } else {
            let rest = q.drop_first();
            assert forall|i: int| 0 <= i < rest.len() implies #[trigger] rest[i] > b by {
                assert(rest[i] == q[i + 1]);
            }
            lemma_removal_above(ch, rest, b);
            let sub = removal_order(ch, rest);
            assert(o == seq![x0] + sub);
            assert forall|z: u64| #[trigger] o.contains(z) implies z > b by {
                let i = choose|i: int| 0 <= i < o.len() && o[i] == z;
                if i > 0 {
                    assert(sub[i - 1] == z);
                    assert(sub.contains(z));
                }
            }
        }
    }
}

proof fn lemma_avoids_at(
    ch: Map<u64, Vec<u64>>,
    parents: Map<u64, (u64, usize)>,
    q: Seq<u64>,
    s: Set<u64>,
    x: u64,
    z: u64,
)
    requires
        ch.dom().finite(),
        forall|y: u64, c: u64| #[trigger] ch.contains_key(y) && #[trigger] ch[y]@.contains(c)
            ==> parents.contains_key(c) && parents[c].0 == y,
        forall|c: u64| #[trigger] parents.contains_key(c) ==> parents[c].0 < c,
        forall|c: u64| #[trigger] s.contains(c) ==> c == x || (parents.contains_key(c) && s.contains(parents[c].0)),
        forall|c: u64| q.contains(c) ==> !#[trigger] s.contains(c),
        !removal_order(ch, q).contains(x),
        removal_order(ch, q).contains(z),
        forall|z: u64| #[trigger] removal_order(ch, q).contains(z) ==> q.contains(z) || exists|y: u64|
            removal_order(ch, q).contains(y) && ch.contains_key(y) && #[trigger] ch[y]@.contains(z),
    ensures
        !s.contains(z),
    decreases z,
{
    if s.contains(z) {
        assert(!q.contains(z));
        let y = choose|y: u64| removal_order(ch, q).contains(y) && ch.contains_key(y) && #[trigger] ch[y]@.contains(z);
        assert(parents[z].0 == y);
        assert(z != x);
        assert(s.contains(y));
        lemma_avoids_at(ch, parents, q, s, x, y);
    }
}

/// Deleting from a queue that avoids a set `s` closed under parents (up to
/// its top `x`, which is not deleted) deletes no member of `s`.
pub proof fn lemma_removal_avoids(
    ch: Map<u64, Vec<u64>>,
    parents: Map<u64, (u64, usize)>,
    q: Seq<u64>,
    s: Set<u64>,
    x: u64,
)
    requires
        ch.dom().finite(),
        forall|y: u64, c: u64| #[trigger] ch.contains_key(y) && #[trigger] ch[y]@.contains(c)
            ==> parents.contains_key(c) && parents[c].0 == y,
        forall|c: u64| #[trigger] parents.contains_key(c) ==> parents[c].0 < c,
        forall|c: u64| #[trigger] s.contains(c) ==> c == x || (parents.contains_key(c) && s.contains(parents[c].0)),
        forall|c: u64| q.contains(c) ==> !#[trigger] s.contains(c),
        !removal_order(ch, q).contains(x),
    ensures
        forall|z: u64| #[trigger] removal_order(ch, q).contains(z) ==> !s.contains(z),
{
    lemma_removal_source(ch, q);
    assert forall|z: u64| #[trigger] removal_order(ch, q).contains(z) implies !s.contains(z) by {
        lemma_avoids_at(ch, parents, q, s, x, z);
    }
}

/// Deleting nodes none of which has children deletes just them, in order.
pub proof fn lemma_removal_of_leaves(ch: Map<u64, Vec<u64>>, q: Seq<u64>)
    requires
        ch.dom().finite(),
        forall|i: int| 0 <= i < q.len() ==> !ch.contains_key(#[trigger] q[i]) || ch[q[i]]@.len() == 0,
    ensures
        removal_order(ch, q) == q,
    decreases ch.dom().len(), q.len(),
{
    if q.len() > 0 {
        let x = q[0];
        let rest = q.drop_first();
        if ch.contains_key(x) {
            let ch2 = ch.remove(x);
            assert(rest + ch[x]@ =~= rest);
            assert forall|i: int| 0 <= i < rest.len() implies !ch2.contains_key(#[trigger] rest[i]) || ch2[rest[i]]@.len() == 0 by {
                assert(rest[i] == q[i + 1]);
            }
            lemma_removal_of_leaves(ch2, rest);
        } else {
            assert forall|i: int| 0 <= i < rest.len() implies !ch.contains_key(#[trigger] rest[i]) || ch[rest[i]]@.len() == 0 by {
                assert(rest[i] == q[i + 1]);
            }
            lemma_removal_of_leaves(ch, rest);
        }
        assert(seq![x] + rest =~= q);
    }
}

} // verus!
