use vstd::prelude::*;
use vstd::std_specs::iter::IteratorSpec;
use std::collections::{BTreeMap, BTreeSet};

verus! {

/// Whether the identities of `q` come in strictly ascending order.
pub open spec fn ascending(q: Seq<u64>) -> bool {
    forall|i: int, j: int| 0 <= i < j < q.len() ==> q[i] < q[j]
}

/// Iterating a set of identities yields them in ascending order.
pub proof fn lemma_set_iter_ascending(set: &BTreeSet<u64>)
    ensures
        ascending(vstd::std_specs::btree::spec_btree_keys_iter(set).remaining().unref()),
{
    broadcast use vstd::laws_cmp::group_laws_cmp;
    broadcast use vstd::std_specs::btree::axiom_increasing_seq_meaning;

    let rem = vstd::std_specs::btree::spec_btree_keys_iter(set).remaining();
    assert(vstd::laws_cmp::obeys_cmp::<&u64>());
    assert(vstd::std_specs::btree::increasing_seq(rem));
    assert forall|i: int, j: int| 0 <= i < j < rem.unref().len() implies rem.unref()[i] < rem.unref()[j] by {
        assert(vstd::std_specs::cmp::OrdSpec::cmp_spec(&rem[i], &rem[j]) is Less);
    }
}

/// Identities are keys whose order the ordered collections follow.
pub proof fn lemma_ids_ordered()
    ensures
        vstd::std_specs::btree::key_obeys_cmp_spec::<u64>(),
{
    broadcast use vstd::laws_cmp::group_laws_cmp;
    broadcast use vstd::std_specs::btree::axiom_key_obeys_cmp_spec_meaning;

    assert(vstd::laws_cmp::obeys_cmp::<u64>());
}

/// Iterating a map keyed by identities yields its entries in ascending
/// order of identity.
pub proof fn lemma_map_iter_ascending<V>(m: &BTreeMap<u64, V>)
    requires
        vstd::std_specs::btree::increasing_seq(
            vstd::std_specs::btree::spec_btree_map_iter(m).remaining().map_values(|kv: (&u64, &V)| *kv.0),
        ),
    ensures
        forall|i: int, j: int| 0 <= i < j < vstd::std_specs::btree::spec_btree_map_iter(m).remaining().len()
            ==> *vstd::std_specs::btree::spec_btree_map_iter(m).remaining()[i].0
            < *vstd::std_specs::btree::spec_btree_map_iter(m).remaining()[j].0,
{
    broadcast use vstd::laws_cmp::group_laws_cmp;
    broadcast use vstd::std_specs::btree::axiom_increasing_seq_meaning;

    let rem = vstd::std_specs::btree::spec_btree_map_iter(m).remaining();
    let ks = rem.map_values(|kv: (&u64, &V)| *kv.0);
    assert forall|i: int, j: int| 0 <= i < j < rem.len() implies *rem[i].0 < *rem[j].0 by {
        assert(ks[i] == *rem[i].0 && ks[j] == *rem[j].0);
        assert(vstd::std_specs::cmp::OrdSpec::cmp_spec(&ks[i], &ks[j]) is Less);
    }
}

} // verus!
