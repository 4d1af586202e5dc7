//! Ordered views of integer-keyed maps.
use vstd::prelude::*;
use std::collections::BTreeMap;
use vstd::std_specs::iter::IteratorSpec;
use vstd::std_specs::cmp::OrdSpec;

verus! {

/// `keys` lists exactly the keys of `m`, in strictly increasing order.
pub open spec fn lists_keys_in_order(keys: Seq<usize>, m: Map<usize, usize>) -> bool {
    &&& forall|i: int, j: int| 0 <= i < j < keys.len() ==> keys[i] < keys[j]
    &&& forall|i: int| 0 <= i < keys.len() ==> m.contains_key(#[trigger] keys[i])
    &&& forall|k: usize| m.contains_key(k) ==> keys.contains(k)
}

/// The entries of `m` in increasing key order.
pub fn sorted_entries(m: &BTreeMap<usize, usize>) -> (v: Vec<(usize, usize)>)
    ensures
        lists_keys_in_order(v@.map_values(|e: (usize, usize)| e.0), m@),
        forall|i: int| 0 <= i < v.len() ==> m@[#[trigger] v@[i].0] == v@[i].1,
        v.len() == m@.len(),
{
    let mut v: Vec<(usize, usize)> = Vec::new();
    broadcast use vstd::std_specs::btree::group_btree_axioms;
    let ghost s = vstd::std_specs::btree::spec_btree_map_iter(m).remaining();
    for e in it: m.iter()
        invariant
            it.seq() == s,
            v.len() == it.index(),
            forall|i: int| 0 <= i < it.index() ==> #[trigger] v@[i] == (*s[i].0, *s[i].1),
    {
        v.push((*e.0, *e.1));
    }
    proof {
        let ks = v@.map_values(|e: (usize, usize)| e.0);
        assert(vstd::std_specs::btree::increasing_seq(s.map_values(|kv: (&usize, &usize)| *kv.0)));
        assert(s.map_values(|kv: (&usize, &usize)| *kv.0) =~= ks);
        assert forall|i: int, j: int| 0 <= i < j < ks.len() implies ks[i] < ks[j] by {
            assert(ks[i].cmp_spec(&ks[j]) is Less);
        }
        assert forall|k: usize| m@.contains_key(k) implies ks.contains(k) by {
            assert(s.contains((&k, &m@[k])));
            let i = choose|i: int| 0 <= i < s.len() && s[i] == (&k, &m@[k]);
            assert(ks[i] == k);
        }
    }
    v
}

} // verus!
