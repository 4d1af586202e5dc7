//! Community partitions produced by community detection.
use vstd::prelude::*;
use std::collections::BTreeMap;
use crate::mapseq::{lists_keys_in_order, sorted_entries};

verus! {

/// A partition of graph nodes into communities.
///
/// `stability` and `modularity` carry IEEE-754 binary64 values as their bit
/// patterns; this crate stores them and hands them on without arithmetic.
#[derive(Debug, Clone, PartialEq)]
pub struct LeidenPartition {
    /// Node index → community ID.
    pub assignments: BTreeMap<usize, usize>,
    /// Community ID → internal edge density (binary64 bit pattern).
    pub stability: BTreeMap<usize, u64>,
    /// Overall partition modularity (binary64 bit pattern).
    pub modularity: u64,
    /// Seed the partition was computed with.
    pub seed: u64,
}

/// The nodes that `a` places in community `c`.
pub open spec fn members(a: Map<usize, usize>, c: usize) -> Set<usize> {
    Set::new(|k: usize| a.contains_key(k) && a[k] == c)
}

/// `v` is strictly increasing.
pub open spec fn strictly_increasing(v: Seq<usize>) -> bool {
    forall|i: int, j: int| 0 <= i < j < v.len() ==> v[i] < v[j]
}

/// `groups` maps each community of `a` to its members in increasing order.
pub open spec fn groups_communities(groups: Map<usize, Vec<usize>>, a: Map<usize, usize>) -> bool {
    &&& groups.dom() == a.values()
    &&& forall|c: usize| #[trigger] groups.contains_key(c) ==> strictly_increasing(groups[c]@)
    &&& forall|c: usize, k: usize|
        #![trigger groups[c]@.contains(k)]
        groups.contains_key(c) ==> (groups[c]@.contains(k) <==> a.contains_key(k) && a[k] == c)
}

spec fn prefix_values(es: Seq<(usize, usize)>, i: int) -> Set<usize> {
    Set::new(|c: usize| exists|j: int| 0 <= j < i && #[trigger] es[j].1 == c)
}

/// The number of nodes that `a` places in community `c`.
pub open spec fn community_size(a: Map<usize, usize>, c: usize) -> nat {
    members(a, c).len()
}

proof fn lemma_group_size(groups: Map<usize, Vec<usize>>, a: Map<usize, usize>, c: usize)
    requires
        groups_communities(groups, a),
        groups.contains_key(c),
    ensures
        community_size(a, c) == groups[c]@.len(),
{
    let v = groups[c]@;
    assert(v.no_duplicates()) by {
        assert forall|i: int, j: int| 0 <= i < v.len() && 0 <= j < v.len() && i != j implies v[i] != v[j] by {
            if i < j { assert(v[i] < v[j]); } else { assert(v[j] < v[i]); }
        }
    }
    v.unique_seq_to_set();
    assert(v.to_set() =~= members(a, c)) by {
        assert forall|k: usize| #[trigger] members(a, c).contains(k) implies v.to_set().contains(k) by {
            assert(v.contains(k));
        }
        assert forall|k: usize| #[trigger] v.to_set().contains(k) implies members(a, c).contains(k) by {
            assert(v.contains(k));
        }
    }
}

impl LeidenPartition {
    /// Size of the largest community, or 0 for an empty partition.
    pub fn largest_community_size(&self) -> (n: usize)
        ensures
            self.assignments@.len() == 0 ==> n == 0,
            self.assignments@.len() > 0 ==> exists|c: usize|
                #[trigger] self.assignments@.values().contains(c) && community_size(self.assignments@, c) == n,
            forall|c: usize| #[trigger] self.assignments@.values().contains(c) ==> community_size(self.assignments@, c) <= n,
    {
        let groups = self.communities();
        let es = sorted_entries(&self.assignments);
        let ghost a = self.assignments@;
        let ghost ks = es@.map_values(|e: (usize, usize)| e.0);
        let mut best: usize = 0;
        let mut i: usize = 0;
        while i < es.len()
            invariant
                0 <= i <= es.len(),
                groups_communities(groups@, a),
                lists_keys_in_order(ks, a),
                ks == es@.map_values(|e: (usize, usize)| e.0),
                es.len() == a.len(),
                forall|j: int| 0 <= j < es.len() ==> a[#[trigger] es@[j].0] == es@[j].1,
                i == 0 ==> best == 0,
                i > 0 ==> exists|c: usize| #[trigger] a.values().contains(c) && community_size(a, c) == best,
                forall|j: int| 0 <= j < i ==> #[trigger] community_size(a, es@[j].1) <= best,
            decreases es.len() - i,
        {
            let c = es[i].1;
            assert(ks[i as int] == es@[i as int].0);
            assert(a.contains_key(es@[i as int].0));
            assert(a.values().contains(c));
            let size = match groups.get(&c) {
                Some(v) => v.len(),
                None => 0,
            };
            proof {
                lemma_group_size(groups@, a, c);
            }
            if size > best {
                best = size;
            }
            i = i + 1;
        }
        proof {
            assert forall|c: usize| #[trigger] a.values().contains(c) implies community_size(a, c) <= best by {
                let k = choose|k: usize| a.contains_key(k) && a[k] == c;
                assert(ks.contains(k));
                let j = choose|j: int| 0 <= j < ks.len() && ks[j] == k;
                assert(es@[j].1 == c);
            }
            if a.len() > 0 {
                assert(es.len() > 0);
            }
        }
        best
    }

    /// Number of distinct communities.
    pub fn community_count(&self) -> (n: usize)
        ensures
            n == self.assignments@.values().len(),
    {
        let groups = self.communities();
        proof {
            vstd::std_specs::btree::axiom_spec_btree_map_len(&groups);
        }
        groups.len()
    }

    /// Returns the community of `node`, or `None` when `node` is unassigned.
    pub fn community_of(&self, node: usize) -> (c: Option<usize>)
        ensures
            c is Some <==> self.assignments@.contains_key(node),
            c matches Some(x) ==> x == self.assignments@[node],
    {
        match self.assignments.get(&node) {
            Some(c) => Some(*c),
            None => None,
        }
    }

    /// Groups nodes by community: community ID → member nodes in increasing order.
    pub fn communities(&self) -> (groups: BTreeMap<usize, Vec<usize>>)
        ensures
            groups_communities(groups@, self.assignments@),
    {
        let es = sorted_entries(&self.assignments);
        let ghost a = self.assignments@;
        let ghost ks = es@.map_values(|e: (usize, usize)| e.0);
        let mut groups: BTreeMap<usize, Vec<usize>> = BTreeMap::new();
        let mut i: usize = 0;
        while i < es.len()
            invariant
                0 <= i <= es.len(),
                lists_keys_in_order(ks, a),
                ks == es@.map_values(|e: (usize, usize)| e.0),
                forall|j: int| 0 <= j < es.len() ==> a[#[trigger] es@[j].0] == es@[j].1,
                groups@.dom() == prefix_values(es@, i as int),
                forall|c: usize| #[trigger] groups@.contains_key(c) ==> strictly_increasing(
                    groups@[c]@,
                ),
                forall|c: usize, x: int|
                    #![trigger groups@[c]@[x]]
                    groups@.contains_key(c) && 0 <= x < groups@[c]@.len() ==> exists|j: int|
                        0 <= j < i && #[trigger] es@[j] == (groups@[c]@[x], c),
                forall|j: int|
                    #![trigger es@[j]]
                    0 <= j < i ==> groups@.contains_key(es@[j].1) && groups@[es@[j].1]@.contains(
                        es@[j].0,
                    ),
            decreases es.len() - i,
        {
            let (k, c) = es[i];
            let ghost old_groups = groups@;
            assert(ks[i as int] == k);
            match groups.remove(&c) {
                Some(mut v) => {
                    proof {
                        assert forall|x: int| 0 <= x < v@.len() implies v@[x] < k by {
                            let j = choose|j: int| 0 <= j < i && #[trigger] es@[j] == (v@[x], c);
                            assert(ks[j] == v@[x]);
                        }
                    }
                    v.push(k);
                    groups.insert(c, v);
                },
                None => {
                    let mut v: Vec<usize> = Vec::new();
                    v.push(k);
                    groups.insert(c, v);
                },
            }
            proof {
                assert(groups@.dom() =~= prefix_values(es@, i + 1)) by {
                    assert forall|d: usize| prefix_values(es@, i + 1).contains(d) implies groups@.dom().contains(d) by {
                        if d != c {
                            let j = choose|j: int| 0 <= j < i + 1 && #[trigger] es@[j].1 == d;
                            assert(j < i);
                            assert(prefix_values(es@, i as int).contains(d));
                        }
                    }
                    assert forall|d: usize| groups@.dom().contains(d) implies prefix_values(es@, i + 1).contains(d) by {
                        if d != c {
                            assert(prefix_values(es@, i as int).contains(d));
                            let j = choose|j: int| 0 <= j < i && #[trigger] es@[j].1 == d;
                            assert(es@[j].1 == d);
                        } else {
                            assert(es@[i as int].1 == d);
                        }
                    }
                }
                assert forall|j: int|
                    #![trigger es@[j]]
                    0 <= j < i + 1 implies groups@.contains_key(es@[j].1)
                    && groups@[es@[j].1]@.contains(es@[j].0) by {
                    if j < i && es@[j].1 != c {
                        assert(old_groups.contains_key(es@[j].1));
                        assert(groups@[es@[j].1] == old_groups[es@[j].1]);
                    }
                    if j < i && es@[j].1 == c {
                        assert(old_groups[c]@.contains(es@[j].0));
                        let x = choose|x: int| 0 <= x < old_groups[c]@.len() && old_groups[c]@[x] == es@[j].0;
                        assert(groups@[c]@[x] == es@[j].0);
                    }
                    if j == i {
                        assert(groups@.contains_key(c));
                        assert(groups@[c]@[groups@[c]@.len() - 1] == k);
                        assert(groups@[c]@.contains(k));
                    }
                }
            }
            let ghost i_old = i;
            i = i + 1;
            assert(i == i_old + 1);
        }
        proof {
            assert(groups@.dom() =~= a.values()) by {
                assert forall|d: usize| a.values().contains(d) implies groups@.dom().contains(d) by {
                    let k = choose|k: usize| a.contains_key(k) && a[k] == d;
                    assert(ks.contains(k));
                    let j = choose|j: int| 0 <= j < ks.len() && ks[j] == k;
                    assert(es@[j].1 == d);
                }
                assert forall|d: usize| groups@.dom().contains(d) implies a.values().contains(d) by {
                    let j = choose|j: int| 0 <= j < es.len() && #[trigger] es@[j].1 == d;
                    assert(a.contains_key(ks[j]));
                    assert(a[es@[j].0] == d);
                }
            }
            assert forall|c: usize, k: usize| groups@.contains_key(c) implies (#[trigger]
            groups@[c]@.contains(k) <==> a.contains_key(k) && a[k] == c) by {
                if groups@[c]@.contains(k) {
                    let x = choose|x: int| 0 <= x < groups@[c]@.len() && groups@[c]@[x] == k;
                    let j = choose|j: int| 0 <= j < es.len() && #[trigger] es@[j] == (groups@[c]@[x], c);
                    assert(a.contains_key(ks[j]));
                }
                if a.contains_key(k) && a[k] == c {
                    assert(ks.contains(k));
                    let j = choose|j: int| 0 <= j < ks.len() && ks[j] == k;
                    assert(es@[j].0 == k && es@[j].1 == c);
                }
            }
        }
        groups
    }
}

} // verus!
