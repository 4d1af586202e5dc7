//! Warm start: turning a cached partition into an initial assignment.
use vstd::prelude::*;
use std::collections::BTreeMap;
use crate::partition::LeidenPartition;

verus! {

/// Default cache path relative to the `.sdi` directory.
pub const CACHE_FILENAME: &'static str = "cache/partition.json";

/// The cached community IDs of the nodes below `i`.
pub open spec fn seen_communities(c: Map<usize, usize>, i: int) -> Set<usize> {
    Set::new(|v: usize| exists|j: usize| 0 <= j < i && #[trigger] c.contains_key(j) && c[j] == v)
}

/// How many nodes below `i` have no cached community.
pub open spec fn uncached_before(c: Map<usize, usize>, i: int) -> nat
    decreases i,
{
    if i <= 0 {
        0
    } else {
        uncached_before(c, i - 1) + if c.contains_key((i - 1) as usize) {
            0nat
        } else {
            1nat
        }
    }
}

/// The initial assignment built from cached community IDs `c` for `n` nodes:
/// nodes share a community exactly when both are cached with the same ID;
/// cached IDs are renumbered `0, 1, ...` in the order of their first node;
/// the nodes without a cached ID follow as singletons, in node order.
pub open spec fn is_warm_assignment(r: Seq<usize>, c: Map<usize, usize>, n: int) -> bool {
    &&& r.len() == n
    &&& forall|i: int, j: int|
        0 <= i < n && 0 <= j < n ==> (#[trigger] r[i] == #[trigger] r[j] <==> (i == j || (
        c.contains_key(i as usize) && c.contains_key(j as usize) && c[i as usize] == c[j as usize])))
    &&& forall|i: int|
        0 <= i < n && c.contains_key(i as usize) && !seen_communities(c, i).contains(c[i as usize])
            ==> #[trigger] r[i] == seen_communities(c, i).len()
    &&& forall|i: int|
        0 <= i < n && !c.contains_key(i as usize) ==> #[trigger] r[i] == seen_communities(c, n).len()
            + uncached_before(c, i)
}

proof fn lemma_seen_step(c: Map<usize, usize>, i: int)
    requires
        0 <= i,
        i < usize::MAX,
    ensures
        c.contains_key(i as usize) ==> seen_communities(c, i + 1) == seen_communities(c, i).insert(
            c[i as usize],
        ),
        !c.contains_key(i as usize) ==> seen_communities(c, i + 1) == seen_communities(c, i),
{
    let s0 = seen_communities(c, i);
    let s1 = seen_communities(c, i + 1);
    if c.contains_key(i as usize) {
        assert forall|v: usize| s1.contains(v) implies s0.insert(c[i as usize]).contains(v) by {
            let j = choose|j: usize| 0 <= j < i + 1 && #[trigger] c.contains_key(j) && c[j] == v;
            if j < i {
                assert(s0.contains(v));
            }
        }
        assert forall|v: usize| s0.insert(c[i as usize]).contains(v) implies s1.contains(v) by {
            if v == c[i as usize] {
                assert(c.contains_key(i as usize));
            } else {
                let j = choose|j: usize| 0 <= j < i && #[trigger] c.contains_key(j) && c[j] == v;
            }
        }
        assert(s1 =~= s0.insert(c[i as usize]));
    } else {
        assert forall|v: usize| s1.contains(v) implies s0.contains(v) by {
            let j = choose|j: usize| 0 <= j < i + 1 && #[trigger] c.contains_key(j) && c[j] == v;
            assert(j != i);
        }
        assert forall|v: usize| s0.contains(v) implies s1.contains(v) by {
            let j = choose|j: usize| 0 <= j < i && #[trigger] c.contains_key(j) && c[j] == v;
        }
        assert(s1 =~= s0);
    }
}

/// Converts a cached partition into an initial assignment for `node_count`
/// nodes.  Nodes absent from the cache become singletons; cached community
/// IDs are remapped so that every ID stays below `node_count`.
pub fn initial_assignment_from_cache(
    cached: Option<&LeidenPartition>,
    node_count: usize,
) -> (assignment: Vec<usize>)
    ensures
        assignment.len() == node_count,
        forall|i: int| 0 <= i < node_count ==> #[trigger] assignment@[i] < node_count,
        cached is None ==> forall|i: int| 0 <= i < node_count ==> #[trigger] assignment@[i] == i,
        cached matches Some(p) ==> is_warm_assignment(assignment@, p.assignments@, node_count as int),
{
    let mut assignment: Vec<usize> = Vec::new();
    let mut i: usize = 0;
    while i < node_count
        invariant
            0 <= i <= node_count,
            assignment.len() == i,
            forall|j: int| 0 <= j < i ==> #[trigger] assignment@[j] == j,
        decreases node_count - i,
    {
        assignment.push(i);
        i = i + 1;
    }
    let p = match cached {
        Some(p) => p,
        None => return assignment,
    };
    let ghost c = p.assignments@;
    let n = node_count;
    let mut remap: BTreeMap<usize, usize> = BTreeMap::new();
    let mut next: usize = 0;
    i = 0;
    while i < n
        invariant
            0 <= i <= n,
            n == node_count,
            c == p.assignments@,
            assignment.len() == n,
            remap@.dom() == seen_communities(c, i as int),
            next == remap@.len(),
            next + uncached_before(c, i as int) <= i,
            forall|v: usize| #[trigger] remap@.contains_key(v) ==> remap@[v] < next,
            forall|v: usize, w: usize|
                #![trigger remap@[v], remap@[w]]
                remap@.contains_key(v) && remap@.contains_key(w) && remap@[v] == remap@[w] ==> v == w,
            forall|j: int|
                0 <= j < i && c.contains_key(j as usize) ==> #[trigger] assignment@[j] == remap@[c[j as usize]],
            forall|j: int|
                0 <= j < i && c.contains_key(j as usize) && !seen_communities(c, j).contains(c[j as usize])
                    ==> #[trigger] assignment@[j] == seen_communities(c, j).len(),
            forall|j: int| i <= j < n ==> #[trigger] assignment@[j] == j,
        decreases n - i,
    {
        proof {
            lemma_seen_step(c, i as int);
            assert(remap@.dom().finite());
        }
        match p.assignments.get(&i) {
            Some(comm) => {
                let comm = *comm;
                match remap.get(&comm) {
                    Some(r) => {
                        assignment.set(i, *r);
                        assert(seen_communities(c, i + 1) =~= seen_communities(c, i as int));
                    },
                    None => {
                        proof {
                            assert(remap@.dom().len() == next);
                        }
                        remap.insert(comm, next);
                        assignment.set(i, next);
                        proof {
                            assert(remap@.dom() =~= seen_communities(c, i + 1));
                            assert(remap@.dom().len() == next + 1);
                        }
                        next = next + 1;
                    },
                }
            },
            None => {},
        }
        i = i + 1;
    }
    let ghost k = next;
    let mut counter: usize = next;
    i = 0;
    while i < n
        invariant
            0 <= i <= n,
            n == node_count,
            c == p.assignments@,
            assignment.len() == n,
            remap@.dom() == seen_communities(c, n as int),
            k == remap@.len(),
            k + uncached_before(c, n as int) <= n,
            counter == k + uncached_before(c, i as int),
            forall|v: usize| #[trigger] remap@.contains_key(v) ==> remap@[v] < k,
            forall|v: usize, w: usize|
                #![trigger remap@[v], remap@[w]]
                remap@.contains_key(v) && remap@.contains_key(w) && remap@[v] == remap@[w] ==> v == w,
            forall|j: int|
                0 <= j < n && c.contains_key(j as usize) ==> #[trigger] assignment@[j] == remap@[c[j as usize]],
            forall|j: int|
                0 <= j < n && c.contains_key(j as usize) && !seen_communities(c, j).contains(c[j as usize])
                    ==> #[trigger] assignment@[j] == seen_communities(c, j).len(),
            forall|j: int|
                0 <= j < i && !c.contains_key(j as usize) ==> #[trigger] assignment@[j] == k
                    + uncached_before(c, j),
        decreases n - i,
    {
        proof {
            lemma_uncached_monotone(c, i as int, n as int);
        }
        if !p.assignments.contains_key(&i) {
            assignment.set(i, counter);
            proof {
                lemma_uncached_monotone(c, i + 1, n as int);
                assert(uncached_before(c, i + 1) == uncached_before(c, i as int) + 1);
            }
            counter = counter + 1;
        }
        i = i + 1;
    }
    proof {
        let a = assignment@;
        assert forall|j: int| 0 <= j < n && #[trigger] c.contains_key(j as usize) implies remap@.contains_key(c[j as usize]) by {
            assert(seen_communities(c, n as int).contains(c[j as usize])) by {
                assert(c.contains_key(j as usize));
            }
        }
        assert forall|j: int| 0 <= j < n && !c.contains_key(j as usize) implies #[trigger] uncached_before(c, j) < uncached_before(c, n as int) by {
            lemma_uncached_monotone(c, j + 1, n as int);
        }
        assert forall|x: int, y: int| 0 <= x < n && 0 <= y < n implies (#[trigger] a[x] == #[trigger] a[y] <==> (x == y || (
        c.contains_key(x as usize) && c.contains_key(y as usize) && c[x as usize] == c[y as usize]))) by {
            if !c.contains_key(x as usize) && !c.contains_key(y as usize) && x != y {
                if x < y {
                    lemma_uncached_monotone(c, x + 1, y);
                } else {
                    lemma_uncached_monotone(c, y + 1, x);
                }
            }
        }
        assert forall|j: int| 0 <= j < n implies #[trigger] a[j] < n by {}
    }
    assignment
}

proof fn lemma_uncached_monotone(c: Map<usize, usize>, i: int, j: int)
    requires
        0 <= i <= j,
    ensures
        uncached_before(c, i) <= uncached_before(c, j),
        i < j && !c.contains_key((i - 1) as usize) && i >= 1 ==> uncached_before(c, i - 1) < uncached_before(c, j),
    decreases j - i,
{
    if i < j {
        lemma_uncached_monotone(c, i, j - 1);
    }
}

} // verus!
