//! The integer core of Leiden community detection: community renumbering,
//! the undirected working graph, per-community counts and their incremental
//! upkeep during node moves, and network aggregation.
use vstd::prelude::*;
use std::collections::BTreeMap;

pub mod aggregate;
pub mod graph;
pub mod modularity;
pub mod tally;

verus! {

/// The number of distinct values among `s[0..i)`.
pub open spec fn distinct_before(s: Seq<usize>, i: int) -> nat
    decreases i,
{
    if i <= 0 {
        0
    } else {
        distinct_before(s, i - 1) + if s.take(i - 1).contains(s[i - 1]) {
            0nat
        } else {
            1nat
        }
    }
}

/// `q` renumbers the communities of `p` densely by first occurrence: nodes
/// share a community in `q` exactly when they share one in `p`, and a
/// community first seen at node `i` gets the number of distinct communities
/// seen before `i`.
pub open spec fn is_renumbering(q: Seq<usize>, p: Seq<usize>) -> bool {
    &&& q.len() == p.len()
    &&& forall|i: int, j: int|
        0 <= i < p.len() && 0 <= j < p.len() ==> (#[trigger] q[i] == #[trigger] q[j] <==> p[i]
            == p[j])
    &&& forall|i: int|
        0 <= i < p.len() && !p.take(i).contains(p[i]) ==> #[trigger] q[i] == distinct_before(p, i)
}

proof fn lemma_distinct_before_le(s: Seq<usize>, i: int)
    requires
        0 <= i <= s.len(),
    ensures
        distinct_before(s, i) <= i,
    decreases i,
{
    if i > 0 {
        lemma_distinct_before_le(s, i - 1);
    }
}

/// Renumbers community IDs to the dense range `[0, k)`, in order of first
/// occurrence.
pub fn renumber(partition: &mut Vec<usize>)
    ensures
        is_renumbering(final(partition)@, old(partition)@),
{
    let ghost p = partition@;
    let n = partition.len();
    let mut map: BTreeMap<usize, usize> = BTreeMap::new();
    let mut next: usize = 0;
    let mut i: usize = 0;
    while i < n
        invariant
            0 <= i <= n,
            n == p.len(),
            partition.len() == n,
            next == distinct_before(p, i as int),
            next <= i,
            forall|v: usize| #[trigger] map@.contains_key(v) <==> p.take(i as int).contains(v),
            forall|v: usize| #[trigger] map@.contains_key(v) ==> map@[v] < next,
            forall|v: usize, w: usize|
                #![trigger map@[v], map@[w]]
                map@.contains_key(v) && map@.contains_key(w) && map@[v] == map@[w] ==> v == w,
            forall|j: int| 0 <= j < i ==> #[trigger] partition@[j] == map@[p[j]],
            forall|j: int|
                0 <= j < i && !p.take(j).contains(p[j]) ==> #[trigger] partition@[j]
                    == distinct_before(p, j),
            forall|j: int| i <= j < n ==> #[trigger] partition@[j] == p[j],
        decreases n - i,
    {
        let comm = partition[i];
        proof {
            lemma_distinct_before_le(p, i as int);
            assert(p.take(i + 1) =~= p.take(i as int).push(comm));
        }
        let ghost old_map = map@;
        proof {
            assert forall|j: int| 0 <= j < i implies #[trigger] old_map.contains_key(p[j]) by {
                assert(p.take(i as int)[j] == p[j]);
            }
        }
        match map.get(&comm) {
            Some(r) => {
                partition.set(i, *r);
                proof {
                    assert forall|v: usize| #[trigger] map@.contains_key(v) <==> p.take(i + 1).contains(v) by {
                        if p.take(i + 1).contains(v) {
                            let x = choose|x: int| 0 <= x < i + 1 && #[trigger] p.take(i + 1)[x] == v;
                            if x < i { assert(p.take(i as int)[x] == v); }
                        }
                        if map@.contains_key(v) {
                            let x = choose|x: int| 0 <= x < i && #[trigger] p.take(i as int)[x] == v;
                            assert(p.take(i + 1)[x] == v);
                        }
                    }
                }
            },
            None => {
                map.insert(comm, next);
                partition.set(i, next);
                proof {
                    assert forall|j: int| 0 <= j < i implies #[trigger] partition@[j] == map@[p[j]] by {
                        assert(old_map.contains_key(p[j]));
                        assert(p[j] != comm);
                    }
                    assert forall|v: usize| #[trigger] map@.contains_key(v) <==> p.take(i + 1).contains(v) by {
                        if p.take(i + 1).contains(v) {
                            let x = choose|x: int| 0 <= x < i + 1 && #[trigger] p.take(i + 1)[x] == v;
                            if x < i { assert(p.take(i as int)[x] == v); } else { assert(v == comm); }
                        }
                        if map@.contains_key(v) && v != comm {
                            let x = choose|x: int| 0 <= x < i && #[trigger] p.take(i as int)[x] == v;
                            assert(p.take(i + 1)[x] == v);
                        }
                        if v == comm {
                            assert(p.take(i + 1)[i as int] == v);
                        }
                    }
                }
                next = next + 1;
            },
        }
        i = i + 1;
    }
    proof {
        let q = partition@;
        assert forall|x: int, y: int| 0 <= x < n && 0 <= y < n implies (#[trigger] q[x] == #[trigger] q[y] <==> p[x] == p[y]) by {
            assert(p.take(n as int).contains(p[x])) by { assert(p.take(n as int)[x] == p[x]); }
            assert(p.take(n as int).contains(p[y])) by { assert(p.take(n as int)[y] == p[y]); }
        }
    }
}

/// Two sequences whose equality patterns agree have the same count of
/// distinct values in every prefix.
proof fn lemma_same_pattern_distinct(p: Seq<usize>, q: Seq<usize>, i: int)
    requires
        q.len() == p.len(),
        0 <= i <= p.len(),
        forall|x: int, y: int|
            0 <= x < p.len() && 0 <= y < p.len() ==> (#[trigger] q[x] == #[trigger] q[y] <==> p[x]
                == p[y]),
    ensures
        distinct_before(q, i) == distinct_before(p, i),
    decreases i,
{
    if i > 0 {
        lemma_same_pattern_distinct(p, q, i - 1);
        lemma_take_contains_same(p, q, i - 1);
    }
}

proof fn lemma_take_contains_same(p: Seq<usize>, q: Seq<usize>, i: int)
    requires
        q.len() == p.len(),
        0 <= i < p.len(),
        forall|x: int, y: int|
            0 <= x < p.len() && 0 <= y < p.len() ==> (#[trigger] q[x] == #[trigger] q[y] <==> p[x]
                == p[y]),
    ensures
        q.take(i).contains(q[i]) <==> p.take(i).contains(p[i]),
{
    if q.take(i).contains(q[i]) {
        let x = choose|x: int| 0 <= x < i && #[trigger] q.take(i)[x] == q[i];
        assert(q[x] == q[i]);
        assert(p.take(i)[x] == p[i]);
    }
    if p.take(i).contains(p[i]) {
        let x = choose|x: int| 0 <= x < i && #[trigger] p.take(i)[x] == p[i];
        assert(p[x] == p[i]);
        assert(q.take(i)[x] == q[i]);
    }
}

/// Finds the first index holding the value `s[i]`.
proof fn lemma_first_occurrence(s: Seq<usize>, i: int) -> (f: int)
    requires
        0 <= i < s.len(),
    ensures
        0 <= f <= i,
        s[f] == s[i],
        !s.take(f).contains(s[f]),
    decreases i,
{
    if s.take(i).contains(s[i]) {
        let x = choose|x: int| 0 <= x < i && #[trigger] s.take(i)[x] == s[i];
        lemma_first_occurrence(s, x)
    } else {
        i
    }
}

/// Renumbering is idempotent: renumbering an already renumbered partition
/// leaves it unchanged.
pub proof fn lemma_renumber_idempotent(p: Seq<usize>, q: Seq<usize>, r: Seq<usize>)
    requires
        is_renumbering(q, p),
        is_renumbering(r, q),
    ensures
        r == q,
{
    assert forall|i: int| 0 <= i < q.len() implies r[i] == q[i] by {
        let f = lemma_first_occurrence(q, i);
        lemma_take_contains_same(p, q, f);
        lemma_same_pattern_distinct(p, q, f);
        assert(r[f] == distinct_before(q, f));
        assert(q[f] == distinct_before(p, f));
        assert(r[i] == r[f]);
    }
    assert(r =~= q);
}

} // verus!
