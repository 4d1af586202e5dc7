//! The undirected working graph of community detection.
use vstd::prelude::*;
use crate::partition::strictly_increasing;

verus! {

/// The sum of a sequence of integers.
pub open spec fn seq_sum(s: Seq<int>) -> int
    decreases s.len(),
{
    if s.len() == 0 {
        0
    } else {
        seq_sum(s.drop_last()) + s.last()
    }
}

/// Whether the edge list joins `u` and `v` (in either direction) as distinct
/// nodes below `n`.
pub open spec fn joined(edges: Seq<(usize, usize)>, n: int, u: int, v: int) -> bool {
    &&& u != v
    &&& 0 <= u < n
    &&& 0 <= v < n
    &&& exists|e: int|
        0 <= e < edges.len() && ((#[trigger] edges[e].0 == u && edges[e].1 == v) || (edges[e].0
            == v && edges[e].1 == u))
}

/// Compact undirected adjacency-list graph: directed input edges are
/// symmetrised, self-loops and duplicates removed, each list sorted.
#[derive(Debug, Clone)]
pub struct LeidenGraph {
    /// Number of nodes.
    pub n: usize,
    /// `adj[i]`: the neighbours of node `i`, strictly increasing.
    pub adj: Vec<Vec<usize>>,
    /// `degree[i]`: the number of neighbours of node `i`.
    pub degree: Vec<usize>,
    /// Number of undirected edges (half the sum of all degrees).
    pub total_weight: usize,
}

impl LeidenGraph {
    /// The shape every graph built here has: sorted duplicate-free symmetric
    /// adjacency without self-loops, and degrees and total weight that match it.
    pub open spec fn well_formed(&self) -> bool {
        &&& self.adj.len() == self.n
        &&& self.degree.len() == self.n
        &&& forall|u: int| 0 <= u < self.n ==> strictly_increasing(#[trigger] self.adj@[u]@)
        &&& forall|u: int, x: int|
            0 <= u < self.n && 0 <= x < self.adj@[u]@.len() ==> #[trigger] self.adj@[u]@[x]
                < self.n && self.adj@[u]@[x] != u
        &&& forall|u: int, v: int|
            0 <= u < self.n && 0 <= v < self.n ==> (#[trigger] self.adj@[u]@.contains(v as usize)
                <==> #[trigger] self.adj@[v]@.contains(u as usize))
        &&& forall|u: int| 0 <= u < self.n ==> #[trigger] self.degree@[u] == self.adj@[u]@.len()
        &&& 2 * self.total_weight == seq_sum(lengths(self.adj@))
    }

    /// Builds the undirected graph on `n` nodes from an edge list: edges are
    /// symmetrised; self-loops, out-of-range and duplicate edges are dropped.
    pub fn from_edges(n: usize, edges: &Vec<(usize, usize)>) -> (g: Self)
        ensures
            g.n == n,
            g.well_formed(),
            forall|u: usize, v: usize|
                u < n ==> (#[trigger] g.adj@[u as int]@.contains(v) <==> joined(edges@, n as int, u as int, v as int)),
    {
        let mut adj: Vec<Vec<usize>> = Vec::new();
        let mut i: usize = 0;
        while i < n
            invariant
                0 <= i <= n,
                adj.len() == i,
                forall|u: int| 0 <= u < i ==> (#[trigger] adj@[u]@).len() == 0,
            decreases n - i,
        {
            adj.push(Vec::new());
            i = i + 1;
        }
        let mut count: usize = 0;
        proof {
            lemma_lengths_empty(adj@);
        }
        let mut e: usize = 0;
        while e < edges.len()
            invariant
                0 <= e <= edges.len(),
                adj.len() == n,
                count <= e,
                forall|u: int| 0 <= u < n ==> strictly_increasing(#[trigger] adj@[u]@),
                forall|u: int, x: int|
                    0 <= u < n && 0 <= x < adj@[u]@.len() ==> #[trigger] adj@[u]@[x] < n && adj@[u]@[x] != u,
                forall|a: usize, b: usize|
                    a < n ==> (#[trigger] adj@[a as int]@.contains(b) <==> joined(
                        edges@.take(e as int),
                        n as int,
                        a as int,
                        b as int,
                    )),
                seq_sum(lengths(adj@)) == 2 * count,
            decreases edges.len() - e,
        {
            let (u, v) = edges[e];
            let ghost before = adj@;
            proof {
                assert(edges@.take(e + 1) =~= edges@.take(e as int).push((u, v)));
            }
            if u != v && u < n && v < n {
                let (row_u, fresh) = insert_sorted(&adj[u], v);
                let (row_v, fresh_v) = insert_sorted(&adj[v], u);
                proof {
                    assert(fresh == fresh_v) by {
                        assert(before[u as int]@.contains(v) <==> joined(edges@.take(e as int), n as int, u as int, v as int));
                        assert(before[v as int]@.contains(u) <==> joined(edges@.take(e as int), n as int, v as int, u as int));
                        lemma_joined_sym(edges@.take(e as int), n as int, u as int, v as int);
                    }
                    lemma_lengths_update(before, u as int, row_u@.len());
                }
                adj.set(u, row_u);
                proof {
                    lemma_lengths_update(adj@, v as int, row_v@.len());
                }
                adj.set(v, row_v);
                if fresh {
                    count = count + 1;
                }
                proof {
                    assert forall|a: usize, b: usize| a < n implies (#[trigger] adj@[a as int]@.contains(b) <==> joined(
                        edges@.take(e + 1), n as int, a as int, b as int)) by {
                        lemma_joined_push(edges@.take(e as int), n as int, a as int, b as int, u, v);
                        assert(before[a as int]@.contains(b) <==> joined(edges@.take(e as int), n as int, a as int, b as int));
                    }
                    assert forall|a: int, x: int|
                        0 <= a < n && 0 <= x < adj@[a]@.len() implies #[trigger] adj@[a]@[x] < n && adj@[a]@[x] != a by {
                        let y = adj@[a]@[x];
                        assert(adj@[a]@.contains(y));
                        if a != u && a != v {
                            assert(adj@[a] == before[a]);
                        } else {
                            if y != v && y != u {
                                assert(before[a]@.contains(y));
                                let z = choose|z: int| 0 <= z < before[a]@.len() && before[a]@[z] == y;
                            }
                        }
                    }
                }
            } else {
                proof {
                    assert forall|a: usize, b: usize| a < n implies (#[trigger] adj@[a as int]@.contains(b) <==> joined(
                        edges@.take(e + 1), n as int, a as int, b as int)) by {
                        lemma_joined_push(edges@.take(e as int), n as int, a as int, b as int, u, v);
                    }
                }
            }
            e = e + 1;
        }
        proof {
            assert(edges@.take(edges.len() as int) =~= edges@);
        }
        let mut degree: Vec<usize> = Vec::new();
        let mut k: usize = 0;
        while k < n
            invariant
                0 <= k <= n,
                adj.len() == n,
                degree.len() == k,
                forall|u: int| 0 <= u < k ==> #[trigger] degree@[u] == adj@[u]@.len(),
            decreases n - k,
        {
            degree.push(adj[k].len());
            k = k + 1;
        }
        proof {
            assert forall|a: int, b: int| 0 <= a < n && 0 <= b < n implies (#[trigger] adj@[a]@.contains(b as usize)
                <==> #[trigger] adj@[b]@.contains(a as usize)) by {
                lemma_joined_sym(edges@, n as int, a, b);
                assert(adj@[a as usize as int]@.contains(b as usize) <==> joined(edges@, n as int, a, b));
                assert(adj@[b as usize as int]@.contains(a as usize) <==> joined(edges@, n as int, b, a));
            }
        }
        LeidenGraph { n, adj, degree, total_weight: count }
    }
}

/// The lengths of the rows of an adjacency list.
pub open spec fn lengths(rows: Seq<Vec<usize>>) -> Seq<int> {
    Seq::new(rows.len(), |i: int| rows[i]@.len() as int)
}

proof fn lemma_seq_sum_update(s: Seq<int>, i: int, x: int)
    requires
        0 <= i < s.len(),
    ensures
        seq_sum(s.update(i, x)) == seq_sum(s) - s[i] + x,
    decreases s.len(),
{
    if i < s.len() - 1 {
        lemma_seq_sum_update(s.drop_last(), i, x);
        assert(s.update(i, x).drop_last() =~= s.drop_last().update(i, x));
    } else {
        assert(s.update(i, x).drop_last() =~= s.drop_last());
    }
}

proof fn lemma_lengths_update(rows: Seq<Vec<usize>>, i: int, len: nat)
    requires
        0 <= i < rows.len(),
    ensures
        forall|r: Vec<usize>| r@.len() == len ==> seq_sum(lengths(rows.update(i, r))) == seq_sum(lengths(rows))
            - rows[i]@.len() + len,
{
    assert forall|r: Vec<usize>| r@.len() == len implies seq_sum(lengths(rows.update(i, r))) == seq_sum(
        lengths(rows),
    ) - rows[i]@.len() + len by {
        assert(lengths(rows.update(i, r)) =~= lengths(rows).update(i, len as int));
        lemma_seq_sum_update(lengths(rows), i, len as int);
    }
}

proof fn lemma_joined_push(edges: Seq<(usize, usize)>, n: int, a: int, b: int, u: usize, v: usize)
    ensures
        joined(edges.push((u, v)), n, a, b) <==> (joined(edges, n, a, b) || (a != b && 0 <= a < n
            && 0 <= b < n && ((u == a && v == b) || (u == b && v == a)))),
{
    let es = edges.push((u, v));
    if joined(es, n, a, b) {
        let x = choose|x: int|
            0 <= x < es.len() && ((#[trigger] es[x].0 == a && es[x].1 == b) || (es[x].0 == b
                && es[x].1 == a));
        if x < edges.len() {
            assert(edges[x] == es[x]);
            assert(edges[x].0 == a || edges[x].0 == b);
            assert(joined(edges, n, a, b));
        } else {
            assert(es[x] == (u, v));
        }
    }
    if joined(edges, n, a, b) {
        let x = choose|x: int|
            0 <= x < edges.len() && ((#[trigger] edges[x].0 == a && edges[x].1 == b) || (
            edges[x].0 == b && edges[x].1 == a));
        assert(es[x] == edges[x]);
        assert(es[x].0 == a || es[x].0 == b);
        assert(joined(es, n, a, b));
    }
    if a != b && 0 <= a < n && 0 <= b < n && ((u == a && v == b) || (u == b && v == a)) {
        let x = edges.len() as int;
        assert(es[x] == (u, v));
        assert(es[x].0 == a || es[x].0 == b);
        assert(joined(es, n, a, b));
    }
}

proof fn lemma_joined_sym(edges: Seq<(usize, usize)>, n: int, a: int, b: int)
    ensures
        joined(edges, n, a, b) <==> joined(edges, n, b, a),
{
    if joined(edges, n, a, b) {
        let x = choose|x: int|
            0 <= x < edges.len() && ((#[trigger] edges[x].0 == a && edges[x].1 == b) || (
            edges[x].0 == b && edges[x].1 == a));
        assert(edges[x].0 == b && edges[x].1 == a || edges[x].0 == a && edges[x].1 == b);
    }
    if joined(edges, n, b, a) {
        let x = choose|x: int|
            0 <= x < edges.len() && ((#[trigger] edges[x].0 == b && edges[x].1 == a) || (
            edges[x].0 == a && edges[x].1 == b));
        assert(edges[x].0 == b && edges[x].1 == a || edges[x].0 == a && edges[x].1 == b);
    }
}

proof fn lemma_lengths_empty(rows: Seq<Vec<usize>>)
    requires
        forall|u: int| 0 <= u < rows.len() ==> (#[trigger] rows[u]@).len() == 0,
    ensures
        seq_sum(lengths(rows)) == 0,
    decreases rows.len(),
{
    if rows.len() > 0 {
        lemma_lengths_empty(rows.drop_last());
        assert(lengths(rows).drop_last() =~= lengths(rows.drop_last()));
    }
}

/// Inserts `x` into a strictly increasing row; reports whether it was new.
fn insert_sorted(row: &Vec<usize>, x: usize) -> (r: (Vec<usize>, bool))
    requires
        strictly_increasing(row@),
    ensures
        strictly_increasing(r.0@),
        forall|y: usize| #[trigger] r.0@.contains(y) <==> (row@.contains(y) || y == x),
        r.1 <==> !row@.contains(x),
        r.0@.len() == row@.len() + if r.1 { 1int } else { 0int },
{
    let mut out: Vec<usize> = Vec::new();
    let mut i: usize = 0;
    while i < row.len() && row[i] < x
        invariant
            0 <= i <= row.len(),
            strictly_increasing(row@),
            out@ == row@.take(i as int),
            forall|j: int| 0 <= j < i ==> row@[j] < x,
        decreases row.len() - i,
    {
        out.push(row[i]);
        i = i + 1;
        assert(out@ =~= row@.take(i as int));
    }
    let fresh = !(i < row.len() && row[i] == x);
    if fresh {
        out.push(x);
    }
    let ghost head = out@;
    let start = i;
    while i < row.len()
        invariant
            start <= i <= row.len(),
            out@ == head + row@.subrange(start as int, i as int),
        decreases row.len() - i,
    {
        out.push(row[i]);
        i = i + 1;
        assert(out@ =~= head + row@.subrange(start as int, i as int));
    }
    proof {
        let r = out@;
        assert forall|y: usize| #[trigger] r.contains(y) <==> (row@.contains(y) || y == x) by {
            if r.contains(y) {
                let j = choose|j: int| 0 <= j < r.len() && r[j] == y;
                if j < start {
                    assert(row@[j] == y);
                } else if fresh && j == start {
                } else {
                    let off = if fresh { start + 1 } else { start as int };
                    assert(r[j] == row@[start + (j - off)]);
                }
            }
            if row@.contains(y) {
                let j = choose|j: int| 0 <= j < row.len() && row@[j] == y;
                if j < start {
                    assert(r[j] == y);
                } else {
                    let off = if fresh { start + 1 } else { start as int };
                    assert(r[off + (j - start)] == y);
                }
            }
            if y == x {
                if fresh {
                    assert(r[start as int] == x);
                } else {
                    assert(r[start as int] == row@[start as int]);
                }
            }
        }
        assert(fresh <==> !row@.contains(x)) by {
            if row@.contains(x) {
                let j = choose|j: int| 0 <= j < row.len() && row@[j] == x;
                if j < start {
                } else if j > start {
                    assert(row@[start as int] < row@[j]);
                }
            }
        }
        assert forall|a: int, b: int| 0 <= a < b < r.len() implies r[a] < r[b] by {
            let off = if fresh { start + 1 } else { start as int };
            if b < start {
            } else if a < start {
                if fresh && b == start {
                } else {
                    assert(r[b] == row@[start + (b - off)]);
                    if start < row.len() {
                        assert(row@[a] < row@[start + (b - off)]);
                    }
                }
            } else if fresh && a == start {
                assert(r[b] == row@[start + (b - off)]);
                assert(row@[start as int] > x || start >= row.len());
                if start + (b - off) > start {
                    assert(row@[start as int] < row@[start + (b - off)]);
                }
            } else {
                assert(r[a] == row@[start + (a - off)]);
                assert(r[b] == row@[start + (b - off)]);
            }
        }
    }
    (out, fresh)
}

} // verus!
