//! Per-community tallies of a partition: the integer inputs of community
//! stability (internal edge density) and of modularity.
use vstd::prelude::*;
use crate::graph::DependencyGraph;
use crate::leiden::graph::{lengths, seq_sum, LeidenGraph};

verus! {

/// The number of entries `v` of an adjacency row of node `u` with `v > u`
/// and `v` in community `c`: the edges inside `c` that `u` is the lower end of.
pub open spec fn count_up(row: Seq<usize>, u: int, a: Seq<usize>, c: usize) -> nat
    decreases row.len(),
{
    if row.len() == 0 {
        0
    } else {
        count_up(row.drop_last(), u, a, c) + (if row.last() > u && a[row.last() as int] == c {
            1nat
        } else {
            0nat
        })
    }
}

/// The number of nodes below `i` in community `c`.
pub open spec fn tally_size(a: Seq<usize>, c: usize, i: int) -> nat
    decreases i,
{
    if i <= 0 {
        0
    } else {
        tally_size(a, c, i - 1) + (if a[i - 1] == c {
            1nat
        } else {
            0nat
        })
    }
}

/// The sum of the degrees of the nodes below `i` in community `c`.
pub open spec fn tally_degree(adj: Seq<Vec<usize>>, a: Seq<usize>, c: usize, i: int) -> nat
    decreases i,
{
    if i <= 0 {
        0
    } else {
        tally_degree(adj, a, c, i - 1) + (if a[i - 1] == c {
            adj[i - 1]@.len()
        } else {
            0nat
        })
    }
}

/// The number of edges inside community `c` whose lower end is below `i`.
pub open spec fn tally_inner(adj: Seq<Vec<usize>>, a: Seq<usize>, c: usize, i: int) -> nat
    decreases i,
{
    if i <= 0 {
        0
    } else {
        tally_inner(adj, a, c, i - 1) + (if a[i - 1] == c {
            count_up(adj[i - 1]@, i - 1, a, c)
        } else {
            0nat
        })
    }
}

/// Per-community counts of a partition, indexed by community ID.
#[derive(Debug, Clone)]
pub struct CommunityTallies {
    /// `size[c]`: the number of nodes in community `c`.
    pub size: Vec<usize>,
    /// `inner[c]`: the number of edges with both ends in community `c`.
    pub inner: Vec<usize>,
    /// `degree_sum[c]`: the sum of the degrees of the nodes in community `c`.
    pub degree_sum: Vec<usize>,
}

/// `t` holds the tallies of assignment `a` on `g`, one entry per community ID
/// up to the largest one used.
pub open spec fn tallies_of(t: CommunityTallies, g: LeidenGraph, a: Seq<usize>) -> bool {
    let k = t.size.len();
    &&& t.inner.len() == k
    &&& t.degree_sum.len() == k
    &&& (a.len() == 0 ==> k == 0)
    &&& (a.len() > 0 ==> (exists|i: int| 0 <= i < a.len() && #[trigger] a[i] + 1 == k) && forall|i: int|
        0 <= i < a.len() ==> #[trigger] a[i] < k)
    &&& forall|c: int| 0 <= c < k ==> #[trigger] t.size@[c] == tally_size(a, c as usize, a.len() as int)
    &&& forall|c: int| 0 <= c < k ==> #[trigger] t.inner@[c] == tally_inner(g.adj@, a, c as usize, a.len() as int)
    &&& forall|c: int|
        0 <= c < k ==> #[trigger] t.degree_sum@[c] == tally_degree(g.adj@, a, c as usize, a.len() as int)
}

proof fn lemma_count_up_le(row: Seq<usize>, u: int, a: Seq<usize>, c: usize)
    ensures
        count_up(row, u, a, c) <= row.len(),
    decreases row.len(),
{
    if row.len() > 0 {
        lemma_count_up_le(row.drop_last(), u, a, c);
    }
}

pub(crate) proof fn lemma_prefix_step(adj: Seq<Vec<usize>>, i: int)
    requires
        0 <= i < adj.len(),
    ensures
        seq_sum(lengths(adj.take(i + 1))) == seq_sum(lengths(adj.take(i))) + adj[i]@.len(),
{
    assert(lengths(adj.take(i + 1)).drop_last() =~= lengths(adj.take(i)));
}

pub(crate) proof fn lemma_prefix_le(adj: Seq<Vec<usize>>, i: int)
    requires
        0 <= i <= adj.len(),
    ensures
        seq_sum(lengths(adj.take(i))) <= seq_sum(lengths(adj)),
    decreases adj.len() - i,
{
    if i < adj.len() {
        lemma_prefix_step(adj, i);
        lemma_prefix_le(adj, i + 1);
    } else {
        assert(adj.take(i) =~= adj);
    }
}

pub(crate) proof fn lemma_tallies_bounded(adj: Seq<Vec<usize>>, a: Seq<usize>, c: usize, i: int)
    requires
        0 <= i <= adj.len(),
    ensures
        tally_inner(adj, a, c, i) <= seq_sum(lengths(adj.take(i))),
        tally_degree(adj, a, c, i) <= seq_sum(lengths(adj.take(i))),
        tally_size(a, c, i) <= i,
    decreases i,
{
    if i > 0 {
        lemma_tallies_bounded(adj, a, c, i - 1);
        lemma_prefix_step(adj, i - 1);
        lemma_count_up_le(adj[i - 1]@, i - 1, a, c);
    }
}

fn filled(k: usize) -> (v: Vec<usize>)
    ensures
        v.len() == k,
        forall|c: int| 0 <= c < k ==> #[trigger] v@[c] == 0,
{
    let mut v: Vec<usize> = Vec::new();
    let mut i: usize = 0;
    while i < k
        invariant
            0 <= i <= k,
            v.len() == i,
            forall|c: int| 0 <= c < i ==> #[trigger] v@[c] == 0,
        decreases k - i,
    {
        v.push(0);
        i = i + 1;
    }
    v
}

/// One more than the largest community ID of `a`, or 0 when `a` is empty.
fn community_bound(a: &Vec<usize>) -> (k: usize)
    requires
        forall|i: int| 0 <= i < a.len() ==> #[trigger] a@[i] < usize::MAX,
    ensures
        a.len() == 0 ==> k == 0,
        a.len() > 0 ==> (exists|i: int| 0 <= i < a.len() && #[trigger] a@[i] + 1 == k),
        forall|i: int| 0 <= i < a.len() ==> #[trigger] a@[i] < k,
{
    let mut k: usize = 0;
    let mut i: usize = 0;
    while i < a.len()
        invariant
            0 <= i <= a.len(),
            forall|j: int| 0 <= j < a.len() ==> #[trigger] a@[j] < usize::MAX,
            i == 0 ==> k == 0,
            i > 0 ==> (exists|j: int| 0 <= j < i && #[trigger] a@[j] + 1 == k),
            forall|j: int| 0 <= j < i ==> #[trigger] a@[j] < k,
        decreases a.len() - i,
    {
        if a[i] + 1 > k {
            k = a[i] + 1;
        }
        assert(a@[i as int] < k);
        i = i + 1;
    }
    k
}

/// Counts, for each community ID below `k`, its nodes, the edges inside it
/// and the sum of its nodes' degrees under assignment `a`.
pub(crate) fn tally_vectors(graph: &LeidenGraph, a: &Vec<usize>, k: usize) -> (r: (Vec<usize>, Vec<usize>, Vec<usize>))
    requires
        graph.well_formed(),
        a.len() == graph.n,
        forall|i: int| 0 <= i < a.len() ==> #[trigger] a@[i] < k,
        2 * graph.total_weight <= usize::MAX,
    ensures
        r.0.len() == k,
        r.1.len() == k,
        r.2.len() == k,
        forall|c: int| 0 <= c < k ==> #[trigger] r.0@[c] == tally_size(a@, c as usize, a.len() as int),
        forall|c: int| 0 <= c < k ==> #[trigger] r.1@[c] == tally_inner(graph.adj@, a@, c as usize, a.len() as int),
        forall|c: int| 0 <= c < k ==> #[trigger] r.2@[c] == tally_degree(graph.adj@, a@, c as usize, a.len() as int),
{
    let mut size = filled(k);
    let mut inner = filled(k);
    let mut degree_sum = filled(k);
    let ghost adj = graph.adj@;
    proof {
        lemma_prefix_le(adj, adj.len() as int);
    }
    let mut i: usize = 0;
    while i < graph.n
        invariant
            graph.well_formed(),
            adj == graph.adj@,
            a.len() == graph.n,
            2 * graph.total_weight <= usize::MAX,
            forall|j: int| 0 <= j < a.len() ==> #[trigger] a@[j] < k,
            0 <= i <= graph.n,
            size.len() == k,
            inner.len() == k,
            degree_sum.len() == k,
            forall|c: int| 0 <= c < k ==> #[trigger] size@[c] == tally_size(a@, c as usize, i as int),
            forall|c: int| 0 <= c < k ==> #[trigger] inner@[c] == tally_inner(adj, a@, c as usize, i as int),
            forall|c: int| 0 <= c < k ==> #[trigger] degree_sum@[c] == tally_degree(adj, a@, c as usize, i as int),
        decreases graph.n - i,
    {
        let c = a[i];
        proof {
            lemma_tallies_bounded(adj, a@, c, i as int);
            lemma_prefix_step(adj, i as int);
            lemma_prefix_le(adj, i + 1);
            lemma_count_up_le(adj[i as int]@, i as int, a@, c);
        }
        let row = &graph.adj[i];
        let ghost base = inner@[c as int];
        assert(base == tally_inner(adj, a@, c, i as int));
        assert(seq_sum(lengths(adj)) == 2 * graph.total_weight);
        let mut x: usize = 0;
        while x < row.len()
            invariant
                graph.well_formed(),
                adj == graph.adj@,
                row@ == adj[i as int]@,
                a.len() == graph.n,
                0 <= i < graph.n,
                c == a@[i as int],
                c < k,
                forall|j: int| 0 <= j < a.len() ==> #[trigger] a@[j] < k,
                inner.len() == k,
                0 <= x <= row.len(),
                base + row.len() <= usize::MAX,
                inner@[c as int] == base + count_up(row@.take(x as int), i as int, a@, c),
                forall|d: int| 0 <= d < k && d != c ==> #[trigger] inner@[d] == tally_inner(adj, a@, d as usize, i as int),
            decreases row.len() - x,
        {
            let j = row[x];
            proof {
                assert(row@.take(x + 1).drop_last() =~= row@.take(x as int));
                lemma_count_up_le(row@.take(x as int), i as int, a@, c);
            }
            if j > i && a[j] == c {
                inner.set(c, inner[c] + 1);
            }
            x = x + 1;
        }
        assert(row@.take(row.len() as int) =~= row@);
        size.set(c, size[c] + 1);
        degree_sum.set(c, degree_sum[c] + graph.degree[i]);
        i = i + 1;
    }
    (size, inner, degree_sum)
}

/// Counts, for each community of `assignment`, its nodes, the edges inside it
/// and the sum of its nodes' degrees: the tallies from which community
/// stability and modularity are computed.
pub fn community_tallies(graph: &LeidenGraph, assignment: &Vec<usize>) -> (t: CommunityTallies)
    requires
        graph.well_formed(),
        assignment.len() == graph.n,
        forall|i: int| 0 <= i < assignment.len() ==> #[trigger] assignment@[i] < usize::MAX,
        2 * graph.total_weight <= usize::MAX,
    ensures
        tallies_of(t, *graph, assignment@),
{
    let k = community_bound(assignment);
    let (size, inner, degree_sum) = tally_vectors(graph, assignment, k);
    CommunityTallies { size, inner, degree_sum }
}

impl LeidenGraph {
    /// Builds the undirected working graph of a dependency graph.
    pub fn from_dependency_graph(dg: &DependencyGraph) -> (g: Self)
        requires
            dg.well_formed(),
        ensures
            g.n == dg@.nodes.len(),
            g.well_formed(),
            forall|u: usize, v: usize|
                u < g.n ==> (#[trigger] g.adj@[u as int]@.contains(v) <==> crate::leiden::graph::joined(
                    dg@.edges,
                    g.n as int,
                    u as int,
                    v as int,
                )),
    {
        let n = dg.node_count();
        let pairs = dg.edges_as_pairs();
        LeidenGraph::from_edges(n, &pairs)
    }
}

/// The sum of a sequence of counts.
pub open spec fn total(s: Seq<usize>) -> int
    decreases s.len(),
{
    if s.len() == 0 {
        0
    } else {
        total(s.drop_last()) + s.last()
    }
}

spec fn size_sum(a: Seq<usize>, k: int, i: int) -> int
    decreases k,
{
    if k <= 0 {
        0
    } else {
        size_sum(a, k - 1, i) + tally_size(a, (k - 1) as usize, i)
    }
}

spec fn degree_sum_upto(adj: Seq<Vec<usize>>, a: Seq<usize>, k: int, i: int) -> int
    decreases k,
{
    if k <= 0 {
        0
    } else {
        degree_sum_upto(adj, a, k - 1, i) + tally_degree(adj, a, (k - 1) as usize, i)
    }
}

proof fn lemma_size_sum_step(a: Seq<usize>, k: int, i: int)
    requires
        0 <= i < a.len(),
        0 <= k <= usize::MAX,
    ensures
        size_sum(a, k, i + 1) == size_sum(a, k, i) + (if a[i] < k {
            1int
        } else {
            0int
        }),
    decreases k,
{
    if k > 0 {
        lemma_size_sum_step(a, k - 1, i);
        let c = (k - 1) as usize;
        assert(tally_size(a, c, i + 1) == tally_size(a, c, i) + (if a[i] == c {
            1nat
        } else {
            0nat
        }));
    }
}

proof fn lemma_degree_sum_step(adj: Seq<Vec<usize>>, a: Seq<usize>, k: int, i: int)
    requires
        0 <= i < a.len(),
        0 <= k <= usize::MAX,
    ensures
        degree_sum_upto(adj, a, k, i + 1) == degree_sum_upto(adj, a, k, i) + (if a[i] < k {
            adj[i]@.len() as int
        } else {
            0int
        }),
    decreases k,
{
    if k > 0 {
        lemma_degree_sum_step(adj, a, k - 1, i);
        let c = (k - 1) as usize;
        assert(tally_degree(adj, a, c, i + 1) == tally_degree(adj, a, c, i) + (if a[i] == c {
            adj[i]@.len()
        } else {
            0nat
        }));
    }
}

proof fn lemma_sums_upto(adj: Seq<Vec<usize>>, a: Seq<usize>, k: int, i: int)
    requires
        0 <= i <= a.len(),
        i <= adj.len(),
        0 <= k <= usize::MAX,
        forall|j: int| 0 <= j < a.len() ==> #[trigger] a[j] < k,
    ensures
        size_sum(a, k, i) == i,
        degree_sum_upto(adj, a, k, i) == seq_sum(lengths(adj.take(i))),
    decreases i,
{
    if i > 0 {
        lemma_sums_upto(adj, a, k, i - 1);
        lemma_size_sum_step(a, k, i - 1);
        lemma_degree_sum_step(adj, a, k, i - 1);
        lemma_prefix_step(adj, i - 1);
    } else {
        lemma_sums_zero(adj, a, k);
        assert(lengths(adj.take(0)) =~= Seq::<int>::empty());
    }
}

proof fn lemma_sums_zero(adj: Seq<Vec<usize>>, a: Seq<usize>, k: int)
    requires
        0 <= k,
    ensures
        size_sum(a, k, 0) == 0,
        degree_sum_upto(adj, a, k, 0) == 0,
    decreases k,
{
    if k > 0 {
        lemma_sums_zero(adj, a, k - 1);
    }
}

proof fn lemma_total_sizes(t: Seq<usize>, a: Seq<usize>, k: int)
    requires
        0 <= k <= t.len(),
        forall|c: int| 0 <= c < t.len() ==> #[trigger] t[c] == tally_size(a, c as usize, a.len() as int),
    ensures
        total(t.take(k)) == size_sum(a, k, a.len() as int),
    decreases k,
{
    if k > 0 {
        lemma_total_sizes(t, a, k - 1);
        assert(t.take(k).drop_last() =~= t.take(k - 1));
    } else {
        assert(t.take(0) =~= Seq::<usize>::empty());
    }
}

proof fn lemma_total_degrees(t: Seq<usize>, adj: Seq<Vec<usize>>, a: Seq<usize>, k: int)
    requires
        0 <= k <= t.len(),
        forall|c: int| 0 <= c < t.len() ==> #[trigger] t[c] == tally_degree(adj, a, c as usize, a.len() as int),
    ensures
        total(t.take(k)) == degree_sum_upto(adj, a, k, a.len() as int),
    decreases k,
{
    if k > 0 {
        lemma_total_degrees(t, adj, a, k - 1);
        assert(t.take(k).drop_last() =~= t.take(k - 1));
    } else {
        assert(t.take(0) =~= Seq::<usize>::empty());
    }
}

/// The community sizes of a partition add up to the number of nodes, and the
/// community degree sums add up to twice the number of edges: every node is
/// in exactly one community.
pub proof fn lemma_tallies_cover_graph(t: CommunityTallies, g: LeidenGraph, a: Seq<usize>)
    requires
        g.well_formed(),
        a.len() == g.n,
        tallies_of(t, g, a),
    ensures
        total(t.size@) == g.n,
        total(t.degree_sum@) == 2 * g.total_weight,
{
    let k = t.size.len() as int;
    lemma_sums_upto(g.adj@, a, k, a.len() as int);
    lemma_total_sizes(t.size@, a, k);
    lemma_total_degrees(t.degree_sum@, g.adj@, a, k);
    assert(t.size@.take(k) =~= t.size@);
    assert(t.degree_sum@.take(k) =~= t.degree_sum@);
    assert(g.adj@.take(a.len() as int) =~= g.adj@);
}

/// The number of entries of adjacency row `row` that `a` places in
/// community `to`.
pub open spec fn links_into(row: Seq<usize>, a: Seq<usize>, to: usize) -> nat
    decreases row.len(),
{
    if row.len() == 0 {
        0
    } else {
        links_into(row.drop_last(), a, to) + (if a[row.last() as int] == to {
            1nat
        } else {
            0nat
        })
    }
}

/// Counts the edges from `node` into community `to`.
pub fn edges_to_community(graph: &LeidenGraph, node: usize, to: usize, assignment: &Vec<usize>) -> (k: usize)
    requires
        graph.well_formed(),
        node < graph.n,
        assignment.len() == graph.n,
    ensures
        k == links_into(graph.adj@[node as int]@, assignment@, to),
{
    let row = &graph.adj[node];
    let mut k: usize = 0;
    let mut x: usize = 0;
    while x < row.len()
        invariant
            graph.well_formed(),
            node < graph.n,
            assignment.len() == graph.n,
            row@ == graph.adj@[node as int]@,
            0 <= x <= row.len(),
            k == links_into(row@.take(x as int), assignment@, to),
            k <= x,
        decreases row.len() - x,
    {
        assert(row@.take(x + 1).drop_last() =~= row@.take(x as int));
        assert(row@[x as int] < graph.n);
        if assignment[row[x]] == to {
            k = k + 1;
        }
        x = x + 1;
    }
    assert(row@.take(row.len() as int) =~= row@);
    k
}

} // verus!
