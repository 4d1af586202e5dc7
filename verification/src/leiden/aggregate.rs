//! Network aggregation: each refined community becomes one super-node.
use vstd::prelude::*;
use crate::partition::strictly_increasing;
use super::graph::{lengths, seq_sum, LeidenGraph, joined};
use super::tally::{lemma_prefix_le, lemma_prefix_step, links_into};

verus! {

/// One past the largest value of `s`, or 0 when `s` is empty.
pub open spec fn count_ids(s: Seq<usize>) -> int
    decreases s.len(),
{
    if s.len() == 0 {
        0
    } else {
        let rest = count_ids(s.drop_last());
        if s.last() + 1 > rest {
            s.last() + 1
        } else {
            rest
        }
    }
}

/// Whether some edge of `g` runs from a node in community `a` to a node in
/// community `b != a` of `refined`.
pub open spec fn communities_adjacent(g: LeidenGraph, refined: Seq<usize>, a: int, b: int) -> bool {
    &&& a != b
    &&& exists|u: int, x: int|
        0 <= u < g.n && 0 <= x < g.adj@[u]@.len() && refined[u] == a && #[trigger] refined[g.adj@[u]@[x] as int]
            == b && #[trigger] g.adj@[u]@[x] == g.adj@[u]@[x]
}

/// Result of one aggregation step.
pub struct AggregateResult {
    /// The aggregated graph: one node per refined community.
    pub graph: LeidenGraph,
    /// `membership[c]`: the nodes of the finer graph in super-node `c`, increasing.
    pub membership: Vec<Vec<usize>>,
    /// `weights[a][y]`: the weight of the edge from super-node `a` to its
    /// `y`-th neighbour `b`, the number of edges of the finer graph between
    /// communities `a` and `b`.
    pub weights: Vec<Vec<usize>>,
}

/// The number of edges of the finer graph with one end in community `a`
/// and the other in community `b`, counted at their `a` end over the nodes
/// below `i`.
pub open spec fn cross_count(adj: Seq<Vec<usize>>, refined: Seq<usize>, a: usize, b: usize, i: int) -> nat
    decreases i,
{
    if i <= 0 {
        0
    } else {
        cross_count(adj, refined, a, b, i - 1) + (if refined[i - 1] == a {
            links_into(adj[i - 1]@, refined, b)
        } else {
            0nat
        })
    }
}

proof fn lemma_links_into_bound(row: Seq<usize>, a: Seq<usize>, to: usize)
    ensures
        links_into(row, a, to) <= row.len(),
    decreases row.len(),
{
    if row.len() > 0 {
        lemma_links_into_bound(row.drop_last(), a, to);
    }
}

proof fn lemma_cross_count_bound(adj: Seq<Vec<usize>>, refined: Seq<usize>, a: usize, b: usize, i: int)
    requires
        0 <= i <= adj.len(),
    ensures
        cross_count(adj, refined, a, b, i) <= seq_sum(lengths(adj.take(i))),
    decreases i,
{
    if i > 0 {
        lemma_cross_count_bound(adj, refined, a, b, i - 1);
        lemma_prefix_step(adj, i - 1);
        lemma_links_into_bound(adj[i - 1]@, refined, b);
    }
}

fn position_in(row: &Vec<usize>, b: usize) -> (y: usize)
    requires
        row@.contains(b),
    ensures
        y < row.len(),
        row@[y as int] == b,
{
    let mut y: usize = 0;
    while y < row.len()
        invariant
            0 <= y <= row.len(),
            row@.contains(b),
            forall|z: int| 0 <= z < y ==> row@[z] != b,
        decreases row.len() - y,
    {
        if row[y] == b {
            return y;
        }
        y = y + 1;
    }
    proof {
        let z = choose|z: int| 0 <= z < row@.len() && row@[z] == b;
        assert(row@[z] != b);
    }
    0
}

/// The weights of the aggregate graph `agg` of `graph` under `refined`.
fn aggregate_weights(graph: &LeidenGraph, refined: &Vec<usize>, agg: &LeidenGraph) -> (w: Vec<Vec<usize>>)
    requires
        graph.well_formed(),
        agg.well_formed(),
        refined.len() >= graph.n,
        forall|i: int| 0 <= i < graph.n ==> #[trigger] refined@[i] < agg.n,
        2 * graph.total_weight <= usize::MAX,
        forall|a: usize, b: usize|
            a < agg.n ==> (#[trigger] agg.adj@[a as int]@.contains(b) <==> communities_adjacent(*graph, refined@, a as int, b as int)),
    ensures
        w.len() == agg.n,
        forall|a: int| 0 <= a < agg.n ==> (#[trigger] w@[a])@.len() == agg.adj@[a]@.len(),
        forall|a: int, y: int|
            0 <= a < agg.n && 0 <= y < agg.adj@[a]@.len() ==> #[trigger] w@[a]@[y] == cross_count(
                graph.adj@,
                refined@,
                a as usize,
                agg.adj@[a]@[y],
                graph.n as int,
            ),
{
    let k = agg.n;
    let n = graph.n;
    let ghost adj = graph.adj@;
    let mut w: Vec<Vec<usize>> = Vec::new();
    let mut a: usize = 0;
    while a < k
        invariant
            0 <= a <= k,
            k == agg.n,
            agg.well_formed(),
            w.len() == a,
            forall|c: int| 0 <= c < a ==> (#[trigger] w@[c])@.len() == agg.adj@[c]@.len(),
            forall|c: int, y: int| 0 <= c < a && 0 <= y < agg.adj@[c]@.len() ==> #[trigger] w@[c]@[y] == 0,
        decreases k - a,
    {
        let len = agg.adj[a].len();
        let mut row: Vec<usize> = Vec::new();
        let mut y: usize = 0;
        while y < len
            invariant
                0 <= y <= len,
                row.len() == y,
                forall|z: int| 0 <= z < y ==> #[trigger] row@[z] == 0,
            decreases len - y,
        {
            row.push(0);
            y = y + 1;
        }
        w.push(row);
        a = a + 1;
    }
    proof {
        lemma_prefix_le(adj, adj.len() as int);
        assert(adj.take(adj.len() as int) =~= adj);
    }
    let mut u: usize = 0;
    while u < n
        invariant
            0 <= u <= n,
            n == graph.n,
            k == agg.n,
            adj == graph.adj@,
            graph.well_formed(),
            agg.well_formed(),
            refined.len() >= n,
            forall|i: int| 0 <= i < graph.n ==> #[trigger] refined@[i] < agg.n,
            2 * graph.total_weight <= usize::MAX,
            seq_sum(lengths(adj)) == 2 * graph.total_weight,
            forall|c: usize, b: usize|
                c < agg.n ==> (#[trigger] agg.adj@[c as int]@.contains(b) <==> communities_adjacent(*graph, refined@, c as int, b as int)),
            w.len() == k,
            forall|c: int| 0 <= c < k ==> (#[trigger] w@[c])@.len() == agg.adj@[c]@.len(),
            forall|c: int, y: int|
                0 <= c < k && 0 <= y < agg.adj@[c]@.len() ==> #[trigger] w@[c]@[y] == cross_count(adj, refined@, c as usize, agg.adj@[c]@[y], u as int),
        decreases n - u,
    {
        let cu = refined[u];
        let row = &graph.adj[u];
        proof {
            lemma_prefix_step(adj, u as int);
            lemma_prefix_le(adj, u + 1);
        }
        let mut x: usize = 0;
        while x < row.len()
            invariant
                0 <= x <= row.len(),
                0 <= u < n,
                n == graph.n,
                k == agg.n,
                adj == graph.adj@,
                row@ == adj[u as int]@,
                graph.well_formed(),
                agg.well_formed(),
                refined.len() >= n,
                cu == refined@[u as int],
                forall|i: int| 0 <= i < graph.n ==> #[trigger] refined@[i] < agg.n,
                seq_sum(lengths(adj.take(u + 1))) <= 2 * graph.total_weight,
                seq_sum(lengths(adj.take(u + 1))) == seq_sum(lengths(adj.take(u as int))) + row.len(),
                2 * graph.total_weight <= usize::MAX,
                forall|c: usize, b: usize|
                    c < agg.n ==> (#[trigger] agg.adj@[c as int]@.contains(b) <==> communities_adjacent(*graph, refined@, c as int, b as int)),
                w.len() == k,
                forall|c: int| 0 <= c < k ==> (#[trigger] w@[c])@.len() == agg.adj@[c]@.len(),
                forall|c: int, y: int|
                    0 <= c < k && 0 <= y < agg.adj@[c]@.len() ==> #[trigger] w@[c]@[y] == cross_count(adj, refined@, c as usize, agg.adj@[c]@[y], u as int)
                        + (if c == cu { links_into(row@.take(x as int), refined@, agg.adj@[c]@[y]) } else { 0nat }),
            decreases row.len() - x,
        {
            let v = row[x];
            let cv = refined[v];
            let ghost before = w@;
            proof {
                assert(row@.take(x + 1).drop_last() =~= row@.take(x as int));
                assert(row@.take(x + 1).last() == v);
            }
            if cu != cv {
                proof {
                    assert(adj[u as int]@[x as int] == adj[u as int]@[x as int]);
                    assert(communities_adjacent(*graph, refined@, cu as int, cv as int));
                }
                let y = position_in(&agg.adj[cu], cv);
                proof {
                    lemma_cross_count_bound(adj, refined@, cu, cv, u as int);
                    lemma_links_into_bound(row@.take(x as int), refined@, cv);
                }
                let mut wrow: Vec<usize> = Vec::new();
                std::mem::swap(&mut wrow, &mut w[cu]);
                assert(wrow@ == before[cu as int]@);
                let old = wrow[y];
                wrow.set(y, old + 1);
                std::mem::swap(&mut wrow, &mut w[cu]);
                proof {
                    assert forall|c: int, z: int|
                        0 <= c < k && 0 <= z < agg.adj@[c]@.len() implies #[trigger] w@[c]@[z] == cross_count(adj, refined@, c as usize, agg.adj@[c]@[z], u as int)
                            + (if c == cu { links_into(row@.take(x + 1), refined@, agg.adj@[c]@[z]) } else { 0nat }) by {
                        if c != cu {
                            assert(w@[c] == before[c]);
                        } else if z != y {
                            assert(w@[c]@[z] == before[c]@[z]);
                            assert(agg.adj@[c]@[z] != cv) by {
                                if z < y {
                                    assert(agg.adj@[c]@[z] < agg.adj@[c]@[y as int]);
                                } else {
                                    assert(agg.adj@[c]@[y as int] < agg.adj@[c]@[z]);
                                }
                            }
                        }
                    }
                    assert forall|c: int| 0 <= c < k implies (#[trigger] w@[c])@.len() == agg.adj@[c]@.len() by {
                        if c != cu {
                            assert(w@[c] == before[c]);
                        }
                    }
                }
            } else {
                proof {
                    assert forall|c: int, z: int|
                        0 <= c < k && 0 <= z < agg.adj@[c]@.len() implies #[trigger] w@[c]@[z] == cross_count(adj, refined@, c as usize, agg.adj@[c]@[z], u as int)
                            + (if c == cu { links_into(row@.take(x + 1), refined@, agg.adj@[c]@[z]) } else { 0nat }) by {
                        if c == cu {
                            assert(agg.adj@[c]@[z] != cu);
                        }
                    }
                }
            }
            x = x + 1;
        }
        proof {
            assert(row@.take(row.len() as int) =~= row@);
        }
        u = u + 1;
    }
    w
}

proof fn lemma_count_ids(s: Seq<usize>)
    ensures
        forall|i: int| 0 <= i < s.len() ==> #[trigger] s[i] < count_ids(s),
        s.len() > 0 ==> exists|i: int| 0 <= i < s.len() && #[trigger] s[i] + 1 == count_ids(s),
        count_ids(s) >= 0,
    decreases s.len(),
{
    if s.len() > 0 {
        lemma_count_ids(s.drop_last());
        assert forall|i: int| 0 <= i < s.len() implies #[trigger] s[i] < count_ids(s) by {
            if i < s.len() - 1 {
                assert(s.drop_last()[i] == s[i]);
            }
        }
        if s.drop_last().len() > 0 && count_ids(s) == count_ids(s.drop_last()) {
            let i = choose|i: int| 0 <= i < s.drop_last().len() && #[trigger] s.drop_last()[i] + 1 == count_ids(s.drop_last());
            assert(s[i] == s.drop_last()[i]);
        } else {
            assert(s[s.len() - 1] + 1 == count_ids(s));
        }
    }
}

fn count_ids_exec(s: &Vec<usize>) -> (k: usize)
    requires
        forall|i: int| 0 <= i < s.len() ==> #[trigger] s@[i] < usize::MAX,
    ensures
        k == count_ids(s@),
{
    let mut k: usize = 0;
    let mut i: usize = 0;
    while i < s.len()
        invariant
            0 <= i <= s.len(),
            forall|j: int| 0 <= j < s.len() ==> #[trigger] s@[j] < usize::MAX,
            k == count_ids(s@.take(i as int)),
        decreases s.len() - i,
    {
        assert(s@.take(i + 1).drop_last() =~= s@.take(i as int));
        if s[i] + 1 > k {
            k = s[i] + 1;
        }
        i = i + 1;
    }
    assert(s@.take(s.len() as int) =~= s@);
    k
}

/// Builds the aggregate graph of `graph` under `refined`: super-node `c`
/// holds the nodes of refined community `c`, and two super-nodes are joined
/// exactly when some edge crosses between their communities, with the number
/// of such edges as the weight of the join.
pub fn aggregate_network(graph: &LeidenGraph, refined: &Vec<usize>) -> (r: AggregateResult)
    requires
        graph.well_formed(),
        refined.len() >= graph.n,
        forall|i: int| 0 <= i < refined.len() ==> #[trigger] refined@[i] < usize::MAX,
        2 * graph.total_weight <= usize::MAX,
    ensures
        r.graph.n == count_ids(refined@),
        r.weights.len() == r.graph.n,
        forall|a: int| 0 <= a < r.graph.n ==> (#[trigger] r.weights@[a])@.len() == r.graph.adj@[a]@.len(),
        forall|a: int, y: int|
            0 <= a < r.graph.n && 0 <= y < r.graph.adj@[a]@.len() ==> #[trigger] r.weights@[a]@[y] == cross_count(
                graph.adj@,
                refined@,
                a as usize,
                r.graph.adj@[a]@[y],
                graph.n as int,
            ),
        r.graph.well_formed(),
        forall|a: usize, b: usize|
            a < r.graph.n ==> (#[trigger] r.graph.adj@[a as int]@.contains(b)
                <==> communities_adjacent(*graph, refined@, a as int, b as int)),
        r.membership.len() == count_ids(refined@),
        forall|c: int| 0 <= c < r.membership.len() ==> strictly_increasing(#[trigger] r.membership@[c]@),
        forall|c: int, x: usize|
            0 <= c < r.membership.len() ==> (#[trigger] r.membership@[c]@.contains(x) <==> (x
                < refined.len() && refined@[x as int] == c)),
{
    let n = graph.n;
    let num_comms = count_ids_exec(refined);
    proof {
        lemma_count_ids(refined@);
    }
    let mut membership: Vec<Vec<usize>> = Vec::new();
    let mut c: usize = 0;
    while c < num_comms
        invariant
            0 <= c <= num_comms,
            membership.len() == c,
            forall|d: int| 0 <= d < c ==> (#[trigger] membership@[d]@).len() == 0,
        decreases num_comms - c,
    {
        membership.push(Vec::new());
        c = c + 1;
    }
    let mut node: usize = 0;
    while node < refined.len()
        invariant
            0 <= node <= refined.len(),
            num_comms == count_ids(refined@),
            forall|i: int| 0 <= i < refined.len() ==> #[trigger] refined@[i] < num_comms,
            membership.len() == num_comms,
            forall|d: int| 0 <= d < num_comms ==> strictly_increasing(#[trigger] membership@[d]@),
            forall|d: int, y: int|
                0 <= d < num_comms && 0 <= y < membership@[d]@.len() ==> #[trigger] membership@[d]@[y] < node,
            forall|d: int, x: usize|
                0 <= d < num_comms ==> (#[trigger] membership@[d]@.contains(x) <==> (x < node
                    && refined@[x as int] == d)),
        decreases refined.len() - node,
    {
        let comm = refined[node];
        let ghost old_mem = membership@;
        let mut row: Vec<usize> = Vec::new();
        std::mem::swap(&mut row, &mut membership[comm]);
        let ghost old_row = row@;
        assert(old_row == old_mem[comm as int]@);
        row.push(node);
        proof {
            assert forall|a: int, b: int| 0 <= a < b < row@.len() implies row@[a] < row@[b] by {
                if b < old_row.len() {
                    assert(old_row[a] < old_row[b]);
                } else {
                    assert(old_row[a] < node);
                }
            }
        }
        std::mem::swap(&mut row, &mut membership[comm]);
        assert(membership@[comm as int]@ == old_row.push(node));
        proof {
            assert forall|d: int, x: usize| 0 <= d < num_comms implies (#[trigger] membership@[d]@.contains(x) <==> (x
                < node + 1 && refined@[x as int] == d)) by {
                if d != comm {
                    assert(membership@[d] == old_mem[d]);
                }
                if d == comm {
                    if membership@[d]@.contains(x) && x != node {
                        let y = choose|y: int| 0 <= y < membership@[d]@.len() && membership@[d]@[y] == x;
                        assert(old_row[y] == x);
                        assert(old_mem[d]@.contains(x));
                    }
                    if x < node && refined@[x as int] == d {
                        assert(old_row.contains(x));
                        let y = choose|y: int| 0 <= y < old_row.len() && old_row[y] == x;
                        assert(membership@[d]@[y] == x);
                    }
                    if x == node {
                        assert(membership@[d]@[old_row.len() as int] == x);
                    }
                }
            }
        }
        node = node + 1;
    }
    let mut edges: Vec<(usize, usize)> = Vec::new();
    let mut u: usize = 0;
    while u < n
        invariant
            0 <= u <= n,
            n == graph.n,
            graph.well_formed(),
            refined.len() >= n,
            num_comms == count_ids(refined@),
            forall|i: int| 0 <= i < refined.len() ==> #[trigger] refined@[i] < num_comms,
            forall|a: int, b: int|
                #![trigger joined(edges@, num_comms as int, a, b)]
                0 <= a < num_comms && 0 <= b < num_comms ==> (joined(edges@, num_comms as int, a, b) <==> (a != b && exists|w: int, y: int|
                    0 <= w < u && 0 <= y < graph.adj@[w]@.len() && ((refined@[w] == a && #[trigger] refined@[graph.adj@[w]@[y] as int] == b) || (refined@[w] == b && refined@[graph.adj@[w]@[y] as int] == a)))),
        decreases n - u,
    {
        let row = &graph.adj[u];
        let cu = refined[u];
        let mut x: usize = 0;
        while x < row.len()
            invariant
                0 <= x <= row.len(),
                0 <= u < n,
                n == graph.n,
                graph.well_formed(),
                row@ == graph.adj@[u as int]@,
                refined.len() >= n,
                cu == refined@[u as int],
                num_comms == count_ids(refined@),
                forall|i: int| 0 <= i < refined.len() ==> #[trigger] refined@[i] < num_comms,
                forall|a: int, b: int|
                    #![trigger joined(edges@, num_comms as int, a, b)]
                    0 <= a < num_comms && 0 <= b < num_comms ==> (joined(edges@, num_comms as int, a, b) <==> (a != b && exists|w: int, y: int|
                        0 <= w <= u && 0 <= y < graph.adj@[w]@.len() && (w < u || y < x) && ((refined@[w] == a && #[trigger] refined@[graph.adj@[w]@[y] as int] == b) || (refined@[w] == b && refined@[graph.adj@[w]@[y] as int] == a)))),
            decreases row.len() - x,
        {
            let v = row[x];
            assert(v < n);
            let cv = refined[v];
            let ghost before = edges@;
            if cu < cv {
                edges.push((cu, cv));
            } else if cu > cv {
                edges.push((cv, cu));
            }
            proof {
                assert forall|a: int, b: int|
                    0 <= a < num_comms && 0 <= b < num_comms implies (#[trigger] joined(edges@, num_comms as int, a, b) <==> (a != b && exists|w: int, y: int|
                        0 <= w <= u && 0 <= y < graph.adj@[w]@.len() && (w < u || y < x + 1) && ((refined@[w] == a && #[trigger] refined@[graph.adj@[w]@[y] as int] == b) || (refined@[w] == b && refined@[graph.adj@[w]@[y] as int] == a)))) by {
                    if cu != cv {
                        let (p, q) = if cu < cv { (cu, cv) } else { (cv, cu) };
                        assert(edges@ == before.push((p, q)));
                        lemma_joined_push_agg(before, num_comms as int, a, b, p, q);
                    } else {
                        assert(edges@ == before);
                    }
                    if a != b && exists|w: int, y: int|
                        0 <= w <= u && 0 <= y < graph.adj@[w]@.len() && (w < u || y < x + 1) && ((refined@[w] == a && #[trigger] refined@[graph.adj@[w]@[y] as int] == b) || (refined@[w] == b && refined@[graph.adj@[w]@[y] as int] == a)) {
                        let (w, y) = choose|w: int, y: int|
                            0 <= w <= u && 0 <= y < graph.adj@[w]@.len() && (w < u || y < x + 1) && ((refined@[w] == a && #[trigger] refined@[graph.adj@[w]@[y] as int] == b) || (refined@[w] == b && refined@[graph.adj@[w]@[y] as int] == a));
                        if !(w < u || y < x) {
                            assert(w == u && y == x);
                        }
                    }
                }
            }
            x = x + 1;
        }
        u = u + 1;
    }
    let agg = LeidenGraph::from_edges(num_comms, &edges);
    proof {
        assert forall|a: usize, b: usize| a < num_comms implies (#[trigger] agg.adj@[a as int]@.contains(b)
            <==> communities_adjacent(*graph, refined@, a as int, b as int)) by {
            if agg.adj@[a as int]@.contains(b) {
                assert(joined(edges@, num_comms as int, a as int, b as int));
                assert(b < num_comms);
                let (w, y) = choose|w: int, y: int|
                    0 <= w < n && 0 <= y < graph.adj@[w]@.len() && ((refined@[w] == a && #[trigger] refined@[graph.adj@[w]@[y] as int] == b) || (refined@[w] == b && refined@[graph.adj@[w]@[y] as int] == a));
                if refined@[w] == a && refined@[graph.adj@[w]@[y] as int] == b {
                    assert(graph.adj@[w]@[y] == graph.adj@[w]@[y]);
                } else {
                    let v = graph.adj@[w]@[y];
                    assert(v < graph.n);
                    assert(graph.adj@[w]@.contains((v as int) as usize));
                    assert(graph.adj@[v as int]@.contains(w as usize));
                    let z = choose|z: int| 0 <= z < graph.adj@[v as int]@.len() && graph.adj@[v as int]@[z] == w as usize;
                    assert(refined@[v as int] == a && refined@[graph.adj@[v as int]@[z] as int] == b);
                    assert(graph.adj@[v as int]@[z] == graph.adj@[v as int]@[z]);
                }
            }
            if communities_adjacent(*graph, refined@, a as int, b as int) {
                let (w, y) = choose|w: int, y: int|
                    0 <= w < graph.n && 0 <= y < graph.adj@[w]@.len() && refined@[w] == a && #[trigger] refined@[graph.adj@[w]@[y] as int]
                        == b && #[trigger] graph.adj@[w]@[y] == graph.adj@[w]@[y];
                assert(b < num_comms);
                assert(joined(edges@, num_comms as int, a as int, b as int));
            }
        }
    }
    let weights = aggregate_weights(graph, refined, &agg);
    AggregateResult { graph: agg, membership, weights }
}

/// The last super-node below `s` whose member list holds `o`, or -1.
pub open spec fn last_owner(membership: Seq<Vec<usize>>, o: usize, s: int) -> int
    decreases s,
{
    if s <= 0 {
        -1
    } else if membership[s - 1]@.contains(o) {
        s - 1
    } else {
        last_owner(membership, o, s - 1)
    }
}

proof fn lemma_last_owner_range(membership: Seq<Vec<usize>>, o: usize, s: int)
    ensures
        -1 <= last_owner(membership, o, s) < s || (s <= 0 && last_owner(membership, o, s) == -1),
        last_owner(membership, o, s) >= 0 ==> membership[last_owner(membership, o, s)]@.contains(o),
    decreases s,
{
    if s > 0 {
        lemma_last_owner_range(membership, o, s - 1);
    }
}

/// Maps a partition of super-nodes back to the nodes of the finer graph: each
/// node takes the community of the (last) super-node listing it; nodes that
/// no super-node lists get community 0.
pub fn flatten_partition(
    agg_partition: &Vec<usize>,
    membership: &Vec<Vec<usize>>,
    node_total: usize,
) -> (assignment: Vec<usize>)
    requires
        membership.len() <= agg_partition.len(),
        forall|s: int, y: int|
            0 <= s < membership.len() && 0 <= y < membership@[s]@.len() ==> #[trigger] membership@[s]@[y]
                < node_total,
    ensures
        assignment.len() == node_total,
        forall|o: int|
            0 <= o < node_total ==> #[trigger] assignment@[o] == if last_owner(
                membership@,
                o as usize,
                membership.len() as int,
            ) >= 0 {
                agg_partition@[last_owner(membership@, o as usize, membership.len() as int)]
            } else {
                0
            },
{
    let mut assignment: Vec<usize> = Vec::new();
    let mut i: usize = 0;
    while i < node_total
        invariant
            0 <= i <= node_total,
            assignment.len() == i,
            forall|o: int| 0 <= o < i ==> #[trigger] assignment@[o] == 0,
        decreases node_total - i,
    {
        assignment.push(0);
        i = i + 1;
    }
    let mut s: usize = 0;
    while s < membership.len()
        invariant
            0 <= s <= membership.len(),
            membership.len() <= agg_partition.len(),
            assignment.len() == node_total,
            forall|t: int, y: int|
                0 <= t < membership.len() && 0 <= y < membership@[t]@.len() ==> #[trigger] membership@[t]@[y]
                    < node_total,
            forall|o: int|
                0 <= o < node_total ==> #[trigger] assignment@[o] == if last_owner(membership@, o as usize, s as int) >= 0 {
                    agg_partition@[last_owner(membership@, o as usize, s as int)]
                } else {
                    0
                },
        decreases membership.len() - s,
    {
        let comm = agg_partition[s];
        let members = &membership[s];
        let mut y: usize = 0;
        while y < members.len()
            invariant
                0 <= y <= members.len(),
                0 <= s < membership.len(),
                membership.len() <= agg_partition.len(),
                members@ == membership@[s as int]@,
                comm == agg_partition@[s as int],
                assignment.len() == node_total,
                forall|t: int, z: int|
                    0 <= t < membership.len() && 0 <= z < membership@[t]@.len() ==> #[trigger] membership@[t]@[z]
                        < node_total,
                forall|o: int|
                    0 <= o < node_total ==> #[trigger] assignment@[o] == if members@.take(y as int).contains(o as usize) {
                        comm
                    } else if last_owner(membership@, o as usize, s as int) >= 0 {
                        agg_partition@[last_owner(membership@, o as usize, s as int)]
                    } else {
                        0
                    },
            decreases members.len() - y,
        {
            let orig = members[y];
            assert(orig < node_total);
            let ghost old_assign = assignment@;
            assignment.set(orig, comm);
            proof {
                assert forall|o: int| 0 <= o < node_total implies #[trigger] assignment@[o] == if members@.take(y + 1).contains(o as usize) {
                        comm
                    } else if last_owner(membership@, o as usize, s as int) >= 0 {
                        agg_partition@[last_owner(membership@, o as usize, s as int)]
                    } else {
                        0
                    } by {
                    assert(members@.take(y + 1) =~= members@.take(y as int).push(orig));
                    if o == orig as int {
                        assert(members@.take(y + 1)[y as int] == orig);
                        assert(members@.take(y + 1).contains(o as usize));
                    } else {
                        assert(assignment@[o] == old_assign[o]);
                        if members@.take(y + 1).contains(o as usize) {
                            let z = choose|z: int| 0 <= z < y + 1 && #[trigger] members@.take(y + 1)[z] == o as usize;
                            assert(members@.take(y as int)[z] == o as usize);
                        }
                        if members@.take(y as int).contains(o as usize) {
                            let z = choose|z: int| 0 <= z < y && #[trigger] members@.take(y as int)[z] == o as usize;
                            assert(members@.take(y + 1)[z] == o as usize);
                        }
                    }
                }
            }
            y = y + 1;
        }
        proof {
            assert(members@.take(members.len() as int) =~= members@);
        }
        s = s + 1;
    }
    assignment
}

/// The last node below `i` placed in super-node `s` by `refined`, or -1.
pub open spec fn last_member(refined: Seq<usize>, s: usize, i: int) -> int
    decreases i,
{
    if i <= 0 {
        -1
    } else if refined[i - 1] == s {
        i - 1
    } else {
        last_member(refined, s, i - 1)
    }
}

proof fn lemma_last_member_range(refined: Seq<usize>, s: usize, i: int)
    requires
        i >= 0,
    ensures
        last_member(refined, s, i) < i,
        last_member(refined, s, i) >= -1,
    decreases i,
{
    if i > 0 {
        lemma_last_member_range(refined, s, i - 1);
    }
}

/// Primes an aggregate run: super-node `s` starts in the coarse community of
/// the (last) node of the finer graph that `refined` places in it, or 0 when none does.
pub fn map_to_aggregate_init(
    coarse_partition: &Vec<usize>,
    refined_partition: &Vec<usize>,
    num_super_nodes: usize,
) -> (agg_init: Vec<usize>)
    requires
        coarse_partition.len() >= refined_partition.len(),
        forall|i: int| 0 <= i < refined_partition.len() ==> #[trigger] refined_partition@[i] < num_super_nodes,
    ensures
        agg_init.len() == num_super_nodes,
        forall|s: int|
            0 <= s < num_super_nodes ==> #[trigger] agg_init@[s] == if last_member(
                refined_partition@,
                s as usize,
                refined_partition.len() as int,
            ) >= 0 {
                coarse_partition@[last_member(refined_partition@, s as usize, refined_partition.len() as int)]
            } else {
                0
            },
{
    let mut agg_init: Vec<usize> = Vec::new();
    let mut i: usize = 0;
    while i < num_super_nodes
        invariant
            0 <= i <= num_super_nodes,
            agg_init.len() == i,
            forall|s: int| 0 <= s < i ==> #[trigger] agg_init@[s] == 0,
        decreases num_super_nodes - i,
    {
        agg_init.push(0);
        i = i + 1;
    }
    let mut node: usize = 0;
    while node < refined_partition.len()
        invariant
            0 <= node <= refined_partition.len(),
            coarse_partition.len() >= refined_partition.len(),
            forall|j: int| 0 <= j < refined_partition.len() ==> #[trigger] refined_partition@[j] < num_super_nodes,
            agg_init.len() == num_super_nodes,
            forall|s: int|
                0 <= s < num_super_nodes ==> #[trigger] agg_init@[s] == if last_member(refined_partition@, s as usize, node as int) >= 0 {
                    coarse_partition@[last_member(refined_partition@, s as usize, node as int)]
                } else {
                    0
                },
        decreases refined_partition.len() - node,
    {
        let super_node = refined_partition[node];
        agg_init.set(super_node, coarse_partition[node]);
        node = node + 1;
    }
    agg_init
}

proof fn lemma_joined_push_agg(edges: Seq<(usize, usize)>, n: int, a: int, b: int, u: usize, v: usize)
    ensures
        joined(edges.push((u, v)), n, a, b) <==> (joined(edges, n, a, b) || (a != b && 0 <= a < n
            && 0 <= b < n && ((u == a && v == b) || (u == b && v == a)))),
{
    let es = edges.push((u, v));
    if joined(es, n, a, b) {
        let x = choose|x: int|
            0 <= x < es.len() && ((#[trigger] es[x].0 == a && es[x].1 == b) || (es[x].0 == b
                && es[x].1 == a));
        if x < edges.len() {
            assert(edges[x] == es[x]);
            assert(edges[x].0 == a || edges[x].0 == b);
            assert(joined(edges, n, a, b));
        } else {
            assert(es[x] == (u, v));
        }
    }
    if joined(edges, n, a, b) {
        let x = choose|x: int|
            0 <= x < edges.len() && ((#[trigger] edges[x].0 == a && edges[x].1 == b) || (
            edges[x].0 == b && edges[x].1 == a));
        assert(es[x] == edges[x]);
        assert(es[x].0 == a || es[x].0 == b);
        assert(joined(es, n, a, b));
    }
    if a != b && 0 <= a < n && 0 <= b < n && ((u == a && v == b) || (u == b && v == a)) {
        let x = edges.len() as int;
        assert(es[x] == (u, v));
        assert(es[x].0 == a || es[x].0 == b);
        assert(joined(es, n, a, b));
    }
}

} // verus!
