//! Summary metrics of a dependency graph.
use vstd::prelude::*;
use crate::connectivity::{count_roots, weak_component_count};
use crate::cycles::{count_cycles, cycle_count, has_cycle};
use crate::graph::{DependencyGraph, DependencyGraphView, out_targets};
use crate::path::{
    components, components_lt, components_equal, components_less, path_components, views,
    lemma_components_lt_order,
};

verus! {

broadcast use vstd::seq_lib::group_to_multiset_ensures;

/// Maximum number of hubs reported.
pub const TOP_HUB_COUNT: usize = 10;

/// A density `numerator / denominator`: edges over ordered node pairs.
#[derive(Debug, Clone, Copy, PartialEq, Eq)]
pub struct DensityRatio {
    /// Number of directed edges (0 below two nodes).
    pub numerator: u64,
    /// Number of ordered pairs of distinct nodes, `n * (n - 1)` (1 below two nodes).
    pub denominator: u64,
}

/// Summary metrics for a dependency graph.
#[derive(Debug, Clone)]
pub struct GraphMetrics {
    /// Total number of nodes (source files).
    pub node_count: usize,
    /// Total number of directed edges.
    pub edge_count: usize,
    /// Graph density: `edge_count / (node_count * (node_count - 1))`, zero when
    /// `node_count < 2`.
    pub density: DensityRatio,
    /// Number of back edges found by depth-first search from each node in
    /// index order, neighbours in increasing order; zero exactly when the
    /// graph has no directed cycle.
    pub cycle_count: usize,
    /// Nodes with the highest out-degree, descending, ties by path; at most
    /// `TOP_HUB_COUNT` entries.
    pub top_hubs: Vec<(String, usize)>,
    /// Number of weakly connected components.
    pub component_count: usize,
}

/// The number of edges leaving node `i`.
pub open spec fn out_degree(v: DependencyGraphView, i: int) -> int {
    out_targets(v.edges, i as usize).len() as int
}

/// Node `i` is listed before node `j` among hubs: higher out-degree first,
/// then smaller path, then smaller index.
pub open spec fn hub_before(v: DependencyGraphView, i: int, j: int) -> bool {
    let di = out_degree(v, i);
    let dj = out_degree(v, j);
    let ci = components(v.nodes[i]);
    let cj = components(v.nodes[j]);
    di > dj || (di == dj && (components_lt(ci, cj) || (ci == cj && i < j)))
}

/// `order` lists every node once, in hub order.
pub open spec fn is_hub_order(v: DependencyGraphView, order: Seq<int>) -> bool {
    &&& order.len() == v.nodes.len()
    &&& forall|a: int| 0 <= a < order.len() ==> 0 <= #[trigger] order[a] < v.nodes.len()
    &&& forall|i: int| 0 <= i < v.nodes.len() ==> #[trigger] order.contains(i)
    &&& forall|a: int, b: int| 0 <= a < b < order.len() ==> hub_before(v, #[trigger] order[a], #[trigger] order[b])
}

/// The top hubs of `v`: the first `TOP_HUB_COUNT` nodes in hub order, with
/// their paths and out-degrees.
pub open spec fn are_top_hubs(v: DependencyGraphView, hubs: Seq<(String, usize)>) -> bool {
    exists|order: Seq<int>|
        #[trigger] is_hub_order(v, order) && hubs.len() == (if v.nodes.len() < 10 {
            v.nodes.len() as int
        } else {
            10
        }) && forall|j: int|
            0 <= j < hubs.len() ==> (#[trigger] hubs[j]).0@ == v.nodes[order[j]] && hubs[j].1 == out_degree(
                v,
                order[j],
            )
}

/// The metrics that `compute_metrics` reports for a graph with content `v`.
pub open spec fn metrics_of(m: GraphMetrics, v: DependencyGraphView) -> bool {
    let n = v.nodes.len();
    &&& m.node_count == n
    &&& m.edge_count == v.edges.len()
    &&& (if n >= 2 {
        m.density.numerator == v.edges.len() && m.density.denominator == n * (n - 1)
    } else {
        m.density.numerator == 0 && m.density.denominator == 1
    })
    &&& m.cycle_count == cycle_count(v.edges, n)
    &&& (m.cycle_count > 0 <==> has_cycle(v.edges))
    &&& m.cycle_count <= v.edges.len()
    &&& are_top_hubs(v, m.top_hubs@)
    &&& m.component_count == count_roots(v.edges, n as int)
}

proof fn lemma_hub_order(v: DependencyGraphView, i: int, j: int, k: int)
    requires
        0 <= i < v.nodes.len(),
        0 <= j < v.nodes.len(),
        0 <= k < v.nodes.len(),
    ensures
        !hub_before(v, i, i),
        hub_before(v, i, j) && hub_before(v, j, k) ==> hub_before(v, i, k),
        i != j ==> hub_before(v, i, j) || hub_before(v, j, i),
        hub_before(v, i, j) ==> !hub_before(v, j, i),
{
    let ci = components(v.nodes[i]);
    let cj = components(v.nodes[j]);
    let ck = components(v.nodes[k]);
    lemma_components_lt_order(ci, cj, ck);
    lemma_components_lt_order(ci, ci, ci);
    lemma_components_lt_order(cj, ci, ci);
    lemma_components_lt_order(ci, cj, cj);
}

fn top_hubs(dg: &DependencyGraph) -> (hubs: Vec<(String, usize)>)
    requires
        dg.well_formed(),
    ensures
        are_top_hubs(dg@, hubs@),
{
    let ghost v = dg@;
    let n = dg.node_count();
    let mut deg: Vec<usize> = Vec::new();
    let mut comps: Vec<Vec<Vec<char>>> = Vec::new();
    let mut i: usize = 0;
    while i < n
        invariant
            0 <= i <= n,
            n == v.nodes.len(),
            v == dg@,
            deg.len() == i,
            comps.len() == i,
            forall|j: int| 0 <= j < i ==> #[trigger] deg@[j] == out_degree(v, j),
            forall|j: int| 0 <= j < i ==> views(#[trigger] comps@[j]@) == components(v.nodes[j]),
        decreases n - i,
    {
        let targets = dg.neighbors(i);
        proof {
            assert(targets@.to_multiset().len() == out_targets(v.edges, i).to_multiset().len());
        }
        deg.push(targets.len());
        let p = dg.node_path(i).unwrap();
        comps.push(path_components(p.as_str()));
        i = i + 1;
    }
    let mut order: Vec<usize> = Vec::new();
    i = 0;
    while i < n
        invariant
            0 <= i <= n,
            n == v.nodes.len(),
            deg.len() == n,
            comps.len() == n,
            forall|j: int| 0 <= j < n ==> #[trigger] deg@[j] == out_degree(v, j),
            forall|j: int| 0 <= j < n ==> views(#[trigger] comps@[j]@) == components(v.nodes[j]),
            order.len() == i,
            forall|a: int| 0 <= a < order.len() ==> #[trigger] order@[a] < i,
            forall|j: int| 0 <= j < i ==> #[trigger] order@.contains(j as usize),
            forall|a: int, b: int| 0 <= a < b < order.len() ==> hub_before(v, #[trigger] order@[a] as int, #[trigger] order@[b] as int),
        decreases n - i,
    {
        let mut pos: usize = 0;
        while pos < order.len()
            && !(deg[i] > deg[order[pos]] || (deg[i] == deg[order[pos]] && (components_less(&comps[i], &comps[order[pos]])
                || (components_equal(&comps[i], &comps[order[pos]]) && i < order[pos]))))
            invariant
                0 <= pos <= order.len(),
                0 <= i < n,
                n == v.nodes.len(),
                deg.len() == n,
                comps.len() == n,
                forall|j: int| 0 <= j < n ==> #[trigger] deg@[j] == out_degree(v, j),
                forall|j: int| 0 <= j < n ==> views(#[trigger] comps@[j]@) == components(v.nodes[j]),
                forall|a: int| 0 <= a < order.len() ==> #[trigger] order@[a] < i,
                forall|a: int| 0 <= a < pos ==> hub_before(v, #[trigger] order@[a] as int, i as int),
            decreases order.len() - pos,
        {
            proof {
                let o = order@[pos as int] as int;
                lemma_hub_order(v, i as int, o, o);
                assert(!hub_before(v, i as int, o));
            }
            pos = pos + 1;
        }
        let ghost before = order@;
        proof {
            if pos < order.len() {
                assert(hub_before(v, i as int, before[pos as int] as int));
            }
        }
        order.insert(pos, i);
        proof {
            assert forall|a: int, b: int| 0 <= a < b < order.len() implies hub_before(v, #[trigger] order@[a] as int, #[trigger] order@[b] as int) by {
                if b < pos {
                    assert(order@[a] == before[a] && order@[b] == before[b]);
                } else if b == pos {
                    assert(order@[a] == before[a]);
                } else if a == pos {
                    assert(order@[b] == before[b - 1]);
                    if b - 1 > pos {
                        assert(hub_before(v, before[pos as int] as int, before[b - 1] as int));
                        lemma_hub_order(v, i as int, before[pos as int] as int, before[b - 1] as int);
                    }
                } else if a < pos {
                    assert(order@[a] == before[a] && order@[b] == before[b - 1]);
                    if a < b - 1 {
                    } else {
                    }
                    lemma_hub_order(v, before[a] as int, i as int, before[b - 1] as int);
                    if pos < before.len() {
                        lemma_hub_order(v, before[a] as int, before[pos as int] as int, before[b - 1] as int);
                    }
                } else {
                    assert(order@[a] == before[a - 1] && order@[b] == before[b - 1]);
                }
            }
            assert forall|j: int| 0 <= j < i + 1 implies #[trigger] order@.contains(j as usize) by {
                if j == i {
                    assert(order@[pos as int] == i);
                } else {
                    assert(before.contains(j as usize));
                    let a = choose|a: int| 0 <= a < before.len() && before[a] == j as usize;
                    if a < pos {
                        assert(order@[a] == j as usize);
                    } else {
                        assert(order@[a + 1] == j as usize);
                    }
                }
            }
            assert forall|a: int| 0 <= a < order.len() implies #[trigger] order@[a] < i + 1 by {
                if a < pos {
                    assert(order@[a] == before[a]);
                } else if a > pos {
                    assert(order@[a] == before[a - 1]);
                }
            }
        }
        i = i + 1;
    }
    let limit = if n < TOP_HUB_COUNT { n } else { TOP_HUB_COUNT };
    let mut hubs: Vec<(String, usize)> = Vec::new();
    let mut j: usize = 0;
    while j < limit
        invariant
            0 <= j <= limit,
            limit <= n,
            n == v.nodes.len(),
            v == dg@,
            order.len() == n,
            deg.len() == n,
            forall|a: int| 0 <= a < order.len() ==> #[trigger] order@[a] < n,
            forall|k: int| 0 <= k < n ==> #[trigger] deg@[k] == out_degree(v, k),
            hubs.len() == j,
            forall|k: int|
                0 <= k < j ==> (#[trigger] hubs@[k]).0@ == v.nodes[order@[k] as int] && hubs@[k].1 == out_degree(
                    v,
                    order@[k] as int,
                ),
        decreases limit - j,
    {
        let idx = order[j];
        let p = dg.node_path(idx).unwrap();
        hubs.push((p.clone(), deg[idx]));
        j = j + 1;
    }
    proof {
        let ord = order@.map_values(|x: usize| x as int);
        assert(is_hub_order(v, ord)) by {
            assert forall|k: int| 0 <= k < n implies #[trigger] ord.contains(k) by {
                assert(order@.contains(k as usize));
                let a = choose|a: int| 0 <= a < order.len() && order@[a] == k as usize;
                assert(ord[a] == k);
            }
            assert forall|a: int, b: int| 0 <= a < b < ord.len() implies hub_before(v, #[trigger] ord[a], #[trigger] ord[b]) by {
                assert(hub_before(v, order@[a] as int, order@[b] as int));
            }
        }
        assert(hubs@.len() == (if v.nodes.len() < 10 { v.nodes.len() as int } else { 10 }));
        assert forall|k: int| 0 <= k < hubs@.len() implies (#[trigger] hubs@[k]).0@ == v.nodes[ord[k]] && hubs@[k].1 == out_degree(v, ord[k]) by {}
    }
    hubs
}

/// Computes the summary metrics of a dependency graph.
pub fn compute_metrics(dg: &DependencyGraph) -> (m: GraphMetrics)
    requires
        dg.well_formed(),
    ensures
        metrics_of(m, dg@),
{
    let n = dg.node_count();
    let e = dg.edge_count();
    let density = if n >= 2 {
        let nn = n as u64;
        proof {
            assert(nn * (nn - 1) <= (u32::MAX as u64) * (u32::MAX as u64)) by (nonlinear_arith)
                requires nn < u32::MAX, nn >= 2;
        }
        DensityRatio { numerator: e as u64, denominator: nn * (nn - 1) }
    } else {
        DensityRatio { numerator: 0, denominator: 1 }
    };
    let hubs = top_hubs(dg);
    let cycles = count_cycles(dg);
    let pairs = dg.edges_as_pairs();
    let components = if n == 0 {
        0
    } else {
        weak_component_count(n, &pairs)
    };
    GraphMetrics {
        node_count: n,
        edge_count: e,
        density,
        cycle_count: cycles,
        top_hubs: hubs,
        component_count: components,
    }
}

} // verus!
