//! Coupling topology of an input dependency graph, keyed by node ID.
use vstd::prelude::*;
use crate::error::AnalysisError;
use crate::graph::{build_dependency_graph_from_edges, kept_edges, DependencyGraphView};
use crate::input::{node_id_violation, validate_node_id, DependencyGraphInput, EdgeInput, NodeInput};
use crate::metrics::{compute_metrics, metrics_of, DensityRatio, GraphMetrics};

verus! {

/// The IDs of `nodes`, in order.
pub open spec fn node_ids(nodes: Seq<NodeInput>) -> Seq<Seq<char>> {
    nodes.map_values(|n: NodeInput| n.id@)
}

/// Every node ID in `nodes` passes `validate_node_id`.
pub open spec fn all_ids_valid(nodes: Seq<NodeInput>) -> bool {
    forall|i: int| 0 <= i < nodes.len() ==> node_id_violation(#[trigger] nodes[i].id@) is None
}

/// `e` is the error that `validate_node_id` reports for the first invalid
/// node ID of `nodes`.
pub open spec fn first_invalid_error(nodes: Seq<NodeInput>, e: AnalysisError) -> bool {
    exists|i: int|
        0 <= i < nodes.len() && node_id_violation(#[trigger] nodes[i].id@) is Some && (forall|j: int|
            0 <= j < i ==> node_id_violation(#[trigger] nodes[j].id@) is None) && (e matches AnalysisError::InvalidNodeId {
            id,
            reason,
        } && id@ == nodes[i].id@ && reason@ == node_id_violation(nodes[i].id@)->0)
}

/// Index of the last node whose ID is `id`, or -1 when there is none: a later
/// node with the same ID takes the place of an earlier one.
pub open spec fn last_index_of(ids: Seq<Seq<char>>, id: Seq<char>) -> int
    decreases ids.len(),
{
    if ids.len() == 0 {
        -1
    } else if ids.last() == id {
        ids.len() - 1
    } else {
        last_index_of(ids.drop_last(), id)
    }
}

/// The index pairs of `edges` whose endpoints both name a node, without
/// self-loops, in input order.
pub open spec fn resolved_edges(ids: Seq<Seq<char>>, edges: Seq<EdgeInput>) -> Seq<(usize, usize)>
    decreases edges.len(),
{
    if edges.len() == 0 {
        Seq::empty()
    } else {
        let r = resolved_edges(ids, edges.drop_last());
        let s = last_index_of(ids, edges.last().source@);
        let t = last_index_of(ids, edges.last().target@);
        if s >= 0 && t >= 0 && s != t {
            r.push((s as usize, t as usize))
        } else {
            r
        }
    }
}

/// The graph that an input describes: one node per input node, named by its
/// ID, and the resolved edges, each kept once.
pub open spec fn input_graph(g: DependencyGraphInput) -> DependencyGraphView {
    let ids = node_ids(g.nodes@);
    DependencyGraphView { nodes: ids, edges: kept_edges(ids.len() as int, resolved_edges(ids, g.edges@)) }
}

/// Coupling topology of a dependency graph.
#[derive(Debug, Clone)]
pub struct CouplingTopologyResult {
    /// Number of nodes.
    pub node_count: usize,
    /// Number of distinct directed edges between distinct nodes.
    pub edge_count: usize,
    /// Edge density, `edge_count / (node_count * (node_count - 1))`.
    pub density: DensityRatio,
    /// Number of back edges found by depth-first search; zero exactly when
    /// the graph has no directed cycle.
    pub cycle_count: usize,
    /// Nodes with the highest out-degree, as `(node ID, out-degree)`.
    pub top_hubs: Vec<(String, usize)>,
    /// Number of weakly connected components.
    pub component_count: usize,
}

/// The metrics that `t` reports.
pub open spec fn as_metrics(t: CouplingTopologyResult) -> GraphMetrics {
    GraphMetrics {
        node_count: t.node_count,
        edge_count: t.edge_count,
        density: t.density,
        cycle_count: t.cycle_count,
        top_hubs: t.top_hubs,
        component_count: t.component_count,
    }
}

/// Validates every node ID, in order, and reports the first failure.
pub fn validate_node_ids(nodes: &Vec<NodeInput>) -> (r: Result<(), AnalysisError>)
    ensures
        r is Ok <==> all_ids_valid(nodes@),
        r matches Err(e) ==> first_invalid_error(nodes@, e),
{
    let mut i: usize = 0;
    while i < nodes.len()
        invariant
            0 <= i <= nodes.len(),
            forall|j: int| 0 <= j < i ==> node_id_violation(#[trigger] nodes@[j].id@) is None,
        decreases nodes.len() - i,
    {
        match validate_node_id(nodes[i].id.as_str()) {
            Ok(()) => {},
            Err(e) => {
                assert(node_id_violation(nodes@[i as int].id@) is Some);
                return Err(e);
            },
        }
        i = i + 1;
    }
    Ok(())
}

fn last_index(ids: &Vec<String>, id: &String) -> (r: Option<usize>)
    ensures
        match r {
            Some(k) => k == last_index_of(ids@.map_values(|p: String| p@), id@),
            None => last_index_of(ids@.map_values(|p: String| p@), id@) == -1,
        },
{
    let ghost v = ids@.map_values(|p: String| p@);
    assert(v.take(ids.len() as int) =~= v);
    let mut k: usize = ids.len();
    while k > 0
        invariant
            0 <= k <= ids.len(),
            v == ids@.map_values(|p: String| p@),
            last_index_of(v, id@) == last_index_of(v.take(k as int), id@),
        decreases k,
    {
        let ghost t = v.take(k as int);
        assert(t.drop_last() =~= v.take(k - 1));
        if ids[k - 1] == *id {
            assert(t.last() == id@);
            return Some(k - 1);
        }
        k = k - 1;
    }
    assert(v.take(0).len() == 0);
    None
}

proof fn lemma_last_index_bounds(ids: Seq<Seq<char>>, id: Seq<char>)
    ensures
        -1 <= last_index_of(ids, id) < ids.len(),
    decreases ids.len(),
{
    if ids.len() > 0 {
        lemma_last_index_bounds(ids.drop_last(), id);
    }
}

proof fn lemma_resolved_len(ids: Seq<Seq<char>>, edges: Seq<EdgeInput>)
    ensures
        resolved_edges(ids, edges).len() <= edges.len(),
    decreases edges.len(),
{
    if edges.len() > 0 {
        lemma_resolved_len(ids, edges.drop_last());
    }
}

/// Resolves edges by node ID to index pairs, dropping unknown endpoints and
/// self-loops.
fn resolve_edges(ids: &Vec<String>, edges: &Vec<EdgeInput>) -> (r: Vec<(usize, usize)>)
    ensures
        r@ == resolved_edges(ids@.map_values(|p: String| p@), edges@),
{
    let ghost v = ids@.map_values(|p: String| p@);
    let mut r: Vec<(usize, usize)> = Vec::new();
    let mut i: usize = 0;
    while i < edges.len()
        invariant
            0 <= i <= edges.len(),
            v == ids@.map_values(|p: String| p@),
            r@ == resolved_edges(v, edges@.take(i as int)),
        decreases edges.len() - i,
    {
        proof {
            assert(edges@.take(i + 1).drop_last() =~= edges@.take(i as int));
            assert(edges@.take(i + 1).last() == edges@[i as int]);
        }
        let s = last_index(ids, &edges[i].source);
        let t = last_index(ids, &edges[i].target);
        match (s, t) {
            (Some(a), Some(b)) => {
                if a != b {
                    r.push((a, b));
                }
            },
            _ => {},
        }
        i = i + 1;
    }
    assert(edges@.take(edges.len() as int) =~= edges@);
    r
}

/// Computes the coupling topology of `graph`: node IDs are validated first,
/// edges are resolved by ID (a later node with the same ID wins), self-loops
/// and edges to unknown IDs are dropped, and the metrics of the resulting
/// graph are reported.
pub fn compute_coupling_topology(graph: &DependencyGraphInput) -> (r: Result<CouplingTopologyResult, AnalysisError>)
    requires
        graph.nodes.len() < u32::MAX,
        graph.edges.len() < u32::MAX,
    ensures
        r is Ok <==> all_ids_valid(graph.nodes@),
        r matches Err(e) ==> first_invalid_error(graph.nodes@, e),
        r matches Ok(t) ==> metrics_of(as_metrics(t), input_graph(*graph)),
{
    validate_node_ids(&graph.nodes)?;
    let mut ids: Vec<String> = Vec::new();
    let mut i: usize = 0;
    while i < graph.nodes.len()
        invariant
            0 <= i <= graph.nodes.len(),
            ids@.map_values(|p: String| p@) == node_ids(graph.nodes@.take(i as int)),
        decreases graph.nodes.len() - i,
    {
        let ghost before = ids@;
        let id = graph.nodes[i].id.clone();
        ids.push(id);
        assert(ids@.map_values(|p: String| p@) =~= before.map_values(|p: String| p@).push(graph.nodes@[i as int].id@));
        assert(node_ids(graph.nodes@.take(i + 1)) =~= node_ids(graph.nodes@.take(i as int)).push(graph.nodes@[i as int].id@));
        i = i + 1;
    }
    assert(graph.nodes@.take(graph.nodes.len() as int) =~= graph.nodes@);
    let pairs = resolve_edges(&ids, &graph.edges);
    proof {
        lemma_resolved_len(ids@.map_values(|p: String| p@), graph.edges@);
    }
    let dg = build_dependency_graph_from_edges(&ids, &pairs);
    let m = compute_metrics(&dg);
    proof {
        assert(dg@ == input_graph(*graph));
    }
    Ok(CouplingTopologyResult {
        node_count: m.node_count,
        edge_count: m.edge_count,
        density: m.density,
        cycle_count: m.cycle_count,
        top_hubs: m.top_hubs,
        component_count: m.component_count,
    })
}

} // verus!
