//! The directed dependency graph: one node per source file, an edge from
//! each importing file to each file it imports.
use vstd::prelude::*;
use petgraph::graph::{Graph, NodeIndex};
use crate::path::{components_equal, path_components, path_eq, views};

verus! {

#[verifier::external_type_specification]
#[verifier::external_body]
#[verifier::reject_recursive_types(N)]
#[verifier::reject_recursive_types(E)]
#[verifier::reject_recursive_types(Ty)]
#[verifier::reject_recursive_types(Ix)]
pub struct ExGraph<N, E, Ty, Ix>(Graph<N, E, Ty, Ix>);

#[verifier::external_type_specification]
#[verifier::external_body]
pub struct ExDirected(petgraph::Directed);

/// The node weights of a petgraph graph, by node index.
pub uninterp spec fn graph_nodes(g: Graph<String, ()>) -> Seq<Seq<char>>;

/// The edges `(source, target)` of a petgraph graph, by edge index.
pub uninterp spec fn graph_edges(g: Graph<String, ()>) -> Seq<(usize, usize)>;

/// Calls `petgraph::Graph::new`: the new graph has no nodes and no edges.
#[verifier::external_body]
fn petgraph_new() -> (g: Graph<String, ()>)
    ensures
        graph_nodes(g) == Seq::<Seq<char>>::empty(),
        graph_edges(g) == Seq::<(usize, usize)>::empty(),
{
    Graph::new()
}

/// Calls `petgraph::Graph::add_node`: appends the node and returns its index.
/// The source panics only at the `u32` index limit, which `requires` leaves out.
#[verifier::external_body]
fn petgraph_add_node(g: &mut Graph<String, ()>, weight: String) -> (idx: usize)
    requires
        graph_nodes(*old(g)).len() < u32::MAX,
    ensures
        graph_nodes(*final(g)) == graph_nodes(*old(g)).push(weight@),
        graph_edges(*final(g)) == graph_edges(*old(g)),
        idx == graph_nodes(*old(g)).len(),
{
    g.add_node(weight).index()
}

/// Calls `petgraph::Graph::add_edge`: appends the edge `(a, b)`.  The source
/// panics on out-of-range nodes and at the `u32` edge limit, which `requires`
/// leaves out.
#[verifier::external_body]
fn petgraph_add_edge(g: &mut Graph<String, ()>, a: usize, b: usize)
    requires
        a < graph_nodes(*old(g)).len(),
        b < graph_nodes(*old(g)).len(),
        graph_edges(*old(g)).len() < u32::MAX,
    ensures
        graph_nodes(*final(g)) == graph_nodes(*old(g)),
        graph_edges(*final(g)) == graph_edges(*old(g)).push((a, b)),
{
    g.add_edge(NodeIndex::new(a), NodeIndex::new(b), ());
}

/// Calls `petgraph::Graph::contains_edge`: whether some edge runs from `a` to `b`.
#[verifier::external_body]
fn petgraph_contains_edge(g: &Graph<String, ()>, a: usize, b: usize) -> (r: bool)
    requires
        a < graph_nodes(*g).len(),
        b < graph_nodes(*g).len(),
    ensures
        r == graph_edges(*g).contains((a, b)),
{
    g.contains_edge(NodeIndex::new(a), NodeIndex::new(b))
}

/// Calls `petgraph::Graph::node_count`.
#[verifier::external_body]
fn petgraph_node_count(g: &Graph<String, ()>) -> (n: usize)
    ensures
        n == graph_nodes(*g).len(),
{
    g.node_count()
}

/// Calls `petgraph::Graph::edge_count`.
#[verifier::external_body]
fn petgraph_edge_count(g: &Graph<String, ()>) -> (n: usize)
    ensures
        n == graph_edges(*g).len(),
{
    g.edge_count()
}

/// Calls `petgraph::Graph::node_weight` on an index that is in range.
#[verifier::external_body]
fn petgraph_node_weight(g: &Graph<String, ()>, idx: usize) -> (w: &String)
    requires
        idx < graph_nodes(*g).len(),
    ensures
        w@ == graph_nodes(*g)[idx as int],
{
    g.node_weight(NodeIndex::new(idx)).unwrap()
}

/// Calls `petgraph::Graph::raw_edges`, mapping each edge to its endpoint indices.
#[verifier::external_body]
fn petgraph_edge_pairs(g: &Graph<String, ()>) -> (pairs: Vec<(usize, usize)>)
    ensures
        pairs@ == graph_edges(*g),
{
    g.raw_edges().iter().map(|e| (e.source().index(), e.target().index())).collect()
}

/// Calls `petgraph::Graph::neighbors` on an in-range node: for a directed
/// graph petgraph documents that the targets of the node's outgoing edges
/// come in reverse order of the edges' addition, each edge once.
#[verifier::external_body]
fn petgraph_neighbors(g: &Graph<String, ()>, idx: usize) -> (targets: Vec<usize>)
    requires
        idx < graph_nodes(*g).len(),
    ensures
        targets@ == out_targets(graph_edges(*g), idx).reverse(),
{
    g.neighbors(NodeIndex::new(idx)).map(|n| n.index()).collect()
}

proof fn lemma_reverse_multiset(s: Seq<usize>)
    ensures
        s.reverse().to_multiset() == s.to_multiset(),
    decreases s.len(),
{
    broadcast use vstd::seq_lib::group_to_multiset_ensures;

    if s.len() > 0 {
        lemma_reverse_multiset(s.drop_last());
        assert(s.reverse() =~= seq![s.last()] + s.drop_last().reverse());
        vstd::seq_lib::lemma_multiset_commutative(seq![s.last()], s.drop_last().reverse());
        assert(s =~= s.drop_last().push(s.last()));
        assert(seq![s.last()] =~= Seq::<usize>::empty().push(s.last()));
        assert(s.reverse().to_multiset() =~= s.to_multiset());
    }
}

/// The targets of the edges leaving `a`, in edge order.
pub open spec fn out_targets(edges: Seq<(usize, usize)>, a: usize) -> Seq<usize>
    decreases edges.len(),
{
    if edges.len() == 0 {
        Seq::empty()
    } else {
        let rest = out_targets(edges.drop_last(), a);
        if edges.last().0 == a {
            rest.push(edges.last().1)
        } else {
            rest
        }
    }
}

/// Directed dependency graph with one node per source file path.
#[derive(Debug)]
pub struct DependencyGraph {
    graph: Graph<String, ()>,
}

/// The abstract content of a dependency graph: node paths and directed edges.
pub struct DependencyGraphView {
    /// Path of each node, by index.
    pub nodes: Seq<Seq<char>>,
    /// Directed edges `(from, to)`, in insertion order.
    pub edges: Seq<(usize, usize)>,
}

impl View for DependencyGraph {
    type V = DependencyGraphView;

    closed spec fn view(&self) -> DependencyGraphView {
        DependencyGraphView { nodes: graph_nodes(self.graph), edges: graph_edges(self.graph) }
    }
}

impl DependencyGraph {
    /// The invariant of every graph built here: edges join distinct in-range
    /// nodes, no edge appears twice, and the index limits of petgraph hold.
    pub open spec fn well_formed(&self) -> bool {
        let v = self@;
        &&& v.nodes.len() < u32::MAX
        &&& v.edges.len() < u32::MAX
        &&& forall|e: int|
            0 <= e < v.edges.len() ==> #[trigger] v.edges[e].0 < v.nodes.len() && v.edges[e].1
                < v.nodes.len() && v.edges[e].0 != v.edges[e].1
        &&& forall|e: int, f: int| 0 <= e < f < v.edges.len() ==> #[trigger] v.edges[e] != #[trigger] v.edges[f]
    }

    /// Number of nodes (source files) in the graph.
    pub fn node_count(&self) -> (n: usize)
        ensures
            n == self@.nodes.len(),
    {
        petgraph_node_count(&self.graph)
    }

    /// Number of directed edges in the graph.
    pub fn edge_count(&self) -> (n: usize)
        ensures
            n == self@.edges.len(),
    {
        petgraph_edge_count(&self.graph)
    }

    /// Returns the file path of node `idx`, or `None` when there is no such node.
    pub fn node_path(&self, idx: usize) -> (p: Option<&String>)
        ensures
            p is Some <==> idx < self@.nodes.len(),
            p matches Some(s) ==> s@ == self@.nodes[idx as int],
    {
        if idx < petgraph_node_count(&self.graph) {
            Some(petgraph_node_weight(&self.graph, idx))
        } else {
            None
        }
    }

    /// Returns all directed edges as `(from, to)` index pairs, in insertion order.
    pub fn edges_as_pairs(&self) -> (pairs: Vec<(usize, usize)>)
        ensures
            pairs@ == self@.edges,
    {
        petgraph_edge_pairs(&self.graph)
    }

    /// Returns the nodes that node `idx` imports (targets of its outgoing
    /// edges, most recently added first), or nothing when there is no such
    /// node.
    pub fn neighbors(&self, idx: usize) -> (targets: Vec<usize>)
        ensures
            idx < self@.nodes.len() ==> targets@ == out_targets(self@.edges, idx).reverse(),
            idx < self@.nodes.len() ==> targets@.to_multiset() == out_targets(self@.edges, idx).to_multiset(),
            idx >= self@.nodes.len() ==> targets@.len() == 0,
    {
        if idx < petgraph_node_count(&self.graph) {
            let t = petgraph_neighbors(&self.graph, idx);
            proof {
                lemma_reverse_multiset(out_targets(self@.edges, idx));
            }
            t
        } else {
            Vec::new()
        }
    }
}

/// Index of the last node whose path names the same path as `p` (compared
/// component by component), or -1 when there is none.
pub open spec fn last_node_for(nodes: Seq<Seq<char>>, p: Seq<char>) -> int
    decreases nodes.len(),
{
    if nodes.len() == 0 {
        -1
    } else if path_eq(nodes.last(), p) {
        nodes.len() - 1
    } else {
        last_node_for(nodes.drop_last(), p)
    }
}

impl DependencyGraph {
    /// Returns the index of the node for `path`, or `None` if no node has that
    /// path; paths are compared component by component, and of several nodes
    /// with the same path the last one is returned.
    pub fn node_for_path(&self, path: &str) -> (r: Option<usize>)
        ensures
            match r {
                Some(i) => i == last_node_for(self@.nodes, path@),
                None => last_node_for(self@.nodes, path@) == -1,
            },
    {
        let target = path_components(path);
        let ghost nodes = self@.nodes;
        let mut k: usize = petgraph_node_count(&self.graph);
        assert(nodes.take(k as int) =~= nodes);
        while k > 0
            invariant
                0 <= k <= nodes.len(),
                nodes == self@.nodes,
                nodes == graph_nodes(self.graph),
                views(target@) == crate::path::components(path@),
                last_node_for(nodes, path@) == last_node_for(nodes.take(k as int), path@),
            decreases k,
        {
            let ghost t = nodes.take(k as int);
            assert(t.drop_last() =~= nodes.take(k - 1));
            let p = petgraph_node_weight(&self.graph, k - 1);
            let pc = path_components(p.as_str());
            if components_equal(&pc, &target) {
                assert(t.last() == nodes[k - 1]);
                return Some(k - 1);
            }
            k = k - 1;
        }
        None
    }
}

/// Whether `edges` holds the edge `(from, to)`, to keep when building: in
/// range, not a self-loop.
pub open spec fn keeps_edge(n: int, from: int, to: int) -> bool {
    0 <= from < n && 0 <= to < n && from != to
}

/// The edges a graph on `n` nodes keeps from the pairs `s`: in-range, not
/// self-loops, each pair once at its first occurrence.
pub open spec fn kept_edges(n: int, s: Seq<(usize, usize)>) -> Seq<(usize, usize)>
    decreases s.len(),
{
    if s.len() == 0 {
        Seq::empty()
    } else {
        let r = kept_edges(n, s.drop_last());
        let x = s.last();
        if keeps_edge(n, x.0 as int, x.1 as int) && !r.contains(x) {
            r.push(x)
        } else {
            r
        }
    }
}

/// Builds a dependency graph from node paths and `(from, to)` index pairs.
/// Out-of-range pairs and self-loops are dropped; duplicates are kept once,
/// at their first occurrence.
pub fn build_dependency_graph_from_edges(node_paths: &Vec<String>, edges: &Vec<(usize, usize)>) -> (dg: DependencyGraph)
    requires
        node_paths.len() < u32::MAX,
        edges.len() < u32::MAX,
    ensures
        dg.well_formed(),
        dg@.nodes == node_paths@.map_values(|p: String| p@),
        forall|a: usize, b: usize| #[trigger] dg@.edges.contains((a, b)) <==> (keeps_edge(node_paths.len() as int, a as int, b as int) && edges@.contains((a, b))),
        dg@.edges == kept_edges(node_paths.len() as int, edges@),
{
    let mut graph = petgraph_new();
    let mut i: usize = 0;
    while i < node_paths.len()
        invariant
            0 <= i <= node_paths.len(),
            node_paths.len() < u32::MAX,
            graph_nodes(graph) == node_paths@.take(i as int).map_values(|p: String| p@),
            graph_edges(graph) == Seq::<(usize, usize)>::empty(),
        decreases node_paths.len() - i,
    {
        let p = node_paths[i].clone();
        petgraph_add_node(&mut graph, p);
        assert(node_paths@.take(i + 1).map_values(|p: String| p@) =~= node_paths@.take(i as int).map_values(|p: String| p@).push(node_paths@[i as int]@));
        i = i + 1;
    }
    assert(node_paths@.take(node_paths.len() as int) =~= node_paths@);
    let n = node_paths.len();
    let mut e: usize = 0;
    while e < edges.len()
        invariant
            0 <= e <= edges.len(),
            n == node_paths.len(),
            edges.len() < u32::MAX,
            graph_nodes(graph) == node_paths@.map_values(|p: String| p@),
            graph_edges(graph).len() <= e,
            forall|x: int|
                0 <= x < graph_edges(graph).len() ==> #[trigger] graph_edges(graph)[x].0 < n && graph_edges(graph)[x].1
                    < n && graph_edges(graph)[x].0 != graph_edges(graph)[x].1,
            forall|x: int, y: int| 0 <= x < y < graph_edges(graph).len() ==> #[trigger] graph_edges(graph)[x] != #[trigger] graph_edges(graph)[y],
            forall|a: usize, b: usize| #[trigger] graph_edges(graph).contains((a, b)) <==> (keeps_edge(n as int, a as int, b as int) && edges@.take(e as int).contains((a, b))),
            graph_edges(graph) == kept_edges(n as int, edges@.take(e as int)),
        decreases edges.len() - e,
    {
        let (from, to) = edges[e];
        let ghost before = graph_edges(graph);
        proof {
            assert(edges@.take(e + 1) =~= edges@.take(e as int).push((from, to)));
            assert(edges@.take(e + 1).drop_last() =~= edges@.take(e as int));
        }
        if from < n && to < n && from != to {
            if !petgraph_contains_edge(&graph, from, to) {
                petgraph_add_edge(&mut graph, from, to);
                proof {
                    let g = graph_edges(graph);
                    assert(g == before.push((from, to)));
                    assert forall|x: int| 0 <= x < g.len() implies #[trigger] g[x].0 < n && g[x].1 < n && g[x].0 != g[x].1 by {
                        if x < before.len() {
                            assert(g[x] == before[x]);
                        }
                    }
                    assert forall|x: int, y: int| 0 <= x < y < g.len() implies #[trigger] g[x] != #[trigger] g[y] by {
                        if y == before.len() {
                            assert(before[x] == g[x]);
                            assert(before.contains(g[x]));
                        }
                    }
                    assert forall|a: usize, b: usize| #[trigger] g.contains((a, b)) <==> (keeps_edge(n as int, a as int, b as int) && edges@.take(e + 1).contains((a, b))) by {
                        if g.contains((a, b)) && (a, b) != (from, to) {
                            let x = choose|x: int| 0 <= x < g.len() && #[trigger] g[x] == (a, b);
                            assert(before[x] == (a, b));
                            assert(before.contains((a, b)));
                        }
                        if edges@.take(e + 1).contains((a, b)) && (a, b) != (from, to) {
                            let x = choose|x: int| 0 <= x < e + 1 && #[trigger] edges@.take(e + 1)[x] == (a, b);
                            assert(edges@.take(e as int)[x] == (a, b));
                        }
                        if before.contains((a, b)) {
                            let x = choose|x: int| 0 <= x < before.len() && #[trigger] before[x] == (a, b);
                            assert(g[x] == (a, b));
                        }
                        if (a, b) == (from, to) {
                            assert(g[before.len() as int] == (a, b));
                            assert(edges@.take(e + 1)[e as int] == (a, b));
                        }
                    }
                }
            } else {
                proof {
                    assert forall|a: usize, b: usize| #[trigger] before.contains((a, b)) <==> (keeps_edge(n as int, a as int, b as int) && edges@.take(e + 1).contains((a, b))) by {
                        if edges@.take(e + 1).contains((a, b)) && (a, b) != (from, to) {
                            let x = choose|x: int| 0 <= x < e + 1 && #[trigger] edges@.take(e + 1)[x] == (a, b);
                            assert(edges@.take(e as int)[x] == (a, b));
                        }
                        if edges@.take(e as int).contains((a, b)) {
                            let x = choose|x: int| 0 <= x < e && #[trigger] edges@.take(e as int)[x] == (a, b);
                            assert(edges@.take(e + 1)[x] == (a, b));
                        }
                    }
                }
            }
        } else {
            proof {
                assert forall|a: usize, b: usize| #[trigger] before.contains((a, b)) <==> (keeps_edge(n as int, a as int, b as int) && edges@.take(e + 1).contains((a, b))) by {
                    if edges@.take(e + 1).contains((a, b)) && (a, b) != (from, to) {
                        let x = choose|x: int| 0 <= x < e + 1 && #[trigger] edges@.take(e + 1)[x] == (a, b);
                        assert(edges@.take(e as int)[x] == (a, b));
                    }
                    if edges@.take(e as int).contains((a, b)) {
                        let x = choose|x: int| 0 <= x < e && #[trigger] edges@.take(e as int)[x] == (a, b);
                        assert(edges@.take(e + 1)[x] == (a, b));
                    }
                }
            }
        }
        e = e + 1;
    }
    assert(edges@.take(edges.len() as int) =~= edges@);
    DependencyGraph { graph }
}

} // verus!
