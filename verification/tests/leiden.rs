use sdivi::graph::build_dependency_graph_from_edges;
use sdivi::leiden::aggregate::{aggregate_network, flatten_partition, map_to_aggregate_init};
use sdivi::leiden::graph::LeidenGraph;
use sdivi::leiden::renumber;
use sdivi::leiden::tally::community_tallies;

#[test]
fn renumber_is_dense_in_first_occurrence_order() {
    let mut p = vec![7, 3, 7, 9, 3, 0];
    renumber(&mut p);
    assert_eq!(p, vec![0, 1, 0, 2, 1, 3]);
}

#[test]
fn renumber_twice_changes_nothing() {
    let mut p = vec![4, 4, 1, 8, 1, 4];
    renumber(&mut p);
    let once = p.clone();
    renumber(&mut p);
    assert_eq!(p, once);
}

#[test]
fn renumber_empty() {
    let mut p: Vec<usize> = vec![];
    renumber(&mut p);
    assert!(p.is_empty());
}

#[test]
fn from_edges_symmetrises_and_dedups() {
    let g = LeidenGraph::from_edges(4, &vec![(0, 1), (1, 0), (2, 2), (1, 3), (5, 0), (3, 1)]);
    assert_eq!(g.n, 4);
    assert_eq!(g.adj, vec![vec![1], vec![0, 3], vec![], vec![1]]);
    assert_eq!(g.degree, vec![1, 2, 0, 1]);
    assert_eq!(g.total_weight, 2);
}

#[test]
fn from_dependency_graph_uses_its_edges() {
    let names: Vec<String> = ["a.rs", "b.rs", "c.rs"].iter().map(|s| s.to_string()).collect();
    let dg = build_dependency_graph_from_edges(&names, &vec![(0, 1), (1, 2), (2, 1)]);
    let g = LeidenGraph::from_dependency_graph(&dg);
    assert_eq!(g.n, 3);
    assert_eq!(g.adj, vec![vec![1], vec![0, 2], vec![1]]);
    assert_eq!(g.total_weight, 2);
}

#[test]
fn aggregate_network_merges_communities() {
    // Path 0-1-2-3, refined into {0,1} and {2,3}.
    let g = LeidenGraph::from_edges(4, &vec![(0, 1), (1, 2), (2, 3)]);
    let r = aggregate_network(&g, &vec![0, 0, 1, 1]);
    assert_eq!(r.graph.n, 2);
    assert_eq!(r.membership, vec![vec![0, 1], vec![2, 3]]);
    assert_eq!(r.graph.adj, vec![vec![1], vec![0]]);
    assert_eq!(r.graph.total_weight, 1);
    assert_eq!(r.weights, vec![vec![1], vec![1]]);
}

#[test]
fn aggregate_weights_count_edges_between_communities() {
    // {0,1} and {2,3} joined by edges 0-2, 1-2 and 1-3; {4} joined by 3-4.
    let g = LeidenGraph::from_edges(5, &vec![(0, 1), (0, 2), (1, 2), (1, 3), (2, 3), (3, 4)]);
    let r = aggregate_network(&g, &vec![0, 0, 1, 1, 2]);
    assert_eq!(r.graph.adj, vec![vec![1], vec![0, 2], vec![1]]);
    assert_eq!(r.weights, vec![vec![3], vec![3, 1], vec![1]]);
}

#[test]
fn aggregate_network_without_cross_edges() {
    let g = LeidenGraph::from_edges(4, &vec![(0, 1), (2, 3)]);
    let r = aggregate_network(&g, &vec![1, 1, 0, 0]);
    assert_eq!(r.graph.n, 2);
    assert_eq!(r.membership, vec![vec![2, 3], vec![0, 1]]);
    assert_eq!(r.graph.adj, vec![Vec::<usize>::new(), Vec::new()]);
}

#[test]
fn flatten_partition_maps_members_back() {
    let membership = vec![vec![0, 2], vec![1], vec![3, 4]];
    let a = flatten_partition(&vec![5, 6, 5], &membership, 6);
    assert_eq!(a, vec![5, 6, 5, 5, 5, 0]);
}

#[test]
fn map_to_aggregate_init_takes_coarse_community_of_members() {
    let coarse = vec![4, 4, 9, 9];
    let refined = vec![0, 0, 1, 2];
    let init = map_to_aggregate_init(&coarse, &refined, 4);
    assert_eq!(init, vec![4, 9, 9, 0]);
}

#[test]
fn community_tallies_count_sizes_edges_and_degrees() {
    // Triangle 0-1-2 plus edge 2-3; communities {0,1,2} and {3}.
    let g = LeidenGraph::from_edges(4, &vec![(0, 1), (1, 2), (2, 0), (2, 3)]);
    let t = community_tallies(&g, &vec![0, 0, 0, 1]);
    assert_eq!(t.size, vec![3, 1]);
    assert_eq!(t.inner, vec![3, 0]);
    assert_eq!(t.degree_sum, vec![7, 1]);
}

#[test]
fn community_tallies_leave_unused_ids_empty() {
    let g = LeidenGraph::from_edges(3, &vec![(0, 1)]);
    let t = community_tallies(&g, &vec![2, 2, 0]);
    assert_eq!(t.size, vec![1, 0, 2]);
    assert_eq!(t.inner, vec![0, 0, 1]);
    assert_eq!(t.degree_sum, vec![0, 0, 2]);
}

#[test]
fn community_tallies_of_empty_graph() {
    let g = LeidenGraph::from_edges(0, &vec![]);
    let t = community_tallies(&g, &vec![]);
    assert!(t.size.is_empty() && t.inner.is_empty() && t.degree_sum.is_empty());
}

#[test]
fn edges_to_community_counts_neighbours_in_it() {
    let g = LeidenGraph::from_edges(5, &vec![(0, 1), (0, 2), (0, 3), (3, 4)]);
    let a = vec![0, 1, 1, 2, 2];
    assert_eq!(sdivi::leiden::tally::edges_to_community(&g, 0, 1, &a), 2);
    assert_eq!(sdivi::leiden::tally::edges_to_community(&g, 0, 2, &a), 1);
    assert_eq!(sdivi::leiden::tally::edges_to_community(&g, 4, 0, &a), 0);
}
