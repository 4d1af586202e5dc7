use sdivi::leiden::graph::LeidenGraph;
use sdivi::leiden::modularity::ModularityState;

fn triangle_and_tail() -> LeidenGraph {
    // 0-1, 0-2, 1-2 form a triangle; 2-3 and 3-4 a tail.
    LeidenGraph::from_edges(5, &vec![(0, 1), (0, 2), (1, 2), (2, 3), (3, 4)])
}

#[test]
fn from_assignment_counts_each_community() {
    let g = triangle_and_tail();
    let s = ModularityState::from_assignment(&g, vec![0, 0, 0, 1, 1], 2);
    assert_eq!(s.assignment, vec![0, 0, 0, 1, 1]);
    // Room for every node ID even though only two communities are used.
    assert_eq!(s.size, vec![3, 2, 0, 0, 0]);
    assert_eq!(s.sigma_tot, vec![7, 3, 0, 0, 0]);
    assert_eq!(s.inner_edges, vec![3, 1, 0, 0, 0]);
}

#[test]
fn from_assignment_with_more_ids_than_nodes() {
    let g = LeidenGraph::from_edges(2, &vec![(0, 1)]);
    let s = ModularityState::from_assignment(&g, vec![3, 3], 4);
    assert_eq!(s.size, vec![0, 0, 0, 2]);
    assert_eq!(s.sigma_tot, vec![0, 0, 0, 2]);
    assert_eq!(s.inner_edges, vec![0, 0, 0, 1]);
}

#[test]
fn remove_node_takes_node_out_and_places_it_alone() {
    let g = triangle_and_tail();
    let mut s = ModularityState::from_assignment(&g, vec![1, 1, 1, 0, 0], 2);
    // Node 2 has neighbours 0 and 1 in community 1, and 3 in community 0.
    let k = s.remove_node(&g, 2);
    assert_eq!(k, 2);
    assert_eq!(s.assignment, vec![1, 1, 2, 0, 0]);
    assert_eq!(s.size, vec![2, 2, 1, 0, 0]);
    assert_eq!(s.sigma_tot, vec![3, 4, 3, 0, 0]);
    assert_eq!(s.inner_edges, vec![1, 1, 0, 0, 0]);
}

#[test]
fn add_node_puts_node_into_community() {
    let g = triangle_and_tail();
    let mut s = ModularityState::from_assignment(&g, vec![1, 1, 1, 0, 0], 2);
    s.remove_node(&g, 2);
    s.add_node(&g, 2, 0);
    assert_eq!(s.assignment, vec![1, 1, 0, 0, 0]);
    // Community 0 gains node 2, its degree 3 and its edge to node 3.
    assert_eq!(s.size[0], 3);
    assert_eq!(s.sigma_tot[0], 6);
    assert_eq!(s.inner_edges[0], 2);
    // Community 1 kept what the removal left.
    assert_eq!((s.size[1], s.sigma_tot[1], s.inner_edges[1]), (2, 4, 1));
}

#[test]
fn move_keeps_counts_of_other_communities_exact() {
    let g = triangle_and_tail();
    let mut s = ModularityState::from_assignment(&g, vec![1, 1, 1, 0, 0], 2);
    s.remove_node(&g, 4);
    s.add_node(&g, 4, 1);
    let fresh = ModularityState::from_assignment(&g, s.assignment.clone(), 2);
    for c in 0..5 {
        if c != 4 {
            assert_eq!(s.size[c], fresh.size[c]);
            assert_eq!(s.sigma_tot[c], fresh.sigma_tot[c]);
            assert_eq!(s.inner_edges[c], fresh.inner_edges[c]);
        }
    }
}

#[test]
fn removal_to_free_id_keeps_all_counts_exact() {
    let g = triangle_and_tail();
    let mut s = ModularityState::from_assignment(&g, vec![0, 0, 0, 1, 1], 2);
    // No node is in community 4, so node 4 can stand alone under its ID.
    s.remove_node(&g, 4);
    assert_eq!(s.assignment, vec![0, 0, 0, 1, 4]);
    let fresh = ModularityState::from_assignment(&g, s.assignment.clone(), 5);
    assert_eq!(s.size, fresh.size);
    assert_eq!(s.sigma_tot, fresh.sigma_tot);
    assert_eq!(s.inner_edges, fresh.inner_edges);
}
