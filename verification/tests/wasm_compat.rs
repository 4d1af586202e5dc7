use sdivi::coupling::compute_coupling_topology;
use sdivi::input::DependencyGraphInput;

#[test]
fn coupling_topology_callable() {
    let g = DependencyGraphInput { nodes: vec![], edges: vec![] };
    let r = compute_coupling_topology(&g).unwrap();
    assert_eq!(r.node_count, 0);
}
