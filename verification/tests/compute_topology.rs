use sdivi::coupling::compute_coupling_topology;
use sdivi::input::{DependencyGraphInput, EdgeInput, NodeInput};
use sdivi::metrics::DensityRatio;

fn node(id: &str) -> NodeInput {
    NodeInput { id: id.to_string(), path: id.to_string(), language: "rust".to_string() }
}

fn edge(src: &str, tgt: &str) -> EdgeInput {
    EdgeInput { source: src.to_string(), target: tgt.to_string() }
}

fn density_value(d: DensityRatio) -> f64 {
    d.numerator as f64 / d.denominator as f64
}

#[test]
fn empty_graph_returns_zeros() {
    let g = DependencyGraphInput { nodes: vec![], edges: vec![] };
    let r = compute_coupling_topology(&g).unwrap();
    assert_eq!(r.node_count, 0);
    assert_eq!(r.edge_count, 0);
    assert_eq!(density_value(r.density), 0.0);
    assert_eq!(r.cycle_count, 0);
    assert_eq!(r.component_count, 0);
    assert!(r.top_hubs.is_empty());
}

#[test]
fn two_node_graph_one_edge() {
    let g = DependencyGraphInput {
        nodes: vec![node("src/a.rs"), node("src/b.rs")],
        edges: vec![edge("src/a.rs", "src/b.rs")],
    };
    let r = compute_coupling_topology(&g).unwrap();
    assert_eq!(r.node_count, 2);
    assert_eq!(r.edge_count, 1);
    assert_eq!(r.component_count, 1);
    assert_eq!(r.cycle_count, 0);
}

#[test]
fn cycle_detected() {
    let g = DependencyGraphInput {
        nodes: vec![node("a.rs"), node("b.rs")],
        edges: vec![edge("a.rs", "b.rs"), edge("b.rs", "a.rs")],
    };
    let r = compute_coupling_topology(&g).unwrap();
    assert!(r.cycle_count > 0);
}

#[test]
fn disconnected_graph_has_multiple_components() {
    let g = DependencyGraphInput {
        nodes: vec![node("a.rs"), node("b.rs"), node("c.rs")],
        edges: vec![edge("a.rs", "b.rs")],
    };
    let r = compute_coupling_topology(&g).unwrap();
    assert_eq!(r.component_count, 2);
}

#[test]
fn invalid_node_id_returns_error() {
    let g = DependencyGraphInput {
        nodes: vec![NodeInput {
            id: "./bad".to_string(),
            path: "./bad".to_string(),
            language: "rust".to_string(),
        }],
        edges: vec![],
    };
    assert!(compute_coupling_topology(&g).is_err());
}

#[test]
fn self_loop_excluded_from_edge_count() {
    let g = DependencyGraphInput {
        nodes: vec![node("a.rs")],
        edges: vec![edge("a.rs", "a.rs")],
    };
    let r = compute_coupling_topology(&g).unwrap();
    assert_eq!(r.edge_count, 0);
}

#[test]
fn topology_density_and_hubs_exact() {
    let g = DependencyGraphInput {
        nodes: vec![node("b.rs"), node("a.rs"), node("c.rs")],
        edges: vec![edge("a.rs", "b.rs"), edge("a.rs", "c.rs"), edge("b.rs", "c.rs"), edge("a.rs", "b.rs")],
    };
    let r = compute_coupling_topology(&g).unwrap();
    assert_eq!(r.edge_count, 3);
    assert_eq!(r.density, DensityRatio { numerator: 3, denominator: 6 });
    assert_eq!(r.cycle_count, 0);
    assert_eq!(
        r.top_hubs,
        vec![("a.rs".to_string(), 2), ("b.rs".to_string(), 1), ("c.rs".to_string(), 0)]
    );
}

#[test]
fn edges_to_unknown_ids_are_dropped() {
    let g = DependencyGraphInput {
        nodes: vec![node("a.rs"), node("b.rs")],
        edges: vec![edge("a.rs", "zzz.rs"), edge("zzz.rs", "b.rs")],
    };
    let r = compute_coupling_topology(&g).unwrap();
    assert_eq!(r.edge_count, 0);
    assert_eq!(r.component_count, 2);
}

#[test]
fn first_invalid_id_is_reported() {
    let g = DependencyGraphInput {
        nodes: vec![node("ok.rs"), node("/abs.rs"), node("x\\y.rs")],
        edges: vec![],
    };
    match compute_coupling_topology(&g) {
        Err(sdivi::error::AnalysisError::InvalidNodeId { id, reason }) => {
            assert_eq!(id, "/abs.rs");
            assert_eq!(reason, "must not be an absolute path");
        }
        _ => panic!("expected an invalid node ID error"),
    }
}
