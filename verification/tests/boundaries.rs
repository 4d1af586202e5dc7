use sdivi::boundaries::compute_boundary_violations;
use sdivi::error::AnalysisError;
use sdivi::input::{BoundaryDefInput, BoundarySpecInput, DependencyGraphInput, EdgeInput, NodeInput};

fn node(id: &str) -> NodeInput {
    NodeInput { id: id.to_string(), path: id.to_string(), language: "rust".to_string() }
}

fn edge(src: &str, tgt: &str) -> EdgeInput {
    EdgeInput { source: src.to_string(), target: tgt.to_string() }
}

fn boundary(name: &str, modules: &[&str], allow: &[&str]) -> BoundaryDefInput {
    BoundaryDefInput {
        name: name.to_string(),
        modules: modules.iter().map(|s| s.to_string()).collect(),
        allow_imports_from: allow.iter().map(|s| s.to_string()).collect(),
    }
}

fn layered_graph() -> DependencyGraphInput {
    DependencyGraphInput {
        nodes: vec![node("src/api/handler.rs"), node("src/db/store.rs"), node("src/util.rs")],
        edges: vec![
            edge("src/api/handler.rs", "src/db/store.rs"),
            edge("src/db/store.rs", "src/api/handler.rs"),
            edge("src/api/handler.rs", "src/util.rs"),
        ],
    }
}

#[test]
fn empty_graph_and_spec_have_no_violations() {
    let g = DependencyGraphInput { nodes: vec![], edges: vec![] };
    let spec = BoundarySpecInput { boundaries: vec![] };
    let r = compute_boundary_violations(&g, &spec).unwrap();
    assert_eq!(r.violation_count, 0);
    assert!(r.violations.is_empty());
}

#[test]
fn crossing_into_a_boundary_not_allowed_is_a_violation() {
    let spec = BoundarySpecInput {
        boundaries: vec![boundary("api", &["src/api/**"], &[]), boundary("db", &["src/db/**"], &[])],
    };
    let r = compute_boundary_violations(&layered_graph(), &spec).unwrap();
    assert_eq!(r.violation_count, 2);
    assert_eq!(
        r.violations,
        vec![
            ("src/api/handler.rs".to_string(), "src/db/store.rs".to_string()),
            ("src/db/store.rs".to_string(), "src/api/handler.rs".to_string()),
        ]
    );
}

#[test]
fn allowed_imports_are_not_violations() {
    let spec = BoundarySpecInput {
        boundaries: vec![boundary("api", &["src/api/**"], &["db"]), boundary("db", &["src/db/**"], &[])],
    };
    let r = compute_boundary_violations(&layered_graph(), &spec).unwrap();
    assert_eq!(r.violation_count, 1);
    assert_eq!(r.violations, vec![("src/db/store.rs".to_string(), "src/api/handler.rs".to_string())]);
}

#[test]
fn files_outside_every_boundary_never_violate() {
    let spec = BoundarySpecInput { boundaries: vec![boundary("api", &["src/api/**"], &[])] };
    let r = compute_boundary_violations(&layered_graph(), &spec).unwrap();
    assert_eq!(r.violation_count, 0);
}

#[test]
fn first_matching_boundary_wins() {
    let spec = BoundarySpecInput {
        boundaries: vec![
            boundary("all", &["src/**"], &[]),
            boundary("db", &["src/db/**"], &[]),
        ],
    };
    let r = compute_boundary_violations(&layered_graph(), &spec).unwrap();
    assert_eq!(r.violation_count, 0);
}

#[test]
fn invalid_glob_matches_nothing() {
    let spec = BoundarySpecInput {
        boundaries: vec![boundary("api", &["src/api/[", "src/api/**"], &[]), boundary("db", &["{src/db"], &[])],
    };
    let r = compute_boundary_violations(&layered_graph(), &spec).unwrap();
    assert_eq!(r.violation_count, 0);
}

#[test]
fn invalid_node_id_is_rejected_before_checking() {
    let g = DependencyGraphInput { nodes: vec![node("src/a.rs"), node("src/../b.rs")], edges: vec![] };
    let spec = BoundarySpecInput { boundaries: vec![] };
    match compute_boundary_violations(&g, &spec) {
        Err(AnalysisError::InvalidNodeId { id, reason }) => {
            assert_eq!(id, "src/../b.rs");
            assert_eq!(reason, "must not contain '..' components");
        }
        other => panic!("unexpected result {other:?}"),
    }
}
