use sdivi::graph::build_dependency_graph_from_edges;
use sdivi::metrics::{compute_metrics, DensityRatio, TOP_HUB_COUNT};

fn paths(names: &[&str]) -> Vec<String> {
    names.iter().map(|s| s.to_string()).collect()
}

#[test]
fn build_from_edges_counts_nodes_and_edges() {
    let dg = build_dependency_graph_from_edges(&paths(&["src/lib.rs", "src/models.rs"]), &vec![(0, 1)]);
    assert_eq!(dg.node_count(), 2);
    assert_eq!(dg.edge_count(), 1);
}

#[test]
fn build_drops_self_loops_out_of_range_and_duplicates() {
    let dg = build_dependency_graph_from_edges(
        &paths(&["a.rs", "b.rs", "c.rs"]),
        &vec![(0, 1), (1, 1), (0, 5), (7, 0), (0, 1), (2, 0)],
    );
    assert_eq!(dg.edge_count(), 2);
    assert_eq!(dg.edges_as_pairs(), vec![(0, 1), (2, 0)]);
}

#[test]
fn node_path_and_neighbors() {
    let dg = build_dependency_graph_from_edges(&paths(&["a.rs", "b.rs", "c.rs"]), &vec![(0, 1), (0, 2)]);
    assert_eq!(dg.node_path(1).map(|s| s.as_str()), Some("b.rs"));
    assert_eq!(dg.node_path(3), None);
    assert_eq!(dg.neighbors(0), vec![2, 1]);
    assert!(dg.neighbors(1).is_empty());
    assert!(dg.neighbors(9).is_empty());
}

#[test]
fn node_for_path_compares_components_and_takes_last() {
    let dg = build_dependency_graph_from_edges(&paths(&["src/a.rs", "src/b.rs", "src//a.rs"]), &vec![]);
    assert_eq!(dg.node_for_path("src/b.rs"), Some(1));
    assert_eq!(dg.node_for_path("src/./a.rs"), Some(2));
    assert_eq!(dg.node_for_path("src/c.rs"), None);
}

#[test]
fn metrics_on_empty_graph() {
    let dg = build_dependency_graph_from_edges(&vec![], &vec![]);
    let m = compute_metrics(&dg);
    assert_eq!(m.node_count, 0);
    assert_eq!(m.edge_count, 0);
    assert_eq!(m.density, DensityRatio { numerator: 0, denominator: 1 });
    assert_eq!(m.cycle_count, 0);
    assert_eq!(m.component_count, 0);
    assert!(m.top_hubs.is_empty());
}

#[test]
fn metrics_count_cycles_and_components() {
    let dg = build_dependency_graph_from_edges(
        &paths(&["a.rs", "b.rs", "c.rs", "d.rs", "e.rs"]),
        &vec![(0, 1), (1, 2), (2, 0), (3, 4)],
    );
    let m = compute_metrics(&dg);
    assert!(m.cycle_count > 0);
    assert!(m.cycle_count <= 4);
    assert_eq!(m.component_count, 2);
    assert_eq!(m.density, DensityRatio { numerator: 4, denominator: 20 });
}

#[test]
fn acyclic_graph_has_no_cycles() {
    let dg = build_dependency_graph_from_edges(
        &paths(&["a.rs", "b.rs", "c.rs", "d.rs"]),
        &vec![(0, 1), (0, 2), (1, 3), (2, 3)],
    );
    let m = compute_metrics(&dg);
    assert_eq!(m.cycle_count, 0);
    assert_eq!(m.component_count, 1);
}

#[test]
fn top_hubs_are_capped_and_ordered() {
    let names: Vec<String> = (0..12).map(|i| format!("f{:02}.rs", i)).collect();
    let mut edges = vec![];
    for i in 0..12usize {
        for j in 0..(i % 4) {
            edges.push((i, (i + j + 1) % 12));
        }
    }
    let dg = build_dependency_graph_from_edges(&names, &edges);
    let m = compute_metrics(&dg);
    assert_eq!(m.top_hubs.len(), TOP_HUB_COUNT);
    for w in m.top_hubs.windows(2) {
        assert!(w[0].1 > w[1].1 || (w[0].1 == w[1].1 && w[0].0 < w[1].0));
    }
    assert_eq!(m.top_hubs[0], ("f03.rs".to_string(), 3));
}

#[test]
fn hubs_tie_break_by_path_components() {
    let dg = build_dependency_graph_from_edges(
        &paths(&["src/z.rs", "src/a/b.rs", "src/a.rs"]),
        &vec![],
    );
    let m = compute_metrics(&dg);
    let order: Vec<&str> = m.top_hubs.iter().map(|h| h.0.as_str()).collect();
    assert_eq!(order, vec!["src/a/b.rs", "src/a.rs", "src/z.rs"]);
}

fn record(path: &str, imports: &[&str]) -> sdivi::feature_record::FeatureRecord {
    sdivi::feature_record::FeatureRecord {
        path: path.to_string(),
        language: "rust".to_string(),
        imports: imports.iter().map(|s| s.to_string()).collect(),
        exports: vec![],
        signatures: vec![],
        pattern_hints: vec![],
    }
}

#[test]
fn build_from_records_resolves_stems_and_relative_paths() {
    let records = vec![
        record("src/a.rs", &["crate::b", "./c", "std::fmt", "crate::a", "crate::b::X"]),
        record("src/b.rs", &["super::c"]),
        record("src/c.rs", &["./sub"]),
        record("src/sub/mod.rs", &[]),
    ];
    let dg = sdivi::resolve::build_dependency_graph(&records);
    assert_eq!(dg.node_count(), 4);
    assert_eq!(dg.edges_as_pairs(), vec![(0, 1), (0, 2), (1, 2), (2, 3)]);
}

#[test]
fn ambiguous_stems_do_not_resolve() {
    let records = vec![
        record("a/lib.rs", &[]),
        record("b/lib.rs", &[]),
        record("main.rs", &["crate::lib"]),
    ];
    let dg = sdivi::resolve::build_dependency_graph(&records);
    assert_eq!(dg.edge_count(), 0);
}

#[test]
fn stems_match_ignoring_ascii_case() {
    let records = vec![record("src/Foo.rs", &[]), record("src/main.rs", &["self::foo::Bar"])];
    let dg = sdivi::resolve::build_dependency_graph(&records);
    assert_eq!(dg.edges_as_pairs(), vec![(1, 0)]);
}

#[test]
fn parent_prefixes_are_trimmed_not_followed() {
    let records = vec![
        record("src/x/y.rs", &["../util", "./../z"]),
        record("src/x/util.rs", &[]),
        record("src/util.rs", &[]),
        record("src/x/z.py", &[]),
    ];
    let dg = sdivi::resolve::build_dependency_graph(&records);
    assert_eq!(dg.edges_as_pairs(), vec![(0, 1), (0, 3)]);
}

#[test]
fn empty_record_list_gives_empty_graph() {
    let dg = sdivi::resolve::build_dependency_graph(&vec![]);
    assert_eq!(dg.node_count(), 0);
    assert_eq!(dg.edge_count(), 0);
}

#[test]
fn cycle_count_is_the_number_of_back_edges() {
    let triangle = build_dependency_graph_from_edges(&paths(&["a.rs", "b.rs", "c.rs"]), &vec![(0, 1), (1, 2), (2, 0)]);
    assert_eq!(compute_metrics(&triangle).cycle_count, 1);
    let two = build_dependency_graph_from_edges(
        &paths(&["a.rs", "b.rs", "c.rs"]),
        &vec![(0, 1), (1, 0), (1, 2), (2, 1)],
    );
    assert_eq!(compute_metrics(&two).cycle_count, 2);
    let cross = build_dependency_graph_from_edges(
        &paths(&["a.rs", "b.rs", "c.rs", "d.rs"]),
        &vec![(0, 1), (0, 2), (2, 1), (3, 0)],
    );
    assert_eq!(compute_metrics(&cross).cycle_count, 0);
}
