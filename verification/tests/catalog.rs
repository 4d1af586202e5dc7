use sdivi::catalog::build_catalog;
use sdivi::feature_record::{FeatureRecord, PatternHint};
use sdivi::fingerprint::fingerprint_node_kind;

fn make_record(path: &str, hints: Vec<PatternHint>) -> FeatureRecord {
    FeatureRecord {
        path: path.to_string(),
        language: "rust".to_string(),
        imports: vec![],
        exports: vec![],
        signatures: vec![],
        pattern_hints: hints,
    }
}

fn make_hint(node_kind: &str) -> PatternHint {
    PatternHint {
        node_kind: node_kind.to_string(),
        start_byte: 0,
        end_byte: 10,
        start_row: 0,
        start_col: 0,
        text: "stub".to_string(),
    }
}

fn table() -> Vec<(String, Vec<String>)> {
    vec![
        ("error_handling".to_string(), vec!["try_expression".to_string()]),
        ("async_patterns".to_string(), vec!["await_expression".to_string()]),
    ]
}

#[test]
fn empty_records_produces_empty_catalog() {
    let catalog = build_catalog(&vec![], &table(), &vec![], 5);
    assert!(catalog.entries.is_empty());
}

#[test]
fn try_expression_appears_in_error_handling() {
    let records = vec![make_record("src/lib.rs", vec![make_hint("try_expression")])];
    let catalog = build_catalog(&records, &table(), &vec![], 1);
    assert!(catalog.entries.iter().any(|(cat, _)| cat == "error_handling"));
}

#[test]
fn scope_exclude_removes_file_from_catalog() {
    let records = vec![make_record("src/vendor/lib.rs", vec![make_hint("try_expression")])];
    let catalog = build_catalog(&records, &table(), &vec!["src/vendor/**".to_string()], 1);
    assert!(catalog.entries.is_empty(), "excluded file must not appear in catalog");
}

#[test]
fn min_pattern_nodes_filters_low_count_fingerprints() {
    let records = vec![make_record(
        "src/lib.rs",
        vec![make_hint("try_expression"), make_hint("try_expression")],
    )];
    let catalog = build_catalog(&records, &table(), &vec![], 5);
    assert!(
        catalog.entries.is_empty(),
        "fingerprint with count < min_pattern_nodes must be excluded"
    );
}

#[test]
fn catalog_counts_and_locates_each_fingerprint() {
    let mut a = make_hint("try_expression");
    a.start_row = 3;
    let mut b = make_hint("try_expression");
    b.start_row = 7;
    let records = vec![
        make_record("src/a.rs", vec![a, make_hint("await_expression"), make_hint("closure_expression")]),
        make_record("src/b.rs", vec![b]),
    ];
    let catalog = build_catalog(&records, &table(), &vec![], 1);
    assert_eq!(catalog.entries.len(), 2);
    assert_eq!(catalog.entries[0].0, "async_patterns");
    assert_eq!(catalog.entries[0].1[0].1.count, 1);
    let (cat, row) = &catalog.entries[1];
    assert_eq!(cat, "error_handling");
    assert_eq!(row.len(), 1);
    assert_eq!(row[0].0, fingerprint_node_kind("try_expression"));
    assert_eq!(row[0].1.count, 2);
    let places: Vec<(String, usize)> =
        row[0].1.locations.iter().map(|l| (l.file.clone(), l.start_row)).collect();
    assert_eq!(places, vec![("src/a.rs".to_string(), 3), ("src/b.rs".to_string(), 7)]);
}

#[test]
fn catalog_is_sorted_by_category_then_fingerprint() {
    let table = vec![
        ("zeta".to_string(), vec!["try_expression".to_string(), "match_expression".to_string()]),
        ("alpha".to_string(), vec!["await_expression".to_string()]),
    ];
    let records = vec![make_record(
        "src/lib.rs",
        vec![make_hint("try_expression"), make_hint("await_expression"), make_hint("match_expression")],
    )];
    let catalog = build_catalog(&records, &table, &vec![], 1);
    let cats: Vec<&str> = catalog.entries.iter().map(|(c, _)| c.as_str()).collect();
    assert_eq!(cats, vec!["alpha", "zeta"]);
    let row = &catalog.entries[1].1;
    assert_eq!(row.len(), 2);
    assert!(row[0].0 < row[1].0);
}

#[test]
fn first_listing_category_wins_and_threshold_keeps_frequent() {
    let table = vec![
        ("first".to_string(), vec!["match_expression".to_string()]),
        ("second".to_string(), vec!["match_expression".to_string(), "try_expression".to_string()]),
    ];
    let records = vec![make_record(
        "src/lib.rs",
        vec![make_hint("match_expression"), make_hint("match_expression"), make_hint("try_expression")],
    )];
    let catalog = build_catalog(&records, &table, &vec![], 2);
    assert_eq!(catalog.entries.len(), 1);
    assert_eq!(catalog.entries[0].0, "first");
    assert_eq!(catalog.entries[0].1[0].1.count, 2);
}

#[test]
fn glob_that_matches_nothing_keeps_the_file() {
    let records = vec![make_record("src/lib.rs", vec![make_hint("try_expression")])];
    let catalog = build_catalog(&records, &table(), &vec!["tests/**".to_string(), "[".to_string()], 1);
    assert_eq!(catalog.entries.len(), 1);
}
