use sdivi::feature_record::FeatureRecord;
use sdivi::repository::{adapter_for, sort_records_by_path};

fn adapters() -> Vec<Vec<String>> {
    vec![
        vec![".py".to_string()],
        vec![".ts".to_string(), ".tsx".to_string()],
        vec![".rs".to_string()],
    ]
}

fn record(path: &str) -> FeatureRecord {
    FeatureRecord {
        path: path.to_string(),
        language: "rust".to_string(),
        imports: vec![],
        exports: vec![],
        signatures: vec![],
        pattern_hints: vec![],
    }
}

#[test]
fn adapter_chosen_by_extension() {
    assert_eq!(adapter_for("src/lib.rs", &adapters()), Some(2));
    assert_eq!(adapter_for("web/app.tsx", &adapters()), Some(1));
    assert_eq!(adapter_for("tools/run.py", &adapters()), Some(0));
}

#[test]
fn files_without_a_handled_extension_are_skipped() {
    assert_eq!(adapter_for("Makefile", &adapters()), None);
    assert_eq!(adapter_for(".hidden", &adapters()), None);
    assert_eq!(adapter_for("notes.md", &adapters()), None);
    assert_eq!(adapter_for("archive.rs.gz", &adapters()), None);
    assert_eq!(adapter_for("src/lib.rs", &vec![]), None);
}

#[test]
fn first_adapter_listing_the_extension_wins() {
    let both = vec![vec![".rs".to_string()], vec![".rs".to_string()]];
    assert_eq!(adapter_for("a.rs", &both), Some(0));
}

#[test]
fn sorted_records_follow_path_order() {
    let out = sort_records_by_path(vec![record("src/b.rs"), record("src/a.rs"), record("lib.rs")]);
    let paths: Vec<&str> = out.iter().map(|r| r.path.as_str()).collect();
    assert_eq!(paths, vec!["lib.rs", "src/a.rs", "src/b.rs"]);
}

#[test]
fn records_sort_component_by_component() {
    let out = sort_records_by_path(vec![record("a.b"), record("a/b")]);
    let paths: Vec<&str> = out.iter().map(|r| r.path.as_str()).collect();
    assert_eq!(paths, vec!["a/b", "a.b"]);
}
