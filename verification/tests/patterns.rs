use sdivi::input::PatternInstanceInput;
use sdivi::patterns::count_patterns_by_category;

fn inst(category: &str, fp: &str) -> PatternInstanceInput {
    PatternInstanceInput {
        fingerprint: fp.to_string(),
        category: category.to_string(),
        node_id: "src/lib.rs".to_string(),
        location: None,
    }
}

#[test]
fn no_instances_no_groups() {
    assert!(count_patterns_by_category(&vec![]).is_empty());
}

#[test]
fn counts_each_fingerprint_within_its_category() {
    let ps = vec![
        inst("error_handling", "aaa"),
        inst("async", "bbb"),
        inst("error_handling", "ccc"),
        inst("error_handling", "aaa"),
        inst("async", "aaa"),
    ];
    let groups = count_patterns_by_category(&ps);
    assert_eq!(groups.len(), 2);
    assert_eq!(groups[0].category, "error_handling");
    assert_eq!(groups[0].fingerprints, vec![("aaa".to_string(), 2), ("ccc".to_string(), 1)]);
    assert_eq!(groups[1].category, "async");
    assert_eq!(groups[1].fingerprints, vec![("bbb".to_string(), 1), ("aaa".to_string(), 1)]);
}

#[test]
fn one_fingerprint_repeated() {
    let ps = vec![inst("cat_a", "fp1"), inst("cat_a", "fp1")];
    let groups = count_patterns_by_category(&ps);
    assert_eq!(groups.len(), 1);
    assert_eq!(groups[0].fingerprints, vec![("fp1".to_string(), 2)]);
}
