use sdivi::history::{community_sets_match, invert_assignments, matching_pair_count};
use sdivi::input::PriorPartition;

fn entries(pairs: &[(&str, u32)]) -> Vec<(String, u32)> {
    pairs.iter().map(|(n, c)| (n.to_string(), *c)).collect()
}

#[test]
fn invert_groups_ids_by_community() {
    let inv = invert_assignments(&entries(&[("c", 1), ("b", 0), ("a", 1)]));
    assert_eq!(inv.len(), 2);
    assert_eq!(inv[0].0, 0);
    assert_eq!(inv[0].1, vec!["b".to_string()]);
    assert_eq!(inv[1].0, 1);
    assert_eq!(inv[1].1, vec!["a".to_string(), "c".to_string()]);
}

#[test]
fn relabelled_communities_match() {
    let a = invert_assignments(&entries(&[("a", 0), ("b", 0), ("c", 1)]));
    let b = invert_assignments(&entries(&[("a", 5), ("b", 5), ("c", 2)]));
    assert!(community_sets_match(&a, &b));
}

#[test]
fn moved_node_does_not_match() {
    let a = invert_assignments(&entries(&[("a", 0), ("b", 0), ("c", 1)]));
    let b = invert_assignments(&entries(&[("a", 0), ("b", 1), ("c", 1)]));
    assert!(!community_sets_match(&a, &b));
    let empty = invert_assignments(&entries(&[]));
    assert!(!community_sets_match(&a, &empty));
    assert!(community_sets_match(&empty, &empty));
}

#[test]
fn matching_pairs_over_history() {
    let p = |pairs: &[(&str, u32)]| PriorPartition { cluster_assignments: entries(pairs) };
    assert_eq!(matching_pair_count(&vec![]), 0);
    assert_eq!(matching_pair_count(&vec![p(&[("a", 0)])]), 0);
    let history = vec![
        p(&[("a", 0), ("b", 1)]),
        p(&[("a", 3), ("b", 4)]),
        p(&[("a", 0), ("b", 0)]),
        p(&[("a", 1), ("b", 1)]),
    ];
    assert_eq!(matching_pair_count(&history), 2);
}
