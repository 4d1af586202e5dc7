use std::collections::BTreeMap;

use sdivi::partition::LeidenPartition;
use sdivi::warm_start::initial_assignment_from_cache;

#[test]
fn initial_assignment_singletons_for_absent_nodes() {
    let cached = LeidenPartition {
        assignments: BTreeMap::from([(0, 0), (1, 0)]),
        stability: BTreeMap::from([(0, 0.8f64.to_bits())]),
        modularity: 0.4f64.to_bits(),
        seed: 42,
    };

    let init = initial_assignment_from_cache(Some(&cached), 5);
    assert_eq!(init.len(), 5);
    assert_eq!(init[0], init[1], "nodes 0 and 1 should share a community");
    assert_ne!(init[2], init[3]);
    assert_ne!(init[2], init[4]);
    assert_ne!(init[3], init[4]);
    assert_ne!(init[2], init[0]);
}

#[test]
fn cold_start_gives_singletons() {
    let init = initial_assignment_from_cache(None, 4);
    assert_eq!(init, vec![0, 1, 2, 3]);
}

#[test]
fn warm_start_exact_assignment() {
    let cached = LeidenPartition {
        assignments: BTreeMap::from([(0, 5), (2, 5), (3, 9)]),
        stability: BTreeMap::new(),
        modularity: 0,
        seed: 7,
    };
    let init = initial_assignment_from_cache(Some(&cached), 5);
    assert_eq!(init.len(), 5);
    assert_eq!(init[0], init[2]);
    assert_ne!(init[0], init[3]);
    assert_ne!(init[1], init[0]);
    assert_ne!(init[1], init[3]);
    assert_ne!(init[4], init[1]);
    assert!(init.iter().all(|&c| c < 5));
}
