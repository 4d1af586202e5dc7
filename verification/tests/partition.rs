use std::collections::BTreeMap;

use sdivi::partition::LeidenPartition;

fn two_community_partition() -> LeidenPartition {
    LeidenPartition {
        assignments: BTreeMap::from([
            (0, 0), (1, 0), (2, 0),
            (3, 1), (4, 1),
        ]),
        stability: BTreeMap::from([(0, 0.8f64.to_bits()), (1, 0.6f64.to_bits())]),
        modularity: 0.35f64.to_bits(),
        seed: 42,
    }
}

#[test]
fn communities_groups_nodes_by_community_id() {
    let p = two_community_partition();
    let comms = p.communities();

    assert_eq!(comms.len(), 2, "exactly two communities");

    let c0 = comms.get(&0).expect("community 0 must exist");
    let c1 = comms.get(&1).expect("community 1 must exist");

    assert_eq!(c0.len(), 3, "community 0 has 3 members");
    assert_eq!(c1.len(), 2, "community 1 has 2 members");

    assert!(c0.contains(&0) && c0.contains(&1) && c0.contains(&2));
    assert!(c1.contains(&3) && c1.contains(&4));
}

#[test]
fn communities_empty_partition_returns_empty_map() {
    let p = LeidenPartition {
        assignments: BTreeMap::new(),
        stability: BTreeMap::new(),
        modularity: 0.0f64.to_bits(),
        seed: 42,
    };
    assert!(p.communities().is_empty());
}

#[test]
fn largest_community_size_returns_size_of_biggest_community() {
    let p = two_community_partition();
    assert_eq!(p.largest_community_size(), 3);
}

#[test]
fn largest_community_size_on_empty_partition_returns_zero() {
    let p = LeidenPartition {
        assignments: BTreeMap::new(),
        stability: BTreeMap::new(),
        modularity: 0.0f64.to_bits(),
        seed: 42,
    };
    assert_eq!(p.largest_community_size(), 0);
}

#[test]
fn largest_community_size_single_node_returns_one() {
    let p = LeidenPartition {
        assignments: BTreeMap::from([(0, 0)]),
        stability: BTreeMap::from([(0, 1.0f64.to_bits())]),
        modularity: 0.0f64.to_bits(),
        seed: 42,
    };
    assert_eq!(p.largest_community_size(), 1);
}

#[test]
fn community_of_returns_correct_community_for_node() {
    let p = two_community_partition();
    assert_eq!(p.community_of(0), Some(0));
    assert_eq!(p.community_of(3), Some(1));
}

#[test]
fn community_of_returns_none_for_absent_node() {
    let p = two_community_partition();
    assert_eq!(p.community_of(999), None, "absent node must return None");
}

#[test]
fn community_count_counts_distinct_ids() {
    let p = two_community_partition();
    assert_eq!(p.community_count(), 2);
    let q = LeidenPartition {
        assignments: BTreeMap::from([(0, 7), (5, 2), (9, 7)]),
        stability: BTreeMap::new(),
        modularity: 0,
        seed: 1,
    };
    assert_eq!(q.community_count(), 2);
    assert_eq!(q.communities().get(&7), Some(&vec![0, 9]));
    assert_eq!(q.largest_community_size(), 2);
}
