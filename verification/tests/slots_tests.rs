use flux::slots::{allocate, TOTAL_SLOTS};

#[test]
fn single_node_owns_every_slot() {
    let nodes = vec!["10.0.0.1:6214".to_string()];
    let ranges = allocate(&nodes);
    assert_eq!(ranges.len(), 1);
    assert_eq!(ranges[0].address, "10.0.0.1:6214");
    assert_eq!(ranges[0].slot_range, (0, 16383));
}

#[test]
fn three_nodes_split_with_remainder_first() {
    let nodes = vec!["a".to_string(), "b".to_string(), "c".to_string()];
    let ranges = allocate(&nodes);
    assert_eq!(ranges.len(), 3);
    let sizes: Vec<usize> = ranges.iter().map(|r| r.slot_range.1 - r.slot_range.0 + 1).collect();
    assert_eq!(sizes, vec![5462, 5461, 5461]);
    assert_eq!(ranges[0].address, "a");
    assert_eq!(ranges[0].slot_range, (0, 5461));
    assert_eq!(ranges[1].slot_range, (5462, 10922));
    assert_eq!(ranges[2].slot_range, (10923, 16383));
}

#[test]
fn two_nodes_split_evenly() {
    let nodes = vec!["n1".to_string(), "n2".to_string()];
    let ranges = allocate(&nodes);
    assert_eq!(ranges[0].slot_range, (0, 8191));
    assert_eq!(ranges[1].slot_range, (8192, 16383));
}

#[test]
fn allocation_partitions_the_slot_space() {
    let nodes: Vec<String> = (0..7).map(|i| format!("node-{i}")).collect();
    let ranges = allocate(&nodes);
    let mut next = 0usize;
    for r in &ranges {
        assert_eq!(r.slot_range.0, next);
        assert!(r.slot_range.1 >= r.slot_range.0);
        next = r.slot_range.1 + 1;
    }
    assert_eq!(next, TOTAL_SLOTS);
}

#[test]
fn allocate_is_deterministic() {
    let nodes = vec!["x".to_string(), "y".to_string(), "z".to_string()];
    let a = allocate(&nodes);
    let b = allocate(&nodes);
    assert_eq!(a.len(), b.len());
    for (ra, rb) in a.iter().zip(b.iter()) {
        assert_eq!(ra.address, rb.address);
        assert_eq!(ra.slot_range, rb.slot_range);
    }
}

#[test]
fn empty_node_list_gets_empty_assignment() {
    let nodes: Vec<String> = Vec::new();
    assert_eq!(allocate(&nodes).len(), 0);
}
