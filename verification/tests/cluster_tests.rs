use flux::cluster::ClusterState;

#[test]
fn fresh_topology_has_one_full_range() {
    let topo = ClusterState::new("10.0.0.1:6214".to_string());
    assert_eq!(topo.nodes, vec!["10.0.0.1:6214".to_string()]);
    assert_eq!(topo.slot_map.len(), 1);
    assert_eq!(topo.slot_map[0].address, "10.0.0.1:6214");
    assert_eq!(topo.slot_map[0].slot_range, (0, 16383));
}

#[test]
fn add_node_keeps_addresses_sorted() {
    let mut topo = ClusterState::new("b".to_string());
    assert!(topo.add_node("a".to_string()));
    assert!(topo.add_node("c".to_string()));
    assert_eq!(topo.nodes, vec!["a".to_string(), "b".to_string(), "c".to_string()]);
    assert_eq!(topo.slot_map[0].address, "a");
    assert_eq!(topo.slot_map[0].slot_range, (0, 5461));
    assert_eq!(topo.slot_map[1].slot_range, (5462, 10922));
    assert_eq!(topo.slot_map[2].slot_range, (10923, 16383));
}

#[test]
fn add_node_twice_is_a_no_op() {
    let mut topo = ClusterState::new("b".to_string());
    assert!(topo.add_node("a".to_string()));
    let nodes_once = topo.nodes.clone();
    let json_once = topo.get_slots_json();
    assert!(!topo.add_node("a".to_string()));
    assert_eq!(topo.nodes, nodes_once);
    assert_eq!(topo.get_slots_json(), json_once);
}

#[test]
fn rebalance_gives_every_node_a_range() {
    let mut topo = ClusterState::new("n0".to_string());
    for i in 1..5 {
        assert!(topo.add_node(format!("n{i}")));
    }
    assert_eq!(topo.slot_map.len(), 5);
    let total: usize = topo.slot_map.iter().map(|r| r.slot_range.1 - r.slot_range.0 + 1).sum();
    assert_eq!(total, 16384);
}

#[test]
fn slots_json_renders_the_assignment() {
    let mut topo = ClusterState::new("b".to_string());
    topo.add_node("a".to_string());
    let json = topo.get_slots_json();
    let parsed: serde_json::Value = serde_json::from_str(&json).unwrap();
    let records = parsed.as_array().unwrap();
    assert_eq!(records.len(), 2);
    assert_eq!(records[0]["address"], "a");
    assert_eq!(records[0]["slot_range"][0], 0);
    assert_eq!(records[0]["slot_range"][1], 8191);
    assert_eq!(records[1]["address"], "b");
    assert_eq!(records[1]["slot_range"][0], 8192);
    assert_eq!(records[1]["slot_range"][1], 16383);
}
