use chitchat::cluster_state::ClusterState;
use chitchat::delta::{Delta, MAX_UDP_DATAGRAM_PAYLOAD_SIZE};
use chitchat::digest::Digest;
use chitchat::scuttle::NodeSortedByStaleLength;
use chitchat::types::{NodeId, VersionedValue};

fn node_id(port: u16) -> NodeId {
    NodeId::new(format!("node-{port}"), format!("127.0.0.1:{port}"))
}

fn vv(value: &str, version: u64, marked_for_deletion: bool) -> VersionedValue {
    VersionedValue { value: value.to_string(), version, marked_for_deletion }
}

#[test]
fn test_node_sorted_by_stale_length_empty() {
    let node_sorted_by_stale_length = NodeSortedByStaleLength::new();
    assert!(node_sorted_by_stale_length.into_iter(9).is_empty());
}

#[test]
fn test_node_sorted_by_stale_length_simple() {
    let mut node_sorted_by_stale_length = NodeSortedByStaleLength::new();
    let node_ids: Vec<(NodeId, usize)> = vec![(10_001, 1), (10_002, 2), (10_003, 3)]
        .into_iter()
        .map(|(port, state_length)| (node_id(port), state_length))
        .collect();
    for (id, state_length) in node_ids.iter() {
        node_sorted_by_stale_length.insert(id, *state_length);
    }
    let nodes: Vec<NodeId> = node_sorted_by_stale_length.into_iter(9);
    let expected_nodes: Vec<NodeId> = [10_003, 10_002, 10_001].into_iter().map(node_id).collect();
    assert_eq!(nodes, expected_nodes);
}

#[test]
fn test_node_sorted_by_stale_length_doubles() {
    let mut node_sorted_by_stale_length = NodeSortedByStaleLength::new();
    let node_ids: Vec<(NodeId, usize)> = vec![(10_001, 1), (20_001, 2), (20_002, 2), (20_003, 2)]
        .into_iter()
        .map(|(port, state_length)| (node_id(port), state_length))
        .collect();
    for (id, state_length) in node_ids.iter() {
        node_sorted_by_stale_length.insert(id, *state_length);
    }
    let nodes: Vec<NodeId> = node_sorted_by_stale_length.into_iter(9);
    let expected_nodes: Vec<NodeId> = vec![20_002, 20_001, 20_003, 10_001].into_iter().map(node_id).collect();
    assert_eq!(nodes, expected_nodes);
}

#[test]
fn test_cluster_state_missing_node() {
    let cluster_state = ClusterState::default();
    let node_state = cluster_state.node_state(&node_id(10_001));
    assert!(node_state.is_none());
}

#[test]
fn test_cluster_state_first_version_is_one() {
    let mut cluster_state = ClusterState::default();
    let node_state = cluster_state.node_state_mut(&node_id(10_001));
    node_state.set("key_a", "");
    assert_eq!(node_state.get_versioned("key_a").unwrap(), &vv("", 1, false));
}

#[test]
fn test_cluster_state_set() {
    let mut cluster_state = ClusterState::default();
    let node_state = cluster_state.node_state_mut(&node_id(10_001));
    node_state.set("key_a", "1");
    assert_eq!(node_state.get_versioned("key_a").unwrap(), &vv("1", 1, false));
    node_state.set("key_b", "2");
    assert_eq!(node_state.get_versioned("key_a").unwrap(), &vv("1", 1, false));
    assert_eq!(node_state.get_versioned("key_b").unwrap(), &vv("2", 2, false));
    node_state.set("key_a", "3");
    assert_eq!(node_state.get_versioned("key_a").unwrap(), &vv("3", 3, false));
}

#[test]
fn test_cluster_state_set_with_same_value_updates_version() {
    let mut cluster_state = ClusterState::default();
    let node_state = cluster_state.node_state_mut(&node_id(10_001));
    node_state.set("key", "1");
    assert_eq!(node_state.get_versioned("key").unwrap(), &vv("1", 1, false));
    node_state.set("key", "1");
    assert_eq!(node_state.get_versioned("key").unwrap(), &vv("1", 2, false));
}

#[test]
fn test_cluster_state_set_and_mark_for_deletion() {
    let mut cluster_state = ClusterState::default();
    let node_state = cluster_state.node_state_mut(&node_id(10_001));
    node_state.set("key", "1");
    node_state.mark_for_deletion("key");
    assert_eq!(node_state.get_versioned("key").unwrap(), &vv("1", 2, true));
    node_state.set("key", "2");
    assert_eq!(node_state.get_versioned("key").unwrap(), &vv("2", 3, false));
}

#[test]
fn test_cluster_state_compute_digest() {
    let mut cluster_state = ClusterState::default();
    let node1 = node_id(10_001);
    let node1_state = cluster_state.node_state_mut(&node1);
    node1_state.set("key_a", "");
    node1_state.set("key_b", "");

    let node2 = node_id(10_002);
    let node2_state = cluster_state.node_state_mut(&node2);
    node2_state.set("key_a", "");

    let dead_nodes: Vec<NodeId> = Vec::new();
    let digest = cluster_state.compute_digest(&dead_nodes);
    assert_eq!(&digest.node_max_version, &vec![(node1.clone(), 2), (node2.clone(), 1)]);

    // exclude node1
    let dead_nodes = vec![node1.clone()];
    let digest = cluster_state.compute_digest(&dead_nodes);
    assert_eq!(&digest.node_max_version, &vec![(node2, 1)]);
}

#[test]
fn test_cluster_state_gc_keys_marked_for_deletion() {
    let mut cluster_state = ClusterState::default();
    let node1 = node_id(10_001);
    let node1_state = cluster_state.node_state_mut(&node1);
    node1_state.set_with_version("key_a".to_string(), "1".to_string(), 1); // 1
    node1_state.mark_for_deletion("key_a"); // 2
    node1_state.set_with_version("key_b".to_string(), "3".to_string(), 13); // 3

    // No gc.
    cluster_state.gc_keys_marked_for_deletion(11, &Vec::new());
    assert!(cluster_state.node_state(&node1).unwrap().get_versioned("key_a").is_some());
    assert!(cluster_state.node_state(&node1).unwrap().get_versioned("key_b").is_some());
    // Gc.
    cluster_state.gc_keys_marked_for_deletion(10, &Vec::new());
    assert!(cluster_state.node_state(&node1).unwrap().get_versioned("key_a").is_none());
    assert!(cluster_state.node_state(&node1).unwrap().get_versioned("key_b").is_some());
}

#[test]
fn test_cluster_state_apply_delta() {
    let mut cluster_state = ClusterState::default();

    let node1 = node_id(10_001);
    let node1_state = cluster_state.node_state_mut(&node1);
    node1_state.set_with_version("key_a".to_string(), "1".to_string(), 1); // 1
    node1_state.set_with_version("key_b".to_string(), "3".to_string(), 3); // 2
    let node2 = node_id(10_002);
    let node2_state = cluster_state.node_state_mut(&node2);
    node2_state.set_with_version("key_c".to_string(), "3".to_string(), 1); // 1

    let mut delta = Delta::default();
    delta.add_node_delta(node1.clone(), "key_a", "4", 4, false);
    delta.add_node_delta(node1.clone(), "key_b", "2", 2, false);
    // Node 2 is reset.
    delta.add_node_to_reset(node2.clone());
    delta.add_node_delta(node2.clone(), "key_d", "4", 4, false);
    cluster_state.apply_delta(delta);

    let node1_state = cluster_state.node_state(&node1).unwrap();
    assert_eq!(node1_state.get_versioned("key_a").unwrap(), &vv("4", 4, false));
    // We ignore stale values.
    assert_eq!(node1_state.get_versioned("key_b").unwrap(), &vv("3", 3, false));
    // Check node 2 is reset and is only populated with the new `key_d`.
    let node2_state = cluster_state.node_state(&node2).unwrap();
    assert_eq!(node2_state.key_values.len(), 1);
    assert_eq!(node2_state.get_versioned("key_d").unwrap(), &vv("4", 4, false));
}

// Tries every mtu and checks that the resulting delta grows by the expected
// updates, in order.
fn test_with_varying_max_transmitted_kv_helper(
    cluster_state: &ClusterState,
    digest: &Digest,
    exclude_node_ids: &Vec<NodeId>,
    expected_delta_atoms: &[(&NodeId, &str, &str, u64, bool)],
) {
    let max_delta = cluster_state.compute_delta_seeded(digest, usize::MAX, exclude_node_ids, 10_000, 9);
    let mut buf = Vec::new();
    max_delta.serialize(&mut buf);
    let mut mtu_per_num_entries = Vec::new();
    for mtu in 2..buf.len() {
        let delta = cluster_state.compute_delta_seeded(digest, mtu, exclude_node_ids, 10_000, 9);
        let num_tuples = delta.num_tuples();
        if mtu_per_num_entries.len() == num_tuples + 1 {
            continue;
        }
        buf.clear();
        delta.serialize(&mut buf);
        mtu_per_num_entries.push(buf.len());
    }
    for (num_entries, &mtu) in mtu_per_num_entries.iter().enumerate() {
        let mut expected_delta = Delta::default();
        for &(node, key, val, version, marked_for_deletion) in &expected_delta_atoms[..num_entries] {
            expected_delta.add_node_delta(node.clone(), key, val, version, marked_for_deletion);
        }
        {
            let delta = cluster_state.compute_delta_seeded(digest, mtu, exclude_node_ids, 10_000, 9);
            assert_eq!(&delta, &expected_delta);
        }
        {
            let delta = cluster_state.compute_delta_seeded(digest, mtu + 1, exclude_node_ids, 10_000, 9);
            assert_eq!(&delta, &expected_delta);
        }
    }
}

fn test_cluster_state() -> ClusterState {
    let mut cluster_state = ClusterState::default();

    let node1 = node_id(10_001);
    let node1_state = cluster_state.node_state_mut(&node1);
    node1_state.set_with_version("key_a".to_string(), "1".to_string(), 1); // 1
    node1_state.set_with_version("key_b".to_string(), "2".to_string(), 2); // 3

    let node2 = node_id(10_002);
    let node2_state = cluster_state.node_state_mut(&node2);
    node2_state.set_with_version("key_a".to_string(), "1".to_string(), 1); // 1
    node2_state.set_with_version("key_b".to_string(), "2".to_string(), 2); // 2
    node2_state.set_with_version("key_c".to_string(), "3".to_string(), 3); // 3
    node2_state.set_with_version("key_d".to_string(), "4".to_string(), 4); // 4
    node2_state.mark_for_deletion("key_d"); // 5

    cluster_state
}

#[test]
fn test_cluster_state_compute_delta_depth_first_single_node() {
    let cluster_state = test_cluster_state();
    let mut digest = Digest::default();
    let node1 = node_id(10_001);
    let node2 = node_id(10_002);
    digest.add_node(node1.clone(), 1);
    digest.add_node(node2.clone(), 2);
    test_with_varying_max_transmitted_kv_helper(
        &cluster_state,
        &digest,
        &Vec::new(),
        &[
            (&node2, "key_c", "3", 3, false),
            (&node2, "key_d", "4", 5, true),
            (&node1, "key_b", "2", 2, false),
        ],
    );
}

#[test]
fn test_cluster_state_compute_delta_depth_first_chitchat() {
    let cluster_state = test_cluster_state();
    let mut digest = Digest::default();
    let node1 = node_id(10_001);
    let node2 = node_id(10_002);
    digest.add_node(node1.clone(), 1);
    digest.add_node(node2.clone(), 2);
    test_with_varying_max_transmitted_kv_helper(
        &cluster_state,
        &digest,
        &Vec::new(),
        &[
            (&node2, "key_c", "3", 3, false),
            (&node2, "key_d", "4", 5, true),
            (&node1, "key_b", "2", 2, false),
        ],
    );
}

#[test]
fn test_cluster_state_compute_delta_missing_node() {
    let cluster_state = test_cluster_state();
    let mut digest = Digest::default();
    let node1 = node_id(10_001);
    let node2 = node_id(10_002);
    digest.add_node(node2.clone(), 3);
    test_with_varying_max_transmitted_kv_helper(
        &cluster_state,
        &digest,
        &Vec::new(),
        &[
            (&node1, "key_a", "1", 1, false),
            (&node1, "key_b", "2", 2, false),
            (&node2, "key_d", "4", 4, false),
        ],
    );
}

#[test]
fn test_cluster_state_compute_delta_should_ignore_dead_nodes() {
    let cluster_state = test_cluster_state();
    let digest = Digest::default();
    let node1 = node_id(10_001);
    let node2 = node_id(10_002);
    let dead_nodes = vec![node2];
    test_with_varying_max_transmitted_kv_helper(
        &cluster_state,
        &digest,
        &dead_nodes,
        &[
            (&node1, "key_a", "1", 1, false),
            (&node1, "key_b", "2", 2, false),
        ],
    );
}

#[test]
fn test_cluster_state_compute_delta_with_old_node_state_that_needs_reset() {
    let mut cluster_state = ClusterState::default();

    let node1 = node_id(10_001);
    let node1_state = cluster_state.node_state_mut(&node1);
    node1_state.set_with_version("key_a".to_string(), "1".to_string(), 1); // 1
    node1_state.set_with_version("key_b".to_string(), "2".to_string(), 10_003); // 10_003

    let node2 = node_id(10_002);
    let node2_state = cluster_state.node_state_mut(&node2);
    node2_state.set_with_version("key_c".to_string(), "3".to_string(), 2); // 2

    let mut digest = Digest::default();
    let node1 = node_id(10_001);
    digest.add_node(node1.clone(), 1);
    {
        let delta = cluster_state.compute_delta_seeded(&digest, MAX_UDP_DATAGRAM_PAYLOAD_SIZE, &Vec::new(), 10_002, 9);
        assert!(delta.nodes_to_reset.is_empty());
        let mut expected_delta = Delta::default();
        expected_delta.add_node_delta(node1.clone(), "key_b", "2", 10_003, false);
        expected_delta.add_node_delta(node2.clone(), "key_c", "3", 2, false);
        assert_eq!(delta, expected_delta);
    }
    {
        // Node 1 max_version in digest + grace period (10_000) is inferior to the
        // node1's max_version in the cluster state. Thus we expect the cluster to compute a
        // delta that will reset node 1.
        let delta = cluster_state.compute_delta_seeded(&digest, MAX_UDP_DATAGRAM_PAYLOAD_SIZE, &Vec::new(), 10_000, 9);
        let mut expected_delta = Delta::default();
        expected_delta.add_node_to_reset(node1.clone());
        expected_delta.add_node_delta(node1.clone(), "key_a", "1", 1, false);
        expected_delta.add_node_delta(node1, "key_b", "2", 10_003, false);
        expected_delta.add_node_delta(node2.clone(), "key_c", "3", 2, false);
        assert_eq!(delta, expected_delta);
    }
}
