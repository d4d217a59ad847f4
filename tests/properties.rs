use chitchat::cluster_state::ClusterState;
use chitchat::delta::{Delta, DeltaWriter, EMPTY_DELTA_SIZE};
use chitchat::digest::Digest;
use chitchat::node_state::NodeState;
use chitchat::scuttle::NodeSortedByStaleLength;
use chitchat::types::{NodeId, VersionedValue};

fn node_id(port: u16) -> NodeId {
    NodeId::new(format!("node-{port}"), format!("127.0.0.1:{port}"))
}

fn vv(value: &str, version: u64, marked_for_deletion: bool) -> VersionedValue {
    VersionedValue { value: value.to_string(), version, marked_for_deletion }
}

fn serialized_len(delta: &Delta) -> usize {
    let mut buf = Vec::new();
    delta.serialize(&mut buf);
    buf.len()
}

// N1: (a,1,v1), (b,2,v2); N2: (a,1,v1) .. (d,4,v4) with d deleted at v5.
fn two_node_cluster() -> ClusterState {
    let mut cluster_state = ClusterState::default();
    let n1 = cluster_state.node_state_mut(&node_id(10_001));
    n1.set_with_version("key_a".to_string(), "1".to_string(), 1);
    n1.set_with_version("key_b".to_string(), "2".to_string(), 2);
    let n2 = cluster_state.node_state_mut(&node_id(10_002));
    n2.set_with_version("key_a".to_string(), "1".to_string(), 1);
    n2.set_with_version("key_b".to_string(), "2".to_string(), 2);
    n2.set_with_version("key_c".to_string(), "3".to_string(), 3);
    n2.set_with_version("key_d".to_string(), "4".to_string(), 4);
    n2.mark_for_deletion("key_d");
    cluster_state
}

#[test]
fn set_then_get_returns_value_and_delete_hides_it() {
    let mut state = NodeState::new();
    state.set("k", "v");
    assert_eq!(state.get("k"), Some("v"));
    state.mark_for_deletion("k");
    assert_eq!(state.get("k"), None);
    assert_eq!(state.get_versioned("k").unwrap(), &vv("v", 2, true));
    assert_eq!(state.get("missing"), None);
}

#[test]
fn mark_for_deletion_of_absent_key_still_consumes_a_version() {
    let mut state = NodeState::new();
    state.mark_for_deletion("absent");
    assert_eq!(state.max_version, 1);
    assert!(state.get_versioned("absent").is_none());
    state.set("k", "v");
    assert_eq!(state.get_versioned("k").unwrap(), &vv("v", 2, false));
}

#[test]
fn max_version_bounds_every_stored_version() {
    let cluster_state = two_node_cluster();
    for (_, state) in cluster_state.node_states.iter() {
        for (_, value) in state.key_values.iter() {
            assert!(value.version <= state.max_version);
        }
    }
}

#[test]
fn live_and_stale_iteration() {
    let cluster_state = two_node_cluster();
    let n2 = cluster_state.node_state(&node_id(10_002)).unwrap();
    let live: Vec<String> = n2.iter_key_values().into_iter().map(|(k, _)| k).collect();
    assert_eq!(live, vec!["key_a", "key_b", "key_c"]);
    let stale: Vec<(String, u64)> =
        n2.iter_stale_key_values(2).into_iter().map(|(k, v)| (k, v.version)).collect();
    assert_eq!(stale, vec![("key_c".to_string(), 3), ("key_d".to_string(), 5)]);
    assert_eq!(n2.stale_indices_by_version(0), vec![0, 1, 2, 3]);
}

#[test]
fn digest_lists_live_nodes_only() {
    let cluster_state = two_node_cluster();
    let digest = cluster_state.compute_digest(&vec![node_id(10_002)]);
    assert_eq!(digest.node_max_version.len(), 1);
    assert_eq!(digest.get(&node_id(10_001)), Some(2));
    assert_eq!(digest.get(&node_id(10_002)), None);
    let all = cluster_state.compute_digest(&Vec::new());
    assert_eq!(all.node_max_version.len(), 2);
    assert_eq!(all.get(&node_id(10_002)), Some(5));
}

#[test]
fn digest_add_node_overwrites() {
    let mut digest = Digest::default();
    digest.add_node(node_id(1), 3);
    digest.add_node(node_id(1), 7);
    assert_eq!(digest.node_max_version.len(), 1);
    assert_eq!(digest.get(&node_id(1)), Some(7));
}

#[test]
fn delta_never_exceeds_mtu() {
    let cluster_state = two_node_cluster();
    let digest = Digest::default();
    for mtu in EMPTY_DELTA_SIZE..400 {
        let delta = cluster_state.compute_delta_seeded(&digest, mtu, &Vec::new(), 10_000, 3);
        assert!(serialized_len(&delta) <= mtu);
    }
}

#[test]
fn versions_ascend_within_each_section() {
    let cluster_state = two_node_cluster();
    let delta = cluster_state.compute_delta(&Digest::default(), usize::MAX, &Vec::new(), 10_000);
    assert_eq!(delta.num_tuples(), 6);
    for (_, section) in delta.node_deltas.iter() {
        for pair in section.key_values.windows(2) {
            assert!(pair[0].1.version < pair[1].1.version);
        }
    }
    // N2 has more stale entries, so it comes first.
    assert_eq!(delta.node_deltas[0].0, node_id(10_002));
}

#[test]
fn tight_mtu_gives_empty_delta() {
    let cluster_state = two_node_cluster();
    for mtu in [0usize, 2, 15, 16, 31] {
        let delta = cluster_state.compute_delta_seeded(&Digest::default(), mtu, &Vec::new(), 10_000, 9);
        assert_eq!(delta, Delta::default());
    }
}

#[test]
fn unlisted_node_is_sent_in_full() {
    let cluster_state = two_node_cluster();
    let mut digest = Digest::default();
    digest.add_node(node_id(10_002), 5);
    let delta = cluster_state.compute_delta_seeded(&digest, usize::MAX, &Vec::new(), 10_000, 9);
    assert_eq!(delta.node_deltas.len(), 1);
    assert_eq!(delta.node_deltas[0].0, node_id(10_001));
    assert_eq!(delta.node_deltas[0].1.key_values.len(), 2);
}

#[test]
fn up_to_date_node_contributes_nothing() {
    let cluster_state = two_node_cluster();
    let mut digest = Digest::default();
    digest.add_node(node_id(10_001), 2);
    digest.add_node(node_id(10_002), 9);
    let delta = cluster_state.compute_delta_seeded(&digest, usize::MAX, &Vec::new(), 10_000, 9);
    assert_eq!(delta, Delta::default());
}

#[test]
fn dead_node_is_left_out_of_digest_and_delta() {
    let cluster_state = two_node_cluster();
    let dead = vec![node_id(10_001)];
    let digest = cluster_state.compute_digest(&dead);
    assert!(digest.get(&node_id(10_001)).is_none());
    let delta = cluster_state.compute_delta_seeded(&Digest::default(), usize::MAX, &dead, 10_000, 9);
    assert!(delta.node_deltas.iter().all(|(id, _)| *id != node_id(10_001)));
    assert!(delta.nodes_to_reset.iter().all(|id| *id != node_id(10_001)));
}

#[test]
fn reset_is_signalled_for_far_behind_peer() {
    let cluster_state = two_node_cluster();
    let mut digest = Digest::default();
    digest.add_node(node_id(10_002), 1);
    let delta = cluster_state.compute_delta_seeded(&digest, usize::MAX, &Vec::new(), 3, 9);
    assert_eq!(delta.nodes_to_reset, vec![node_id(10_002)]);
    let n2 = delta.node_deltas.iter().find(|(id, _)| *id == node_id(10_002)).unwrap();
    assert_eq!(n2.1.key_values.len(), 4);
}

#[test]
fn applying_a_delta_twice_equals_applying_it_once() {
    let source = two_node_cluster();
    let delta = source.compute_delta_seeded(&Digest::default(), usize::MAX, &Vec::new(), 10_000, 9);
    let again = source.compute_delta_seeded(&Digest::default(), usize::MAX, &Vec::new(), 10_000, 9);
    let mut once = ClusterState::default();
    once.apply_delta(delta);
    let snapshot: Vec<(NodeId, Vec<(String, VersionedValue)>, u64)> = once
        .node_states
        .iter()
        .map(|(id, s)| (id.clone(), s.key_values.clone(), s.max_version))
        .collect();
    once.apply_delta(again);
    let twice: Vec<(NodeId, Vec<(String, VersionedValue)>, u64)> = once
        .node_states
        .iter()
        .map(|(id, s)| (id.clone(), s.key_values.clone(), s.max_version))
        .collect();
    assert_eq!(snapshot, twice);
    assert_eq!(once.node_state(&node_id(10_002)).unwrap().max_version, 5);
}

#[test]
fn absorbed_delta_changes_nothing_and_max_version_never_drops() {
    let mut cluster_state = two_node_cluster();
    let mut delta = Delta::default();
    delta.add_node_delta(node_id(10_002), "key_a", "old", 1, false);
    delta.add_node_delta(node_id(10_002), "key_c", "older", 2, false);
    cluster_state.apply_delta(delta);
    let n2 = cluster_state.node_state(&node_id(10_002)).unwrap();
    assert_eq!(n2.max_version, 5);
    assert_eq!(n2.get_versioned("key_a").unwrap(), &vv("1", 1, false));
    assert_eq!(n2.get_versioned("key_c").unwrap(), &vv("3", 3, false));
    assert_eq!(n2.key_values.len(), 4);
}

#[test]
fn apply_delta_refreshes_heartbeat() {
    let mut cluster_state = two_node_cluster();
    let before = cluster_state.node_state(&node_id(10_001)).unwrap().last_heartbeat;
    let mut delta = Delta::default();
    delta.add_node_delta(node_id(10_001), "key_z", "z", 9, false);
    cluster_state.apply_delta(delta);
    let n1 = cluster_state.node_state(&node_id(10_001)).unwrap();
    assert!(n1.last_heartbeat >= before);
    assert_eq!(n1.max_version, 9);
}

#[test]
fn remove_node_and_nodes() {
    let mut cluster_state = two_node_cluster();
    assert_eq!(cluster_state.nodes(), vec![node_id(10_001), node_id(10_002)]);
    cluster_state.remove_node(&node_id(10_001));
    assert_eq!(cluster_state.nodes(), vec![node_id(10_002)]);
    assert!(cluster_state.node_state(&node_id(10_001)).is_none());
}

#[test]
fn serialize_exact_bytes() {
    let mut delta = Delta::default();
    delta.add_node_to_reset(NodeId::new("a".to_string(), "b".to_string()));
    delta.add_node_delta(NodeId::new("n".to_string(), "".to_string()), "k", "é", 258, true);
    let mut buf = Vec::new();
    delta.serialize(&mut buf);
    let mut expected: Vec<u8> = vec![1, 0, 0, 0, 0, 0, 0, 0];
    expected.extend([1, 0, 0, 0, 0, 0, 0, 0, b'a', 1, 0, 0, 0, 0, 0, 0, 0, b'b']);
    expected.extend([1, 0, 0, 0, 0, 0, 0, 0]);
    expected.extend([1, 0, 0, 0, 0, 0, 0, 0, b'n', 0, 0, 0, 0, 0, 0, 0, 0]);
    expected.extend([1, 0, 0, 0, 0, 0, 0, 0]);
    expected.extend([1, 0, 0, 0, 0, 0, 0, 0, b'k', 2, 0, 0, 0, 0, 0, 0, 0, 0xc3, 0xa9]);
    expected.extend([2, 1, 0, 0, 0, 0, 0, 0, 1]);
    assert_eq!(buf, expected);
    assert_eq!(delta.num_tuples(), 1);
}

#[test]
fn writer_refuses_everything_after_first_refusal() {
    let mut writer = DeltaWriter::with_mtu(EMPTY_DELTA_SIZE + 50);
    assert!(writer.add_node(node_id(1)));
    assert!(!writer.add_kv("a_long_key".to_string(), vv("a long value that does not fit", 1, false)));
    assert!(!writer.add_kv("k".to_string(), vv("", 1, false)));
    assert!(!writer.add_node(NodeId::new(String::new(), String::new())));
    let delta = writer.into_delta();
    assert_eq!(delta.node_deltas.len(), 1);
    assert_eq!(serialized_len(&delta), writer_size_of_single_empty_section());
}

fn writer_size_of_single_empty_section() -> usize {
    // header + node id ("node-1", "127.0.0.1:1") + entry count
    EMPTY_DELTA_SIZE + 8 + 6 + 8 + 11 + 8
}

#[test]
fn stale_order_is_a_permutation_by_decreasing_length() {
    let mut sorted = NodeSortedByStaleLength::new();
    for (port, len) in [(1u16, 3usize), (2, 5), (3, 3), (4, 1), (5, 5)] {
        sorted.insert(&node_id(port), len);
    }
    let order = sorted.into_iter(12345);
    assert_eq!(order.len(), 5);
    let lens: Vec<usize> = order
        .iter()
        .map(|id| match id.id.as_str() {
            "node-1" | "node-3" => 3,
            "node-2" | "node-5" => 5,
            _ => 1,
        })
        .collect();
    assert_eq!(lens, vec![5, 5, 3, 3, 1]);
    for port in 1..=5u16 {
        assert!(order.contains(&node_id(port)));
    }
}

#[test]
fn gc_keeps_live_entries_and_recent_tombstones() {
    let mut cluster_state = ClusterState::default();
    let n = cluster_state.node_state_mut(&node_id(1));
    n.set("a", "1"); // 1
    n.mark_for_deletion("a"); // 2
    n.set("b", "2"); // 3
    n.set("c", "3"); // 4
    cluster_state.gc_keys_marked_for_deletion(2, &vec![node_id(1)]);
    assert!(cluster_state.node_state(&node_id(1)).unwrap().get_versioned("a").is_some());
    cluster_state.gc_keys_marked_for_deletion(2, &Vec::new());
    assert!(cluster_state.node_state(&node_id(1)).unwrap().get_versioned("a").is_some());
    cluster_state.gc_keys_marked_for_deletion(1, &Vec::new());
    let n = cluster_state.node_state(&node_id(1)).unwrap();
    assert!(n.get_versioned("a").is_none());
    assert_eq!(n.get("b"), Some("2"));
    assert_eq!(n.max_version, 4);
}

#[test]
fn apply_delta_at_sets_heartbeat_of_updated_nodes_only() {
    let mut cluster_state = two_node_cluster();
    let untouched_before = cluster_state.node_state(&node_id(10_002)).unwrap().last_heartbeat;
    let now = std::time::Instant::now() + std::time::Duration::from_secs(60);
    let mut delta = Delta::default();
    delta.add_node_delta(node_id(10_001), "key_z", "z", 9, false);
    delta.add_node_delta(node_id(10_003), "key_y", "y", 1, false);
    cluster_state.apply_delta_at(delta, now);
    assert_eq!(cluster_state.node_state(&node_id(10_001)).unwrap().last_heartbeat, now);
    assert_eq!(cluster_state.node_state(&node_id(10_003)).unwrap().last_heartbeat, now);
    let untouched = cluster_state.node_state(&node_id(10_002)).unwrap();
    assert_eq!(untouched.last_heartbeat, untouched_before);
    assert_eq!(untouched.max_version, 5);
}

#[test]
fn add_node_delta_appends_to_existing_section_or_opens_last() {
    let mut delta = Delta::default();
    delta.add_node_delta(node_id(1), "a", "1", 1, false);
    delta.add_node_delta(node_id(2), "b", "2", 2, false);
    delta.add_node_delta(node_id(1), "c", "3", 3, true);
    assert_eq!(delta.node_deltas.len(), 2);
    assert_eq!(delta.node_deltas[0].0, node_id(1));
    assert_eq!(delta.node_deltas[0].1.key_values, vec![("a".to_string(), vv("1", 1, false)), ("c".to_string(), vv("3", 3, true))]);
    assert_eq!(delta.node_deltas[1].1.key_values, vec![("b".to_string(), vv("2", 2, false))]);
}

#[test]
fn delta_sections_are_distinct_and_deepest_first_under_pressure() {
    let cluster_state = two_node_cluster();
    let mut digest = Digest::default();
    digest.add_node(node_id(10_001), 1);
    digest.add_node(node_id(10_002), 2);
    // Room for one section with one update only: N2 (two stale) must win over N1 (one stale).
    let mtu = EMPTY_DELTA_SIZE + 16 + 10 + 15 + 8 + 25 + 5 + 1;
    let delta = cluster_state.compute_delta_seeded(&digest, mtu, &Vec::new(), 10_000, 9);
    assert_eq!(delta.node_deltas.len(), 1);
    assert_eq!(delta.node_deltas[0].0, node_id(10_002));
    assert_eq!(delta.node_deltas[0].1.key_values, vec![("key_c".to_string(), vv("3", 3, false))]);
    let full = cluster_state.compute_delta_seeded(&Digest::default(), usize::MAX, &Vec::new(), 10_000, 9);
    assert_eq!(full.node_deltas.len(), 2);
    assert_ne!(full.node_deltas[0].0, full.node_deltas[1].0);
}

#[test]
fn entries_are_kept_in_ascending_key_order() {
    let mut state = NodeState::new();
    state.set("b", "2");
    state.set("a", "1");
    state.set("é", "3");
    state.set("c", "4");
    state.mark_for_deletion("c");
    let live: Vec<String> = state.iter_key_values().into_iter().map(|(k, _)| k).collect();
    assert_eq!(live, vec!["a", "b", "é"]);
    let stale: Vec<String> = state.iter_stale_key_values(0).into_iter().map(|(k, _)| k).collect();
    assert_eq!(stale, vec!["a", "b", "c", "é"]);
}

#[test]
fn node_entered_twice_comes_out_twice() {
    let mut sorted = NodeSortedByStaleLength::new();
    sorted.insert(&node_id(1), 2);
    sorted.insert(&node_id(2), 5);
    sorted.insert(&node_id(1), 7);
    let order = sorted.into_iter(4);
    assert_eq!(order, vec![node_id(1), node_id(2), node_id(1)]);
}

#[test]
fn nodes_and_digest_follow_node_id_order() {
    let mut cluster_state = ClusterState::default();
    cluster_state.node_state_mut(&node_id(30)).set("k", "v");
    cluster_state.node_state_mut(&node_id(10)).set("k", "v");
    cluster_state.node_state_mut(&NodeId::new("node-10".to_string(), "127.0.0.1:9".to_string())).set("k", "v");
    cluster_state.node_state_mut(&node_id(20)).set("k", "v");
    let expected = vec![
        NodeId::new("node-10".to_string(), "127.0.0.1:10".to_string()),
        NodeId::new("node-10".to_string(), "127.0.0.1:9".to_string()),
        node_id(20),
        node_id(30),
    ];
    assert_eq!(cluster_state.nodes(), expected);
    let digest = cluster_state.compute_digest(&Vec::new());
    let ids: Vec<NodeId> = digest.node_max_version.iter().map(|(id, _)| id.clone()).collect();
    assert_eq!(ids, expected);
}
