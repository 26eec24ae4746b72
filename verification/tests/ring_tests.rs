//! Tests of the consistent hash ring.
use veridex::ring::ConsistentHashRing;

fn name(s: &str) -> Vec<u8> {
    s.as_bytes().to_vec()
}

#[test]
fn test_create_empty_ring() {
    let ring = ConsistentHashRing::new();
    assert!(ring.is_empty());
    assert_eq!(ring.node_count(), 0);
    assert_eq!(ring.virtual_node_count(), 0);
}

#[test]
fn test_add_node() {
    let mut ring = ConsistentHashRing::new();
    assert!(ring.add_node(&name("node1"), 100));
    assert_eq!(ring.node_count(), 1);
    assert_eq!(ring.virtual_node_count(), 100);

    // Adding the same name again fails
    assert!(!ring.add_node(&name("node1"), 100));
}

#[test]
fn test_remove_node() {
    let mut ring = ConsistentHashRing::new();
    ring.add_node(&name("node1"), 100);
    assert!(ring.remove_node(&name("node1")));
    assert!(ring.is_empty());
    assert_eq!(ring.virtual_node_count(), 0);

    // Removing an absent node fails
    assert!(!ring.remove_node(&name("node2")));
}

#[test]
fn test_get_node() {
    let mut ring = ConsistentHashRing::new();
    ring.add_node(&name("node1"), 150);
    ring.add_node(&name("node2"), 150);
    ring.add_node(&name("node3"), 150);

    let node = ring.get_node(&name("test_key"));
    assert!(node.is_some());
    let node = node.unwrap();
    assert!(node == name("node1") || node == name("node2") || node == name("node3"));
}

#[test]
fn test_get_node_empty_ring() {
    let ring = ConsistentHashRing::new();
    assert!(ring.get_node(&name("test_key")).is_none());
}

#[test]
fn test_consistent_mapping() {
    let mut ring = ConsistentHashRing::new();
    ring.add_node(&name("node1"), 150);
    ring.add_node(&name("node2"), 150);

    // The same key always maps to the same node
    let node1 = ring.get_node(&name("test_key")).unwrap();
    let node2 = ring.get_node(&name("test_key")).unwrap();
    assert_eq!(node1, node2);
}

#[test]
fn test_get_nodes_replicas() {
    let mut ring = ConsistentHashRing::new();
    ring.add_node(&name("node1"), 150);
    ring.add_node(&name("node2"), 150);
    ring.add_node(&name("node3"), 150);

    let replicas = ring.get_nodes(&name("test_key"), 2);
    assert_eq!(replicas.len(), 2);
    assert_ne!(replicas[0], replicas[1]);
}

#[test]
fn test_with_nodes() {
    let nodes = vec![name("node1"), name("node2"), name("node3")];
    let ring = ConsistentHashRing::with_nodes(&nodes, 100);

    assert_eq!(ring.node_count(), 3);
    assert_eq!(ring.virtual_node_count(), 300);
}

#[test]
fn test_distribution() {
    let mut ring = ConsistentHashRing::new();
    ring.add_node(&name("node1"), 150);
    ring.add_node(&name("node2"), 150);
    ring.add_node(&name("node3"), 150);

    let keys: Vec<Vec<u8>> = (0..1000).map(|i| format!("key{}", i).into_bytes()).collect();
    let distribution = ring.get_distribution(&keys);

    // Every node gets a share
    assert_eq!(distribution.len(), 3);

    // The shares are reasonably balanced
    let avg = 1000 / 3;
    for (_, count) in distribution.iter() {
        let diff = (*count as i32 - avg as i32).abs();
        let deviation = diff as f64 / avg as f64;
        assert!(deviation < 0.3, "Distribution too unbalanced: {}", deviation);
    }
}

#[test]
fn test_node_addition_minimal_disruption() {
    let mut ring = ConsistentHashRing::new();
    ring.add_node(&name("node1"), 150);
    ring.add_node(&name("node2"), 150);

    let keys: Vec<Vec<u8>> = (0..1000).map(|i| format!("key{}", i).into_bytes()).collect();
    let before: Vec<_> = keys.iter().map(|k| ring.get_node(k)).collect();

    ring.add_node(&name("node3"), 150);

    let after: Vec<_> = keys.iter().map(|k| ring.get_node(k)).collect();

    let changed = before
        .iter()
        .zip(after.iter())
        .filter(|(b, a)| b != a)
        .count();

    let change_ratio = changed as f64 / keys.len() as f64;
    // Roughly a third of the keys should move to the new node
    assert!(
        change_ratio < 0.5,
        "Too many keys changed: {:.1}%",
        change_ratio * 100.0
    );
}

#[test]
fn test_virtual_node_count() {
    let mut ring = ConsistentHashRing::new();
    ring.add_node(&name("node1"), 100);
    ring.add_node(&name("node2"), 200);

    assert_eq!(ring.get_virtual_node_count(&name("node1")), Some(100));
    assert_eq!(ring.get_virtual_node_count(&name("node2")), Some(200));
    assert_eq!(ring.get_virtual_node_count(&name("node3")), None);
}

#[test]
fn test_ring_stability_scenario() {
    // Three nodes with 150 virtual nodes each; for ten thousand keys the
    // per-node counts stay close to even, and adding a fourth node moves at
    // most three tenths of the keys.
    let mut ring = ConsistentHashRing::new();
    ring.add_node(&name("node1"), 150);
    ring.add_node(&name("node2"), 150);
    ring.add_node(&name("node3"), 150);

    let keys: Vec<Vec<u8>> = (0..10000).map(|i| format!("synthetic-{}", i).into_bytes()).collect();
    let distribution = ring.get_distribution(&keys);
    assert_eq!(distribution.len(), 3);

    let counts: Vec<f64> = distribution.iter().map(|(_, c)| *c as f64).collect();
    let mean: f64 = counts.iter().sum::<f64>() / counts.len() as f64;
    let variance: f64 =
        counts.iter().map(|c| (c - mean) * (c - mean)).sum::<f64>() / counts.len() as f64;
    let cv = variance.sqrt() / mean;
    assert!(cv < 0.1, "coefficient of variation too high: {}", cv);

    let before: Vec<_> = keys.iter().map(|k| ring.get_node(k)).collect();
    ring.add_node(&name("node4"), 150);
    let after: Vec<_> = keys.iter().map(|k| ring.get_node(k)).collect();
    let migrated = before.iter().zip(after.iter()).filter(|(b, a)| b != a).count();
    assert!(
        (migrated as f64) / (keys.len() as f64) <= 0.30,
        "too many keys migrated: {}",
        migrated
    );
}

#[test]
fn test_remove_restores_mapping() {
    // Adding a node and removing it again restores every key's mapping:
    // removal takes out exactly the node's replicas.
    let mut ring = ConsistentHashRing::new();
    ring.add_node(&name("node1"), 80);
    ring.add_node(&name("node2"), 80);

    let keys: Vec<Vec<u8>> = (0..500).map(|i| format!("key{}", i).into_bytes()).collect();
    let before: Vec<_> = keys.iter().map(|k| ring.get_node(k)).collect();

    ring.add_node(&name("node3"), 80);
    assert!(ring.remove_node(&name("node3")));

    let after: Vec<_> = keys.iter().map(|k| ring.get_node(k)).collect();
    assert_eq!(before, after);

    assert_eq!(ring.node_count(), 2);
    assert_eq!(ring.virtual_node_count(), 160);
}

#[test]
fn test_get_all_nodes() {
    let mut ring = ConsistentHashRing::new();
    ring.add_node(&name("alpha"), 10);
    ring.add_node(&name("beta"), 10);
    let mut all = ring.get_all_nodes();
    all.sort();
    assert_eq!(all, vec![name("alpha"), name("beta")]);
}

#[test]
fn test_distribution_counts_match_routing() {
    // Each listed node's count is the number of keys it owns, and the
    // counts sum to the number of keys.
    let mut ring = ConsistentHashRing::new();
    ring.add_node(&name("node1"), 50);
    ring.add_node(&name("node2"), 50);
    let keys: Vec<Vec<u8>> = (0..40).map(|i| name(&format!("key-{i}"))).collect();
    let dist = ring.get_distribution(&keys);
    let total: usize = dist.iter().map(|e| e.1).sum();
    assert_eq!(total, keys.len());
    for (node, count) in &dist {
        let routed = keys
            .iter()
            .filter(|k| ring.get_node(k).as_ref() == Some(node))
            .count();
        assert_eq!(*count, routed);
        assert!(*count >= 1);
    }
}

#[test]
fn test_distribution_empty_ring_lists_nothing() {
    let ring = ConsistentHashRing::new();
    let keys = vec![name("a"), name("b")];
    assert!(ring.get_distribution(&keys).is_empty());
}

#[test]
fn test_get_nodes_starts_at_owner() {
    let mut ring = ConsistentHashRing::new();
    ring.add_node(&name("node1"), 80);
    ring.add_node(&name("node2"), 80);
    ring.add_node(&name("node3"), 80);
    let key = name("some-key");
    let owner = ring.get_node(&key).unwrap();
    let nodes = ring.get_nodes(&key, 2);
    assert_eq!(nodes[0], owner);
    assert!(nodes.len() <= 2);
}

#[test]
fn test_with_nodes_records_every_name() {
    let names = vec![name("a"), name("b"), name("c")];
    let ring = ConsistentHashRing::with_nodes(&names, 10);
    for n in &names {
        assert_eq!(ring.get_virtual_node_count(n), Some(10));
    }
    assert_eq!(ring.node_count(), 3);
}
