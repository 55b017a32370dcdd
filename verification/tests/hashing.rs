use cachex::hashing::{fnv1a64, moved_count, ConsistentHasher, ModuloHasher, Router};

fn keys(count: usize) -> Vec<String> {
    (0..count).map(|i| format!("key:{i}")).collect()
}

fn moved_fraction<A: Router, B: Router>(before: &A, after: &B, keys: &[String]) -> f64 {
    moved_count(before, after, keys) as f64 / keys.len().max(1) as f64
}

#[test]
fn fnv1a_is_deterministic() {
    let a = fnv1a64(b"user:101");
    let b = fnv1a64(b"user:101");
    assert_eq!(a, b);
    assert_ne!(a, fnv1a64(b"user:102"));
}

#[test]
fn fnv_uniformity_smoke() {
    let mut buckets = [0u64; 16];
    for i in 0..20000u32 {
        let h = fnv1a64(format!("key:{i}").as_bytes());
        buckets[(h >> 60) as usize] += 1;
    }
    let min = *buckets.iter().min().unwrap();
    let max = *buckets.iter().max().unwrap();
    assert!(max < 2 * min, "fnv not uniform: min {min} max {max}");
}

#[test]
fn consistent_primary_is_stable() {
    let ring = ConsistentHasher::new(vec!["a".into(), "b".into(), "c".into()], 100);
    let first = ring.primary("user:101").to_string();
    for _ in 0..5 {
        assert_eq!(ring.primary("user:101"), first);
    }
}

#[test]
fn consistent_primary_lives_in_node_set() {
    let nodes: Vec<String> = vec!["127.0.0.1:7001".into(), "127.0.0.1:7002".into(), "127.0.0.1:7003".into()];
    let ring = ConsistentHasher::new(nodes.clone(), 100);
    for key in keys(10_000) {
        assert!(nodes.contains(&ring.primary(&key).to_string()));
    }
}

#[test]
fn consistent_load_is_reasonably_balanced() {
    let ring = ConsistentHasher::new(vec!["a".into(), "b".into(), "c".into()], 100);
    let mut counts = std::collections::HashMap::<String, usize>::new();
    for key in keys(20_000) {
        *counts.entry(ring.primary(&key).to_string()).or_default() += 1;
    }
    assert_eq!(counts.len(), 3);
    let max = *counts.values().max().unwrap();
    let min = *counts.values().min().unwrap();
    assert!(max < 2 * min, "load imbalance too high: {counts:?}");
}

#[test]
fn consistent_moves_far_fewer_keys_than_modulo_on_node_add() {
    let three: Vec<String> = vec!["a".into(), "b".into(), "c".into()];
    let four: Vec<String> = vec!["a".into(), "b".into(), "c".into(), "d".into()];
    let keys = keys(100_000);

    let ring_3 = ConsistentHasher::new(three.clone(), 100);
    let ring_4 = ConsistentHasher::new(four.clone(), 100);
    let consistent_moved = moved_fraction(&ring_3, &ring_4, &keys);

    let modulo_3 = ModuloHasher::new(three.clone());
    let modulo_4 = ModuloHasher::new(four.clone());
    let modulo_moved = moved_fraction(&modulo_3, &modulo_4, &keys);

    assert!(consistent_moved < 0.40, "consistent hashing should move ~25% of keys, got {consistent_moved}");
    assert!(modulo_moved > 0.60, "modulo hashing should move ~75% of keys, got {modulo_moved}");
    assert!(consistent_moved < modulo_moved / 2.0);
}

#[test]
fn consistent_replicas_are_distinct_and_exclude_primary() {
    let nodes: Vec<String> = vec!["a".into(), "b".into(), "c".into(), "d".into()];
    let ring = ConsistentHasher::new(nodes.clone(), 50);
    for key in keys(5_000) {
        let primary = ring.primary(&key).to_string();
        let replicas = ring.replicas(&key, 2);
        assert_eq!(replicas.len(), 2);
        assert!(replicas.iter().all(|r| *r != primary), "replica equals primary");
        assert!(replicas[0] != replicas[1], "replicas not distinct");
        assert!(replicas.iter().all(|r| nodes.contains(&r.to_string())));
    }
}

#[test]
fn consistent_replicas_are_stable() {
    let ring = ConsistentHasher::new(vec!["a".into(), "b".into(), "c".into()], 100);
    let first = ring.replicas("user:101", 1);
    for _ in 0..5 {
        assert_eq!(ring.replicas("user:101", 1), first);
    }
}

#[test]
fn consistent_replica_set_shrinks_for_tiny_cluster() {
    let ring = ConsistentHasher::new(vec!["a".into()], 10);
    assert!(ring.replicas("k", 2).is_empty(), "no other node exists");
    assert_eq!(ring.primary("k"), "a");
}

#[test]
fn modulo_replicas_cycle_and_exclude_primary() {
    let nodes: Vec<String> = vec!["a".into(), "b".into(), "c".into(), "d".into()];
    let modulo = ModuloHasher::new(nodes.clone());
    for key in keys(2_000) {
        let primary = modulo.primary(&key).to_string();
        let replicas = modulo.replicas(&key, 2);
        assert_eq!(replicas.len(), 2);
        assert!(replicas.iter().all(|r| *r != primary));
        assert!(replicas[0] != replicas[1]);
    }
}

#[test]
fn temp_failure_key_distribution() {
    let nodes: Vec<String> = vec!["127.0.0.1:7001".into(), "127.0.0.1:7002".into(), "127.0.0.1:7003".into()];
    let ring = ConsistentHasher::new(nodes.clone(), 100);
    let mut counts = std::collections::HashMap::<String, usize>::new();
    for i in 0..20000u64 {
        let key = format!("key:{:08}", i);
        *counts.entry(ring.primary(&key).to_string()).or_default() += 1;
    }
    for n in &nodes {
        println!("node {n}: {} keys", counts.get(n).copied().unwrap_or(0));
    }
}

#[test]
fn vnodes_affect_balance_when_few_nodes() {
    let ring_few = ConsistentHasher::new(vec!["a".into(), "b".into()], 1);
    let ring_many = ConsistentHasher::new(vec!["a".into(), "b".into()], 200);
    let ratio = |r: &ConsistentHasher| {
        let mut counts = std::collections::HashMap::<String, usize>::new();
        for key in keys(50_000) {
            *counts.entry(r.primary(&key).to_string()).or_default() += 1;
        }
        *counts.values().max().unwrap() as f64 / *counts.values().min().unwrap() as f64
    };
    assert!(ratio(&ring_many) <= ratio(&ring_few), "more vnodes should not hurt balance");
}

#[test]
fn nodes_are_sorted_and_deduplicated() {
    let ring = ConsistentHasher::new(vec!["c".into(), "a".into(), "b".into(), "a".into()], 3);
    assert_eq!(ring.nodes(), &["a".to_string(), "b".to_string(), "c".to_string()][..]);
    let modulo = ModuloHasher::new(vec!["b".into(), "b".into(), "a".into()]);
    assert_eq!(modulo.nodes(), &["a".to_string(), "b".to_string()][..]);
    assert_eq!(ring.virtual_nodes(), 3);
    assert_eq!(ring.with_nodes(vec!["z".into()]).nodes(), &["z".to_string()][..]);
}

#[test]
fn modulo_primary_is_hash_modulo_node_count() {
    let nodes: Vec<String> = vec!["a".into(), "b".into(), "c".into()];
    let modulo = ModuloHasher::new(nodes.clone());
    for key in keys(100) {
        let index = (fnv1a64(key.as_bytes()) as usize) % 3;
        assert_eq!(modulo.primary(&key), nodes[index]);
        let r = modulo.replicas(&key, 4);
        assert_eq!(r, vec![nodes[(index + 1) % 3].as_str(), nodes[(index + 2) % 3].as_str(), nodes[index].as_str(), nodes[(index + 1) % 3].as_str()]);
    }
}

#[test]
fn replicas_fill_up_to_the_other_nodes() {
    let ring = ConsistentHasher::new(vec!["a".into(), "b".into(), "c".into()], 20);
    for key in keys(200) {
        let r = ring.replicas(&key, 5);
        assert_eq!(r.len(), 2);
        assert!(ring.replicas(&key, 0).is_empty());
    }
}

#[test]
fn fnv_known_value() {
    let mut h: u64 = 0xcbf29ce484222325;
    for b in b"abc" {
        h ^= *b as u64;
        h = h.wrapping_mul(0x1_0000_0001_b3);
    }
    h = (h ^ (h >> 30)).wrapping_mul(0xbf58_476d_1ce4_e5b9);
    h = (h ^ (h >> 27)).wrapping_mul(0x94d0_49bb_1331_11eb);
    h ^= h >> 31;
    assert_eq!(fnv1a64(b"abc"), h);
}

#[test]
fn join_moves_keys_only_to_the_new_node() {
    let three: Vec<String> = vec!["127.0.0.1:7001".into(), "127.0.0.1:7002".into(), "127.0.0.1:7003".into()];
    let mut four = three.clone();
    four.push("127.0.0.1:7004".into());
    let before = ConsistentHasher::new(three, 100);
    let after = ConsistentHasher::new(four, 100);
    let mut moved = 0;
    for i in 0..2_000 {
        let key = format!("key:{i:08}");
        let old = before.primary(&key);
        let new = after.primary(&key);
        assert!(new == old || new == "127.0.0.1:7004", "{key} moved from {old} to {new}");
        if new != old {
            moved += 1;
        }
    }
    assert!(moved > 0);
}

#[test]
fn leave_keeps_keys_of_the_other_nodes() {
    let four: Vec<String> = vec!["a".into(), "b".into(), "c".into(), "d".into()];
    let three: Vec<String> = vec!["a".into(), "b".into(), "d".into()];
    let before = ConsistentHasher::new(four, 50);
    let after = ConsistentHasher::new(three, 50);
    for i in 0..2_000 {
        let key = format!("user:{i}");
        let old = before.primary(&key);
        if old != "c" {
            assert_eq!(after.primary(&key), old);
        }
    }
}

#[test]
fn with_nodes_routes_like_a_fresh_ring() {
    let h = ConsistentHasher::new(vec!["a".into(), "b".into()], 16);
    let nodes: Vec<String> = vec!["c".into(), "a".into(), "d".into(), "a".into()];
    let g = h.with_nodes(nodes.clone());
    let r = ConsistentHasher::new(nodes, h.virtual_nodes());
    assert_eq!(g.virtual_nodes(), h.virtual_nodes());
    assert_eq!(g.nodes(), r.nodes());
    for key in keys(500) {
        assert_eq!(g.primary(&key), r.primary(&key));
        assert_eq!(g.replicas(&key, 3), r.replicas(&key, 3));
    }
    assert_eq!(h.nodes(), ["a".to_string(), "b".to_string()]);
}
