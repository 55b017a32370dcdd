use cachex::bench::RouterKind;
use cachex::control::{EvictionParams, FailureParams, PeerCounts, TtlParams};
use cachex::experiment::{
    clamp_samples, client_counts, eviction_probe_attempts, fill, fill_fits, hashing_keys, key_order_named, keyset, local_nodes,
    outage_counts, plan_eviction, plan_failure, plan_ttl, probe, reader_start, replication_factors, router_named,
    sample_working_set, ttl_next_reading, ttl_probe_attempts, ttl_sample, Detection, NextReading, PROBE_STRIDE,
};
use cachex::storage::CacheStore;
use cachex::workload::KeyOrder;

/// How many reads of a probe over `len` keys land at or after `first_resident`.
fn expected_hits(len: u64, attempts: u64, first_resident: u64) -> u64 {
    let mut idx = 0u64;
    let mut hits = 0;
    for _ in 0..attempts {
        idx = idx.wrapping_add(PROBE_STRIDE) % len;
        if idx >= first_resident {
            hits += 1;
        }
    }
    hits
}

#[test]
fn probe_attempts_are_clamped() {
    assert_eq!(eviction_probe_attempts(10), 2_000);
    assert_eq!(eviction_probe_attempts(5_000), 15_000);
    assert_eq!(eviction_probe_attempts(100_000), 60_000);
    assert_eq!(eviction_probe_attempts(u64::MAX), 60_000);
    assert_eq!(ttl_probe_attempts(5_000), 10_000);
    assert_eq!(ttl_probe_attempts(50_000), 20_000);
}

#[test]
fn probe_counts_keys_found() {
    let mut store = CacheStore::new(1_000_000);
    let keys = keyset(5);
    assert_eq!(probe(&mut store, &keys, 10, 0), 0);
    fill(&mut store, 5, b"v", None, 0);
    assert_eq!(probe(&mut store, &keys, 10, 0), 10);
}

#[test]
fn working_set_within_capacity_stays_resident() {
    let s = sample_working_set(1_000_000, 100, b"0123456789", 0);
    assert_eq!((s.keys, s.resident, s.evictions), (100, 100, 0));
    assert_eq!((s.hits, s.attempts), (2_000, 2_000));
}

#[test]
fn working_set_beyond_capacity_keeps_the_newest_keys() {
    // Each entry takes 12 key bytes, 10 value bytes and 64 bytes of overhead.
    let s = sample_working_set(860, 100, b"0123456789", 0);
    assert_eq!((s.resident, s.evictions, s.attempts), (10, 90, 2_000));
    assert_eq!(s.hits, expected_hits(100, 2_000, 90));
}

#[test]
fn eviction_settings_are_at_least_one() {
    let plan = plan_eviction(&EvictionParams { capacity_bytes: 0, working_set: 0, value_size: 0, samples: vec![] });
    assert_eq!((plan.capacity, plan.working_set, plan.value_size), (1, 1, 1));
    let plan = plan_eviction(&EvictionParams::default());
    assert_eq!((plan.capacity, plan.working_set, plan.value_size), (1_048_576, 20_000, 128));
    assert_eq!(clamp_samples(&vec![0, 50, 500], 100), vec![1, 50, 100]);
}

#[test]
fn ttl_settings_keep_keys_resident() {
    let plan = plan_ttl(&TtlParams::default());
    assert_eq!((plan.keys, plan.ttl_secs, plan.interval_secs, plan.value_size), (5_000, 10, 1, 64));
    assert_eq!(plan.capacity, 8_388_608);
    let plan = plan_ttl(&TtlParams { keys: 100_000, ttl_secs: 0, value_size: 64, interval_secs: 0 });
    assert_eq!((plan.ttl_secs, plan.interval_secs, plan.capacity), (1, 1, 25_600_000));
    let plan = plan_ttl(&TtlParams { keys: u64::MAX, ttl_secs: 5, value_size: 2, interval_secs: 1 });
    assert_eq!(plan.capacity, u64::MAX);
}

#[test]
fn ttl_readings_purge_after_the_first() {
    let mut store = CacheStore::new(8_388_608);
    let keys = keyset(5);
    fill(&mut store, 5, b"x", Some(1), 0);
    let first = ttl_sample(&mut store, &keys, 0, 0);
    assert_eq!((first.elapsed_secs, first.remaining, first.hits, first.attempts), (0, 5, 2_000, 2_000));
    let later = ttl_sample(&mut store, &keys, 2, 2_000_000_000);
    assert_eq!((later.elapsed_secs, later.remaining, later.hits), (2, 0, 0));
}

#[test]
fn ttl_readings_stop_when_done() {
    assert_eq!(ttl_next_reading(0, 0, 10, 1), NextReading::Finished);
    assert_eq!(ttl_next_reading(5, 12, 10, 1), NextReading::Finished);
    assert_eq!(ttl_next_reading(5, 3, 10, 1), NextReading::At(4));
    assert_eq!(ttl_next_reading(5, 0, u64::MAX, 1), NextReading::Overflow);
    assert_eq!(ttl_next_reading(5, 5, 10, u64::MAX), NextReading::Overflow);
}

#[test]
fn failure_plan_checks_the_target() {
    let plan = plan_failure(3, &FailureParams::default()).unwrap();
    assert_eq!((plan.target, plan.probe_node), (2, 1));
    assert_eq!((plan.warmup_sets, plan.verify_samples, plan.workers, plan.value_size), (20_000, 1_000, 8, 128));
    let first = plan_failure(3, &FailureParams { node_id: 1, ..FailureParams::default() }).unwrap();
    assert_eq!(first.probe_node, 2);
    let zeros = FailureParams { node_id: 3, warmup_sets: 0, verify_samples: 0, workers: 0, value_size: 0, vnodes: 0 };
    let plan = plan_failure(3, &zeros).unwrap();
    assert_eq!((plan.warmup_sets, plan.verify_samples, plan.workers, plan.value_size), (1, 1, 1, 1));
    assert_eq!(
        plan_failure(3, &FailureParams { node_id: 5, ..FailureParams::default() }),
        Err("node 5 is out of range (1..=3)".to_string())
    );
    assert_eq!(
        plan_failure(3, &FailureParams { node_id: 0, ..FailureParams::default() }),
        Err("node 0 is out of range (1..=3)".to_string())
    );
    assert_eq!(
        plan_failure(1, &FailureParams { node_id: 1, ..FailureParams::default() }),
        Err("the failure experiment needs at least 2 nodes".to_string())
    );
}

#[test]
fn readers_start_spread_out() {
    assert_eq!(reader_start(0, 8, 20_000), 0);
    assert_eq!(reader_start(3, 8, 20_000), 7_500);
    assert_eq!(reader_start(5, 8, 4), 1);
}

#[test]
fn detection_keeps_first_reports() {
    let mut d = Detection::new();
    assert!(!d.is_complete());
    assert_eq!(d.times(5), (5, 5));
    d.observe(Some(PeerCounts { alive: 1, suspected: 1, failed: 0 }), 10);
    d.observe(None, 20);
    d.observe(Some(PeerCounts { alive: 1, suspected: 1, failed: 1 }), 30);
    d.observe(Some(PeerCounts { alive: 0, suspected: 1, failed: 2 }), 40);
    assert!(d.is_complete());
    assert_eq!(d.times(5), (10, 30));
}

#[test]
fn outage_counts_reads_between_samples() {
    assert_eq!(outage_counts((10, 5, 1), (20, 5, 4)), (13, 3));
    assert_eq!(outage_counts((10, 0, 0), (10, 0, 0)), (1, 0));
}

#[test]
fn experiment_series_have_defaults() {
    assert_eq!(client_counts(&vec![]), vec![10, 50, 100, 250, 500, 1000]);
    assert_eq!(client_counts(&vec![0, 5]), vec![1, 5]);
    assert_eq!(replication_factors(&vec![]), vec![1, 2]);
    assert_eq!(replication_factors(&vec![0, 3, 9]), vec![1, 3, 4]);
}

#[test]
fn hashing_experiment_keys_and_nodes() {
    assert_eq!(hashing_keys(2, 5), vec!["key:00000005", "key:00000006"]);
    assert_eq!(hashing_keys(1, u64::MAX), vec!["key:18446744073709551615"]);
    assert_eq!(hashing_keys(2, u64::MAX)[1], "key:00000000");
    assert_eq!(local_nodes(3), vec!["127.0.0.1:7001", "127.0.0.1:7002", "127.0.0.1:7003"]);
}

#[test]
fn load_names_pick_order_and_router() {
    assert_eq!(key_order_named("sequential"), KeyOrder::Sequential);
    assert_eq!(key_order_named("uniform"), KeyOrder::Uniform);
    assert_eq!(key_order_named("other"), KeyOrder::Uniform);
    assert_eq!(router_named("modulo"), RouterKind::Modulo);
    assert_eq!(router_named("consistent"), RouterKind::Consistent);
    assert_eq!(router_named(""), RouterKind::Consistent);
}

#[test]
fn local_nodes_cover_every_count() {
    let nodes = local_nodes(1200);
    assert_eq!(nodes.len(), 1200);
    assert_eq!(nodes[1199], "127.0.0.1:8200");
    assert!(local_nodes(0).is_empty());
}

#[test]
fn huge_caps_are_accepted_when_the_writes_fit() {
    assert!(fill_fits(u64::MAX, 0, 10, b"x"));
    assert!(!fill_fits(u64::MAX, u64::MAX - 100, 10, b"x"));
    assert!(fill_fits(1_000, u64::MAX - 100, 10, b"x"));
    let s = sample_working_set(u64::MAX, 10, b"x", 0);
    assert_eq!(s.resident, 10);
    assert_eq!(s.evictions, 0);
}
