use cachex::config::HeartbeatConfig;
use cachex::heartbeat::{Heartbeat, PeerStatus};

fn cluster() -> Vec<String> {
    vec!["a:1".into(), "b:2".into(), "c:3".into()]
}

#[test]
fn peers_exclude_self_and_start_alive() {
    let hb = Heartbeat::new("a:1", &cluster(), Vec::new(), HeartbeatConfig::default(), 0);
    assert_eq!(hb.peers_to_ping(), &["b:2".to_string(), "c:3".to_string()][..]);
    assert_eq!(hb.status_of("b:2"), Some(PeerStatus::Alive));
    assert_eq!(hb.status_of("a:1"), None);
    assert_eq!(hb.summary(), (2, 0, 0));
}

#[test]
fn misses_suspect_then_fail_and_an_answer_recovers() {
    let mut hb = Heartbeat::new("a:1", &cluster(), Vec::new(), HeartbeatConfig::default(), 0);
    hb.mark_missed("b:2", 10);
    assert_eq!(hb.status_of("b:2"), Some(PeerStatus::Suspected));
    assert_eq!(hb.summary(), (1, 1, 0));
    hb.mark_missed("b:2", 20);
    assert_eq!(hb.status_of("b:2"), Some(PeerStatus::Failed));
    hb.mark_missed("b:2", 30);
    assert_eq!(hb.status_of("b:2"), Some(PeerStatus::Failed));
    assert_eq!(hb.summary(), (1, 0, 1));
    hb.mark_alive("b:2", 100);
    assert_eq!(hb.status_of("b:2"), Some(PeerStatus::Alive));
    assert_eq!(hb.last_detection_ns(), 80);
    assert_eq!(hb.summary(), (2, 0, 0));
}

#[test]
fn thresholds_and_timeouts_have_floors() {
    let config = HeartbeatConfig { interval_secs: 0, timeout_ms: 10, miss_threshold: 0 };
    let mut hb = Heartbeat::new("x", &cluster(), Vec::new(), config, 0);
    assert_eq!(hb.interval(), 1);
    assert_eq!(hb.timeout(), 50);
    hb.mark_missed("c:3", 1);
    assert_eq!(hb.status_of("c:3"), Some(PeerStatus::Failed));
    assert_eq!(PeerStatus::Failed.as_str(), "failed");
}

#[test]
fn internal_addresses_are_looked_up() {
    let map = cachex::internal::internal_map_for_cluster(&cluster());
    let hb = Heartbeat::new("a:1", &cluster(), map, HeartbeatConfig::default(), 0);
    assert_eq!(hb.internal_address_of("b:2"), Some("b:1002"));
    assert_eq!(hb.internal_address_of("z:9"), None);
}

#[test]
fn consecutive_misses_after_an_answer_count_from_zero() {
    let config = HeartbeatConfig { interval_secs: 1, timeout_ms: 100, miss_threshold: 3 };
    let mut hb = Heartbeat::new("a:1", &cluster(), Vec::new(), config, 0);
    hb.mark_missed("b:2", 1);
    hb.mark_missed("b:2", 2);
    hb.mark_alive("b:2", 3);
    hb.mark_missed("b:2", 4);
    assert_eq!(hb.status_of("b:2"), Some(PeerStatus::Suspected));
    hb.mark_missed("b:2", 5);
    assert_eq!(hb.status_of("b:2"), Some(PeerStatus::Suspected));
    hb.mark_missed("zz:9", 5);
    hb.mark_missed("b:2", 6);
    assert_eq!(hb.status_of("b:2"), Some(PeerStatus::Failed));
    assert_eq!(hb.status_of("c:3"), Some(PeerStatus::Alive));
    assert_eq!(hb.status_of("zz:9"), None);
    assert_eq!(hb.summary(), (1, 0, 1));
}

#[test]
fn summary_counts_every_distinct_peer_once() {
    let nodes: Vec<String> = vec!["a:1".into(), "b:2".into(), "b:2".into()];
    let config = HeartbeatConfig { interval_secs: 1, timeout_ms: 100, miss_threshold: 1 };
    let mut hb = Heartbeat::new("a:1", &nodes, Vec::new(), config, 0);
    assert_eq!(hb.summary(), (1, 0, 0));
    hb.mark_missed("b:2", 1);
    assert_eq!(hb.summary(), (0, 0, 1));
}
