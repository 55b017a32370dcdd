use cachex::latency::Histogram;
use cachex::metrics::{CommandKind, Metrics};
use cachex::protocol::{Command, Response};
use cachex::storage::CacheStore;

fn store() -> CacheStore {
    CacheStore::new(1_000_000)
}

fn percentile(h: &Histogram, p: f64) -> u64 {
    let n = h.count();
    if n == 0 {
        return 0;
    }
    let target = ((n as f64) * (p / 100.0)).ceil().max(1.0) as u64;
    h.value_at_rank(target)
}

#[test]
fn snapshot_reflects_counters() {
    let mut metrics = Metrics::new();
    let _store = store();
    metrics.record_request();
    metrics.record_set();
    metrics.record_get();
    metrics.record_hit();
    metrics.record_replication(1, 0);

    assert_eq!(metrics.total_requests(), 1);
    assert_eq!(metrics.set_requests(), 1);
    assert_eq!(metrics.get_requests(), 1);
    let hits = metrics.hits();
    let misses = metrics.misses();
    assert_eq!(hits as f64 / (hits + misses) as f64, 1.0);
    assert_eq!(metrics.replication().sent, 1);
}

#[test]
fn sample_rates_computes_deltas() {
    let mut metrics = Metrics::new();
    for _ in 0..10 {
        metrics.record_request();
    }
    metrics.sample_rates();
    assert_eq!(metrics.rates().total, 10);
    metrics.sample_rates();
    assert_eq!(metrics.rates().total, 0);
}

#[test]
fn record_latency_feeds_histogram() {
    let mut metrics = Metrics::new();
    metrics.record_latency(CommandKind::Get, 123);
    let get = metrics.latency(CommandKind::Get);
    assert_eq!(get.count(), 1);
    assert_eq!(get.avg_us(), 123);
    assert_eq!(get.max_us(), 123);
    assert_eq!(metrics.latency(CommandKind::SetKey).count(), 0);
}

#[test]
fn command_kind_classification() {
    assert_eq!(CommandKind::of(&Command::Ping), CommandKind::Ping);
    assert_eq!(
        CommandKind::of(&Command::SetKey { key: "k".into(), value: vec![], ttl: None }),
        CommandKind::SetKey
    );
    assert_eq!(CommandKind::of(&Command::Get { key: "k".into() }), CommandKind::Get);
    assert_eq!(CommandKind::of(&Command::Info), CommandKind::Info);
}

#[test]
fn info_line_includes_rates_and_latency() {
    let mut metrics = Metrics::new();
    let store = store();
    metrics.record_request();
    metrics.record_set();
    metrics.record_latency(CommandKind::SetKey, 50);
    metrics.sample_rates();

    let set_p99 = percentile(metrics.latency(CommandKind::SetKey), 99.0);
    let get_p99 = percentile(metrics.latency(CommandKind::Get), 99.0);
    let Response::Info(text) = metrics.info(&store, None, None, metrics.uptime_secs(), set_p99, get_p99) else {
        panic!("expected INFO response");
    };
    assert!(text.contains("req_per_s="), "missing rate: {text}");
    assert!(text.contains("set_p99_us="), "missing latency: {text}");
}

#[test]
fn info_line_exact_text() {
    let mut metrics = Metrics::new();
    let store = store();
    metrics.record_request();
    metrics.record_set();
    metrics.sample_rates();
    let Response::Info(text) = metrics.info(&store, None, None, 7, 50, 0) else {
        panic!("expected INFO response");
    };
    assert_eq!(
        text,
        "keys=0 used_bytes=0 max_bytes=1000000 requests=1 gets=0 sets=1 deletes=0 hits=0 misses=0 \
         evictions=0 ttl_expirations=0 recovery_ms=0 uptime_secs=7 req_per_s=1 get_per_s=0 set_per_s=1 \
         del_per_s=0 set_p99_us=50 get_p99_us=0 replication_sent=0 replication_failed=0 \
         replication_received=0 aof=off peers=off"
    );
}

#[test]
fn command_kind_names() {
    assert_eq!(CommandKind::SetKey.as_str(), "set");
    assert_eq!(CommandKind::Delete.as_str(), "delete");
}
