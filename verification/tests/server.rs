use cachex::hashing::ConsistentHasher;
use cachex::internal::InternalMessage;
use cachex::metrics::Metrics;
use cachex::protocol::{Command, Response};
use cachex::internal::InternalResponse;
use cachex::server::{
    aof_line, apply_internal, handle_delete, handle_get, handle_set, is_primary, line_fits, plan_replication,
    read_request, replay_into, replay_line, replica_count, replication_message, serve_write, snapshot_lines, InternalAction,
    ReplayReport, ReplayStep,
};
use cachex::storage::CacheStore;

#[test]
fn requests_are_served_and_counted() {
    let mut store = CacheStore::new(1_000_000);
    let mut metrics = Metrics::new();
    assert_eq!(handle_set(&mut store, &mut metrics, "k", b"v".to_vec(), None, 0), Response::Okay);
    assert_eq!(handle_get(&mut store, &mut metrics, "k", 1), Response::Value(b"v".to_vec()));
    assert_eq!(handle_get(&mut store, &mut metrics, "x", 1), Response::NotFound);
    assert_eq!(handle_delete(&mut store, &mut metrics, "k"), Response::Okay);
    assert_eq!(handle_delete(&mut store, &mut metrics, "k"), Response::NotFound);
    assert_eq!((metrics.set_requests(), metrics.get_requests(), metrics.delete_requests()), (1, 2, 2));
    assert_eq!((metrics.hits(), metrics.misses()), (1, 1));
}

#[test]
fn request_lines_are_checked() {
    assert_eq!(read_request(b"PING\n"), Ok(Command::Ping));
    assert_eq!(read_request(b"FOO\n"), Err(Response::Error("unknown command: FOO".to_string())));
    assert_eq!(read_request(&vec![b'a'; 70_000]), Err(Response::Error("request too large".to_string())));
}

#[test]
fn replication_helpers() {
    let ring = ConsistentHasher::new(vec!["a".into()], 4);
    assert!(is_primary(&ring, "a", "anything"));
    assert!(!is_primary(&ring, "b", "anything"));
    assert_eq!(replica_count(0), 0);
    assert_eq!(replica_count(3), 2);
    assert_eq!(
        replication_message(&Command::SetKey { key: "k".into(), value: b"v".to_vec(), ttl: Some(3) }),
        Some(InternalMessage::Upsert { key: "k".into(), value: b"v".to_vec(), ttl: Some(3) })
    );
    assert_eq!(replication_message(&Command::Ping), None);
}

#[test]
fn aof_lines_and_replay() {
    let set = Command::SetKey { key: "k".into(), value: b"v 1".to_vec(), ttl: None };
    assert_eq!(aof_line(&set), Some("SET k v 1\n".to_string()));
    assert_eq!(aof_line(&Command::Info), None);
    let mut store = CacheStore::new(1_000_000);
    assert_eq!(replay_line(&mut store, "SET a x", 0), ReplayStep::Applied);
    assert_eq!(replay_line(&mut store, "garbage", 0), ReplayStep::Skipped);
    assert_eq!(replay_line(&mut store, "GET a", 0), ReplayStep::Skipped);
    assert_eq!(store.get_at("a", 1).0, Some(b"x".to_vec()));
    assert_eq!(replay_line(&mut store, "DELETE a", 2), ReplayStep::Applied);
    assert_eq!(store.key_count(), 0);
    let lines = snapshot_lines(&vec![("a".to_string(), b"1".to_vec(), Some(5))]);
    assert_eq!(lines, vec!["SET a 1 5\n".to_string()]);
}

fn empty_report() -> ReplayReport {
    ReplayReport { commands: 0, applied: 0, skipped: 0, elapsed: std::time::Duration::ZERO }
}

/// Replays the lines of a log, each without its line feed.
fn replay_text(store: &mut CacheStore, text: &str, now: u64) -> ReplayReport {
    let mut report = empty_report();
    for line in text.lines() {
        assert!(replay_into(store, &mut report, line, now));
    }
    report
}

#[test]
fn append_then_replay_restores_state() {
    let mut log = String::new();
    log.push_str(&aof_line(&Command::SetKey { key: "a".into(), value: b"1".to_vec(), ttl: None }).unwrap());
    log.push_str(&aof_line(&Command::SetKey { key: "b".into(), value: b"2".to_vec(), ttl: Some(100) }).unwrap());
    log.push_str(&aof_line(&Command::Delete { key: "a".into() }).unwrap());
    let mut store = CacheStore::new(1_000_000);
    let report = replay_text(&mut store, &log, 0);
    assert_eq!(report.commands, 3);
    assert_eq!(report.applied, 3);
    assert_eq!(store.get_at("a", 1).0, None);
    assert_eq!(store.get_at("b", 1).0, Some(b"2".to_vec()));
}

#[test]
fn replay_preserves_ttl() {
    let log = aof_line(&Command::SetKey { key: "otp".into(), value: b"1234".to_vec(), ttl: Some(0) }).unwrap();
    let mut store = CacheStore::new(1_000_000);
    replay_text(&mut store, &log, 5);
    assert_eq!(store.get_at("otp", 5).0, None, "replayed zero-TTL key must be expired");
}

#[test]
fn replay_skips_unparseable_lines() {
    let mut store = CacheStore::new(1_000_000);
    let report = replay_text(&mut store, "SET a 1\nBOGUS junk\nSET b 2\nSET d", 0);
    assert_eq!(report.commands, 4);
    assert_eq!(report.applied, 2);
    assert_eq!(report.skipped, 2, "BOGUS + truncated trailing SET d (missing value)");
    assert_eq!(store.get_at("a", 0).0, Some(b"1".to_vec()));
    assert_eq!(store.get_at("b", 0).0, Some(b"2".to_vec()));
}

#[test]
fn rewrite_produces_replayable_snapshot() {
    let mut store = CacheStore::new(1_000_000);
    store.set_at("a", b"1".to_vec(), None, 0);
    store.set_at("b", b"2".to_vec(), Some(500), 0);
    let log: String = snapshot_lines(&store.snapshot_at(0)).concat();
    let mut fresh = CacheStore::new(1_000_000);
    let report = replay_text(&mut fresh, &log, 0);
    assert_eq!(report.applied, 2);
    assert_eq!(fresh.get_at("a", 0).0, Some(b"1".to_vec()));
    assert_eq!(fresh.get_at("b", 0).0, Some(b"2".to_vec()));
}

#[test]
fn replay_checks_that_writes_fit() {
    let store = CacheStore::new(u64::MAX);
    assert!(line_fits(&store, "SET a 1"));
    assert!(line_fits(&store, "GET a"));
    assert!(line_fits(&store, "garbage"));
    let mut store = CacheStore::new(1_000);
    let mut report = empty_report();
    assert!(replay_into(&mut store, &mut report, "GET a", 0));
    assert_eq!((report.commands, report.applied, report.skipped), (1, 0, 1));
}

#[test]
fn replication_plan_targets_replicas() {
    let nodes: Vec<String> = vec!["n1".into(), "n2".into(), "n3".into()];
    let ring = ConsistentHasher::new(nodes.clone(), 50);
    let internal: Vec<(String, String)> = vec![("n1".into(), "i1".into()), ("n2".into(), "i2".into())];
    let set = Command::SetKey { key: "k".into(), value: b"v".to_vec(), ttl: None };
    let plan = plan_replication(&ring, &internal, 3, "k", &set);
    assert_eq!(plan.message, Some(InternalMessage::Upsert { key: "k".into(), value: b"v".to_vec(), ttl: None }));
    assert_eq!(plan.targets.len() as u64 + plan.unreachable, 2);
    let primary = cachex::hashing::Router::primary(&ring, "k").to_string();
    assert_eq!(plan.unreachable, if primary == "n3" { 0 } else { 1 });
    let plan = plan_replication(&ring, &internal, 1, "k", &set);
    assert!(plan.targets.is_empty());
    assert_eq!(plan.unreachable, 0);
    let plan = plan_replication(&ring, &internal, 3, "k", &Command::Ping);
    assert_eq!(plan.message, None);
    assert!(plan.targets.is_empty());
}

#[test]
fn internal_messages_apply_to_the_store() {
    let mut store = CacheStore::new(1_000_000);
    assert_eq!(apply_internal(&mut store, InternalMessage::Ping, 0), InternalAction::Reply(InternalResponse::Pong));
    let upsert = InternalMessage::Upsert { key: "k".into(), value: b"v".to_vec(), ttl: Some(9) };
    assert_eq!(
        apply_internal(&mut store, upsert, 0),
        InternalAction::Record(Command::SetKey { key: "k".into(), value: b"v".to_vec(), ttl: Some(9) })
    );
    assert_eq!(store.get_at("k", 1).0, Some(b"v".to_vec()));
    assert_eq!(
        apply_internal(&mut store, InternalMessage::Delete { key: "k".into() }, 2),
        InternalAction::Record(Command::Delete { key: "k".into() })
    );
    assert_eq!(store.get_at("k", 3).0, None);
}

#[test]
fn rewrites_are_due_past_a_positive_threshold() {
    assert!(cachex::server::rewrite_due(100, 101));
    assert!(!cachex::server::rewrite_due(100, 100));
    assert!(!cachex::server::rewrite_due(0, 1_000));
}

#[test]
fn failed_append_refuses_the_write() {
    let ring = ConsistentHasher::new(vec!["a".into()], 4);
    let mut store = CacheStore::new(1_000_000);
    let mut metrics = Metrics::new();
    let set = Command::SetKey { key: "k".into(), value: b"v".to_vec(), ttl: None };
    let (reply, replicate) =
        serve_write(&mut store, &mut metrics, set, Some("disk full".into()), true, &ring, "a", 0);
    assert_eq!(reply, Response::Error("aof append failed: disk full".to_string()));
    assert_eq!(replicate, None);
    assert_eq!(store.key_count(), 0);
    assert_eq!(metrics.set_requests(), 1);
    let delete = Command::Delete { key: "k".into() };
    let (reply, replicate) =
        serve_write(&mut store, &mut metrics, delete, Some("disk full".into()), true, &ring, "a", 0);
    assert_eq!(reply, Response::Error("aof append failed: disk full".to_string()));
    assert_eq!(replicate, None);
    assert_eq!(metrics.delete_requests(), 1);
}

#[test]
fn writes_replicate_only_from_the_primary_and_when_they_take_effect() {
    let ring = ConsistentHasher::new(vec!["a".into()], 4);
    let mut store = CacheStore::new(1_000_000);
    let mut metrics = Metrics::new();
    let set = Command::SetKey { key: "k".into(), value: b"v".to_vec(), ttl: Some(5) };
    let (reply, replicate) = serve_write(&mut store, &mut metrics, set.clone(), None, true, &ring, "a", 0);
    assert_eq!(reply, Response::Okay);
    assert_eq!(replicate, Some(set.clone()));
    assert_eq!(handle_get(&mut store, &mut metrics, "k", 1), Response::Value(b"v".to_vec()));
    let (_, replicate) = serve_write(&mut store, &mut metrics, set.clone(), None, true, &ring, "b", 0);
    assert_eq!(replicate, None);
    let (_, replicate) = serve_write(&mut store, &mut metrics, set, None, false, &ring, "a", 0);
    assert_eq!(replicate, None);
    let delete = Command::Delete { key: "k".into() };
    let (reply, replicate) = serve_write(&mut store, &mut metrics, delete.clone(), None, true, &ring, "a", 0);
    assert_eq!(reply, Response::Okay);
    assert_eq!(replicate, Some(delete.clone()));
    let (reply, replicate) = serve_write(&mut store, &mut metrics, delete, None, true, &ring, "a", 0);
    assert_eq!(reply, Response::NotFound);
    assert_eq!(replicate, None);
}
