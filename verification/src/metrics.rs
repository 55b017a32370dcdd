use vstd::prelude::*;
use crate::entry::Clock;
use crate::heartbeat::{Heartbeat, PeerStatus, status_count};
use crate::latency::{Histogram, HistogramModel, recorded};
use crate::protocol::{Command, Response, ResponseModel};
use crate::storage::CacheStore;
use crate::text::{decimal, decimal_text, owned};

verus! {

/// The kind of a request, for per-kind latency.
#[derive(Debug, Clone, Copy, PartialEq, Eq, Structural)]
pub enum CommandKind {
    Ping,
    Get,
    SetKey,
    Delete,
    Info,
}

impl CommandKind {
    /// The kind of `command`.
    pub fn of(command: &Command) -> (kind: CommandKind)
        ensures
            kind == match command {
                Command::Ping => CommandKind::Ping,
                Command::Get { .. } => CommandKind::Get,
                Command::SetKey { .. } => CommandKind::SetKey,
                Command::Delete { .. } => CommandKind::Delete,
                Command::Info => CommandKind::Info,
            },
    {
        match command {
            Command::Ping => CommandKind::Ping,
            Command::Get { .. } => CommandKind::Get,
            Command::SetKey { .. } => CommandKind::SetKey,
            Command::Delete { .. } => CommandKind::Delete,
            Command::Info => CommandKind::Info,
        }
    }

    /// The kind as a lower-case word.
    pub fn as_str(&self) -> (text: &'static str)
        ensures
            text@ == match self {
                CommandKind::Ping => "ping"@,
                CommandKind::Get => "get"@,
                CommandKind::SetKey => "set"@,
                CommandKind::Delete => "delete"@,
                CommandKind::Info => "info"@,
            },
    {
        match self {
            CommandKind::Ping => "ping",
            CommandKind::Get => "get",
            CommandKind::SetKey => "set",
            CommandKind::Delete => "delete",
            CommandKind::Info => "info",
        }
    }
}

/// Requests per second of each kind, as last sampled.
#[derive(Debug, Clone, Copy, PartialEq, Eq)]
pub struct RatesSnapshot {
    pub total: u64,
    pub get: u64,
    pub set: u64,
    pub delete: u64,
}

/// What the latency of one kind of request looks like.
#[derive(Debug, Clone, Copy, PartialEq, Eq)]
pub struct LatencySummary {
    pub count: u64,
    pub avg_us: u64,
    pub p50_us: u64,
    pub p95_us: u64,
    pub p99_us: u64,
    pub max_us: u64,
}

/// The latency of every kind of request.
#[derive(Debug, Clone, Copy, PartialEq, Eq)]
pub struct LatencySnapshot {
    pub ping: LatencySummary,
    pub get: LatencySummary,
    pub set: LatencySummary,
    pub delete: LatencySummary,
    pub info: LatencySummary,
}

/// The store's size and what it dropped.
#[derive(Debug, Clone, Copy, PartialEq, Eq)]
pub struct StorageSnapshot {
    pub keys: u64,
    pub used_bytes: u64,
    pub max_bytes: u64,
    pub evictions: u64,
    pub ttl_expirations: u64,
}

/// What the append-only file has done.
#[derive(Debug, Clone, Copy, PartialEq, Eq)]
pub struct AofSnapshot {
    pub bytes_written: u64,
    pub write_count: u64,
    pub fsync_count: u64,
    pub rewrite_count: u64,
}

/// Writes sent to and received from other nodes.
#[derive(Debug, Clone, Copy, PartialEq, Eq)]
pub struct ReplicationSnapshot {
    pub sent: u64,
    pub failed: u64,
    pub received: u64,
}

/// How many peers are alive, suspected and failed.
#[derive(Debug, Clone, Copy, PartialEq, Eq)]
pub struct PeersSnapshot {
    pub alive: usize,
    pub suspected: usize,
    pub failed: usize,
}

/// The counters of a node. Every counter wraps on overflow.
#[verifier::ext_equal]
pub struct MetricsModel {
    pub total_requests: u64,
    pub get_requests: u64,
    pub set_requests: u64,
    pub delete_requests: u64,
    pub hits: u64,
    pub misses: u64,
    pub recovery_ms: u64,
    pub replication_sent: u64,
    pub replication_failed: u64,
    pub replication_received: u64,
    pub rates: RatesSnapshot,
    pub prev_total: u64,
    pub prev_get: u64,
    pub prev_set: u64,
    pub prev_delete: u64,
}

/// A node's request counters, rates, and latency per kind of request.
pub struct Metrics {
    total_requests: u64,
    get_requests: u64,
    set_requests: u64,
    delete_requests: u64,
    hits: u64,
    misses: u64,
    recovery_ms: u64,
    replication_sent: u64,
    replication_failed: u64,
    replication_received: u64,
    ping_latency: Histogram,
    get_latency: Histogram,
    set_latency: Histogram,
    delete_latency: Histogram,
    info_latency: Histogram,
    rates_total: u64,
    rates_get: u64,
    rates_set: u64,
    rates_delete: u64,
    prev_total: u64,
    prev_get: u64,
    prev_set: u64,
    prev_delete: u64,
    started: Clock,
}

/// `name=value`.
pub open spec fn kv_text(name: Seq<char>, value: u64) -> Seq<char> {
    name + "="@ + decimal(value as nat)
}

/// `fields` as `name=value` pairs separated by single spaces.
pub open spec fn kv_line(fields: Seq<(Seq<char>, u64)>) -> Seq<char>
    decreases fields.len(),
{
    if fields.len() == 0 {
        Seq::empty()
    } else if fields.len() == 1 {
        kv_text(fields[0].0, fields[0].1)
    } else {
        kv_line(fields.drop_last()) + " "@ + kv_text(fields.last().0, fields.last().1)
    }
}

/// The `name=value` pairs of `fields`, separated by single spaces.
pub fn kv_line_text(fields: &Vec<(&str, u64)>) -> (text: String)
    ensures
        text@ == kv_line(fields@.map_values(|f: (&str, u64)| (f.0@, f.1))),
{
    let ghost fs = fields@.map_values(|f: (&str, u64)| (f.0@, f.1));
    let mut text = String::new();
    let mut i: usize = 0;
    while i < fields.len()
        invariant
            i <= fields@.len(),
            fs == fields@.map_values(|f: (&str, u64)| (f.0@, f.1)),
            text@ == kv_line(fs.take(i as int)),
        decreases fields@.len() - i,
    {
        let ghost before = text@;
        if i > 0 {
            text.append(" ");
        }
        text.append(fields[i].0);
        text.append("=");
        let digits = decimal_text(fields[i].1);
        text.append(digits.as_str());
        proof {
            assert(fs.take(i + 1).drop_last() =~= fs.take(i as int));
            assert(fs.take(i + 1).last() == fs[i as int]);
            if i == 0 {
                assert(before =~= Seq::<char>::empty());
                assert(text@ =~= kv_text(fs[0].0, fs[0].1));
            } else {
                assert(text@ =~= before + " "@ + kv_text(fs[i as int].0, fs[i as int].1));
            }
        }
        i = i + 1;
    }
    assert(fs.take(fields@.len() as int) =~= fs);
    text
}

/// The counters of an INFO reply before the persistence and peer parts.
pub open spec fn info_fields(m: MetricsModel, s: StorageSnapshot, uptime_secs: u64, set_p99_us: u64, get_p99_us: u64) -> Seq<(Seq<char>, u64)> {
    seq![
        ("keys"@, s.keys),
        ("used_bytes"@, s.used_bytes),
        ("max_bytes"@, s.max_bytes),
        ("requests"@, m.total_requests),
        ("gets"@, m.get_requests),
        ("sets"@, m.set_requests),
        ("deletes"@, m.delete_requests),
        ("hits"@, m.hits),
        ("misses"@, m.misses),
        ("evictions"@, s.evictions),
        ("ttl_expirations"@, s.ttl_expirations),
        ("recovery_ms"@, m.recovery_ms),
        ("uptime_secs"@, uptime_secs),
        ("req_per_s"@, m.rates.total),
        ("get_per_s"@, m.rates.get),
        ("set_per_s"@, m.rates.set),
        ("del_per_s"@, m.rates.delete),
        ("set_p99_us"@, set_p99_us),
        ("get_p99_us"@, get_p99_us),
        ("replication_sent"@, m.replication_sent),
        ("replication_failed"@, m.replication_failed),
        ("replication_received"@, m.replication_received),
    ]
}

/// The value listed under the first field called `name`, if any.
pub open spec fn field_named(fields: Seq<(Seq<char>, u64)>, name: Seq<char>) -> Option<u64>
    decreases fields.len(),
{
    if fields.len() == 0 {
        None
    } else if fields[0].0 == name {
        Some(fields[0].1)
    } else {
        field_named(fields.drop_first(), name)
    }
}

/// An INFO reply lists each figure under its own name: reading the field
/// `hits` gives the number of hits, `misses` the number of misses, and so
/// on for every counter, storage figure, rate and latency it reports.
pub proof fn lemma_info_names_counters(m: MetricsModel, s: StorageSnapshot, uptime_secs: u64, set_p99_us: u64, get_p99_us: u64)
    ensures
        ({
            let f = info_fields(m, s, uptime_secs, set_p99_us, get_p99_us);
            &&& field_named(f, "keys"@) == Some(s.keys)
            &&& field_named(f, "used_bytes"@) == Some(s.used_bytes)
            &&& field_named(f, "max_bytes"@) == Some(s.max_bytes)
            &&& field_named(f, "requests"@) == Some(m.total_requests)
            &&& field_named(f, "gets"@) == Some(m.get_requests)
            &&& field_named(f, "sets"@) == Some(m.set_requests)
            &&& field_named(f, "deletes"@) == Some(m.delete_requests)
            &&& field_named(f, "hits"@) == Some(m.hits)
            &&& field_named(f, "misses"@) == Some(m.misses)
            &&& field_named(f, "evictions"@) == Some(s.evictions)
            &&& field_named(f, "ttl_expirations"@) == Some(s.ttl_expirations)
            &&& field_named(f, "recovery_ms"@) == Some(m.recovery_ms)
            &&& field_named(f, "uptime_secs"@) == Some(uptime_secs)
            &&& field_named(f, "req_per_s"@) == Some(m.rates.total)
            &&& field_named(f, "get_per_s"@) == Some(m.rates.get)
            &&& field_named(f, "set_per_s"@) == Some(m.rates.set)
            &&& field_named(f, "del_per_s"@) == Some(m.rates.delete)
            &&& field_named(f, "set_p99_us"@) == Some(set_p99_us)
            &&& field_named(f, "get_p99_us"@) == Some(get_p99_us)
            &&& field_named(f, "replication_sent"@) == Some(m.replication_sent)
            &&& field_named(f, "replication_failed"@) == Some(m.replication_failed)
            &&& field_named(f, "replication_received"@) == Some(m.replication_received)
        }),
{
    reveal_strlit("keys");
    reveal_strlit("used_bytes");
    reveal_strlit("max_bytes");
    reveal_strlit("requests");
    reveal_strlit("gets");
    reveal_strlit("sets");
    reveal_strlit("deletes");
    reveal_strlit("hits");
    reveal_strlit("misses");
    reveal_strlit("evictions");
    reveal_strlit("ttl_expirations");
    reveal_strlit("recovery_ms");
    reveal_strlit("uptime_secs");
    reveal_strlit("req_per_s");
    reveal_strlit("get_per_s");
    reveal_strlit("set_per_s");
    reveal_strlit("del_per_s");
    reveal_strlit("set_p99_us");
    reveal_strlit("get_p99_us");
    reveal_strlit("replication_sent");
    reveal_strlit("replication_failed");
    reveal_strlit("replication_received");
    let part0 = info_fields(m, s, uptime_secs, set_p99_us, get_p99_us);
    let part1 = part0.drop_first();
    let part2 = part1.drop_first();
    let part3 = part2.drop_first();
    let part4 = part3.drop_first();
    let part5 = part4.drop_first();
    let part6 = part5.drop_first();
    let part7 = part6.drop_first();
    let part8 = part7.drop_first();
    let part9 = part8.drop_first();
    let part10 = part9.drop_first();
    let part11 = part10.drop_first();
    let part12 = part11.drop_first();
    let part13 = part12.drop_first();
    let part14 = part13.drop_first();
    let part15 = part14.drop_first();
    let part16 = part15.drop_first();
    let part17 = part16.drop_first();
    let part18 = part17.drop_first();
    let part19 = part18.drop_first();
    let part20 = part19.drop_first();
    let part21 = part20.drop_first();
    assert(part0.len() > 0 && part0[0].0 == "keys"@);
    assert(part1.len() > 0 && part1[0].0 == "used_bytes"@);
    assert(part2.len() > 0 && part2[0].0 == "max_bytes"@);
    assert(part3.len() > 0 && part3[0].0 == "requests"@);
    assert(part4.len() > 0 && part4[0].0 == "gets"@);
    assert(part5.len() > 0 && part5[0].0 == "sets"@);
    assert(part6.len() > 0 && part6[0].0 == "deletes"@);
    assert(part7.len() > 0 && part7[0].0 == "hits"@);
    assert(part8.len() > 0 && part8[0].0 == "misses"@);
    assert(part9.len() > 0 && part9[0].0 == "evictions"@);
    assert(part10.len() > 0 && part10[0].0 == "ttl_expirations"@);
    assert(part11.len() > 0 && part11[0].0 == "recovery_ms"@);
    assert(part12.len() > 0 && part12[0].0 == "uptime_secs"@);
    assert(part13.len() > 0 && part13[0].0 == "req_per_s"@);
    assert(part14.len() > 0 && part14[0].0 == "get_per_s"@);
    assert(part15.len() > 0 && part15[0].0 == "set_per_s"@);
    assert(part16.len() > 0 && part16[0].0 == "del_per_s"@);
    assert(part17.len() > 0 && part17[0].0 == "set_p99_us"@);
    assert(part18.len() > 0 && part18[0].0 == "get_p99_us"@);
    assert(part19.len() > 0 && part19[0].0 == "replication_sent"@);
    assert(part20.len() > 0 && part20[0].0 == "replication_failed"@);
    assert(part21.len() > 0 && part21[0].0 == "replication_received"@);
    assert(field_named(part0, "keys"@) == Some(s.keys));
    assert(field_named(part1, "used_bytes"@) == Some(s.used_bytes));
    assert(field_named(part0, "used_bytes"@) == field_named(part1, "used_bytes"@));
    assert(field_named(part2, "max_bytes"@) == Some(s.max_bytes));
    assert(field_named(part1, "max_bytes"@) == field_named(part2, "max_bytes"@));
    assert(field_named(part0, "max_bytes"@) == field_named(part1, "max_bytes"@));
    assert(field_named(part3, "requests"@) == Some(m.total_requests));
    assert(field_named(part2, "requests"@) == field_named(part3, "requests"@));
    assert(field_named(part1, "requests"@) == field_named(part2, "requests"@));
    assert(field_named(part0, "requests"@) == field_named(part1, "requests"@));
    assert(field_named(part4, "gets"@) == Some(m.get_requests));
    assert(field_named(part3, "gets"@) == field_named(part4, "gets"@));
    assert(field_named(part2, "gets"@) == field_named(part3, "gets"@));
    assert(field_named(part1, "gets"@) == field_named(part2, "gets"@));
    assert("keys"@[0] != "gets"@[0]);
    assert(field_named(part0, "gets"@) == field_named(part1, "gets"@));
    assert(field_named(part5, "sets"@) == Some(m.set_requests));
    assert("gets"@[0] != "sets"@[0]);
    assert(field_named(part4, "sets"@) == field_named(part5, "sets"@));
    assert(field_named(part3, "sets"@) == field_named(part4, "sets"@));
    assert(field_named(part2, "sets"@) == field_named(part3, "sets"@));
    assert(field_named(part1, "sets"@) == field_named(part2, "sets"@));
    assert("keys"@[0] != "sets"@[0]);
    assert(field_named(part0, "sets"@) == field_named(part1, "sets"@));
    assert(field_named(part6, "deletes"@) == Some(m.delete_requests));
    assert(field_named(part5, "deletes"@) == field_named(part6, "deletes"@));
    assert(field_named(part4, "deletes"@) == field_named(part5, "deletes"@));
    assert(field_named(part3, "deletes"@) == field_named(part4, "deletes"@));
    assert(field_named(part2, "deletes"@) == field_named(part3, "deletes"@));
    assert(field_named(part1, "deletes"@) == field_named(part2, "deletes"@));
    assert(field_named(part0, "deletes"@) == field_named(part1, "deletes"@));
    assert(field_named(part7, "hits"@) == Some(m.hits));
    assert(field_named(part6, "hits"@) == field_named(part7, "hits"@));
    assert("sets"@[0] != "hits"@[0]);
    assert(field_named(part5, "hits"@) == field_named(part6, "hits"@));
    assert("gets"@[0] != "hits"@[0]);
    assert(field_named(part4, "hits"@) == field_named(part5, "hits"@));
    assert(field_named(part3, "hits"@) == field_named(part4, "hits"@));
    assert(field_named(part2, "hits"@) == field_named(part3, "hits"@));
    assert(field_named(part1, "hits"@) == field_named(part2, "hits"@));
    assert("keys"@[0] != "hits"@[0]);
    assert(field_named(part0, "hits"@) == field_named(part1, "hits"@));
    assert(field_named(part8, "misses"@) == Some(m.misses));
    assert(field_named(part7, "misses"@) == field_named(part8, "misses"@));
    assert(field_named(part6, "misses"@) == field_named(part7, "misses"@));
    assert(field_named(part5, "misses"@) == field_named(part6, "misses"@));
    assert(field_named(part4, "misses"@) == field_named(part5, "misses"@));
    assert(field_named(part3, "misses"@) == field_named(part4, "misses"@));
    assert(field_named(part2, "misses"@) == field_named(part3, "misses"@));
    assert(field_named(part1, "misses"@) == field_named(part2, "misses"@));
    assert(field_named(part0, "misses"@) == field_named(part1, "misses"@));
    assert(field_named(part9, "evictions"@) == Some(s.evictions));
    assert(field_named(part8, "evictions"@) == field_named(part9, "evictions"@));
    assert(field_named(part7, "evictions"@) == field_named(part8, "evictions"@));
    assert(field_named(part6, "evictions"@) == field_named(part7, "evictions"@));
    assert(field_named(part5, "evictions"@) == field_named(part6, "evictions"@));
    assert(field_named(part4, "evictions"@) == field_named(part5, "evictions"@));
    assert(field_named(part3, "evictions"@) == field_named(part4, "evictions"@));
    assert("max_bytes"@[0] != "evictions"@[0]);
    assert(field_named(part2, "evictions"@) == field_named(part3, "evictions"@));
    assert(field_named(part1, "evictions"@) == field_named(part2, "evictions"@));
    assert(field_named(part0, "evictions"@) == field_named(part1, "evictions"@));
    assert(field_named(part10, "ttl_expirations"@) == Some(s.ttl_expirations));
    assert(field_named(part9, "ttl_expirations"@) == field_named(part10, "ttl_expirations"@));
    assert(field_named(part8, "ttl_expirations"@) == field_named(part9, "ttl_expirations"@));
    assert(field_named(part7, "ttl_expirations"@) == field_named(part8, "ttl_expirations"@));
    assert(field_named(part6, "ttl_expirations"@) == field_named(part7, "ttl_expirations"@));
    assert(field_named(part5, "ttl_expirations"@) == field_named(part6, "ttl_expirations"@));
    assert(field_named(part4, "ttl_expirations"@) == field_named(part5, "ttl_expirations"@));
    assert(field_named(part3, "ttl_expirations"@) == field_named(part4, "ttl_expirations"@));
    assert(field_named(part2, "ttl_expirations"@) == field_named(part3, "ttl_expirations"@));
    assert(field_named(part1, "ttl_expirations"@) == field_named(part2, "ttl_expirations"@));
    assert(field_named(part0, "ttl_expirations"@) == field_named(part1, "ttl_expirations"@));
    assert(field_named(part11, "recovery_ms"@) == Some(m.recovery_ms));
    assert(field_named(part10, "recovery_ms"@) == field_named(part11, "recovery_ms"@));
    assert(field_named(part9, "recovery_ms"@) == field_named(part10, "recovery_ms"@));
    assert(field_named(part8, "recovery_ms"@) == field_named(part9, "recovery_ms"@));
    assert(field_named(part7, "recovery_ms"@) == field_named(part8, "recovery_ms"@));
    assert(field_named(part6, "recovery_ms"@) == field_named(part7, "recovery_ms"@));
    assert(field_named(part5, "recovery_ms"@) == field_named(part6, "recovery_ms"@));
    assert(field_named(part4, "recovery_ms"@) == field_named(part5, "recovery_ms"@));
    assert(field_named(part3, "recovery_ms"@) == field_named(part4, "recovery_ms"@));
    assert(field_named(part2, "recovery_ms"@) == field_named(part3, "recovery_ms"@));
    assert(field_named(part1, "recovery_ms"@) == field_named(part2, "recovery_ms"@));
    assert(field_named(part0, "recovery_ms"@) == field_named(part1, "recovery_ms"@));
    assert(field_named(part12, "uptime_secs"@) == Some(uptime_secs));
    assert("recovery_ms"@[0] != "uptime_secs"@[0]);
    assert(field_named(part11, "uptime_secs"@) == field_named(part12, "uptime_secs"@));
    assert(field_named(part10, "uptime_secs"@) == field_named(part11, "uptime_secs"@));
    assert(field_named(part9, "uptime_secs"@) == field_named(part10, "uptime_secs"@));
    assert(field_named(part8, "uptime_secs"@) == field_named(part9, "uptime_secs"@));
    assert(field_named(part7, "uptime_secs"@) == field_named(part8, "uptime_secs"@));
    assert(field_named(part6, "uptime_secs"@) == field_named(part7, "uptime_secs"@));
    assert(field_named(part5, "uptime_secs"@) == field_named(part6, "uptime_secs"@));
    assert(field_named(part4, "uptime_secs"@) == field_named(part5, "uptime_secs"@));
    assert(field_named(part3, "uptime_secs"@) == field_named(part4, "uptime_secs"@));
    assert(field_named(part2, "uptime_secs"@) == field_named(part3, "uptime_secs"@));
    assert(field_named(part1, "uptime_secs"@) == field_named(part2, "uptime_secs"@));
    assert(field_named(part0, "uptime_secs"@) == field_named(part1, "uptime_secs"@));
    assert(field_named(part13, "req_per_s"@) == Some(m.rates.total));
    assert(field_named(part12, "req_per_s"@) == field_named(part13, "req_per_s"@));
    assert(field_named(part11, "req_per_s"@) == field_named(part12, "req_per_s"@));
    assert(field_named(part10, "req_per_s"@) == field_named(part11, "req_per_s"@));
    assert("evictions"@[0] != "req_per_s"@[0]);
    assert(field_named(part9, "req_per_s"@) == field_named(part10, "req_per_s"@));
    assert(field_named(part8, "req_per_s"@) == field_named(part9, "req_per_s"@));
    assert(field_named(part7, "req_per_s"@) == field_named(part8, "req_per_s"@));
    assert(field_named(part6, "req_per_s"@) == field_named(part7, "req_per_s"@));
    assert(field_named(part5, "req_per_s"@) == field_named(part6, "req_per_s"@));
    assert(field_named(part4, "req_per_s"@) == field_named(part5, "req_per_s"@));
    assert(field_named(part3, "req_per_s"@) == field_named(part4, "req_per_s"@));
    assert("max_bytes"@[0] != "req_per_s"@[0]);
    assert(field_named(part2, "req_per_s"@) == field_named(part3, "req_per_s"@));
    assert(field_named(part1, "req_per_s"@) == field_named(part2, "req_per_s"@));
    assert(field_named(part0, "req_per_s"@) == field_named(part1, "req_per_s"@));
    assert(field_named(part14, "get_per_s"@) == Some(m.rates.get));
    assert("req_per_s"@[0] != "get_per_s"@[0]);
    assert(field_named(part13, "get_per_s"@) == field_named(part14, "get_per_s"@));
    assert(field_named(part12, "get_per_s"@) == field_named(part13, "get_per_s"@));
    assert(field_named(part11, "get_per_s"@) == field_named(part12, "get_per_s"@));
    assert(field_named(part10, "get_per_s"@) == field_named(part11, "get_per_s"@));
    assert("evictions"@[0] != "get_per_s"@[0]);
    assert(field_named(part9, "get_per_s"@) == field_named(part10, "get_per_s"@));
    assert(field_named(part8, "get_per_s"@) == field_named(part9, "get_per_s"@));
    assert(field_named(part7, "get_per_s"@) == field_named(part8, "get_per_s"@));
    assert(field_named(part6, "get_per_s"@) == field_named(part7, "get_per_s"@));
    assert(field_named(part5, "get_per_s"@) == field_named(part6, "get_per_s"@));
    assert(field_named(part4, "get_per_s"@) == field_named(part5, "get_per_s"@));
    assert(field_named(part3, "get_per_s"@) == field_named(part4, "get_per_s"@));
    assert("max_bytes"@[0] != "get_per_s"@[0]);
    assert(field_named(part2, "get_per_s"@) == field_named(part3, "get_per_s"@));
    assert(field_named(part1, "get_per_s"@) == field_named(part2, "get_per_s"@));
    assert(field_named(part0, "get_per_s"@) == field_named(part1, "get_per_s"@));
    assert(field_named(part15, "set_per_s"@) == Some(m.rates.set));
    assert("get_per_s"@[0] != "set_per_s"@[0]);
    assert(field_named(part14, "set_per_s"@) == field_named(part15, "set_per_s"@));
    assert("req_per_s"@[0] != "set_per_s"@[0]);
    assert(field_named(part13, "set_per_s"@) == field_named(part14, "set_per_s"@));
    assert(field_named(part12, "set_per_s"@) == field_named(part13, "set_per_s"@));
    assert(field_named(part11, "set_per_s"@) == field_named(part12, "set_per_s"@));
    assert(field_named(part10, "set_per_s"@) == field_named(part11, "set_per_s"@));
    assert("evictions"@[0] != "set_per_s"@[0]);
    assert(field_named(part9, "set_per_s"@) == field_named(part10, "set_per_s"@));
    assert(field_named(part8, "set_per_s"@) == field_named(part9, "set_per_s"@));
    assert(field_named(part7, "set_per_s"@) == field_named(part8, "set_per_s"@));
    assert(field_named(part6, "set_per_s"@) == field_named(part7, "set_per_s"@));
    assert(field_named(part5, "set_per_s"@) == field_named(part6, "set_per_s"@));
    assert(field_named(part4, "set_per_s"@) == field_named(part5, "set_per_s"@));
    assert(field_named(part3, "set_per_s"@) == field_named(part4, "set_per_s"@));
    assert("max_bytes"@[0] != "set_per_s"@[0]);
    assert(field_named(part2, "set_per_s"@) == field_named(part3, "set_per_s"@));
    assert(field_named(part1, "set_per_s"@) == field_named(part2, "set_per_s"@));
    assert(field_named(part0, "set_per_s"@) == field_named(part1, "set_per_s"@));
    assert(field_named(part16, "del_per_s"@) == Some(m.rates.delete));
    assert("set_per_s"@[0] != "del_per_s"@[0]);
    assert(field_named(part15, "del_per_s"@) == field_named(part16, "del_per_s"@));
    assert("get_per_s"@[0] != "del_per_s"@[0]);
    assert(field_named(part14, "del_per_s"@) == field_named(part15, "del_per_s"@));
    assert("req_per_s"@[0] != "del_per_s"@[0]);
    assert(field_named(part13, "del_per_s"@) == field_named(part14, "del_per_s"@));
    assert(field_named(part12, "del_per_s"@) == field_named(part13, "del_per_s"@));
    assert(field_named(part11, "del_per_s"@) == field_named(part12, "del_per_s"@));
    assert(field_named(part10, "del_per_s"@) == field_named(part11, "del_per_s"@));
    assert("evictions"@[0] != "del_per_s"@[0]);
    assert(field_named(part9, "del_per_s"@) == field_named(part10, "del_per_s"@));
    assert(field_named(part8, "del_per_s"@) == field_named(part9, "del_per_s"@));
    assert(field_named(part7, "del_per_s"@) == field_named(part8, "del_per_s"@));
    assert(field_named(part6, "del_per_s"@) == field_named(part7, "del_per_s"@));
    assert(field_named(part5, "del_per_s"@) == field_named(part6, "del_per_s"@));
    assert(field_named(part4, "del_per_s"@) == field_named(part5, "del_per_s"@));
    assert(field_named(part3, "del_per_s"@) == field_named(part4, "del_per_s"@));
    assert("max_bytes"@[0] != "del_per_s"@[0]);
    assert(field_named(part2, "del_per_s"@) == field_named(part3, "del_per_s"@));
    assert(field_named(part1, "del_per_s"@) == field_named(part2, "del_per_s"@));
    assert(field_named(part0, "del_per_s"@) == field_named(part1, "del_per_s"@));
    assert(field_named(part17, "set_p99_us"@) == Some(set_p99_us));
    assert(field_named(part16, "set_p99_us"@) == field_named(part17, "set_p99_us"@));
    assert(field_named(part15, "set_p99_us"@) == field_named(part16, "set_p99_us"@));
    assert(field_named(part14, "set_p99_us"@) == field_named(part15, "set_p99_us"@));
    assert(field_named(part13, "set_p99_us"@) == field_named(part14, "set_p99_us"@));
    assert(field_named(part12, "set_p99_us"@) == field_named(part13, "set_p99_us"@));
    assert(field_named(part11, "set_p99_us"@) == field_named(part12, "set_p99_us"@));
    assert(field_named(part10, "set_p99_us"@) == field_named(part11, "set_p99_us"@));
    assert(field_named(part9, "set_p99_us"@) == field_named(part10, "set_p99_us"@));
    assert(field_named(part8, "set_p99_us"@) == field_named(part9, "set_p99_us"@));
    assert(field_named(part7, "set_p99_us"@) == field_named(part8, "set_p99_us"@));
    assert(field_named(part6, "set_p99_us"@) == field_named(part7, "set_p99_us"@));
    assert(field_named(part5, "set_p99_us"@) == field_named(part6, "set_p99_us"@));
    assert(field_named(part4, "set_p99_us"@) == field_named(part5, "set_p99_us"@));
    assert(field_named(part3, "set_p99_us"@) == field_named(part4, "set_p99_us"@));
    assert(field_named(part2, "set_p99_us"@) == field_named(part3, "set_p99_us"@));
    assert("used_bytes"@[0] != "set_p99_us"@[0]);
    assert(field_named(part1, "set_p99_us"@) == field_named(part2, "set_p99_us"@));
    assert(field_named(part0, "set_p99_us"@) == field_named(part1, "set_p99_us"@));
    assert(field_named(part18, "get_p99_us"@) == Some(get_p99_us));
    assert("set_p99_us"@[0] != "get_p99_us"@[0]);
    assert(field_named(part17, "get_p99_us"@) == field_named(part18, "get_p99_us"@));
    assert(field_named(part16, "get_p99_us"@) == field_named(part17, "get_p99_us"@));
    assert(field_named(part15, "get_p99_us"@) == field_named(part16, "get_p99_us"@));
    assert(field_named(part14, "get_p99_us"@) == field_named(part15, "get_p99_us"@));
    assert(field_named(part13, "get_p99_us"@) == field_named(part14, "get_p99_us"@));
    assert(field_named(part12, "get_p99_us"@) == field_named(part13, "get_p99_us"@));
    assert(field_named(part11, "get_p99_us"@) == field_named(part12, "get_p99_us"@));
    assert(field_named(part10, "get_p99_us"@) == field_named(part11, "get_p99_us"@));
    assert(field_named(part9, "get_p99_us"@) == field_named(part10, "get_p99_us"@));
    assert(field_named(part8, "get_p99_us"@) == field_named(part9, "get_p99_us"@));
    assert(field_named(part7, "get_p99_us"@) == field_named(part8, "get_p99_us"@));
    assert(field_named(part6, "get_p99_us"@) == field_named(part7, "get_p99_us"@));
    assert(field_named(part5, "get_p99_us"@) == field_named(part6, "get_p99_us"@));
    assert(field_named(part4, "get_p99_us"@) == field_named(part5, "get_p99_us"@));
    assert(field_named(part3, "get_p99_us"@) == field_named(part4, "get_p99_us"@));
    assert(field_named(part2, "get_p99_us"@) == field_named(part3, "get_p99_us"@));
    assert("used_bytes"@[0] != "get_p99_us"@[0]);
    assert(field_named(part1, "get_p99_us"@) == field_named(part2, "get_p99_us"@));
    assert(field_named(part0, "get_p99_us"@) == field_named(part1, "get_p99_us"@));
    assert(field_named(part19, "replication_sent"@) == Some(m.replication_sent));
    assert(field_named(part18, "replication_sent"@) == field_named(part19, "replication_sent"@));
    assert(field_named(part17, "replication_sent"@) == field_named(part18, "replication_sent"@));
    assert(field_named(part16, "replication_sent"@) == field_named(part17, "replication_sent"@));
    assert(field_named(part15, "replication_sent"@) == field_named(part16, "replication_sent"@));
    assert(field_named(part14, "replication_sent"@) == field_named(part15, "replication_sent"@));
    assert(field_named(part13, "replication_sent"@) == field_named(part14, "replication_sent"@));
    assert(field_named(part12, "replication_sent"@) == field_named(part13, "replication_sent"@));
    assert(field_named(part11, "replication_sent"@) == field_named(part12, "replication_sent"@));
    assert(field_named(part10, "replication_sent"@) == field_named(part11, "replication_sent"@));
    assert(field_named(part9, "replication_sent"@) == field_named(part10, "replication_sent"@));
    assert(field_named(part8, "replication_sent"@) == field_named(part9, "replication_sent"@));
    assert(field_named(part7, "replication_sent"@) == field_named(part8, "replication_sent"@));
    assert(field_named(part6, "replication_sent"@) == field_named(part7, "replication_sent"@));
    assert(field_named(part5, "replication_sent"@) == field_named(part6, "replication_sent"@));
    assert(field_named(part4, "replication_sent"@) == field_named(part5, "replication_sent"@));
    assert(field_named(part3, "replication_sent"@) == field_named(part4, "replication_sent"@));
    assert(field_named(part2, "replication_sent"@) == field_named(part3, "replication_sent"@));
    assert(field_named(part1, "replication_sent"@) == field_named(part2, "replication_sent"@));
    assert(field_named(part0, "replication_sent"@) == field_named(part1, "replication_sent"@));
    assert(field_named(part20, "replication_failed"@) == Some(m.replication_failed));
    assert(field_named(part19, "replication_failed"@) == field_named(part20, "replication_failed"@));
    assert(field_named(part18, "replication_failed"@) == field_named(part19, "replication_failed"@));
    assert(field_named(part17, "replication_failed"@) == field_named(part18, "replication_failed"@));
    assert(field_named(part16, "replication_failed"@) == field_named(part17, "replication_failed"@));
    assert(field_named(part15, "replication_failed"@) == field_named(part16, "replication_failed"@));
    assert(field_named(part14, "replication_failed"@) == field_named(part15, "replication_failed"@));
    assert(field_named(part13, "replication_failed"@) == field_named(part14, "replication_failed"@));
    assert(field_named(part12, "replication_failed"@) == field_named(part13, "replication_failed"@));
    assert(field_named(part11, "replication_failed"@) == field_named(part12, "replication_failed"@));
    assert(field_named(part10, "replication_failed"@) == field_named(part11, "replication_failed"@));
    assert(field_named(part9, "replication_failed"@) == field_named(part10, "replication_failed"@));
    assert(field_named(part8, "replication_failed"@) == field_named(part9, "replication_failed"@));
    assert(field_named(part7, "replication_failed"@) == field_named(part8, "replication_failed"@));
    assert(field_named(part6, "replication_failed"@) == field_named(part7, "replication_failed"@));
    assert(field_named(part5, "replication_failed"@) == field_named(part6, "replication_failed"@));
    assert(field_named(part4, "replication_failed"@) == field_named(part5, "replication_failed"@));
    assert(field_named(part3, "replication_failed"@) == field_named(part4, "replication_failed"@));
    assert(field_named(part2, "replication_failed"@) == field_named(part3, "replication_failed"@));
    assert(field_named(part1, "replication_failed"@) == field_named(part2, "replication_failed"@));
    assert(field_named(part0, "replication_failed"@) == field_named(part1, "replication_failed"@));
    assert(field_named(part21, "replication_received"@) == Some(m.replication_received));
    assert(field_named(part20, "replication_received"@) == field_named(part21, "replication_received"@));
    assert(field_named(part19, "replication_received"@) == field_named(part20, "replication_received"@));
    assert(field_named(part18, "replication_received"@) == field_named(part19, "replication_received"@));
    assert(field_named(part17, "replication_received"@) == field_named(part18, "replication_received"@));
    assert(field_named(part16, "replication_received"@) == field_named(part17, "replication_received"@));
    assert(field_named(part15, "replication_received"@) == field_named(part16, "replication_received"@));
    assert(field_named(part14, "replication_received"@) == field_named(part15, "replication_received"@));
    assert(field_named(part13, "replication_received"@) == field_named(part14, "replication_received"@));
    assert(field_named(part12, "replication_received"@) == field_named(part13, "replication_received"@));
    assert(field_named(part11, "replication_received"@) == field_named(part12, "replication_received"@));
    assert(field_named(part10, "replication_received"@) == field_named(part11, "replication_received"@));
    assert(field_named(part9, "replication_received"@) == field_named(part10, "replication_received"@));
    assert(field_named(part8, "replication_received"@) == field_named(part9, "replication_received"@));
    assert(field_named(part7, "replication_received"@) == field_named(part8, "replication_received"@));
    assert(field_named(part6, "replication_received"@) == field_named(part7, "replication_received"@));
    assert(field_named(part5, "replication_received"@) == field_named(part6, "replication_received"@));
    assert(field_named(part4, "replication_received"@) == field_named(part5, "replication_received"@));
    assert(field_named(part3, "replication_received"@) == field_named(part4, "replication_received"@));
    assert(field_named(part2, "replication_received"@) == field_named(part3, "replication_received"@));
    assert(field_named(part1, "replication_received"@) == field_named(part2, "replication_received"@));
    assert(field_named(part0, "replication_received"@) == field_named(part1, "replication_received"@));
}

/// The persistence part of an INFO reply.
pub open spec fn aof_text(aof: Option<AofSnapshot>) -> Seq<char> {
    match aof {
        Some(a) => kv_line(
            seq![
                ("aof_bytes"@, a.bytes_written),
                ("aof_writes"@, a.write_count),
                ("aof_fsyncs"@, a.fsync_count),
                ("aof_rewrites"@, a.rewrite_count),
            ],
        ),
        None => "aof=off"@,
    }
}

/// The peer part of an INFO reply.
pub open spec fn peers_text(peers: Option<PeersSnapshot>) -> Seq<char> {
    match peers {
        Some(p) => kv_line(
            seq![
                ("peers_alive"@, p.alive as u64),
                ("peers_suspected"@, p.suspected as u64),
                ("peers_failed"@, p.failed as u64),
            ],
        ),
        None => "peers=off"@,
    }
}

/// The text of an INFO reply.
pub open spec fn info_text(m: MetricsModel, s: StorageSnapshot, aof: Option<AofSnapshot>, peers: Option<PeersSnapshot>, uptime_secs: u64, set_p99_us: u64, get_p99_us: u64) -> Seq<char> {
    kv_line(info_fields(m, s, uptime_secs, set_p99_us, get_p99_us)) + " "@ + aof_text(aof) + " "@ + peers_text(peers)
}

impl Metrics {
    /// The counters.
    pub closed spec fn counters(&self) -> MetricsModel {
        MetricsModel {
            total_requests: self.total_requests,
            get_requests: self.get_requests,
            set_requests: self.set_requests,
            delete_requests: self.delete_requests,
            hits: self.hits,
            misses: self.misses,
            recovery_ms: self.recovery_ms,
            replication_sent: self.replication_sent,
            replication_failed: self.replication_failed,
            replication_received: self.replication_received,
            rates: RatesSnapshot { total: self.rates_total, get: self.rates_get, set: self.rates_set, delete: self.rates_delete },
            prev_total: self.prev_total,
            prev_get: self.prev_get,
            prev_set: self.prev_set,
            prev_delete: self.prev_delete,
        }
    }

    /// What the histogram of `kind` has recorded.
    pub closed spec fn latency_of(&self, kind: CommandKind) -> HistogramModel {
        match kind {
            CommandKind::Ping => self.ping_latency@,
            CommandKind::Get => self.get_latency@,
            CommandKind::SetKey => self.set_latency@,
            CommandKind::Delete => self.delete_latency@,
            CommandKind::Info => self.info_latency@,
        }
    }

    /// Every histogram has its buckets.
    pub closed spec fn wf(&self) -> bool {
        &&& self.ping_latency.wf()
        &&& self.get_latency.wf()
        &&& self.set_latency.wf()
        &&& self.delete_latency.wf()
        &&& self.info_latency.wf()
    }

    /// Fresh metrics: every counter zero and every histogram empty.
    pub fn new() -> (m: Self)
        ensures
            m.wf(),
            m.counters() == (MetricsModel {
                total_requests: 0,
                get_requests: 0,
                set_requests: 0,
                delete_requests: 0,
                hits: 0,
                misses: 0,
                recovery_ms: 0,
                replication_sent: 0,
                replication_failed: 0,
                replication_received: 0,
                rates: RatesSnapshot { total: 0, get: 0, set: 0, delete: 0 },
                prev_total: 0,
                prev_get: 0,
                prev_set: 0,
                prev_delete: 0,
            }),
            forall|k: CommandKind| #[trigger] m.latency_of(k).count == 0 && m.latency_of(k).sum_us == 0 && m.latency_of(k).max_us == 0,
    {
        Metrics {
            total_requests: 0,
            get_requests: 0,
            set_requests: 0,
            delete_requests: 0,
            hits: 0,
            misses: 0,
            recovery_ms: 0,
            replication_sent: 0,
            replication_failed: 0,
            replication_received: 0,
            ping_latency: Histogram::new(),
            get_latency: Histogram::new(),
            set_latency: Histogram::new(),
            delete_latency: Histogram::new(),
            info_latency: Histogram::new(),
            rates_total: 0,
            rates_get: 0,
            rates_set: 0,
            rates_delete: 0,
            prev_total: 0,
            prev_get: 0,
            prev_set: 0,
            prev_delete: 0,
            started: Clock::new(),
        }
    }

    /// Notes how long the node took to recover its data at start-up.
    pub fn set_recovery_ms(&mut self, ms: u64)
        ensures
            final(self).counters() == (MetricsModel { recovery_ms: ms, ..old(self).counters() }),
            forall|k: CommandKind| #[trigger] final(self).latency_of(k) == old(self).latency_of(k),
            final(self).wf() == old(self).wf(),
    {
        self.recovery_ms = ms;
    }

    /// Counts a request.
    pub fn record_request(&mut self)
        ensures
            final(self).counters() == (MetricsModel { total_requests: old(self).counters().total_requests.wrapping_add(1), ..old(self).counters() }),
            forall|k: CommandKind| #[trigger] final(self).latency_of(k) == old(self).latency_of(k),
            final(self).wf() == old(self).wf(),
    {
        self.total_requests = self.total_requests.wrapping_add(1);
    }

    /// Counts a GET.
    pub fn record_get(&mut self)
        ensures
            final(self).counters() == (MetricsModel { get_requests: old(self).counters().get_requests.wrapping_add(1), ..old(self).counters() }),
            forall|k: CommandKind| #[trigger] final(self).latency_of(k) == old(self).latency_of(k),
            final(self).wf() == old(self).wf(),
    {
        self.get_requests = self.get_requests.wrapping_add(1);
    }

    /// Counts a SET.
    pub fn record_set(&mut self)
        ensures
            final(self).counters() == (MetricsModel { set_requests: old(self).counters().set_requests.wrapping_add(1), ..old(self).counters() }),
            forall|k: CommandKind| #[trigger] final(self).latency_of(k) == old(self).latency_of(k),
            final(self).wf() == old(self).wf(),
    {
        self.set_requests = self.set_requests.wrapping_add(1);
    }

    /// Counts a DELETE.
    pub fn record_delete(&mut self)
        ensures
            final(self).counters() == (MetricsModel { delete_requests: old(self).counters().delete_requests.wrapping_add(1), ..old(self).counters() }),
            forall|k: CommandKind| #[trigger] final(self).latency_of(k) == old(self).latency_of(k),
            final(self).wf() == old(self).wf(),
    {
        self.delete_requests = self.delete_requests.wrapping_add(1);
    }

    /// Counts a GET that found its key.
    pub fn record_hit(&mut self)
        ensures
            final(self).counters() == (MetricsModel { hits: old(self).counters().hits.wrapping_add(1), ..old(self).counters() }),
            forall|k: CommandKind| #[trigger] final(self).latency_of(k) == old(self).latency_of(k),
            final(self).wf() == old(self).wf(),
    {
        self.hits = self.hits.wrapping_add(1);
    }

    /// Counts a GET that did not find its key.
    pub fn record_miss(&mut self)
        ensures
            final(self).counters() == (MetricsModel { misses: old(self).counters().misses.wrapping_add(1), ..old(self).counters() }),
            forall|k: CommandKind| #[trigger] final(self).latency_of(k) == old(self).latency_of(k),
            final(self).wf() == old(self).wf(),
    {
        self.misses = self.misses.wrapping_add(1);
    }

    /// Counts writes sent to replicas and those that failed.
    pub fn record_replication(&mut self, sent: u64, failed: u64)
        ensures
            final(self).counters() == (MetricsModel {
                replication_sent: old(self).counters().replication_sent.wrapping_add(sent),
                replication_failed: old(self).counters().replication_failed.wrapping_add(failed),
                ..old(self).counters()
            }),
            forall|k: CommandKind| #[trigger] final(self).latency_of(k) == old(self).latency_of(k),
            final(self).wf() == old(self).wf(),
    {
        self.replication_sent = self.replication_sent.wrapping_add(sent);
        self.replication_failed = self.replication_failed.wrapping_add(failed);
    }

    /// Counts a write received from a primary.
    pub fn record_replication_received(&mut self)
        ensures
            final(self).counters() == (MetricsModel { replication_received: old(self).counters().replication_received.wrapping_add(1), ..old(self).counters() }),
            forall|k: CommandKind| #[trigger] final(self).latency_of(k) == old(self).latency_of(k),
            final(self).wf() == old(self).wf(),
    {
        self.replication_received = self.replication_received.wrapping_add(1);
    }

    /// Counts a replicated write that could not be applied.
    pub fn record_replication_failed(&mut self)
        ensures
            final(self).counters() == (MetricsModel { replication_failed: old(self).counters().replication_failed.wrapping_add(1), ..old(self).counters() }),
            forall|k: CommandKind| #[trigger] final(self).latency_of(k) == old(self).latency_of(k),
            final(self).wf() == old(self).wf(),
    {
        self.replication_failed = self.replication_failed.wrapping_add(1);
    }

    /// Records a request of kind `kind` that took `elapsed_us` microseconds.
    pub fn record_latency(&mut self, kind: CommandKind, elapsed_us: u64)
        requires
            old(self).wf(),
        ensures
            final(self).wf(),
            final(self).counters() == old(self).counters(),
            final(self).latency_of(kind) == recorded(old(self).latency_of(kind), elapsed_us),
            forall|k: CommandKind| k != kind ==> #[trigger] final(self).latency_of(k) == old(self).latency_of(k),
    {
        match kind {
            CommandKind::Ping => self.ping_latency.record_us(elapsed_us),
            CommandKind::Get => self.get_latency.record_us(elapsed_us),
            CommandKind::SetKey => self.set_latency.record_us(elapsed_us),
            CommandKind::Delete => self.delete_latency.record_us(elapsed_us),
            CommandKind::Info => self.info_latency.record_us(elapsed_us),
        }
    }

    /// The latency histogram of `kind`.
    pub fn latency(&self, kind: CommandKind) -> (h: &Histogram)
        requires
            self.wf(),
        ensures
            h.wf(),
            h@ == self.latency_of(kind),
    {
        match kind {
            CommandKind::Ping => &self.ping_latency,
            CommandKind::Get => &self.get_latency,
            CommandKind::SetKey => &self.set_latency,
            CommandKind::Delete => &self.delete_latency,
            CommandKind::Info => &self.info_latency,
        }
    }

    /// Whole seconds since the metrics were created.
    pub fn uptime_secs(&self) -> u64 {
        self.started.now_ns() / 1_000_000_000
    }

    /// Turns the requests counted since the last sample into per-second
    /// rates; called once a second.
    pub fn sample_rates(&mut self)
        ensures
            final(self).counters() == (MetricsModel {
                rates: RatesSnapshot {
                    total: sat_sub(old(self).counters().total_requests, old(self).counters().prev_total),
                    get: sat_sub(old(self).counters().get_requests, old(self).counters().prev_get),
                    set: sat_sub(old(self).counters().set_requests, old(self).counters().prev_set),
                    delete: sat_sub(old(self).counters().delete_requests, old(self).counters().prev_delete),
                },
                prev_total: old(self).counters().total_requests,
                prev_get: old(self).counters().get_requests,
                prev_set: old(self).counters().set_requests,
                prev_delete: old(self).counters().delete_requests,
                ..old(self).counters()
            }),
            forall|k: CommandKind| #[trigger] final(self).latency_of(k) == old(self).latency_of(k),
            final(self).wf() == old(self).wf(),
    {
        self.rates_total = self.total_requests.saturating_sub(self.prev_total);
        self.prev_total = self.total_requests;
        self.rates_get = self.get_requests.saturating_sub(self.prev_get);
        self.prev_get = self.get_requests;
        self.rates_set = self.set_requests.saturating_sub(self.prev_set);
        self.prev_set = self.set_requests;
        self.rates_delete = self.delete_requests.saturating_sub(self.prev_delete);
        self.prev_delete = self.delete_requests;
    }

    /// Requests counted since the last sample.
    pub fn rates(&self) -> (rates: RatesSnapshot)
        ensures
            rates == self.counters().rates,
    {
        RatesSnapshot { total: self.rates_total, get: self.rates_get, set: self.rates_set, delete: self.rates_delete }
    }

    /// Writes sent, failed and received.
    pub fn replication(&self) -> (r: ReplicationSnapshot)
        ensures
            r == (ReplicationSnapshot {
                sent: self.counters().replication_sent,
                failed: self.counters().replication_failed,
                received: self.counters().replication_received,
            }),
    {
        ReplicationSnapshot { sent: self.replication_sent, failed: self.replication_failed, received: self.replication_received }
    }

    /// Requests of every kind.
    pub fn total_requests(&self) -> (n: u64)
        ensures
            n == self.counters().total_requests,
    {
        self.total_requests
    }

    /// GET requests.
    pub fn get_requests(&self) -> (n: u64)
        ensures
            n == self.counters().get_requests,
    {
        self.get_requests
    }

    /// SET requests.
    pub fn set_requests(&self) -> (n: u64)
        ensures
            n == self.counters().set_requests,
    {
        self.set_requests
    }

    /// DELETE requests.
    pub fn delete_requests(&self) -> (n: u64)
        ensures
            n == self.counters().delete_requests,
    {
        self.delete_requests
    }

    /// GETs that found their key.
    pub fn hits(&self) -> (n: u64)
        ensures
            n == self.counters().hits,
    {
        self.hits
    }

    /// GETs that did not find their key.
    pub fn misses(&self) -> (n: u64)
        ensures
            n == self.counters().misses,
    {
        self.misses
    }

    /// Milliseconds the node took to recover its data.
    pub fn recovery_ms(&self) -> (n: u64)
        ensures
            n == self.counters().recovery_ms,
    {
        self.recovery_ms
    }

    /// The INFO reply: every counter as `name=value`, then the persistence
    /// and peer parts. The caller supplies the uptime and the 99th
    /// percentile latencies of SET and GET.
    pub fn info(&self, store: &CacheStore, aof: Option<AofSnapshot>, peers: Option<PeersSnapshot>, uptime_secs: u64, set_p99_us: u64, get_p99_us: u64) -> (reply: Response)
        requires
            store.wf(),
        ensures
            reply@ == ResponseModel::Info(info_text(self.counters(), storage_of(store), aof, peers, uptime_secs, set_p99_us, get_p99_us)),
    {
        let s = storage_snapshot(store);
        let fields: Vec<(&str, u64)> = vec![
            ("keys", s.keys),
            ("used_bytes", s.used_bytes),
            ("max_bytes", s.max_bytes),
            ("requests", self.total_requests),
            ("gets", self.get_requests),
            ("sets", self.set_requests),
            ("deletes", self.delete_requests),
            ("hits", self.hits),
            ("misses", self.misses),
            ("evictions", s.evictions),
            ("ttl_expirations", s.ttl_expirations),
            ("recovery_ms", self.recovery_ms),
            ("uptime_secs", uptime_secs),
            ("req_per_s", self.rates_total),
            ("get_per_s", self.rates_get),
            ("set_per_s", self.rates_set),
            ("del_per_s", self.rates_delete),
            ("set_p99_us", set_p99_us),
            ("get_p99_us", get_p99_us),
            ("replication_sent", self.replication_sent),
            ("replication_failed", self.replication_failed),
            ("replication_received", self.replication_received),
        ];
        let mut text = kv_line_text(&fields);
        proof {
            assert(fields@.map_values(|f: (&str, u64)| (f.0@, f.1)) =~= info_fields(self.counters(), storage_of(store), uptime_secs, set_p99_us, get_p99_us));
        }
        text.append(" ");
        let aof_part = match aof {
            Some(a) => {
                let f: Vec<(&str, u64)> = vec![
                    ("aof_bytes", a.bytes_written),
                    ("aof_writes", a.write_count),
                    ("aof_fsyncs", a.fsync_count),
                    ("aof_rewrites", a.rewrite_count),
                ];
                let t = kv_line_text(&f);
                proof {
                    assert(f@.map_values(|x: (&str, u64)| (x.0@, x.1)) =~= seq![
                        ("aof_bytes"@, a.bytes_written),
                        ("aof_writes"@, a.write_count),
                        ("aof_fsyncs"@, a.fsync_count),
                        ("aof_rewrites"@, a.rewrite_count),
                    ]);
                }
                t
            },
            None => owned("aof=off"),
        };
        text.append(aof_part.as_str());
        text.append(" ");
        let peers_part = match peers {
            Some(p) => {
                let f: Vec<(&str, u64)> = vec![
                    ("peers_alive", p.alive as u64),
                    ("peers_suspected", p.suspected as u64),
                    ("peers_failed", p.failed as u64),
                ];
                let t = kv_line_text(&f);
                proof {
                    assert(f@.map_values(|x: (&str, u64)| (x.0@, x.1)) =~= seq![
                        ("peers_alive"@, p.alive as u64),
                        ("peers_suspected"@, p.suspected as u64),
                        ("peers_failed"@, p.failed as u64),
                    ]);
                }
                t
            },
            None => owned("peers=off"),
        };
        text.append(peers_part.as_str());
        Response::Info(text)
    }
}

/// `a - b`, or 0 when `b` is larger.
pub open spec fn sat_sub(a: u64, b: u64) -> u64 {
    if a >= b {
        (a - b) as u64
    } else {
        0
    }
}

/// The store's size and what it dropped.
pub open spec fn storage_of(store: &CacheStore) -> StorageSnapshot {
    StorageSnapshot {
        keys: store.view().order.len() as u64,
        used_bytes: store.view().used() as u64,
        max_bytes: store.view().max_memory,
        evictions: store.evictions(),
        ttl_expirations: store.expirations(),
    }
}

/// The store's size and what it dropped.
pub fn storage_snapshot(store: &CacheStore) -> (s: StorageSnapshot)
    requires
        store.wf(),
    ensures
        s == storage_of(store),
{
    let (keys, used_bytes, max_bytes) = store.stats();
    StorageSnapshot {
        keys: keys as u64,
        used_bytes,
        max_bytes,
        evictions: store.eviction_count(),
        ttl_expirations: store.ttl_expiration_count(),
    }
}

/// How many peers the detector holds alive, suspected and failed.
pub fn peers_snapshot(heartbeat: &Heartbeat) -> (p: PeersSnapshot)
    ensures
        p.alive == status_count(heartbeat.table(), PeerStatus::Alive),
        p.suspected == status_count(heartbeat.table(), PeerStatus::Suspected),
        p.failed == status_count(heartbeat.table(), PeerStatus::Failed),
{
    let (alive, suspected, failed) = heartbeat.summary();
    PeersSnapshot { alive, suspected, failed }
}

} // verus!
