use vstd::prelude::*;
use crate::hashing::{ConsistentHasher, Router, string_views};
use crate::internal::{InternalMessage, InternalResponse};
use crate::metrics::{Metrics, MetricsModel};
use crate::protocol::{
    Command, CommandModel, Response, ResponseModel, command_text,
    canonical_command, encode_command, lemma_command_round_trip, parse_command, parse_command_spec,
};
use crate::storage::{
    CacheModel, CacheStore, StoredEntry, delete_outcome, entry_bytes, evict_model, get_outcome,
    lemma_total_congruent, lemma_total_nonneg, set_outcome, snapshot_of, total_bytes,
};
use crate::text::{lossy_string, owned, str_equal, utf8_lossy};

verus! {

/// The longest request line accepted, in bytes: 64 KiB.
pub const MAX_LINE_BYTES: usize = 65_536;

/// What a request line turns into: the command it asks for, or the error
/// reply to send back.
pub open spec fn request_outcome(line: Seq<u8>) -> Result<CommandModel, ResponseModel> {
    if line.len() > MAX_LINE_BYTES {
        Result::Err(ResponseModel::Error("request too large"@))
    } else {
        match parse_command_spec(utf8_lossy(line)) {
            Result::Ok(c) => Result::Ok(c),
            Result::Err(e) => Result::Err(ResponseModel::Error(crate::protocol::error_message(e))),
        }
    }
}

/// Reads a request line as received: too long a line, or one that does
/// not parse, gets an error reply.
pub fn read_request(line: &[u8]) -> (request: Result<Command, Response>)
    ensures
        match request {
            Result::Ok(c) => request_outcome(line@) == Result::<CommandModel, ResponseModel>::Ok(c@),
            Result::Err(r) => request_outcome(line@) == Result::<CommandModel, ResponseModel>::Err(r@),
        },
{
    if line.len() > MAX_LINE_BYTES {
        return Err(Response::Error(owned("request too large")));
    }
    let text = lossy_string(line);
    match parse_command(text.as_str()) {
        Ok(command) => Ok(command),
        Err(error) => {
            let message = error.message();
            Err(Response::Error(message))
        },
    }
}

/// Serves a GET: counts it, reads the key, counts a hit or a miss, and
/// replies with the value or not-found.
pub fn handle_get(store: &mut CacheStore, metrics: &mut Metrics, key: &str, now: u64) -> (reply: Response)
    requires
        old(store).wf(),
    ensures
        final(store).wf(),
        final(store).view() == get_outcome(old(store).view(), key@, now).0,
        final(store).evictions() == old(store).evictions(),
        final(store).expirations() == (if get_outcome(old(store).view(), key@, now).2 {
            old(store).expirations().wrapping_add(1)
        } else {
            old(store).expirations()
        }),
        reply@ == match get_outcome(old(store).view(), key@, now).1 {
            Some(v) => ResponseModel::Value(v),
            None => ResponseModel::NotFound,
        },
        final(metrics).counters() == (match get_outcome(old(store).view(), key@, now).1 {
            Some(_) => MetricsModel {
                get_requests: old(metrics).counters().get_requests.wrapping_add(1),
                hits: old(metrics).counters().hits.wrapping_add(1),
                ..old(metrics).counters()
            },
            None => MetricsModel {
                get_requests: old(metrics).counters().get_requests.wrapping_add(1),
                misses: old(metrics).counters().misses.wrapping_add(1),
                ..old(metrics).counters()
            },
        }),
        final(metrics).wf() == old(metrics).wf(),
        forall|k| #[trigger] final(metrics).latency_of(k) == old(metrics).latency_of(k),
{
    metrics.record_get();
    let (value, _expired) = store.get_at(key, now);
    match value {
        Some(value) => {
            metrics.record_hit();
            Response::Value(value)
        },
        None => {
            metrics.record_miss();
            Response::NotFound
        },
    }
}

/// Serves a SET: counts it, writes the key (evicting as needed), and
/// replies OK.
pub fn handle_set(store: &mut CacheStore, metrics: &mut Metrics, key: &str, value: Vec<u8>, ttl: Option<u64>, now: u64) -> (reply: Response)
    requires
        old(store).wf(),
        old(store).view().used() + entry_bytes(key@, value@) <= u64::MAX,
    ensures
        final(store).wf(),
        final(store).view() == set_outcome(old(store).view(), key@, value@, ttl, now).0,
        final(store).evictions() == old(store).evictions().wrapping_add(set_outcome(old(store).view(), key@, value@, ttl, now).1 as u64),
        final(store).expirations() == old(store).expirations(),
        reply@ == ResponseModel::Okay,
        final(metrics).counters() == (MetricsModel { set_requests: old(metrics).counters().set_requests.wrapping_add(1), ..old(metrics).counters() }),
        final(metrics).wf() == old(metrics).wf(),
        forall|k| #[trigger] final(metrics).latency_of(k) == old(metrics).latency_of(k),
{
    metrics.record_set();
    store.set_at(key, value, ttl, now);
    Response::Okay
}

/// Serves a DELETE: counts it, removes the key, and replies OK if it was
/// stored, not-found otherwise.
pub fn handle_delete(store: &mut CacheStore, metrics: &mut Metrics, key: &str) -> (reply: Response)
    requires
        old(store).wf(),
    ensures
        final(store).wf(),
        final(store).view() == delete_outcome(old(store).view(), key@).0,
        final(store).evictions() == old(store).evictions(),
        final(store).expirations() == old(store).expirations(),
        reply@ == if delete_outcome(old(store).view(), key@).1 {
            ResponseModel::Okay
        } else {
            ResponseModel::NotFound
        },
        final(metrics).counters() == (MetricsModel { delete_requests: old(metrics).counters().delete_requests.wrapping_add(1), ..old(metrics).counters() }),
        final(metrics).wf() == old(metrics).wf(),
        forall|k| #[trigger] final(metrics).latency_of(k) == old(metrics).latency_of(k),
{
    metrics.record_delete();
    if store.delete(key) {
        Response::Okay
    } else {
        Response::NotFound
    }
}

/// The key a SET or DELETE writes.
pub open spec fn written_key(c: CommandModel) -> Seq<char> {
    match c {
        CommandModel::SetKey { key, .. } => key,
        CommandModel::Delete { key } => key,
        _ => Seq::empty(),
    }
}

/// The reply to a write the append-only file could not take.
fn append_failed(error: String) -> (reply: Response)
    ensures
        reply@ == ResponseModel::Error("aof append failed: "@ + error@),
{
    let mut message = owned("aof append failed: ");
    message.append(error.as_str());
    Response::Error(message)
}

/// Serves a SET or DELETE once the append-only file has been written
/// (`append_error` is `None`, also when there is no file) or has failed.
/// A failed append is counted and answered with an error, and the store
/// is left alone; otherwise the write is served as [`handle_set`] or
/// [`handle_delete`] serves it. The command comes back for the replicas
/// only when replication is on, this node is the key's primary, and the
/// write took effect: every SET, and a DELETE that found its key.
pub fn serve_write(
    store: &mut CacheStore,
    metrics: &mut Metrics,
    command: Command,
    append_error: Option<String>,
    replicating: bool,
    router: &ConsistentHasher,
    self_address: &str,
    now: u64,
) -> (outcome: (Response, Option<Command>))
    requires
        old(store).wf(),
        command@ is SetKey || command@ is Delete,
        append_error is None ==> match command@ {
            CommandModel::SetKey { key, value, .. } => old(store).view().used() + entry_bytes(key, value) <= u64::MAX,
            _ => true,
        },
    ensures
        final(store).wf(),
        final(metrics).wf() == old(metrics).wf(),
        forall|k| #[trigger] final(metrics).latency_of(k) == old(metrics).latency_of(k),
        match append_error {
            Some(e) => {
                &&& *final(store) == *old(store)
                &&& outcome.0@ == ResponseModel::Error("aof append failed: "@ + e@)
                &&& outcome.1 is None
                &&& final(metrics).counters() == match command@ {
                    CommandModel::SetKey { .. } => MetricsModel {
                        set_requests: old(metrics).counters().set_requests.wrapping_add(1),
                        ..old(metrics).counters()
                    },
                    _ => MetricsModel {
                        delete_requests: old(metrics).counters().delete_requests.wrapping_add(1),
                        ..old(metrics).counters()
                    },
                }
            },
            None => match command@ {
                CommandModel::SetKey { key, value, ttl } => {
                    &&& final(store).view() == set_outcome(old(store).view(), key, value, ttl, now).0
                    &&& final(store).evictions() == old(store).evictions().wrapping_add(
                        set_outcome(old(store).view(), key, value, ttl, now).1 as u64,
                    )
                    &&& final(store).expirations() == old(store).expirations()
                    &&& outcome.0@ == ResponseModel::Okay
                    &&& final(metrics).counters() == (MetricsModel {
                        set_requests: old(metrics).counters().set_requests.wrapping_add(1),
                        ..old(metrics).counters()
                    })
                },
                _ => {
                    &&& final(store).view() == delete_outcome(old(store).view(), written_key(command@)).0
                    &&& final(store).evictions() == old(store).evictions()
                    &&& final(store).expirations() == old(store).expirations()
                    &&& outcome.0@ == if delete_outcome(old(store).view(), written_key(command@)).1 {
                        ResponseModel::Okay
                    } else {
                        ResponseModel::NotFound
                    }
                    &&& final(metrics).counters() == (MetricsModel {
                        delete_requests: old(metrics).counters().delete_requests.wrapping_add(1),
                        ..old(metrics).counters()
                    })
                },
            },
        },
        outcome.1 is Some <==> {
            &&& append_error is None
            &&& replicating
            &&& router.node_names()[router.primary_of(written_key(command@))] == self_address@
            &&& (command@ is SetKey || delete_outcome(old(store).view(), written_key(command@)).1)
        },
        outcome.1 matches Some(c) ==> c@ == command@,
{
    match command {
        Command::SetKey { key, value, ttl } => {
            match append_error {
                Some(error) => {
                    metrics.record_set();
                    return (append_failed(error), None);
                },
                None => {},
            }
            let copy = value.clone();
            let reply = handle_set(store, metrics, key.as_str(), value, ttl, now);
            if replicating && is_primary(router, self_address, key.as_str()) {
                (reply, Some(Command::SetKey { key, value: copy, ttl }))
            } else {
                (reply, None)
            }
        },
        Command::Delete { key } => {
            match append_error {
                Some(error) => {
                    metrics.record_delete();
                    return (append_failed(error), None);
                },
                None => {},
            }
            let reply = handle_delete(store, metrics, key.as_str());
            let deleted = match reply {
                Response::Okay => true,
                _ => false,
            };
            if deleted && replicating && is_primary(router, self_address, key.as_str()) {
                (reply, Some(Command::Delete { key }))
            } else {
                (reply, None)
            }
        },
        _ => {
            proof {
                assert(false);
            }
            (Response::Pong, None)
        },
    }
}

/// Whether this node, at `self_address`, is the primary of `key`.
pub fn is_primary(router: &ConsistentHasher, self_address: &str, key: &str) -> (primary: bool)
    ensures
        primary == (router.node_names()[router.primary_of(key@)] == self_address@),
{
    str_equal(router.primary(key), self_address)
}

/// How many copies besides the primary a replication factor asks for.
pub fn replica_count(factor: u32) -> (count: usize)
    ensures
        count == if factor >= 1 { factor - 1 } else { 0 },
{
    if factor >= 1 {
        (factor - 1) as usize
    } else {
        0
    }
}

/// The internal message that copies `command` to a replica: writes and
/// deletes are copied, nothing else.
pub fn replication_message(command: &Command) -> (msg: Option<InternalMessage>)
    ensures
        match command@ {
            CommandModel::SetKey { key, value, ttl } => msg matches Some(InternalMessage::Upsert { key: k, value: v, ttl: t }) && k@ == key && v@ == value && t == ttl,
            CommandModel::Delete { key } => msg matches Some(InternalMessage::Delete { key: k }) && k@ == key,
            _ => msg is None,
        },
{
    match command {
        Command::SetKey { key, value, ttl } => {
            let mut copy: Vec<u8> = Vec::new();
            let mut i: usize = 0;
            while i < value.len()
                invariant
                    i <= value@.len(),
                    copy@ == value@.take(i as int),
                decreases value@.len() - i,
            {
                copy.push(value[i]);
                proof {
                    assert(value@.take(i + 1) =~= value@.take(i as int).push(value@[i as int]));
                }
                i = i + 1;
            }
            assert(copy@ =~= value@);
            Some(InternalMessage::Upsert { key: owned(key.as_str()), value: copy, ttl: *ttl })
        },
        Command::Delete { key } => Some(InternalMessage::Delete { key: owned(key.as_str()) }),
        _ => None,
    }
}

/// The line the append-only file records for `command`, with its line
/// feed: writes and deletes are recorded, nothing else.
pub fn aof_line(command: &Command) -> (line: Option<String>)
    ensures
        match command@ {
            CommandModel::SetKey { .. } | CommandModel::Delete { .. } => line is Some && line->0@ == command_text(command@) + "\n"@,
            _ => line is None,
        },
{
    match command {
        Command::SetKey { .. } | Command::Delete { .. } => {
            let mut line = encode_command(command);
            line.append("\n");
            Some(line)
        },
        _ => None,
    }
}

/// Whether the append-only file is due for a rewrite: a positive
/// threshold is set and more bytes than it have been written.
pub fn rewrite_due(threshold_bytes: u64, bytes_written: u64) -> (due: bool)
    ensures
        due == (threshold_bytes > 0 && bytes_written > threshold_bytes),
{
    threshold_bytes > 0 && bytes_written > threshold_bytes
}

/// What replaying one line of the append-only file did.
#[derive(Debug, Clone, Copy, PartialEq, Eq, Structural)]
pub enum ReplayStep {
    Applied,
    Skipped,
}

/// The store after replaying `line` at `now`: a write or a delete is
/// applied, anything else is skipped.
pub open spec fn replay_outcome(m: CacheModel, line: Seq<char>, now: u64) -> (CacheModel, ReplayStep) {
    match parse_command_spec(line) {
        Result::Ok(CommandModel::SetKey { key, value, ttl }) => (set_outcome(m, key, value, ttl, now).0, ReplayStep::Applied),
        Result::Ok(CommandModel::Delete { key }) => (delete_outcome(m, key).0, ReplayStep::Applied),
        _ => (m, ReplayStep::Skipped),
    }
}

/// Whether replaying `line` stays within the store's accounting: a write
/// it holds fits in a `u64` together with what the store uses.
pub open spec fn replay_fits(m: CacheModel, line: Seq<char>) -> bool {
    match parse_command_spec(line) {
        Result::Ok(CommandModel::SetKey { key, value, ttl }) => m.used() + entry_bytes(key, value) <= u64::MAX,
        _ => true,
    }
}

/// Replays one line of the append-only file at `now`.
pub fn replay_line(store: &mut CacheStore, line: &str, now: u64) -> (step: ReplayStep)
    requires
        old(store).wf(),
        replay_fits(old(store).view(), line@),
    ensures
        final(store).wf(),
        (final(store).view(), step) == replay_outcome(old(store).view(), line@, now),
{
    let parsed = parse_command(line);
    match parsed {
        Ok(Command::SetKey { key, value, ttl }) => {
            store.set_at(key.as_str(), value, ttl, now);
            ReplayStep::Applied
        },
        Ok(Command::Delete { key }) => {
            store.delete(key.as_str());
            ReplayStep::Applied
        },
        _ => ReplayStep::Skipped,
    }
}

/// The lines that rebuild a store from its snapshot: one SET per entry, in
/// order, each with its line feed.
pub fn snapshot_lines(entries: &Vec<(String, Vec<u8>, Option<u64>)>) -> (lines: Vec<String>)
    ensures
        lines@.len() == entries@.len(),
        forall|i: int| 0 <= i < entries@.len() ==> #[trigger] lines@[i]@ == command_text(CommandModel::SetKey {
            key: entries@[i].0@,
            value: entries@[i].1@,
            ttl: entries@[i].2,
        }) + "\n"@,
{
    let mut lines: Vec<String> = Vec::new();
    let mut i: usize = 0;
    while i < entries.len()
        invariant
            i <= entries@.len(),
            lines@.len() == i,
            forall|j: int| 0 <= j < i ==> #[trigger] lines@[j]@ == command_text(CommandModel::SetKey {
                key: entries@[j].0@,
                value: entries@[j].1@,
                ttl: entries@[j].2,
            }) + "\n"@,
        decreases entries@.len() - i,
    {
        let entry = &entries[i];
        let mut value: Vec<u8> = Vec::new();
        let mut k: usize = 0;
        while k < entry.1.len()
            invariant
                k <= entry.1@.len(),
                value@ == entry.1@.take(k as int),
            decreases entry.1@.len() - k,
        {
            value.push(entry.1[k]);
            proof {
                assert(entry.1@.take(k + 1) =~= entry.1@.take(k as int).push(entry.1@[k as int]));
            }
            k = k + 1;
        }
        assert(value@ =~= entry.1@);
        let command = Command::SetKey { key: owned(entry.0.as_str()), value, ttl: entry.2 };
        let mut line = encode_command(&command);
        line.append("\n");
        lines.push(line);
        i = i + 1;
    }
    lines
}

/// A copy of `bytes`.
fn copy_bytes(bytes: &Vec<u8>) -> (copy: Vec<u8>)
    ensures
        copy@ == bytes@,
{
    let mut copy: Vec<u8> = Vec::new();
    let mut i: usize = 0;
    while i < bytes.len()
        invariant
            i <= bytes@.len(),
            copy@ == bytes@.take(i as int),
        decreases bytes@.len() - i,
    {
        copy.push(bytes[i]);
        proof {
            assert(bytes@.take(i + 1) =~= bytes@.take(i as int).push(bytes@[i as int]));
        }
        i = i + 1;
    }
    assert(copy@ =~= bytes@);
    copy
}

/// The internal address `pairs` lists for the public address `name`, the
/// first if several do.
pub open spec fn address_for(pairs: Seq<(Seq<char>, Seq<char>)>, name: Seq<char>) -> Option<Seq<char>>
    decreases pairs.len(),
{
    if pairs.len() == 0 {
        None
    } else if pairs[0].0 == name {
        Some(pairs[0].1)
    } else {
        address_for(pairs.drop_first(), name)
    }
}

/// The address pairs as plain values.
pub open spec fn pair_views(pairs: Seq<(String, String)>) -> Seq<(Seq<char>, Seq<char>)> {
    pairs.map_values(|p: (String, String)| (p.0@, p.1@))
}

/// The internal address of `name`.
fn find_address<'a>(pairs: &'a Vec<(String, String)>, name: &str) -> (address: Option<&'a str>)
    ensures
        match address {
            Some(a) => address_for(pair_views(pairs@), name@) == Some(a@),
            None => address_for(pair_views(pairs@), name@) is None,
        },
{
    let ghost all = pair_views(pairs@);
    let mut i: usize = 0;
    assert(all.skip(0) =~= all);
    while i < pairs.len()
        invariant
            i <= pairs@.len(),
            all == pair_views(pairs@),
            all.len() == pairs@.len(),
            address_for(all.skip(i as int), name@) == address_for(all, name@),
        decreases pairs@.len() - i,
    {
        assert(all.skip(i as int).drop_first() =~= all.skip(i + 1));
        assert(all.skip(i as int)[0] == all[i as int]);
        if str_equal(pairs[i].0.as_str(), name) {
            return Some(pairs[i].1.as_str());
        }
        i = i + 1;
    }
    assert(all.skip(i as int).len() == 0);
    None
}

/// The internal addresses of those of `names` that have one, in order.
pub open spec fn reachable(pairs: Seq<(Seq<char>, Seq<char>)>, names: Seq<Seq<char>>) -> Seq<Seq<char>>
    decreases names.len(),
{
    if names.len() == 0 {
        Seq::empty()
    } else {
        let rest = reachable(pairs, names.drop_last());
        match address_for(pairs, names.last()) {
            Some(a) => rest.push(a),
            None => rest,
        }
    }
}

/// How many of `names` have no internal address.
pub open spec fn unreachable_count(pairs: Seq<(Seq<char>, Seq<char>)>, names: Seq<Seq<char>>) -> nat
    decreases names.len(),
{
    if names.len() == 0 {
        0
    } else {
        unreachable_count(pairs, names.drop_last()) + if address_for(pairs, names.last()) is Some {
            0nat
        } else {
            1nat
        }
    }
}

/// The nodes that hold the copies of `key` besides its primary, for
/// replication factor `factor`.
pub open spec fn replica_names(router: ConsistentHasher, key: Seq<char>, factor: u32) -> Seq<Seq<char>> {
    router.replicas_of(key, (if factor >= 1 { factor - 1 } else { 0 }) as nat).map_values(
        |i: int| router.node_names()[i],
    )
}

/// Where a write is copied to.
#[derive(Debug)]
pub struct ReplicationPlan {
    /// What the replicas are sent; nothing for a command that is not copied.
    pub message: Option<InternalMessage>,
    /// The internal addresses of the replicas, when there is a message.
    pub targets: Vec<String>,
    /// Replicas with no internal address; each counts as a failed copy.
    pub unreachable: u64,
}

/// Where `command` on `key` is copied to: the internal address of each
/// replica that has one, and how many have none.
pub fn plan_replication(
    router: &ConsistentHasher,
    internal: &Vec<(String, String)>,
    factor: u32,
    key: &str,
    command: &Command,
) -> (plan: ReplicationPlan)
    ensures
        match command@ {
            CommandModel::SetKey { key: k, value, ttl } => plan.message matches Some(InternalMessage::Upsert { key: mk, value: v, ttl: t }) && mk@ == k && v@ == value && t == ttl,
            CommandModel::Delete { key: k } => plan.message matches Some(InternalMessage::Delete { key: mk }) && mk@ == k,
            _ => plan.message is None,
        },
        string_views(plan.targets@) == if plan.message is Some {
            reachable(pair_views(internal@), replica_names(*router, key@, factor))
        } else {
            Seq::<Seq<char>>::empty()
        },
        plan.unreachable == unreachable_count(pair_views(internal@), replica_names(*router, key@, factor)),
{
    let message = replication_message(command);
    let count = replica_count(factor);
    let replicas = router.replicas(key, count);
    let ghost names = replica_names(*router, key@, factor);
    let ghost pairs = pair_views(internal@);
    proof {
        assert(replicas@.map_values(|s: &str| s@) =~= names);
    }
    let mut targets: Vec<String> = Vec::new();
    let mut unreachable: u64 = 0;
    let mut i: usize = 0;
    while i < replicas.len()
        invariant
            i <= replicas@.len(),
            names == replicas@.map_values(|s: &str| s@),
            pairs == pair_views(internal@),
            unreachable <= i,
            string_views(targets@) == if message is Some {
                reachable(pairs, names.take(i as int))
            } else {
                Seq::<Seq<char>>::empty()
            },
            unreachable == unreachable_count(pairs, names.take(i as int)),
        decreases replicas@.len() - i,
    {
        let name = replicas[i];
        let ghost before = targets@;
        proof {
            assert(names.take(i + 1).drop_last() =~= names.take(i as int));
            assert(names.take(i + 1).last() == name@);
        }
        match find_address(internal, name) {
            Some(a) => {
                if message.is_some() {
                    targets.push(owned(a));
                    assert(string_views(targets@) =~= string_views(before).push(a@));
                }
            },
            None => {
                unreachable = unreachable + 1;
            },
        }
        i = i + 1;
    }
    assert(names.take(replicas@.len() as int) =~= names);
    ReplicationPlan { message, targets, unreachable }
}

/// What a node does with a message from another node.
#[derive(Debug, Clone, PartialEq, Eq)]
pub enum InternalAction {
    /// Answer at once.
    Reply(InternalResponse),
    /// Record the command applied in the append-only file, then answer.
    Record(Command),
}

/// Applies a message from another node at `now`: a ping is answered, a
/// copied write or delete is applied to the store and handed back for the
/// append-only file.
pub fn apply_internal(store: &mut CacheStore, msg: InternalMessage, now: u64) -> (action: InternalAction)
    requires
        old(store).wf(),
        msg matches InternalMessage::Upsert { key, value, .. } ==> old(store).view().used() + entry_bytes(key@, value@) <= u64::MAX,
    ensures
        final(store).wf(),
        match msg {
            InternalMessage::Ping => {
                &&& action matches InternalAction::Reply(InternalResponse::Pong)
                &&& final(store).view() == old(store).view()
                &&& final(store).evictions() == old(store).evictions()
            },
            InternalMessage::Upsert { key, value, ttl } => {
                &&& action matches InternalAction::Record(c) && c@ == (CommandModel::SetKey { key: key@, value: value@, ttl })
                &&& final(store).view() == set_outcome(old(store).view(), key@, value@, ttl, now).0
                &&& final(store).evictions() == old(store).evictions().wrapping_add(set_outcome(old(store).view(), key@, value@, ttl, now).1 as u64)
            },
            InternalMessage::Delete { key } => {
                &&& action matches InternalAction::Record(c) && c@ == (CommandModel::Delete { key: key@ })
                &&& final(store).view() == delete_outcome(old(store).view(), key@).0
                &&& final(store).evictions() == old(store).evictions()
            },
        },
        final(store).expirations() == old(store).expirations(),
{
    match msg {
        InternalMessage::Ping => InternalAction::Reply(InternalResponse::Pong),
        InternalMessage::Upsert { key, value, ttl } => {
            let copy = copy_bytes(&value);
            store.set_at(key.as_str(), value, ttl, now);
            InternalAction::Record(Command::SetKey { key, value: copy, ttl })
        },
        InternalMessage::Delete { key } => {
            store.delete(key.as_str());
            InternalAction::Record(Command::Delete { key })
        },
    }
}

/// Whether replaying `line` stays within the store's accounting.
pub fn line_fits(store: &CacheStore, line: &str) -> (fits: bool)
    requires
        store.wf(),
    ensures
        fits == replay_fits(store.view(), line@),
{
    match parse_command(line) {
        Ok(Command::SetKey { key, value, ttl: _ }) => store.fits(key.as_str(), value.len()),
        _ => true,
    }
}

/// What replaying an append-only file did.
#[derive(Debug, Clone, Copy, PartialEq, Eq)]
pub struct ReplayReport {
    /// Lines read.
    pub commands: u64,
    /// Writes and deletes applied.
    pub applied: u64,
    /// Lines that were neither.
    pub skipped: u64,
    /// How long the replay took.
    pub elapsed: std::time::Duration,
}

/// Replays one line of the append-only file at `now` and counts it; a
/// write that would overflow the store's byte count is neither applied
/// nor counted, and `false` is returned.
pub fn replay_into(store: &mut CacheStore, report: &mut ReplayReport, line: &str, now: u64) -> (applied: bool)
    requires
        old(store).wf(),
        old(report).commands < u64::MAX,
        old(report).applied < u64::MAX,
        old(report).skipped < u64::MAX,
    ensures
        final(store).wf(),
        applied == replay_fits(old(store).view(), line@),
        applied ==> {
            let outcome = replay_outcome(old(store).view(), line@, now);
            &&& final(store).view() == outcome.0
            &&& final(report).commands == old(report).commands + 1
            &&& final(report).applied == old(report).applied + if outcome.1 == ReplayStep::Applied { 1int } else { 0int }
            &&& final(report).skipped == old(report).skipped + if outcome.1 == ReplayStep::Skipped { 1int } else { 0int }
        },
        !applied ==> final(store).view() == old(store).view() && *final(report) == *old(report),
        final(report).elapsed == old(report).elapsed,
{
    if !line_fits(store, line) {
        return false;
    }
    let step = replay_line(store, line, now);
    report.commands = report.commands + 1;
    match step {
        ReplayStep::Applied => {
            report.applied = report.applied + 1;
        },
        ReplayStep::Skipped => {
            report.skipped = report.skipped + 1;
        },
    }
    true
}

/// The store after `c` is applied at `now`: a write or a delete changes it,
/// any other command leaves it as it is.
pub open spec fn applied_command(m: CacheModel, c: CommandModel, now: u64) -> CacheModel {
    match c {
        CommandModel::SetKey { key, value, ttl } => set_outcome(m, key, value, ttl, now).0,
        CommandModel::Delete { key } => delete_outcome(m, key).0,
        _ => m,
    }
}

/// Replaying the line the append-only file records for a write or a
/// delete applies that very command: for every command whose line reads
/// back unchanged, the replayed store is the store the command produces.
pub proof fn lemma_replay_applies_logged(m: CacheModel, c: CommandModel, now: u64)
    requires
        canonical_command(c),
        c is SetKey || c is Delete,
    ensures
        replay_outcome(m, command_text(c), now) == (applied_command(m, c, now), ReplayStep::Applied),
{
    lemma_command_round_trip(c);
}

/// The store after the lines `lines` were replayed in order at `now`.
pub open spec fn replayed(m: CacheModel, lines: Seq<Seq<char>>, now: u64) -> CacheModel
    decreases lines.len(),
{
    if lines.len() == 0 {
        m
    } else {
        replay_outcome(replayed(m, lines.drop_last(), now), lines.last(), now).0
    }
}

/// The lines a rewrite records for a snapshot, one SET per entry, as the
/// replay reads them back (without their line feeds).
pub open spec fn snapshot_texts(entries: Seq<(Seq<char>, Seq<u8>, Option<u64>)>) -> Seq<Seq<char>> {
    entries.map_values(
        |t: (Seq<char>, Seq<u8>, Option<u64>)| command_text(CommandModel::SetKey { key: t.0, value: t.1, ttl: t.2 }),
    )
}

/// The SET a snapshot at `now` records for the `i`-th key of `m`.
pub open spec fn snapshot_command(m: CacheModel, now: u64, i: int) -> CommandModel {
    let e = snapshot_of(m, now)[i];
    CommandModel::SetKey { key: e.0, value: e.1, ttl: e.2 }
}

/// A store's total is the total of a prefix of its keys plus the rest.
proof fn lemma_total_split(o: Seq<Seq<char>>, e: Map<Seq<char>, StoredEntry>, n: int)
    requires
        0 <= n <= o.len(),
    ensures
        total_bytes(o, e) == total_bytes(o.take(n), e) + total_bytes(o.skip(n), e),
    decreases n,
{
    if n == 0 {
        assert(o.take(0) =~= Seq::<Seq<char>>::empty());
        assert(o.skip(0) =~= o);
    } else {
        let rest = o.drop_first();
        lemma_total_split(rest, e, n - 1);
        assert(o.take(n).drop_first() =~= rest.take(n - 1));
        assert(o.take(n)[0] == o[0]);
        assert(o.skip(n) =~= rest.skip(n - 1));
    }
}

/// The empty store capped at `max_memory` bytes.
pub open spec fn fresh_store(max_memory: u64) -> CacheModel {
    CacheModel { order: Seq::empty(), entries: Map::empty(), max_memory }
}

/// Replaying the first `i` lines of a snapshot of `m` into an empty store
/// rebuilds the first `i` keys of `m`, in order, with their values.
proof fn lemma_snapshot_prefix(m: CacheModel, now: u64, later: u64, i: int)
    requires
        m.wf(),
        0 <= i <= m.order.len(),
        forall|j: int| 0 <= j < m.order.len() ==> #[trigger] canonical_command(snapshot_command(m, now, j)),
    ensures
        ({
            let o = m.order;
            let r = replayed(fresh_store(m.max_memory), snapshot_texts(snapshot_of(m, now)).take(i), later);
            &&& r.order == o.take(i)
            &&& r.max_memory == m.max_memory
            &&& forall|k: Seq<char>| #[trigger] r.entries.contains_key(k) <==> o.take(i).contains(k)
            &&& forall|j: int| 0 <= j < i ==> #[trigger] r.entries[o[j]].data == m.entries[o[j]].data
        }),
    decreases i,
{
    let o = m.order;
    let e = m.entries;
    let lines = snapshot_texts(snapshot_of(m, now));
    if i == 0 {
        assert(lines.take(0) =~= Seq::<Seq<char>>::empty());
        assert(o.take(0) =~= Seq::<Seq<char>>::empty());
        return;
    }
    let p = i - 1;
    lemma_snapshot_prefix(m, now, later, p);
    let r = replayed(fresh_store(m.max_memory), lines.take(p), later);
    let k = o[p];
    let d = e[k].data;
    let c = snapshot_command(m, now, p);
    assert(lines.take(i).drop_last() =~= lines.take(p));
    assert(lines.take(i).last() == lines[p]);
    assert(lines[p] == command_text(c));
    lemma_command_round_trip(c);
    assert(!r.entries.contains_key(k)) by {
        if o.take(p).contains(k) {
            let j = choose|j: int| 0 <= j < o.take(p).len() && o.take(p)[j] == k;
            assert(o[j] == o[p]);
        }
    }
    let staged = r.staged(k, d, c->ttl, later);
    assert(staged.order =~= o.take(i));
    assert(staged.used() <= staged.max_memory) by {
        assert forall|j: int| 0 <= j < o.take(i).len() implies #[trigger] staged.entries[o.take(i)[j]].data == e[o.take(i)[j]].data by {
            if j < p {
                assert(o.take(i)[j] == o[j]);
                assert(o.take(p)[j] == o[j]);
            }
        }
        lemma_total_congruent(o.take(i), staged.entries, e);
        lemma_total_split(o, e, i);
        lemma_total_nonneg(o.skip(i), e);
    }
    assert(evict_model(staged) == (staged, 0nat));
    let r2 = replayed(fresh_store(m.max_memory), lines.take(i), later);
    assert(r2 == staged);
    assert forall|x: Seq<char>| #[trigger] r2.entries.contains_key(x) <==> o.take(i).contains(x) by {
        if x == k {
            assert(o.take(i)[p] == k);
        } else {
            if o.take(i).contains(x) {
                let j = choose|j: int| 0 <= j < o.take(i).len() && o.take(i)[j] == x;
                assert(o.take(p)[j] == x);
            }
            if o.take(p).contains(x) {
                let j = choose|j: int| 0 <= j < o.take(p).len() && o.take(p)[j] == x;
                assert(o.take(i)[j] == x);
            }
        }
    }
    assert forall|j: int| 0 <= j < i implies #[trigger] r2.entries[o[j]].data == e[o[j]].data by {
        if j < p {
            assert(o.take(p)[j] == o[j]);
        }
    }
}

/// Rewriting the append-only file from a snapshot and replaying it into an
/// empty store with the same memory cap rebuilds the store: the same keys,
/// in the same recency order, with the same values, for every store whose
/// lines read back unchanged.
pub proof fn lemma_snapshot_replay_rebuilds(m: CacheModel, now: u64, later: u64)
    requires
        m.wf(),
        forall|i: int| 0 <= i < m.order.len() ==> #[trigger] canonical_command(snapshot_command(m, now, i)),
    ensures
        ({
            let r = replayed(fresh_store(m.max_memory), snapshot_texts(snapshot_of(m, now)), later);
            &&& r.order == m.order
            &&& forall|k: Seq<char>| #[trigger] r.entries.contains_key(k) <==> m.entries.contains_key(k)
            &&& forall|k: Seq<char>| m.entries.contains_key(k) ==> #[trigger] r.entries[k].data == m.entries[k].data
        }),
{
    let o = m.order;
    let lines = snapshot_texts(snapshot_of(m, now));
    let n = o.len() as int;
    lemma_snapshot_prefix(m, now, later, n);
    assert(lines.take(n) =~= lines);
    assert(o.take(n) =~= o);
    let r = replayed(fresh_store(m.max_memory), lines, later);
    assert forall|x: Seq<char>| #[trigger] r.entries.contains_key(x) <==> m.entries.contains_key(x) by {}
    assert forall|x: Seq<char>| m.entries.contains_key(x) implies #[trigger] r.entries[x].data == m.entries[x].data by {
        assert(o.contains(x));
        let j = choose|j: int| 0 <= j < o.len() && o[j] == x;
        assert(r.entries[o[j]].data == m.entries[o[j]].data);
    }
}

} // verus!
