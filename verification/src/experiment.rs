use vstd::prelude::*;
use crate::bench::RouterKind;
use crate::control::{EvictionParams, FailureParams, PeerCounts, TtlParams};
use crate::storage::{CacheModel, CacheStore, entry_bytes, get_outcome, lemma_set_used, purge_model, set_outcome};
use crate::text::{decimal, decimal_text, owned, str_equal};
use crate::workload::{KeyOrder, key_name, key_text};

verus! {

/// Step between successive positions a probe reads.
pub const PROBE_STRIDE: u64 = 0x9E37_79B9_7F4A_7C15;

/// The names of the first `count` experiment keys, in order.
pub fn keyset(count: u64) -> (keys: Vec<String>)
    requires
        count <= usize::MAX,
    ensures
        keys@.len() == count,
        forall|i: int| 0 <= i < count ==> #[trigger] keys@[i]@ == key_name(i as u64),
{
    let mut keys: Vec<String> = Vec::new();
    let mut i: u64 = 0;
    while i < count
        invariant
            i <= count,
            keys@.len() == i,
            forall|j: int| 0 <= j < i ==> #[trigger] keys@[j]@ == key_name(j as u64),
        decreases count - i,
    {
        keys.push(key_text(i));
        i = i + 1;
    }
    keys
}

/// The store after the first `n` experiment keys were written, in order,
/// with `value` and `ttl`, at `now`.
pub open spec fn filled(m: CacheModel, n: nat, value: Seq<u8>, ttl: Option<u64>, now: u64) -> CacheModel
    decreases n,
{
    if n == 0 {
        m
    } else {
        set_outcome(filled(m, (n - 1) as nat, value, ttl, now), key_name((n - 1) as u64), value, ttl, now).0
    }
}

/// The eviction counter after those writes, starting from `e` (wrapping).
pub open spec fn filled_evictions(m: CacheModel, e: u64, n: nat, value: Seq<u8>, ttl: Option<u64>, now: u64) -> u64
    decreases n,
{
    if n == 0 {
        e
    } else {
        let before = filled(m, (n - 1) as nat, value, ttl, now);
        filled_evictions(m, e, (n - 1) as nat, value, ttl, now).wrapping_add(
            set_outcome(before, key_name((n - 1) as u64), value, ttl, now).1 as u64,
        )
    }
}

/// The accounted size of the first `n` experiment keys written with `value`.
pub open spec fn fill_bytes(n: nat, value: Seq<u8>) -> int
    decreases n,
{
    if n == 0 {
        0
    } else {
        fill_bytes((n - 1) as nat, value) + entry_bytes(key_name((n - 1) as u64), value)
    }
}

/// Writing more keys never accounts fewer bytes.
proof fn lemma_fill_bytes_grow(i: nat, j: nat, value: Seq<u8>)
    requires
        i <= j,
    ensures
        fill_bytes(i, value) <= fill_bytes(j, value),
    decreases j,
{
    if i < j {
        lemma_fill_bytes_grow(i, (j - 1) as nat, value);
    }
}

/// Whether writing the first `count` experiment keys with `value` keeps the
/// byte count of a store within `u64`: its cap leaves room for one more
/// entry, or what is in use plus everything written fits.
pub open spec fn fill_fits_spec(max_memory: u64, used: int, count: nat, value: Seq<u8>) -> bool {
    ||| max_memory + value.len() + 88 <= u64::MAX
    ||| used + fill_bytes(count, value) <= u64::MAX
}

/// Whether [`fill`] may write the first `count` experiment keys with
/// `value` into a store capped at `max_memory` bytes with `used` in use
/// (see [`fill_fits_spec`]).
pub fn fill_fits(max_memory: u64, used: u64, count: u64, value: &[u8]) -> (fits: bool)
    ensures
        fits == fill_fits_spec(max_memory, used as int, count as nat, value@),
{
    let value_len = value.len() as u64;
    if value_len <= u64::MAX - 88 && max_memory <= u64::MAX - 88 - value_len {
        return true;
    }
    let mut total = used;
    let mut i: u64 = 0;
    while i < count
        invariant
            i <= count,
            value_len == value@.len(),
            !(max_memory + value@.len() + 88 <= u64::MAX),
            total == used + fill_bytes(i as nat, value@),
        decreases count - i,
    {
        let key = key_text(i);
        let key_len = key.as_str().as_bytes().len() as u64;
        proof {
            crate::workload::lemma_key_name_bytes(i);
        }
        assert(key_len == vstd::utf8::encode_utf8(key_name(i)).len());
        let step = match total.checked_add(key_len) {
            Some(a) => match a.checked_add(value_len) {
                Some(b) => b.checked_add(64),
                None => None,
            },
            None => None,
        };
        match step {
            Some(t) => {
                total = t;
            },
            None => {
                proof {
                    lemma_fill_bytes_grow((i + 1) as nat, count as nat, value@);
                }
                return false;
            },
        }
        i = i + 1;
    }
    true
}

/// Writes the first `count` experiment keys with `value` and `ttl`, in
/// order, at `now`.
pub fn fill(store: &mut CacheStore, count: u64, value: &[u8], ttl: Option<u64>, now: u64)
    requires
        old(store).wf(),
        fill_fits_spec(old(store).view().max_memory, old(store).view().used(), count as nat, value@),
    ensures
        final(store).wf(),
        final(store).view() == filled(old(store).view(), count as nat, value@, ttl, now),
        final(store).evictions() == filled_evictions(old(store).view(), old(store).evictions(), count as nat, value@, ttl, now),
        final(store).expirations() == old(store).expirations(),
{
    let mut i: u64 = 0;
    let ghost start = store.view();
    let ghost e0 = store.evictions();
    let ghost x0 = store.expirations();
    while i < count
        invariant
            i <= count,
            store.wf(),
            store.view() == filled(start, i as nat, value@, ttl, now),
            store.evictions() == filled_evictions(start, e0, i as nat, value@, ttl, now),
            store.expirations() == x0,
            store.view().max_memory == start.max_memory,
            fill_fits_spec(start.max_memory, start.used(), count as nat, value@),
            !(start.max_memory + value@.len() + 88 <= u64::MAX) ==> store.view().used() + fill_bytes(count as nat, value@)
                - fill_bytes(i as nat, value@) <= u64::MAX,
        decreases count - i,
    {
        let key = key_text(i);
        proof {
            store.lemma_wf();
            crate::workload::lemma_key_name_bytes(i);
            lemma_fill_bytes_grow((i + 1) as nat, count as nat, value@);
        }
        let mut data: Vec<u8> = Vec::new();
        let mut k: usize = 0;
        while k < value.len()
            invariant
                k <= value@.len(),
                data@ == value@.take(k as int),
            decreases value@.len() - k,
        {
            data.push(value[k]);
            proof {
                assert(value@.take(k + 1) =~= value@.take(k as int).push(value@[k as int]));
            }
            k = k + 1;
        }
        assert(data@ =~= value@);
        let ghost before = store.view();
        store.set_at(key.as_str(), data, ttl, now);
        proof {
            crate::storage::lemma_evict_within_cap(before.staged(key@, value@, ttl, now));
            lemma_set_used(before, key@, value@, ttl, now);
        }
        i = i + 1;
    }
}

/// `len * per_key`, or `u64::MAX` where that overflows.
pub open spec fn capped_product(len: u64, per_key: u64) -> int {
    if len * per_key > u64::MAX {
        u64::MAX as int
    } else {
        len * per_key
    }
}

/// `x` kept within `[lo, hi]`.
pub open spec fn clamped(x: int, lo: int, hi: int) -> int {
    if x < lo {
        lo
    } else if x > hi {
        hi
    } else {
        x
    }
}

/// `per_key` reads for each of `len` keys, kept within `[lo, hi]`.
fn probe_attempts(len: u64, per_key: u64, lo: u64, hi: u64) -> (n: u64)
    requires
        lo <= hi,
    ensures
        n == clamped(capped_product(len, per_key), lo as int, hi as int),
{
    let product = match len.checked_mul(per_key) {
        Some(p) => p,
        None => u64::MAX,
    };
    if product < lo {
        lo
    } else if product > hi {
        hi
    } else {
        product
    }
}

/// How many reads the eviction experiment's probe makes over `len` keys:
/// three per key, at least 2 000 and at most 60 000.
pub fn eviction_probe_attempts(len: u64) -> (n: u64)
    ensures
        n == clamped(capped_product(len, 3), 2_000, 60_000),
{
    probe_attempts(len, 3, 2_000, 60_000)
}

/// How many reads the TTL experiment's probe makes over `len` keys: two
/// per key, at least 2 000 and at most 20 000.
pub fn ttl_probe_attempts(len: u64) -> (n: u64)
    ensures
        n == clamped(capped_product(len, 2), 2_000, 20_000),
{
    probe_attempts(len, 2, 2_000, 20_000)
}

/// The position a probe over `len` keys reads at its `i`-th step (from 1):
/// each step moves on by the stride, wrapping, modulo `len`.
pub open spec fn probe_position(i: nat, len: u64) -> u64
    decreases i,
{
    if i == 0 || len == 0 {
        0
    } else {
        (probe_position((i - 1) as nat, len).wrapping_add(PROBE_STRIDE) % len) as u64
    }
}

/// The names a list of keys holds.
pub open spec fn names(keys: Seq<String>) -> Seq<Seq<char>> {
    keys.map_values(|k: String| k@)
}

/// The store and the number of hits after the first `steps` reads of a
/// probe over `keys` at `now`.
pub open spec fn probe_run(m: CacheModel, keys: Seq<Seq<char>>, steps: nat, now: u64) -> (CacheModel, nat)
    decreases steps,
{
    if steps == 0 {
        (m, 0)
    } else {
        let prev = probe_run(m, keys, (steps - 1) as nat, now);
        let read = get_outcome(prev.0, keys[probe_position(steps, keys.len() as u64) as int], now);
        (read.0, prev.1 + if read.1 is Some { 1nat } else { 0nat })
    }
}

/// Reads `attempts` keys of `keys` at `now`, spread over the list by the
/// probe's stride; how many were found.
pub fn probe(store: &mut CacheStore, keys: &Vec<String>, attempts: u64, now: u64) -> (hits: u64)
    requires
        old(store).wf(),
        keys@.len() > 0,
    ensures
        final(store).wf(),
        final(store).view() == probe_run(old(store).view(), names(keys@), attempts as nat, now).0,
        hits == probe_run(old(store).view(), names(keys@), attempts as nat, now).1,
        final(store).evictions() == old(store).evictions(),
{
    let ghost start = store.view();
    let ghost views = names(keys@);
    let n: usize = keys.len();
    let len: u64 = n as u64;
    let mut idx: u64 = 0;
    let mut hits: u64 = 0;
    let mut i: u64 = 0;
    while i < attempts
        invariant
            i <= attempts,
            hits <= i,
            len == keys@.len(),
            keys@.len() <= usize::MAX,
            len > 0,
            views == names(keys@),
            views.len() == len,
            idx == probe_position(i as nat, len),
            idx < len,
            store.wf(),
            store.view() == probe_run(start, views, i as nat, now).0,
            hits == probe_run(start, views, i as nat, now).1,
            store.evictions() == old(store).evictions(),
        decreases attempts - i,
    {
        idx = idx.wrapping_add(PROBE_STRIDE) % len;
        assert(idx == probe_position((i + 1) as nat, len));
        let j: usize = idx as usize;
        assert(j as int == idx as int);
        let key = &keys[j];
        assert(views[j as int] == key@);
        let (value, _expired) = store.get_at(key.as_str(), now);
        if value.is_some() {
            hits = hits + 1;
        }
        i = i + 1;
    }
    hits
}

/// An empty store model capped at `capacity` bytes.
pub open spec fn empty_cache(capacity: u64) -> CacheModel {
    CacheModel { order: Seq::empty(), entries: Map::empty(), max_memory: capacity }
}

/// The names of the first `count` experiment keys.
pub open spec fn key_names(count: nat) -> Seq<Seq<char>> {
    Seq::new(count, |i: int| key_name(i as u64))
}

/// The eviction experiment's settings, each at least 1.
#[derive(Debug, Clone, Copy, PartialEq, Eq)]
pub struct EvictionPlan {
    pub capacity: u64,
    pub working_set: u64,
    pub value_size: usize,
}

/// The eviction experiment's settings from its parameters: the capacity,
/// working set and value size, each raised to at least 1.
pub fn plan_eviction(params: &EvictionParams) -> (plan: EvictionPlan)
    ensures
        plan.capacity == if params.capacity_bytes >= 1 { params.capacity_bytes } else { 1 },
        plan.working_set == if params.working_set >= 1 { params.working_set } else { 1 },
        plan.value_size == if params.value_size >= 1 { params.value_size } else { 1 },
{
    EvictionPlan {
        capacity: if params.capacity_bytes >= 1 { params.capacity_bytes } else { 1 },
        working_set: if params.working_set >= 1 { params.working_set } else { 1 },
        value_size: if params.value_size >= 1 { params.value_size } else { 1 },
    }
}

/// The requested working-set sizes, each kept within `1..=working_set`.
pub fn clamp_samples(samples: &Vec<u64>, working_set: u64) -> (counts: Vec<u64>)
    ensures
        counts@.len() == samples@.len(),
        forall|i: int| 0 <= i < samples@.len() ==> #[trigger] counts@[i] == if samples@[i] > working_set {
            if working_set >= 1 { working_set } else { 1 }
        } else if samples@[i] >= 1 {
            samples@[i]
        } else {
            1
        },
{
    let mut counts: Vec<u64> = Vec::new();
    let mut i: usize = 0;
    while i < samples.len()
        invariant
            i <= samples@.len(),
            counts@.len() == i,
            forall|j: int| 0 <= j < i ==> #[trigger] counts@[j] == if samples@[j] > working_set {
                if working_set >= 1 { working_set } else { 1 }
            } else if samples@[j] >= 1 {
                samples@[j]
            } else {
                1
            },
        decreases samples@.len() - i,
    {
        let s = samples[i];
        let capped = if s > working_set { working_set } else { s };
        counts.push(if capped >= 1 { capped } else { 1 });
        i = i + 1;
    }
    counts
}

/// What reading back a working set gave.
#[derive(Debug, Clone, Copy, PartialEq, Eq)]
pub struct WorkingSetSample {
    /// Keys written.
    pub keys: u64,
    /// Keys still stored after the writes.
    pub resident: u64,
    /// Keys evicted by the writes.
    pub evictions: u64,
    /// Reads that found their key.
    pub hits: u64,
    /// Reads made.
    pub attempts: u64,
}

/// Writes the first `count` experiment keys into a fresh store capped at
/// `capacity` bytes, then probes them.
pub fn sample_working_set(capacity: u64, count: u64, value: &[u8], now: u64) -> (s: WorkingSetSample)
    requires
        fill_fits_spec(capacity, 0, count as nat, value@),
        1 <= count <= usize::MAX,
    ensures
        s.keys == count,
        s.resident == filled(empty_cache(capacity), count as nat, value@, None, now).order.len(),
        s.evictions == filled_evictions(empty_cache(capacity), 0, count as nat, value@, None, now),
        s.attempts == clamped(capped_product(count, 3), 2_000, 60_000),
        s.hits == probe_run(
            filled(empty_cache(capacity), count as nat, value@, None, now),
            key_names(count as nat),
            s.attempts as nat,
            now,
        ).1,
{
    let mut store = CacheStore::new(capacity);
    fill(&mut store, count, value, None, now);
    let resident = store.key_count() as u64;
    let evictions = store.eviction_count();
    let keys = keyset(count);
    assert(names(keys@) =~= key_names(count as nat));
    let attempts = eviction_probe_attempts(count);
    let hits = probe(&mut store, &keys, attempts, now);
    WorkingSetSample { keys: count, resident, evictions, hits, attempts }
}

/// The TTL experiment's settings.
#[derive(Debug, Clone, Copy, PartialEq, Eq)]
pub struct TtlPlan {
    pub keys: u64,
    pub ttl_secs: u64,
    pub interval_secs: u64,
    pub value_size: usize,
    /// The store's memory cap: four times what the keys' values take, and
    /// at least 8 MiB.
    pub capacity: u64,
}

/// The TTL experiment's settings from its parameters: every figure raised
/// to at least 1, and a memory cap that keeps every key resident.
pub fn plan_ttl(params: &TtlParams) -> (plan: TtlPlan)
    ensures
        plan.keys == if params.keys >= 1 { params.keys } else { 1 },
        plan.ttl_secs == if params.ttl_secs >= 1 { params.ttl_secs } else { 1 },
        plan.interval_secs == if params.interval_secs >= 1 { params.interval_secs } else { 1 },
        plan.value_size == if params.value_size >= 1 { params.value_size } else { 1 },
        plan.capacity == if capped_product(capped_product(plan.keys, plan.value_size as u64) as u64, 4) < 8_388_608 {
            8_388_608
        } else {
            capped_product(capped_product(plan.keys, plan.value_size as u64) as u64, 4)
        },
{
    let keys = if params.keys >= 1 { params.keys } else { 1 };
    let value_size = if params.value_size >= 1 { params.value_size } else { 1 };
    let per_value = match keys.checked_mul(value_size as u64) {
        Some(p) => p,
        None => u64::MAX,
    };
    let total = match per_value.checked_mul(4) {
        Some(p) => p,
        None => u64::MAX,
    };
    TtlPlan {
        keys,
        ttl_secs: if params.ttl_secs >= 1 { params.ttl_secs } else { 1 },
        interval_secs: if params.interval_secs >= 1 { params.interval_secs } else { 1 },
        value_size,
        capacity: if total < 8_388_608 { 8_388_608 } else { total },
    }
}

/// One reading of the TTL experiment.
#[derive(Debug, Clone, Copy, PartialEq, Eq)]
pub struct TtlSample {
    pub elapsed_secs: u64,
    /// Keys still stored.
    pub remaining: u64,
    /// Reads that found their key.
    pub hits: u64,
    /// Reads made.
    pub attempts: u64,
}

/// The store a TTL reading probes: after `elapsed_secs` have passed,
/// expired keys are purged first.
pub open spec fn ttl_reading_store(m: CacheModel, elapsed_secs: u64, now: u64) -> CacheModel {
    if elapsed_secs > 0 {
        purge_model(m, m.order, now).0
    } else {
        m
    }
}

/// Takes one reading at `now`: purges expired keys unless no time has
/// passed yet, counts the keys left, then probes `keys`.
pub fn ttl_sample(store: &mut CacheStore, keys: &Vec<String>, elapsed_secs: u64, now: u64) -> (s: TtlSample)
    requires
        old(store).wf(),
        keys@.len() > 0,
    ensures
        final(store).wf(),
        s.elapsed_secs == elapsed_secs,
        s.remaining == ttl_reading_store(old(store).view(), elapsed_secs, now).order.len(),
        s.attempts == clamped(capped_product(keys@.len() as u64, 2), 2_000, 20_000),
        final(store).view() == probe_run(ttl_reading_store(old(store).view(), elapsed_secs, now), names(keys@), s.attempts as nat, now).0,
        s.hits == probe_run(ttl_reading_store(old(store).view(), elapsed_secs, now), names(keys@), s.attempts as nat, now).1,
{
    if elapsed_secs > 0 {
        store.purge_expired_at(now);
    }
    let remaining = store.key_count() as u64;
    let attempts = ttl_probe_attempts(keys.len() as u64);
    let hits = probe(store, keys, attempts, now);
    TtlSample { elapsed_secs, remaining, hits, attempts }
}

/// What the TTL experiment does after a reading.
#[derive(Debug, Clone, Copy, PartialEq, Eq)]
pub enum NextReading {
    /// Every key is gone, or two seconds past the TTL have elapsed.
    Finished,
    /// Read again at this many seconds.
    At(u64),
    /// The next time does not fit in a `u64`.
    Overflow,
}

/// When the TTL experiment takes its next reading: `interval_secs` later,
/// unless every key is gone or two seconds past the TTL have elapsed.
pub fn ttl_next_reading(remaining: u64, elapsed_secs: u64, ttl_secs: u64, interval_secs: u64) -> (next: NextReading)
    ensures
        next == if remaining == 0 {
            NextReading::Finished
        } else if ttl_secs + 2 > u64::MAX {
            NextReading::Overflow
        } else if elapsed_secs >= ttl_secs + 2 {
            NextReading::Finished
        } else if elapsed_secs + interval_secs > u64::MAX {
            NextReading::Overflow
        } else {
            NextReading::At((elapsed_secs + interval_secs) as u64)
        },
{
    if remaining == 0 {
        return NextReading::Finished;
    }
    let deadline = match ttl_secs.checked_add(2) {
        Some(d) => d,
        None => {
            return NextReading::Overflow;
        },
    };
    if elapsed_secs >= deadline {
        return NextReading::Finished;
    }
    match elapsed_secs.checked_add(interval_secs) {
        Some(next) => NextReading::At(next),
        None => NextReading::Overflow,
    }
}

/// The failure experiment's settings.
#[derive(Debug, Clone, Copy, PartialEq, Eq)]
pub struct FailurePlan {
    /// The node that is killed.
    pub target: u16,
    /// The node whose view of its peers shows the failure.
    pub probe_node: u16,
    pub warmup_sets: u64,
    pub verify_samples: u64,
    pub workers: usize,
    pub value_size: usize,
}

/// Why the failure experiment cannot run on `node_count` nodes, if it cannot.
pub open spec fn failure_refusal(node_count: u16, node_id: u16) -> Option<Seq<char>> {
    if !(1 <= node_id <= node_count) {
        Some("node "@ + decimal(node_id as nat) + " is out of range (1..="@ + decimal(node_count as nat) + ")"@)
    } else if node_count < 2 {
        Some("the failure experiment needs at least 2 nodes"@)
    } else {
        None
    }
}

/// The failure experiment's settings on a cluster of `node_count` nodes:
/// the target must be one of them and there must be another to watch it;
/// the counts are raised to at least 1.
pub fn plan_failure(node_count: u16, params: &FailureParams) -> (plan: Result<FailurePlan, String>)
    ensures
        match plan {
            Result::Err(message) => failure_refusal(node_count, params.node_id) == Some(message@),
            Result::Ok(p) => {
                &&& failure_refusal(node_count, params.node_id) is None
                &&& p.target == params.node_id
                &&& p.probe_node == if params.node_id == 1 { 2u16 } else { 1u16 }
                &&& p.warmup_sets == if params.warmup_sets >= 1 { params.warmup_sets } else { 1 }
                &&& p.verify_samples == if params.verify_samples >= 1 { params.verify_samples } else { 1 }
                &&& p.workers == if params.workers >= 1 { params.workers } else { 1 }
                &&& p.value_size == if params.value_size >= 1 { params.value_size } else { 1 }
            },
        },
{
    let target = params.node_id;
    if !(1 <= target && target <= node_count) {
        let mut message = owned("node ");
        let id = decimal_text(target as u64);
        message.append(id.as_str());
        message.append(" is out of range (1..=");
        let count = decimal_text(node_count as u64);
        message.append(count.as_str());
        message.append(")");
        return Err(message);
    }
    if node_count < 2 {
        return Err(owned("the failure experiment needs at least 2 nodes"));
    }
    Ok(FailurePlan {
        target,
        probe_node: if target == 1 { 2 } else { 1 },
        warmup_sets: if params.warmup_sets >= 1 { params.warmup_sets } else { 1 },
        verify_samples: if params.verify_samples >= 1 { params.verify_samples } else { 1 },
        workers: if params.workers >= 1 { params.workers } else { 1 },
        value_size: if params.value_size >= 1 { params.value_size } else { 1 },
    })
}

/// The key a failure-experiment reader starts at: readers are spread
/// evenly over the warm-up keys.
pub fn reader_start(index: u64, workers: u64, warmup_sets: u64) -> (start: u64)
    requires
        index < workers,
        warmup_sets >= 1,
    ensures
        start == (index * (if warmup_sets / workers >= 1 { warmup_sets / workers } else { 1 })) % (warmup_sets as int),
{
    let stride = if warmup_sets / workers >= 1 { warmup_sets / workers } else { 1 };
    assert(index * stride <= u64::MAX) by (nonlinear_arith)
        requires
            index < workers,
            stride == if warmup_sets / workers >= 1 { warmup_sets / workers } else { 1 },
            warmup_sets <= u64::MAX,
            workers <= u64::MAX,
    {
        if warmup_sets / workers >= 1 {
            assert(index * stride <= workers * (warmup_sets / workers));
            assert(workers * (warmup_sets / workers) <= warmup_sets);
        } else {
            assert(index * stride == index);
        }
    }
    (index * stride) % warmup_sets
}

/// When the watching node first reported a suspected and a failed peer,
/// in nanoseconds since the workload started.
#[derive(Debug, Clone, Copy, PartialEq, Eq)]
pub struct Detection {
    pub suspected_at: Option<u64>,
    pub failed_at: Option<u64>,
}

impl Detection {
    /// Nothing reported yet.
    pub fn new() -> (d: Self)
        ensures
            d.suspected_at is None && d.failed_at is None,
    {
        Detection { suspected_at: None, failed_at: None }
    }

    /// Takes in the peer counts the watching node reported at `now`, if it
    /// answered and tracks peers: the first report of a suspected and of a
    /// failed peer is kept.
    pub fn observe(&mut self, peers: Option<PeerCounts>, now: u64)
        ensures
            final(self).suspected_at == match (old(self).suspected_at, peers) {
                (None, Some(p)) => if p.suspected >= 1 { Some(now) } else { None::<u64> },
                _ => old(self).suspected_at,
            },
            final(self).failed_at == match (old(self).failed_at, peers) {
                (None, Some(p)) => if p.failed >= 1 { Some(now) } else { None::<u64> },
                _ => old(self).failed_at,
            },
    {
        match peers {
            Some(p) => {
                if p.suspected >= 1 && self.suspected_at.is_none() {
                    self.suspected_at = Some(now);
                }
                if p.failed >= 1 && self.failed_at.is_none() {
                    self.failed_at = Some(now);
                }
            },
            None => {},
        }
    }

    /// Whether the failure has been reported.
    pub fn is_complete(&self) -> (done: bool)
        ensures
            done == self.failed_at is Some,
    {
        self.failed_at.is_some()
    }

    /// The suspicion and failure times, with `killed_at` standing in for
    /// one never reported.
    pub fn times(&self, killed_at: u64) -> (t: (u64, u64))
        ensures
            t.0 == match self.suspected_at {
                Some(s) => s,
                None => killed_at,
            },
            t.1 == match self.failed_at {
                Some(f) => f,
                None => killed_at,
            },
    {
        let suspected = match self.suspected_at {
            Some(s) => s,
            None => killed_at,
        };
        let failed = match self.failed_at {
            Some(f) => f,
            None => killed_at,
        };
        (suspected, failed)
    }
}

/// Reads made and reads failed between two samples of the readers'
/// (hits, misses, errors) counters; at least one read is counted.
pub fn outage_counts(before: (u64, u64, u64), after: (u64, u64, u64)) -> (counts: (u64, u64))
    requires
        before.0 + before.1 + before.2 <= u64::MAX,
        after.0 + after.1 + after.2 <= u64::MAX,
    ensures
        counts.0 == if after.0 + after.1 + after.2 - (before.0 + before.1 + before.2) >= 1 {
            after.0 + after.1 + after.2 - (before.0 + before.1 + before.2)
        } else {
            1
        },
        counts.1 == if after.2 >= before.2 { after.2 - before.2 } else { 0 },
{
    let total_before = before.0 + before.1 + before.2;
    let total_after = after.0 + after.1 + after.2;
    let gets = total_after.saturating_sub(total_before);
    let errors = after.2.saturating_sub(before.2);
    (if gets >= 1 { gets } else { 1 }, errors)
}

/// The client counts the scalability experiment runs: the default series
/// when none is given, each raised to at least 1 otherwise.
pub fn client_counts(clients: &Vec<usize>) -> (counts: Vec<usize>)
    ensures
        clients@.len() == 0 ==> counts@ == seq![10usize, 50, 100, 250, 500, 1000],
        clients@.len() > 0 ==> counts@.len() == clients@.len(),
        clients@.len() > 0 ==> forall|i: int| 0 <= i < clients@.len() ==> #[trigger] counts@[i] == if clients@[i] >= 1 {
            clients@[i]
        } else {
            1
        },
{
    if clients.len() == 0 {
        let v = vec![10usize, 50, 100, 250, 500, 1000];
        assert(v@ =~= seq![10usize, 50, 100, 250, 500, 1000]);
        return v;
    }
    let mut counts: Vec<usize> = Vec::new();
    let mut i: usize = 0;
    while i < clients.len()
        invariant
            i <= clients@.len(),
            counts@.len() == i,
            forall|j: int| 0 <= j < i ==> #[trigger] counts@[j] == if clients@[j] >= 1 { clients@[j] } else { 1 },
        decreases clients@.len() - i,
    {
        let c = clients[i];
        counts.push(if c >= 1 { c } else { 1 });
        i = i + 1;
    }
    counts
}

/// The replication factors the replication experiment compares: 1 and 2
/// when none are given, each kept within `1..=4` otherwise.
pub fn replication_factors(factors: &Vec<u32>) -> (out: Vec<u32>)
    ensures
        factors@.len() == 0 ==> out@ == seq![1u32, 2],
        factors@.len() > 0 ==> out@.len() == factors@.len(),
        factors@.len() > 0 ==> forall|i: int| 0 <= i < factors@.len() ==> #[trigger] out@[i] == if factors@[i] < 1 {
            1
        } else if factors@[i] > 4 {
            4
        } else {
            factors@[i]
        },
{
    if factors.len() == 0 {
        let v = vec![1u32, 2];
        assert(v@ =~= seq![1u32, 2]);
        return v;
    }
    let mut out: Vec<u32> = Vec::new();
    let mut i: usize = 0;
    while i < factors.len()
        invariant
            i <= factors@.len(),
            out@.len() == i,
            forall|j: int| 0 <= j < i ==> #[trigger] out@[j] == if factors@[j] < 1 {
                1
            } else if factors@[j] > 4 {
                4
            } else {
                factors@[j]
            },
        decreases factors@.len() - i,
    {
        let f = factors[i];
        out.push(if f < 1 { 1 } else if f > 4 { 4 } else { f });
        i = i + 1;
    }
    out
}

/// The keys the hashing experiment routes: `count` experiment keys
/// numbered from `seed` (wrapping).
pub fn hashing_keys(count: u64, seed: u64) -> (keys: Vec<String>)
    requires
        count <= usize::MAX,
    ensures
        keys@.len() == count,
        forall|i: int| 0 <= i < count ==> #[trigger] keys@[i]@ == key_name((i as u64).wrapping_add(seed)),
{
    let mut keys: Vec<String> = Vec::new();
    let mut i: u64 = 0;
    while i < count
        invariant
            i <= count,
            keys@.len() == i,
            forall|j: int| 0 <= j < i ==> #[trigger] keys@[j]@ == key_name((j as u64).wrapping_add(seed)),
        decreases count - i,
    {
        keys.push(key_text(i.wrapping_add(seed)));
        i = i + 1;
    }
    keys
}

/// The addresses `127.0.0.1:7001` to `127.0.0.1:700n` of a local cluster
/// of `n` nodes, as the hashing experiment lays them out.
pub fn local_nodes(n: u16) -> (nodes: Vec<String>)
    ensures
        nodes@.len() == n,
        forall|i: int| 0 <= i < n ==> #[trigger] nodes@[i]@ == "127.0.0.1:"@ + decimal((7001 + i) as nat),
{
    let mut nodes: Vec<String> = Vec::new();
    let mut i: u16 = 0;
    while i < n
        invariant
            i <= n,
            nodes@.len() == i,
            forall|j: int| 0 <= j < i ==> #[trigger] nodes@[j]@ == "127.0.0.1:"@ + decimal((7001 + j) as nat),
        decreases n - i,
    {
        let mut address = owned("127.0.0.1:");
        let port = decimal_text(7001u64 + i as u64);
        address.append(port.as_str());
        nodes.push(address);
        i = i + 1;
    }
    nodes
}

/// The key order a load request names: `sequential`, or uniform for
/// anything else.
pub fn key_order_named(name: &str) -> (order: KeyOrder)
    ensures
        order == if name@ == "sequential"@ { KeyOrder::Sequential } else { KeyOrder::Uniform },
{
    if str_equal(name, "sequential") {
        KeyOrder::Sequential
    } else {
        KeyOrder::Uniform
    }
}

/// The router a load request names: `modulo`, or consistent hashing for
/// anything else.
pub fn router_named(name: &str) -> (router: RouterKind)
    ensures
        router == if name@ == "modulo"@ { RouterKind::Modulo } else { RouterKind::Consistent },
{
    if str_equal(name, "modulo") {
        RouterKind::Modulo
    } else {
        RouterKind::Consistent
    }
}

} // verus!
