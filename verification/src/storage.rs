use crate::entry::{expired_at, expiry_after, remaining_at, Clock, Entry, NANOS_PER_SEC};
use crate::hashing::{fnv1a64, spec_fnv1a64};
use crate::text::{owned, str_equal};
use std::collections::HashMap;
use vstd::prelude::*;
use vstd::string::*;
use vstd::utf8::*;

verus! {

broadcast use vstd::std_specs::hash::group_hash_axioms;

/// The bucket a key lives in: the FNV-1a hash of its UTF-8 bytes.
pub open spec fn key_hash(key: Seq<char>) -> u64 {
    spec_fnv1a64(encode_utf8(key))
}

/// The bucket of `key`.
fn hash_of(key: &str) -> (h: u64)
    ensures
        h == key_hash(key@),
{
    fnv1a64(key.as_bytes())
}

/// A stored entry with its key, its slot in the recency list and its
/// accounted size.
struct IndexedEntry {
    key: String,
    entry: Entry,
    lru_index: usize,
    bytes: u64,
}

/// The element at position `j` of bucket `h` is the entry its key maps to.
spec fn bucket_slot_ok(b: Map<u64, Vec<IndexedEntry>>, e: Map<Seq<char>, IndexedEntry>, h: u64, j: int) -> bool {
    let x = b[h]@[j];
    &&& key_hash(x.key@) == h
    &&& e.contains_key(x.key@)
    &&& e[x.key@] == x
}

/// The buckets hold exactly the entries of `e`, each in the bucket of its key.
spec fn buckets_wf(b: Map<u64, Vec<IndexedEntry>>, e: Map<Seq<char>, IndexedEntry>) -> bool {
    &&& forall|h: u64, j: int| b.contains_key(h) && 0 <= j < b[h]@.len() ==> #[trigger] bucket_slot_ok(b, e, h, j)
    &&& forall|h: u64, j1: int, j2: int|
        b.contains_key(h) && 0 <= j1 < b[h]@.len() && 0 <= j2 < b[h]@.len() && j1 != j2
            ==> #[trigger] b[h]@[j1].key@ != #[trigger] b[h]@[j2].key@
    &&& forall|k: Seq<char>| #[trigger] e.contains_key(k) ==> {
        &&& e[k].key@ == k
        &&& b.contains_key(key_hash(k))
        &&& b[key_hash(k)]@.contains(e[k])
    }
}

/// Position of `key` in its bucket `h`, if the key is stored.
fn bucket_find(buckets: &HashMap<u64, Vec<IndexedEntry>>, key: &str, h: u64, Ghost(e): Ghost<Map<Seq<char>, IndexedEntry>>) -> (pos: Option<usize>)
    requires
        buckets_wf(buckets@, e),
        h == key_hash(key@),
    ensures
        match pos {
            Some(j) => {
                &&& e.contains_key(key@)
                &&& buckets@.contains_key(h)
                &&& j < buckets@[h]@.len()
                &&& buckets@[h]@[j as int] == e[key@]
            },
            None => !e.contains_key(key@),
        },
{
    match buckets.get(&h) {
        None => {
            proof {
                if e.contains_key(key@) {
                    assert(buckets@.contains_key(key_hash(key@)));
                }
            }
            None
        },
        Some(bucket) => {
            let n = bucket.len();
            let mut j: usize = 0;
            while j < n
                invariant
                    buckets_wf(buckets@, e),
                    h == key_hash(key@),
                    buckets@.contains_key(h),
                    *bucket == buckets@[h],
                    n == bucket@.len(),
                    j <= n,
                    forall|m: int| 0 <= m < j ==> bucket@[m].key@ != key@,
                decreases n - j,
            {
                if str_equal(bucket[j].key.as_str(), key) {
                    proof {
                        assert(bucket_slot_ok(buckets@, e, h, j as int));
                    }
                    return Some(j);
                }
                j = j + 1;
            }
            proof {
                if e.contains_key(key@) {
                    let m = bucket@.index_of(e[key@]);
                    assert(bucket@[m].key@ == key@);
                }
            }
            None
        },
    }
}

/// Takes the entry of `key` out of the buckets.
fn bucket_remove(buckets: &mut HashMap<u64, Vec<IndexedEntry>>, key: &str, h: u64, Ghost(e): Ghost<Map<Seq<char>, IndexedEntry>>) -> (removed: Option<IndexedEntry>)
    requires
        buckets_wf(old(buckets)@, e),
        h == key_hash(key@),
    ensures
        match removed {
            Some(x) => {
                &&& e.contains_key(key@)
                &&& x == e[key@]
                &&& buckets_wf(final(buckets)@, e.remove(key@))
            },
            None => !e.contains_key(key@) && final(buckets)@ == old(buckets)@,
        },
{
    let pos = bucket_find(buckets, key, h, Ghost(e));
    let j = match pos {
        None => return None,
        Some(j) => j,
    };
    let mut bucket = match buckets.remove(&h) {
        Some(bucket) => bucket,
        None => {
            proof { assert(false); }
            return None;
        },
    };
    let ghost b0 = old(buckets)@;
    let ghost old_bucket = bucket@;
    let x = bucket.remove(j);
    let ghost nb = bucket@;
    if bucket.len() > 0 {
        buckets.insert(h, bucket);
    }
    proof {
        let k = key@;
        let e2 = e.remove(k);
        let b2 = buckets@;
        assert(x == e[k]);
        assert forall|h2: u64, m: int| b2.contains_key(h2) && 0 <= m < b2[h2]@.len() implies #[trigger] bucket_slot_ok(b2, e2, h2, m) by {
            if h2 == h {
                assert(b2[h2]@ == nb);
                let m0 = if m < j { m } else { m + 1 };
                assert(nb[m] == old_bucket[m0]);
                assert(bucket_slot_ok(b0, e, h, m0));
                assert(old_bucket[m0].key@ != old_bucket[j as int].key@);
            } else {
                assert(b2[h2] == b0[h2]);
                assert(bucket_slot_ok(b0, e, h2, m));
            }
        }
        assert forall|h2: u64, j1: int, j2: int|
            b2.contains_key(h2) && 0 <= j1 < b2[h2]@.len() && 0 <= j2 < b2[h2]@.len() && j1 != j2
            implies #[trigger] b2[h2]@[j1].key@ != #[trigger] b2[h2]@[j2].key@ by {
            if h2 == h {
                let a1 = if j1 < j { j1 } else { j1 + 1 };
                let a2 = if j2 < j { j2 } else { j2 + 1 };
                assert(nb[j1] == old_bucket[a1]);
                assert(nb[j2] == old_bucket[a2]);
                assert(old_bucket[a1].key@ != old_bucket[a2].key@);
            } else {
                assert(b2[h2] == b0[h2]);
                assert(b0[h2]@[j1].key@ != b0[h2]@[j2].key@);
            }
        }
        assert forall|k2: Seq<char>| #[trigger] e2.contains_key(k2) implies {
            &&& e2[k2].key@ == k2
            &&& b2.contains_key(key_hash(k2))
            &&& b2[key_hash(k2)]@.contains(e2[k2])
        } by {
            assert(e.contains_key(k2));
            if key_hash(k2) == h {
                let m = old_bucket.index_of(e[k2]);
                assert(old_bucket[m] == e[k2]);
                assert(m != j) by {
                    assert(old_bucket[j as int].key@ == k);
                }
                let m2 = if m < j { m } else { m - 1 };
                assert(nb[m2] == e[k2]);
                assert(nb.len() > 0);
            } else {
                assert(b2[key_hash(k2)] == b0[key_hash(k2)]);
            }
        }
    }
    Some(x)
}

/// Files the entry `x`, whose key is not stored yet, under its bucket `h`.
fn bucket_insert(buckets: &mut HashMap<u64, Vec<IndexedEntry>>, h: u64, x: IndexedEntry, Ghost(e): Ghost<Map<Seq<char>, IndexedEntry>>)
    requires
        buckets_wf(old(buckets)@, e),
        h == key_hash(x.key@),
        !e.contains_key(x.key@),
    ensures
        buckets_wf(final(buckets)@, e.insert(x.key@, x)),
{
    let ghost b0 = old(buckets)@;
    let mut bucket = match buckets.remove(&h) {
        Some(bucket) => bucket,
        None => Vec::new(),
    };
    let ghost old_bucket = bucket@;
    proof {
        if b0.contains_key(h) {
            assert(old_bucket == b0[h]@);
        } else {
            assert(old_bucket.len() == 0);
        }
    }
    bucket.push(x);
    let ghost nb = bucket@;
    buckets.insert(h, bucket);
    proof {
        let k = x.key@;
        let e2 = e.insert(k, x);
        let b2 = buckets@;
        assert forall|h2: u64, m: int| b2.contains_key(h2) && 0 <= m < b2[h2]@.len() implies #[trigger] bucket_slot_ok(b2, e2, h2, m) by {
            if h2 == h {
                if m < old_bucket.len() {
                    assert(nb[m] == old_bucket[m]);
                    assert(bucket_slot_ok(b0, e, h, m));
                } else {
                    assert(nb[m] == x);
                }
            } else {
                assert(b2[h2] == b0[h2]);
                assert(bucket_slot_ok(b0, e, h2, m));
            }
        }
        assert forall|h2: u64, j1: int, j2: int|
            b2.contains_key(h2) && 0 <= j1 < b2[h2]@.len() && 0 <= j2 < b2[h2]@.len() && j1 != j2
            implies #[trigger] b2[h2]@[j1].key@ != #[trigger] b2[h2]@[j2].key@ by {
            if h2 == h {
                if j1 < old_bucket.len() && j2 < old_bucket.len() {
                    assert(b0[h2]@[j1].key@ != b0[h2]@[j2].key@);
                } else if j1 < old_bucket.len() {
                    assert(bucket_slot_ok(b0, e, h, j1));
                } else {
                    assert(bucket_slot_ok(b0, e, h, j2));
                }
            } else {
                assert(b2[h2] == b0[h2]);
                assert(b0[h2]@[j1].key@ != b0[h2]@[j2].key@);
            }
        }
        assert forall|k2: Seq<char>| #[trigger] e2.contains_key(k2) implies {
            &&& e2[k2].key@ == k2
            &&& b2.contains_key(key_hash(k2))
            &&& b2[key_hash(k2)]@.contains(e2[k2])
        } by {
            if k2 == k {
                assert(nb[nb.len() - 1] == x);
            } else {
                assert(e.contains_key(k2));
                if key_hash(k2) == h {
                    let m = old_bucket.index_of(e[k2]);
                    assert(nb[m] == e[k2]);
                } else {
                    assert(b2[key_hash(k2)] == b0[key_hash(k2)]);
                }
            }
        }
    }
}


/// Bytes added to every entry's key and value when accounting memory.
pub const ENTRY_OVERHEAD_BYTES: u64 = 64;

/// What the store holds for one key.
#[verifier::ext_equal]
pub struct StoredEntry {
    pub data: Seq<u8>,
    /// Expiry instant in nanoseconds on the store's clock, if any.
    pub expires_at: Option<u128>,
    /// Time of the last write or read, in nanoseconds on the store's clock.
    pub last_access: u64,
}

/// The abstract state of a cache store: its keys from least to most
/// recently used, what each key holds, and the memory cap.
#[verifier::ext_equal]
pub struct CacheModel {
    pub order: Seq<Seq<char>>,
    pub entries: Map<Seq<char>, StoredEntry>,
    pub max_memory: u64,
}

/// The accounted size of an entry: key bytes, value bytes and a fixed overhead.
pub open spec fn entry_bytes(key: Seq<char>, data: Seq<u8>) -> int {
    encode_utf8(key).len() + data.len() + ENTRY_OVERHEAD_BYTES
}

/// The accounted size of the entries of the keys in `order`.
pub open spec fn total_bytes(order: Seq<Seq<char>>, entries: Map<Seq<char>, StoredEntry>) -> int
    decreases order.len(),
{
    if order.len() == 0 {
        0
    } else {
        entry_bytes(order[0], entries[order[0]].data) + total_bytes(order.drop_first(), entries)
    }
}

/// `order` without the key `k`.
pub open spec fn without(order: Seq<Seq<char>>, k: Seq<char>) -> Seq<Seq<char>> {
    order.remove(order.index_of(k))
}

impl CacheModel {
    /// Bytes in use.
    pub open spec fn used(self) -> int {
        total_bytes(self.order, self.entries)
    }

    /// Every stored key appears once in the recency order and the memory cap holds.
    pub open spec fn wf(self) -> bool {
        &&& self.order.no_duplicates()
        &&& forall|k: Seq<char>| #[trigger] self.entries.contains_key(k) <==> self.order.contains(k)
        &&& self.used() <= self.max_memory
    }

    /// The model without the key `k`.
    pub open spec fn removed(self, k: Seq<char>) -> CacheModel {
        CacheModel { order: without(self.order, k), entries: self.entries.remove(k), max_memory: self.max_memory }
    }

    /// The model after `k` was read at `now`: most recently used and touched.
    pub open spec fn touched(self, k: Seq<char>, now: u64) -> CacheModel {
        CacheModel {
            order: without(self.order, k).push(k),
            entries: self.entries.insert(k, StoredEntry { last_access: now, ..self.entries[k] }),
            max_memory: self.max_memory,
        }
    }

    /// The model after `k` was written with `data` at `now`, before eviction.
    pub open spec fn staged(self, k: Seq<char>, data: Seq<u8>, ttl: Option<u64>, now: u64) -> CacheModel {
        CacheModel {
            order: if self.entries.contains_key(k) { without(self.order, k).push(k) } else { self.order.push(k) },
            entries: self.entries.insert(k, StoredEntry { data, expires_at: expiry_after(now, ttl), last_access: now }),
            max_memory: self.max_memory,
        }
    }
}

/// Evicts least recently used keys until the memory cap holds or nothing is
/// left; the result and how many keys went.
pub open spec fn evict_model(m: CacheModel) -> (CacheModel, nat)
    decreases m.order.len(),
{
    if m.order.len() == 0 || m.used() <= m.max_memory {
        (m, 0)
    } else {
        let k = m.order[0];
        let r = evict_model(CacheModel { order: m.order.drop_first(), entries: m.entries.remove(k), max_memory: m.max_memory });
        (r.0, r.1 + 1)
    }
}

/// The outcome of a write: the new model and how many keys it evicted.
pub open spec fn set_outcome(m: CacheModel, k: Seq<char>, data: Seq<u8>, ttl: Option<u64>, now: u64) -> (CacheModel, nat) {
    evict_model(m.staged(k, data, ttl, now))
}

/// The outcome of a read at `now`: the new model, the value found, and
/// whether the key was dropped because it had expired.
pub open spec fn get_outcome(m: CacheModel, k: Seq<char>, now: u64) -> (CacheModel, Option<Seq<u8>>, bool) {
    if !m.entries.contains_key(k) {
        (m, None, false)
    } else if expired_at(m.entries[k].expires_at, now) {
        (m.removed(k), None, true)
    } else {
        (m.touched(k, now), Some(m.entries[k].data), false)
    }
}

/// The outcome of a delete: the new model and whether the key was stored.
pub open spec fn delete_outcome(m: CacheModel, k: Seq<char>) -> (CacheModel, bool) {
    if m.entries.contains_key(k) {
        (m.removed(k), true)
    } else {
        (m, false)
    }
}

/// Drops, in turn, each key of `keys` whose entry is expired at `now`; the
/// result and how many keys went.
pub open spec fn purge_model(m: CacheModel, keys: Seq<Seq<char>>, now: u64) -> (CacheModel, nat)
    decreases keys.len(),
{
    if keys.len() == 0 {
        (m, 0)
    } else {
        let k = keys[0];
        if m.entries.contains_key(k) && expired_at(m.entries[k].expires_at, now) {
            let r = purge_model(m.removed(k), keys.drop_first(), now);
            (r.0, r.1 + 1)
        } else {
            purge_model(m, keys.drop_first(), now)
        }
    }
}

/// Remaining lifetime in whole seconds, as a snapshot records it.
pub open spec fn ttl_secs(expires_at: Option<u128>, now: u64) -> Option<u64> {
    match remaining_at(expires_at, now) {
        Some(nanos) => Some(if nanos / NANOS_PER_SEC > u64::MAX { u64::MAX } else { (nanos / NANOS_PER_SEC) as u64 }),
        None => None,
    }
}

/// What a snapshot at `now` lists: each key, least recently used first, with
/// its value and its remaining lifetime in whole seconds.
pub open spec fn snapshot_of(m: CacheModel, now: u64) -> Seq<(Seq<char>, Seq<u8>, Option<u64>)> {
    m.order.map_values(|k: Seq<char>| (k, m.entries[k].data, ttl_secs(m.entries[k].expires_at, now)))
}

/// The plain values a snapshot holds.
pub open spec fn snapshot_view(v: Seq<(String, Vec<u8>, Option<u64>)>) -> Seq<(Seq<char>, Seq<u8>, Option<u64>)> {
    v.map_values(|t: (String, Vec<u8>, Option<u64>)| (t.0@, t.1@, t.2))
}

/// The total depends only on the data stored for the keys in `o`.
pub proof fn lemma_total_congruent(o: Seq<Seq<char>>, e1: Map<Seq<char>, StoredEntry>, e2: Map<Seq<char>, StoredEntry>)
    requires
        forall|i: int| 0 <= i < o.len() ==> #[trigger] e1[o[i]].data == e2[o[i]].data,
    ensures
        total_bytes(o, e1) == total_bytes(o, e2),
    decreases o.len(),
{
    if o.len() > 0 {
        assert forall|i: int| 0 <= i < o.drop_first().len() implies #[trigger] e1[o.drop_first()[i]].data == e2[o.drop_first()[i]].data by {
            assert(o.drop_first()[i] == o[i + 1]);
        }
        assert(e1[o[0]].data == e2[o[0]].data);
        lemma_total_congruent(o.drop_first(), e1, e2);
    }
}

/// Appending a key adds its entry's size.
pub proof fn lemma_total_push(o: Seq<Seq<char>>, e: Map<Seq<char>, StoredEntry>, k: Seq<char>)
    ensures
        total_bytes(o.push(k), e) == total_bytes(o, e) + entry_bytes(k, e[k].data),
    decreases o.len(),
{
    if o.len() == 0 {
        assert(o.push(k).drop_first() =~= Seq::<Seq<char>>::empty());
        assert(total_bytes(o.push(k).drop_first(), e) == 0);
        assert(o.push(k)[0] == k);
    } else {
        assert(o.push(k).drop_first() =~= o.drop_first().push(k));
        assert(o.push(k)[0] == o[0]);
        lemma_total_push(o.drop_first(), e, k);
    }
}

/// Removing the key at position `p` subtracts its entry's size.
pub proof fn lemma_total_remove(o: Seq<Seq<char>>, e: Map<Seq<char>, StoredEntry>, p: int)
    requires
        0 <= p < o.len(),
    ensures
        total_bytes(o, e) == total_bytes(o.remove(p), e) + entry_bytes(o[p], e[o[p]].data),
    decreases o.len(),
{
    if p == 0 {
        assert(o.remove(0) =~= o.drop_first());
    } else {
        assert(o.remove(p).drop_first() =~= o.drop_first().remove(p - 1));
        assert(o.remove(p)[0] == o[0]);
        lemma_total_remove(o.drop_first(), e, p - 1);
    }
}

/// Totals are never negative.
pub proof fn lemma_total_nonneg(o: Seq<Seq<char>>, e: Map<Seq<char>, StoredEntry>)
    ensures
        total_bytes(o, e) >= 0,
    decreases o.len(),
{
    if o.len() > 0 {
        lemma_total_nonneg(o.drop_first(), e);
    }
}

/// A node of the recency list: the key it stands for and its neighbours.
struct LruNode {
    key: String,
    prev: Option<usize>,
    next: Option<usize>,
}

/// A doubly linked recency list kept in an arena of nodes, least recently
/// used at the head and most recently used at the tail. Freed slots are
/// recycled through `free`.
struct LruList {
    nodes: Vec<LruNode>,
    head: Option<usize>,
    tail: Option<usize>,
    free: Vec<usize>,
    /// The linked slots from head to tail.
    order: Ghost<Seq<usize>>,
}

impl LruList {
    /// The links of the node at position `i` of the order agree with its neighbours.
    spec fn link_ok(&self, i: int) -> bool {
        let o = self.order@;
        &&& self.nodes@[o[i] as int].prev == (if i == 0 { None::<usize> } else { Some(o[i - 1]) })
        &&& self.nodes@[o[i] as int].next == (if i == o.len() - 1 { None::<usize> } else { Some(o[i + 1]) })
    }

    spec fn wf(&self) -> bool {
        let o = self.order@;
        &&& o.no_duplicates()
        &&& self.free@.no_duplicates()
        &&& forall|i: int| 0 <= i < o.len() ==> #[trigger] o[i] < self.nodes@.len()
        &&& forall|j: int| 0 <= j < self.free@.len() ==> #[trigger] self.free@[j] < self.nodes@.len()
        &&& forall|j: int| 0 <= j < self.free@.len() ==> !o.contains(#[trigger] self.free@[j])
        &&& self.head == (if o.len() == 0 { None::<usize> } else { Some(o[0]) })
        &&& self.tail == (if o.len() == 0 { None::<usize> } else { Some(o.last()) })
        &&& forall|i: int| 0 <= i < o.len() ==> #[trigger] self.link_ok(i)
    }

    /// The keys of the linked nodes, least recently used first.
    spec fn keys(&self) -> Seq<Seq<char>> {
        self.order@.map_values(|i: usize| self.nodes@[i as int].key@)
    }

    fn new() -> (list: Self)
        ensures
            list.wf(),
            list.order@ == Seq::<usize>::empty(),
            list.nodes@.len() == 0,
    {
        LruList { nodes: Vec::new(), head: None, tail: None, free: Vec::new(), order: Ghost(Seq::empty()) }
    }

    /// Takes an unlinked slot for `key`, reusing a freed one when there is one.
    fn allocate(&mut self, key: String) -> (index: usize)
        requires
            old(self).wf(),
        ensures
            final(self).wf(),
            final(self).order@ == old(self).order@,
            index < final(self).nodes@.len(),
            !final(self).order@.contains(index),
            !final(self).free@.contains(index),
            final(self).nodes@[index as int].key@ == key@,
            old(self).nodes@.len() <= final(self).nodes@.len(),
            forall|j: int| 0 <= j < old(self).nodes@.len() && j != index ==> #[trigger] final(self).nodes@[j] == old(self).nodes@[j],
    {
        match self.free.pop() {
            Some(index) => {
                proof {
                    assert(old(self).free@[old(self).free@.len() - 1] == index);
                    assert(self.free@ =~= old(self).free@.drop_last());
                    assert forall|j: int| 0 <= j < self.free@.len() implies self.free@[j] != index by {
                        assert(old(self).free@[j] == self.free@[j]);
                    }
                }
                self.nodes.set(index, LruNode { key, prev: None, next: None });
                proof {
                    assert forall|i: int| 0 <= i < self.order@.len() implies #[trigger] self.link_ok(i) by {
                        assert(old(self).link_ok(i));
                        assert(self.order@[i] != index);
                        if i > 0 { assert(self.order@[i - 1] != index); }
                    }
                    assert forall|j: int| 0 <= j < self.free@.len() implies !self.order@.contains(#[trigger] self.free@[j]) by {
                        assert(old(self).free@[j] == self.free@[j]);
                    }
                }
                index
            },
            None => {
                self.nodes.push(LruNode { key, prev: None, next: None });
                let index = self.nodes.len() - 1;
                proof {
                    assert forall|i: int| 0 <= i < self.order@.len() implies #[trigger] self.link_ok(i) by {
                        assert(old(self).link_ok(i));
                    }
                    if self.order@.contains(index) {
                        let k = self.order@.index_of(index);
                        assert(self.order@[k] < old(self).nodes@.len());
                    }
                }
                index
            },
        }
    }

    /// Links the unlinked slot `index` in as most recently used.
    fn push_mru(&mut self, index: usize)
        requires
            old(self).wf(),
            index < old(self).nodes@.len(),
            !old(self).order@.contains(index),
            !old(self).free@.contains(index),
        ensures
            final(self).wf(),
            final(self).order@ == old(self).order@.push(index),
            final(self).free@ == old(self).free@,
            final(self).nodes@.len() == old(self).nodes@.len(),
            forall|j: int| 0 <= j < final(self).nodes@.len() ==> #[trigger] final(self).nodes@[j].key == old(self).nodes@[j].key,
    {
        let old_tail = self.tail;
        self.nodes[index].prev = old_tail;
        self.nodes[index].next = None;
        match old_tail {
            Some(t) => {
                self.nodes[t].next = Some(index);
            },
            None => {
                self.head = Some(index);
            },
        }
        self.tail = Some(index);
        let ghost o = old(self).order@;
        self.order = Ghost(o.push(index));
        proof {
            let n = o.len();
            assert forall|i: int| 0 <= i < self.order@.len() implies #[trigger] self.link_ok(i) by {
                if i < n {
                    assert(old(self).link_ok(i));
                    assert(o[i] != index);
                    if i > 0 { assert(o[i - 1] != index); }
                }
            }
            assert forall|j: int| 0 <= j < self.free@.len() implies !self.order@.contains(#[trigger] self.free@[j]) by {
                assert(!o.contains(self.free@[j]));
                if self.order@.contains(self.free@[j]) {
                    let k = self.order@.index_of(self.free@[j]);
                    if k < n { assert(o[k] == self.free@[j]); }
                }
            }
            assert forall|a: int, b: int| 0 <= a < b < self.order@.len() implies self.order@[a] != self.order@[b] by {
                if b == n { assert(o.contains(o[a])); }
            }
        }
    }

    /// Unlinks the linked slot `index`, leaving it neither linked nor free.
    fn unlink(&mut self, index: usize)
        requires
            old(self).wf(),
            old(self).order@.contains(index),
        ensures
            final(self).wf(),
            final(self).order@ == old(self).order@.remove(old(self).order@.index_of(index)),
            final(self).free@ == old(self).free@,
            final(self).nodes@.len() == old(self).nodes@.len(),
            forall|j: int| 0 <= j < final(self).nodes@.len() ==> #[trigger] final(self).nodes@[j].key == old(self).nodes@[j].key,
    {
        let ghost o = old(self).order@;
        let ghost k = o.index_of(index);
        proof {
            assert(old(self).link_ok(k));
        }
        let prev = self.nodes[index].prev;
        let next = self.nodes[index].next;
        match prev {
            Some(p) => {
                proof { assert(old(self).link_ok(k - 1)); }
                self.nodes[p].next = next;
            },
            None => {
                self.head = next;
            },
        }
        match next {
            Some(nx) => {
                proof { assert(old(self).link_ok(k + 1)); }
                self.nodes[nx].prev = prev;
            },
            None => {
                self.tail = prev;
            },
        }
        self.nodes[index].prev = None;
        self.nodes[index].next = None;
        self.order = Ghost(o.remove(k));
        proof {
            let n = o.len();
            let o2 = self.order@;
            assert forall|i: int| 0 <= i < o2.len() implies #[trigger] self.link_ok(i) by {
                if i < k {
                    assert(o2[i] == o[i]);
                    assert(old(self).link_ok(i));
                    assert(o[i] != index);
                    if i > 0 { assert(o[i - 1] != o[i]); }
                    if i + 1 < k { assert(o[i + 1] != o[i]); }
                } else {
                    assert(o2[i] == o[i + 1]);
                    assert(old(self).link_ok(i + 1));
                    assert(o[i + 1] != index);
                    if i + 2 < n { assert(o[i + 2] != o[i + 1]); }
                    if i > 0 { assert(o[i - 1] != o[i + 1]); }
                }
            }
            assert forall|j: int| 0 <= j < self.free@.len() implies !o2.contains(#[trigger] self.free@[j]) by {
                assert(!o.contains(self.free@[j]));
                if o2.contains(self.free@[j]) {
                    let m = o2.index_of(self.free@[j]);
                    if m < k { assert(o[m] == o2[m]); } else { assert(o[m + 1] == o2[m]); }
                }
            }
            assert forall|a: int, b: int| 0 <= a < b < o2.len() implies o2[a] != o2[b] by {
                let a1 = if a < k { a } else { a + 1 };
                let b1 = if b < k { b } else { b + 1 };
                assert(o2[a] == o[a1]);
                assert(o2[b] == o[b1]);
            }
            if o2.len() > 0 {
                assert(o2.last() == (if k == n - 1 { o[n - 2] } else { o[n - 1] }));
            }
        }
    }

    /// Makes the linked slot `index` the most recently used one.
    fn touch(&mut self, index: usize)
        requires
            old(self).wf(),
            old(self).order@.contains(index),
        ensures
            final(self).wf(),
            final(self).order@ == old(self).order@.remove(old(self).order@.index_of(index)).push(index),
            final(self).free@ == old(self).free@,
            final(self).nodes@.len() == old(self).nodes@.len(),
            forall|j: int| 0 <= j < final(self).nodes@.len() ==> #[trigger] final(self).nodes@[j].key == old(self).nodes@[j].key,
    {
        if self.tail == Some(index) {
            proof {
                let o = old(self).order@;
                assert(o.index_of(index) == o.len() - 1) by {
                    assert(o[o.len() - 1] == index);
                }
                assert(o.remove(o.len() - 1).push(index) =~= o);
            }
            return;
        }
        self.unlink(index);
        proof {
            let o = old(self).order@;
            let k = o.index_of(index);
            assert(!self.order@.contains(index)) by {
                if self.order@.contains(index) {
                    let m = self.order@.index_of(index);
                    if m < k { assert(o[m] == index); } else { assert(o[m + 1] == index); }
                }
            }
            assert(!self.free@.contains(index)) by {
                if self.free@.contains(index) {
                    let j = self.free@.index_of(index);
                    assert(!o.contains(self.free@[j]));
                }
            }
        }
        self.push_mru(index);
    }

    /// Unlinks the least recently used slot and frees it, handing back its key.
    fn pop_lru(&mut self) -> (popped: Option<(usize, String)>)
        requires
            old(self).wf(),
        ensures
            final(self).wf(),
            match popped {
                None => old(self).order@.len() == 0 && final(self).order@ == old(self).order@,
                Some((index, key)) => {
                    &&& old(self).order@.len() > 0
                    &&& index == old(self).order@[0]
                    &&& key@ == old(self).nodes@[index as int].key@
                    &&& final(self).order@ == old(self).order@.drop_first()
                },
            },
            final(self).nodes@.len() == old(self).nodes@.len(),
            forall|j: int| 0 <= j < final(self).nodes@.len() && final(self).order@.contains(j as usize) ==> #[trigger] final(self).nodes@[j].key == old(self).nodes@[j].key,
    {
        let index = match self.head {
            Some(index) => index,
            None => return None,
        };
        let ghost o = old(self).order@;
        proof {
            assert(o[0] == index);
            assert(o.index_of(index) == 0) by {
                assert(o.contains(index));
            }
        }
        let mut key = String::new();
        std::mem::swap(&mut key, &mut self.nodes[index].key);
        let ghost mid = self.nodes@;
        proof {
            assert forall|i: int| 0 <= i < self.order@.len() implies #[trigger] self.link_ok(i) by {
                assert(old(self).link_ok(i));
            }
        }
        self.unlink(index);
        proof {
            assert(o.remove(0) =~= o.drop_first());
            assert(!self.order@.contains(index)) by {
                if self.order@.contains(index) {
                    let m = self.order@.index_of(index);
                    assert(o[m + 1] == index);
                }
            }
            assert(!self.free@.contains(index)) by {
                if self.free@.contains(index) {
                    let j = self.free@.index_of(index);
                    assert(!o.contains(self.free@[j]));
                }
            }
            assert forall|j: int| 0 <= j < self.nodes@.len() && self.order@.contains(j as usize) implies #[trigger] self.nodes@[j].key == old(self).nodes@[j].key by {
                assert(j != index as int);
                assert(mid[j].key == old(self).nodes@[j].key);
            }
        }
        self.recycle(index);
        Some((index, key))
    }

    /// Puts the slot `index`, neither linked nor free, on the free list.
    fn recycle(&mut self, index: usize)
        requires
            old(self).wf(),
            index < old(self).nodes@.len(),
            !old(self).order@.contains(index),
            !old(self).free@.contains(index),
        ensures
            final(self).wf(),
            final(self).order@ == old(self).order@,
            final(self).nodes@ == old(self).nodes@,
            final(self).free@ == old(self).free@.push(index),
    {
        self.free.push(index);
        proof {
            assert forall|i: int| 0 <= i < self.order@.len() implies #[trigger] self.link_ok(i) by {
                assert(old(self).link_ok(i));
            }
            assert forall|a: int, b: int| 0 <= a < b < self.free@.len() implies self.free@[a] != self.free@[b] by {
                if b == old(self).free@.len() { assert(old(self).free@.contains(old(self).free@[a])); }
            }
        }
    }
}

} // verus!

verus! {

/// A sequence of distinct indices below `n` has at most `n` elements.
proof fn lemma_distinct_bounded(s: Seq<usize>, n: nat)
    requires
        s.no_duplicates(),
        forall|i: int| 0 <= i < s.len() ==> #[trigger] s[i] < n,
    ensures
        s.len() <= n,
    decreases n,
{
    if n == 0 {
        if s.len() > 0 {
            assert(s[0] < 0);
        }
    } else {
        let top = (n - 1) as usize;
        if s.contains(top) {
            let p = s.index_of(top);
            let t = s.remove(p);
            assert forall|i: int| 0 <= i < t.len() implies #[trigger] t[i] < (n - 1) as nat by {
                let i0 = if i < p { i } else { i + 1 };
                assert(t[i] == s[i0]);
                assert(s[i0] != s[p]);
            }
            assert forall|a: int, b: int| 0 <= a < b < t.len() implies t[a] != t[b] by {
                let a0 = if a < p { a } else { a + 1 };
                let b0 = if b < p { b } else { b + 1 };
                assert(t[a] == s[a0] && t[b] == s[b0]);
            }
            lemma_distinct_bounded(t, (n - 1) as nat);
        } else {
            assert forall|i: int| 0 <= i < s.len() implies #[trigger] s[i] < (n - 1) as nat by {
                assert(s[i] != top);
            }
            lemma_distinct_bounded(s, (n - 1) as nat);
        }
    }
}

/// What a stored entry holds, as the model sees it.
spec fn stored(ie: IndexedEntry) -> StoredEntry {
    StoredEntry { data: ie.entry.data@, expires_at: ie.entry.expires_at, last_access: ie.entry.last_access }
}

/// The cache proper: an index from keys to entries, the recency list over
/// them, and the memory accounting.
struct CacheInner {
    buckets: HashMap<u64, Vec<IndexedEntry>>,
    lru: LruList,
    used_bytes: u64,
    max_memory_bytes: u64,
    /// The stored entries by key.
    entries: Ghost<Map<Seq<char>, IndexedEntry>>,
}

impl CacheInner {
    spec fn view(&self) -> CacheModel {
        CacheModel {
            order: self.lru.keys(),
            entries: self.entries@.map_values(|ie: IndexedEntry| stored(ie)),
            max_memory: self.max_memory_bytes,
        }
    }

    /// The entry of `k` sits in a linked slot holding `k`, with its size accounted.
    spec fn entry_linked(&self, k: Seq<char>) -> bool {
        let ie = self.entries@[k];
        &&& self.lru.order@.contains(ie.lru_index)
        &&& self.lru.nodes@[ie.lru_index as int].key@ == k
        &&& ie.bytes == entry_bytes(k, ie.entry.data@)
    }

    /// The linked slot at position `i` holds a stored key whose entry points back at it.
    spec fn slot_linked(&self, i: int) -> bool {
        let k = self.lru.nodes@[self.lru.order@[i] as int].key@;
        &&& self.entries@.contains_key(k)
        &&& self.entries@[k].lru_index == self.lru.order@[i]
    }

    /// Everything but the memory cap.
    spec fn wf_core(&self) -> bool {
        &&& self.lru.wf()
        &&& buckets_wf(self.buckets@, self.entries@)
        &&& forall|k: Seq<char>| #[trigger] self.entries@.contains_key(k) ==> self.entry_linked(k)
        &&& forall|i: int| 0 <= i < self.lru.order@.len() ==> #[trigger] self.slot_linked(i)
        &&& self.used_bytes == self.view().used()
    }

    spec fn wf(&self) -> bool {
        &&& self.wf_core()
        &&& self.used_bytes <= self.max_memory_bytes
    }

    proof fn lemma_view(&self)
        requires
            self.wf_core(),
        ensures
            self.view().order.len() == self.lru.order@.len(),
            forall|i: int| 0 <= i < self.lru.order@.len() ==> #[trigger] self.view().order[i] == self.lru.nodes@[self.lru.order@[i] as int].key@,
            self.view().order.no_duplicates(),
            forall|k: Seq<char>| #[trigger] self.view().entries.contains_key(k) <==> self.view().order.contains(k),
            forall|k: Seq<char>| #[trigger] self.entries@.contains_key(k) ==> {
                &&& self.view().order.index_of(k) == self.lru.order@.index_of(self.entries@[k].lru_index)
                &&& self.lru.order@[self.lru.order@.index_of(self.entries@[k].lru_index)] == self.entries@[k].lru_index
            },
            self.view().order.len() <= self.lru.nodes@.len(),
    {
        let keys = self.view().order;
        let o = self.lru.order@;
        assert forall|a: int, b: int| 0 <= a < b < keys.len() implies keys[a] != keys[b] by {
            assert(self.slot_linked(a));
            assert(self.slot_linked(b));
        }
        assert forall|k: Seq<char>| #[trigger] self.view().entries.contains_key(k) <==> keys.contains(k) by {
            if self.entries@.contains_key(k) {
                assert(self.entry_linked(k));
                let p = o.index_of(self.entries@[k].lru_index);
                assert(keys[p] == k);
            }
            if keys.contains(k) {
                let i = keys.index_of(k);
                assert(self.slot_linked(i));
            }
        }
        assert forall|k: Seq<char>| #[trigger] self.entries@.contains_key(k) implies {
            &&& keys.index_of(k) == o.index_of(self.entries@[k].lru_index)
            &&& o[o.index_of(self.entries@[k].lru_index)] == self.entries@[k].lru_index
        } by {
            assert(self.entry_linked(k));
            let p = o.index_of(self.entries@[k].lru_index);
            assert(keys[p] == k);
            let q = keys.index_of(k);
            assert(keys[q] == k);
        }
        assert forall|i: int| 0 <= i < o.len() implies #[trigger] o[i] < self.lru.nodes@.len() by {}
        lemma_distinct_bounded(o, self.lru.nodes@.len() as nat);
    }

    fn new(max_memory_bytes: u64) -> (inner: Self)
        ensures
            inner.wf(),
            inner.view() == (CacheModel { order: Seq::empty(), entries: Map::empty(), max_memory: max_memory_bytes }),
    {
        let inner = CacheInner {
            buckets: HashMap::new(),
            lru: LruList::new(),
            used_bytes: 0,
            max_memory_bytes,
            entries: Ghost(Map::empty()),
        };
        proof {
            assert(inner.lru.keys() =~= Seq::<Seq<char>>::empty());
            assert(inner.view().entries =~= Map::<Seq<char>, StoredEntry>::empty());
        }
        inner
    }

    /// The accounted size of an entry for `key` holding `data_len` bytes.
    fn entry_size(key: &str, data_len: usize) -> (bytes: u64)
        requires
            encode_utf8(key@).len() + data_len + ENTRY_OVERHEAD_BYTES <= u64::MAX,
        ensures
            bytes == encode_utf8(key@).len() + data_len + ENTRY_OVERHEAD_BYTES,
    {
        key.as_bytes().len() as u64 + data_len as u64 + ENTRY_OVERHEAD_BYTES
    }

    /// Removes the stored entry of `key`, if any, from index and recency list.
    fn discard(&mut self, key: &str, h: u64) -> (removed: Option<IndexedEntry>)
        requires
            old(self).wf_core(),
            h == key_hash(key@),
        ensures
            final(self).wf_core(),
            final(self).max_memory_bytes == old(self).max_memory_bytes,
            final(self).used_bytes <= old(self).used_bytes,
            match removed {
                Some(ie) => {
                    &&& old(self).view().entries.contains_key(key@)
                    &&& final(self).view() == old(self).view().removed(key@)
                },
                None => {
                    &&& !old(self).view().entries.contains_key(key@)
                    &&& final(self).view() == old(self).view()
                    &&& final(self).used_bytes == old(self).used_bytes
                },
            },
    {
        let ghost e0 = self.entries@;
        let removed = bucket_remove(&mut self.buckets, key, h, Ghost(self.entries@));
        match removed {
            None => {
                proof {
                    assert(self.view().entries =~= old(self).view().entries);
                    assert forall|k2: Seq<char>| #[trigger] self.entries@.contains_key(k2) implies self.entry_linked(k2) by {
                        assert(old(self).entry_linked(k2));
                    }
                    assert forall|i: int| 0 <= i < self.lru.order@.len() implies #[trigger] self.slot_linked(i) by {
                        assert(old(self).slot_linked(i));
                    }
                }
                None
            },
            Some(ie) => {
                let ghost k = key@;
                proof {
                    old(self).lemma_view();
                    assert(old(self).entry_linked(k));
                }
                let ghost m0 = old(self).view();
                let ghost p = self.lru.order@.index_of(ie.lru_index);
                let ghost o0 = self.lru.order@;
                proof {
                    lemma_total_remove(m0.order, m0.entries, p);
                    lemma_total_nonneg(m0.order.remove(p), m0.entries);
                }
                self.used_bytes = self.used_bytes.saturating_sub(ie.bytes);
                self.lru.unlink(ie.lru_index);
                proof {
                    assert(!self.lru.order@.contains(ie.lru_index)) by {
                        if self.lru.order@.contains(ie.lru_index) {
                            let m = self.lru.order@.index_of(ie.lru_index);
                            if m < p { assert(o0[m] == ie.lru_index); } else { assert(o0[m + 1] == ie.lru_index); }
                        }
                    }
                    assert(!self.lru.free@.contains(ie.lru_index)) by {
                        if self.lru.free@.contains(ie.lru_index) {
                            let j = self.lru.free@.index_of(ie.lru_index);
                            assert(!o0.contains(self.lru.free@[j]));
                        }
                    }
                }
                self.lru.recycle(ie.lru_index);
                self.entries = Ghost(e0.remove(k));
                proof {
                    let o1 = self.lru.order@;
                    let m1 = self.view();
                    assert(o1 =~= o0.remove(p));
                    assert(m1.order =~= m0.order.remove(p)) by {
                        assert forall|i: int| 0 <= i < m1.order.len() implies m1.order[i] == m0.order.remove(p)[i] by {
                            let i0 = if i < p { i } else { i + 1 };
                            assert(o1[i] == o0[i0]);
                        }
                    }
                    assert(m1.entries =~= m0.entries.remove(k));
                    assert(m0.order.index_of(k) == p);
                    assert(m1 == m0.removed(k));
                    assert forall|i: int| 0 <= i < m1.order.len() implies #[trigger] m0.entries[m1.order[i]].data == m1.entries[m1.order[i]].data by {
                        let i0 = if i < p { i } else { i + 1 };
                        assert(m1.order[i] == m0.order[i0]);
                        assert(m0.order[i0] != m0.order[p]);
                    }
                    lemma_total_congruent(m1.order, m0.entries, m1.entries);
                    assert forall|k2: Seq<char>| #[trigger] self.entries@.contains_key(k2) implies self.entry_linked(k2) by {
                        assert(old(self).entry_linked(k2));
                        let idx = e0[k2].lru_index;
                        assert(idx != ie.lru_index);
                        let q = o0.index_of(idx);
                        assert(q != p);
                        let q1 = if q < p { q } else { q - 1 };
                        assert(o1[q1] == idx);
                    }
                    assert forall|i: int| 0 <= i < o1.len() implies #[trigger] self.slot_linked(i) by {
                        let i0 = if i < p { i } else { i + 1 };
                        assert(o1[i] == o0[i0]);
                        assert(old(self).slot_linked(i0));
                        assert(o0[i0] != o0[p]);
                    }
                }
                Some(ie)
            },
        }
    }
}


/// The value an optional buffer holds.
pub open spec fn opt_bytes(v: Option<Vec<u8>>) -> Option<Seq<u8>> {
    match v {
        Some(v) => Some(v@),
        None => None,
    }
}

impl CacheInner {
    /// Moves the stored `key` to the most recently used end and records an
    /// access at `now`, copying its value out.
    fn refresh(&mut self, key: &str, h: u64, now: u64) -> (data: Vec<u8>)
        requires
            old(self).wf_core(),
            h == key_hash(key@),
            old(self).entries@.contains_key(key@),
        ensures
            final(self).wf_core(),
            final(self).max_memory_bytes == old(self).max_memory_bytes,
            final(self).used_bytes == old(self).used_bytes,
            final(self).view() == old(self).view().touched(key@, now),
            data@ == old(self).view().entries[key@].data,
    {
        let ghost e0 = self.entries@;
        let ghost k = key@;
        let removed = bucket_remove(&mut self.buckets, key, h, Ghost(self.entries@));
        let mut ie = match removed {
            Some(ie) => ie,
            None => {
                proof { assert(false); }
                return Vec::new();
            },
        };
        ie.entry.touch(now);
        let data = ie.entry.data.clone();
        let idx = ie.lru_index;
        let ghost ie2 = ie;
        bucket_insert(&mut self.buckets, h, ie, Ghost(e0.remove(k)));
        proof {
            assert(e0.remove(k).insert(k, ie2) =~= e0.insert(k, ie2));
            old(self).lemma_view();
            assert(old(self).entry_linked(k));
        }
        self.entries = Ghost(e0.insert(k, ie2));
        let ghost o0 = self.lru.order@;
        let ghost p = o0.index_of(idx);
        self.lru.touch(idx);
        proof {
            let m0 = old(self).view();
            let m1 = self.view();
            let o1 = self.lru.order@;
            assert(data@ =~= e0[k].entry.data@);
            assert(m0.order.index_of(k) == p);
            assert forall|x: usize| o1.contains(x) <==> o0.contains(x) by {
                if o1.contains(x) {
                    let i = o1.index_of(x);
                    if i == o1.len() - 1 { assert(x == idx); } else {
                        let i0 = if i < p { i } else { i + 1 };
                        assert(o1[i] == o0[i0]);
                    }
                }
                if o0.contains(x) {
                    let i = o0.index_of(x);
                    if x != idx {
                        assert(i != p);
                        let i1 = if i < p { i } else { i - 1 };
                        assert(o1[i1] == x);
                    } else {
                        assert(o1[o1.len() - 1] == x);
                    }
                }
            }
            assert(m1.order =~= without(m0.order, k).push(k)) by {
                assert forall|i: int| 0 <= i < m1.order.len() implies m1.order[i] == without(m0.order, k).push(k)[i] by {
                    if i < o1.len() - 1 {
                        let i0 = if i < p { i } else { i + 1 };
                        assert(o1[i] == o0[i0]);
                    }
                }
            }
            assert(m1.entries =~= m0.entries.insert(k, StoredEntry { last_access: now, ..m0.entries[k] }));
            assert forall|k2: Seq<char>| #[trigger] self.entries@.contains_key(k2) implies self.entry_linked(k2) by {
                if k2 != k {
                    assert(old(self).entry_linked(k2));
                }
            }
            assert forall|i: int| 0 <= i < o1.len() implies #[trigger] self.slot_linked(i) by {
                if i == o1.len() - 1 {
                    assert(o1[i] == idx);
                } else {
                    let i0 = if i < p { i } else { i + 1 };
                    assert(o1[i] == o0[i0]);
                    assert(old(self).slot_linked(i0));
                }
            }
            let mid = without(m0.order, k);
            lemma_total_remove(m0.order, m0.entries, p);
            lemma_total_push(mid, m1.entries, k);
            assert forall|i: int| 0 <= i < mid.len() implies #[trigger] m0.entries[mid[i]].data == m1.entries[mid[i]].data by {
                let i0 = if i < p { i } else { i + 1 };
                assert(mid[i] == m0.order[i0]);
            }
            lemma_total_congruent(mid, m0.entries, m1.entries);
        }
        data
    }

    /// Reads `key` at `now`: a live entry is touched and its value copied
    /// out; an expired one is dropped.
    fn get(&mut self, key: &str, now: u64) -> (result: (Option<Vec<u8>>, bool))
        requires
            old(self).wf(),
        ensures
            final(self).wf(),
            final(self).view() == get_outcome(old(self).view(), key@, now).0,
            opt_bytes(result.0) == get_outcome(old(self).view(), key@, now).1,
            result.1 == get_outcome(old(self).view(), key@, now).2,
    {
        let h = hash_of(key);
        let pos = bucket_find(&self.buckets, key, h, Ghost(self.entries@));
        let j = match pos {
            None => {
                return (None, false);
            },
            Some(j) => j,
        };
        let expired = match self.buckets.get(&h) {
            Some(bucket) => bucket[j].entry.is_expired(now),
            None => {
                proof { assert(false); }
                false
            },
        };
        if expired {
            let _ = self.discard(key, h);
            return (None, true);
        }
        let data = self.refresh(key, h, now);
        (Some(data), false)
    }
}

/// A write evicts at most as many keys as the store holds.
proof fn lemma_evict_count_bounded(m: CacheModel)
    ensures
        evict_model(m).1 <= m.order.len(),
    decreases m.order.len(),
{
    if !(m.order.len() == 0 || m.used() <= m.max_memory) {
        let k = m.order[0];
        lemma_evict_count_bounded(CacheModel { order: m.order.drop_first(), entries: m.entries.remove(k), max_memory: m.max_memory });
    }
}


/// The first key in recency order carries at most the bytes in use.
proof fn lemma_evict_bytes(a: CacheInner, k: Seq<char>)
    requires
        a.wf_core(),
        a.lru.order@.len() > 0,
        k == a.lru.nodes@[a.lru.order@[0] as int].key@,
    ensures
        a.entries@.contains_key(k),
        a.entries@[k].bytes <= a.used_bytes,
{
    a.lemma_view();
    assert(a.slot_linked(0));
    let m = a.view();
    assert(m.order[0] == k);
    assert(a.entry_linked(k));
    lemma_total_nonneg(m.order.drop_first(), m.entries);
}

/// Evicting the least recently used key keeps the invariant and drops it from the model.
#[verifier::rlimit(40)]
proof fn lemma_evict_step(a: CacheInner, b: CacheInner, k: Seq<char>)
    requires
        a.wf_core(),
        a.lru.order@.len() > 0,
        k == a.lru.nodes@[a.lru.order@[0] as int].key@,
        a.entries@.contains_key(k),
        b.lru.wf(),
        b.lru.order@ == a.lru.order@.drop_first(),
        b.lru.nodes@.len() == a.lru.nodes@.len(),
        forall|j: int| 0 <= j < b.lru.nodes@.len() && b.lru.order@.contains(j as usize) ==> #[trigger] b.lru.nodes@[j].key == a.lru.nodes@[j].key,
        b.entries@ == a.entries@.remove(k),
        buckets_wf(b.buckets@, b.entries@),
        b.max_memory_bytes == a.max_memory_bytes,
        b.used_bytes == a.used_bytes - a.entries@[k].bytes,
    ensures
        b.wf_core(),
        b.view() == (CacheModel { order: a.view().order.drop_first(), entries: a.view().entries.remove(k), max_memory: a.max_memory_bytes }),
{
    a.lemma_view();
    let o0 = a.lru.order@;
    let o1 = b.lru.order@;
    let e0 = a.entries@;
    let m0 = a.view();
    let m1 = b.view();
    let next = CacheModel { order: m0.order.drop_first(), entries: m0.entries.remove(k), max_memory: m0.max_memory };
    assert(m0.order[0] == k);
    assert forall|i: int| 0 <= i < o1.len() implies #[trigger] b.lru.nodes@[o1[i] as int].key == a.lru.nodes@[o1[i] as int].key by {
        assert(o1.contains(o1[i]));
        assert(o1[i] < b.lru.nodes@.len());
    }
    assert(m1.order =~= next.order) by {
        assert forall|i: int| 0 <= i < m1.order.len() implies m1.order[i] == next.order[i] by {
            assert(o1[i] == o0[i + 1]);
        }
    }
    assert(m1.entries =~= next.entries);
    assert forall|k2: Seq<char>| #[trigger] b.entries@.contains_key(k2) implies b.entry_linked(k2) by {
        assert(e0.contains_key(k2));
        assert(a.entry_linked(k2));
        let q = o0.index_of(e0[k2].lru_index);
        assert(q != 0) by {
            assert(o0[q] == e0[k2].lru_index);
        }
        assert(o1[q - 1] == o0[q]);
        assert(o1.contains(e0[k2].lru_index));
        assert(b.lru.nodes@[e0[k2].lru_index as int].key == a.lru.nodes@[e0[k2].lru_index as int].key);
    }
    assert forall|i: int| 0 <= i < o1.len() implies #[trigger] b.slot_linked(i) by {
        assert(o1[i] == o0[i + 1]);
        assert(a.slot_linked(i + 1));
        assert(m0.order[i + 1] != m0.order[0]);
    }
    assert forall|i: int| 0 <= i < next.order.len() implies #[trigger] m0.entries[next.order[i]].data == next.entries[next.order[i]].data by {
        assert(next.order[i] == m0.order[i + 1]);
        assert(m0.order[i + 1] != m0.order[0]);
    }
    lemma_total_congruent(next.order, m0.entries, next.entries);
    assert(a.entry_linked(k));
}


/// Linking a fresh slot for a new key keeps the invariant and appends the key.
#[verifier::rlimit(40)]
proof fn lemma_insert_step(a: CacheInner, b: CacheInner, k: Seq<char>, ie: IndexedEntry, n1: Seq<LruNode>)
    requires
        a.wf_core(),
        !a.entries@.contains_key(k),
        ie.key@ == k,
        ie.bytes == entry_bytes(k, ie.entry.data@),
        !a.lru.order@.contains(ie.lru_index),
        ie.lru_index < n1.len(),
        n1[ie.lru_index as int].key@ == k,
        a.lru.nodes@.len() <= n1.len(),
        forall|j: int| 0 <= j < a.lru.nodes@.len() && j != ie.lru_index ==> #[trigger] n1[j] == a.lru.nodes@[j],
        b.lru.wf(),
        b.lru.order@ == a.lru.order@.push(ie.lru_index),
        b.lru.nodes@.len() == n1.len(),
        forall|j: int| 0 <= j < n1.len() ==> #[trigger] b.lru.nodes@[j].key == n1[j].key,
        b.entries@ == a.entries@.insert(k, ie),
        buckets_wf(b.buckets@, b.entries@),
        b.max_memory_bytes == a.max_memory_bytes,
        b.used_bytes == a.used_bytes + ie.bytes,
    ensures
        b.wf_core(),
        b.view() == (CacheModel {
            order: a.view().order.push(k),
            entries: a.view().entries.insert(k, stored(ie)),
            max_memory: a.max_memory_bytes,
        }),
{
    a.lemma_view();
    let o0 = a.lru.order@;
    let o1 = b.lru.order@;
    let e0 = a.entries@;
    let m0 = a.view();
    let m1 = b.view();
    let index = ie.lru_index;
    assert forall|i: int| 0 <= i < o0.len() implies #[trigger] b.lru.nodes@[o0[i] as int].key == a.lru.nodes@[o0[i] as int].key by {
        assert(o0[i] != index);
        assert(o0[i] < a.lru.nodes@.len());
    }
    assert(m1.order =~= m0.order.push(k)) by {
        assert forall|i: int| 0 <= i < m1.order.len() implies m1.order[i] == m0.order.push(k)[i] by {
            if i < o0.len() {
                assert(o1[i] == o0[i]);
            }
        }
    }
    assert(m1.entries =~= m0.entries.insert(k, stored(ie)));
    assert forall|k2: Seq<char>| #[trigger] b.entries@.contains_key(k2) implies b.entry_linked(k2) by {
        if k2 != k {
            assert(a.entry_linked(k2));
            let q = o0.index_of(e0[k2].lru_index);
            assert(o1[q] == o0[q]);
            assert(e0[k2].lru_index != index);
        } else {
            assert(o1[o1.len() - 1] == index);
        }
    }
    assert forall|i: int| 0 <= i < o1.len() implies #[trigger] b.slot_linked(i) by {
        if i < o0.len() {
            assert(o1[i] == o0[i]);
            assert(a.slot_linked(i));
        }
    }
    lemma_total_push(m0.order, m1.entries, k);
    assert forall|i: int| 0 <= i < m0.order.len() implies #[trigger] m0.entries[m0.order[i]].data == m1.entries[m0.order[i]].data by {
        assert(m0.order.contains(m0.order[i]));
        assert(m0.entries.contains_key(m0.order[i]));
    }
    lemma_total_congruent(m0.order, m0.entries, m1.entries);
}

impl CacheInner {
    /// Removes `key`; whether it was stored.
    fn delete(&mut self, key: &str) -> (deleted: bool)
        requires
            old(self).wf(),
        ensures
            final(self).wf(),
            final(self).view() == delete_outcome(old(self).view(), key@).0,
            deleted == delete_outcome(old(self).view(), key@).1,
    {
        let h = hash_of(key);
        let removed = self.discard(key, h);
        removed.is_some()
    }

    /// Stores a new entry for `key`, which is not stored yet, as most recently used.
    fn insert_new(&mut self, key: &str, h: u64, value: Vec<u8>, ttl: Option<u64>, now: u64)
        requires
            old(self).wf_core(),
            h == key_hash(key@),
            !old(self).entries@.contains_key(key@),
            old(self).used_bytes + entry_bytes(key@, value@) <= u64::MAX,
        ensures
            final(self).wf_core(),
            final(self).max_memory_bytes == old(self).max_memory_bytes,
            final(self).view() == old(self).view().staged(key@, value@, ttl, now),
    {
        let ghost k = key@;
        let ghost e0 = self.entries@;
        let ghost before = *self;
        let bytes = Self::entry_size(key, value.len());
        let index = self.lru.allocate(owned(key));
        let ghost n1 = self.lru.nodes@;
        self.lru.push_mru(index);
        self.used_bytes = self.used_bytes + bytes;
        let ie = IndexedEntry { key: owned(key), entry: Entry::new(value, ttl, now), lru_index: index, bytes };
        let ghost ie2 = ie;
        bucket_insert(&mut self.buckets, h, ie, Ghost(e0));
        self.entries = Ghost(e0.insert(k, ie2));
        proof {
            lemma_insert_step(before, *self, k, ie2, n1);
            assert(ie2.entry.data@ == value@);
        }
    }

    /// Replaces the value of the stored `key` and makes it most recently used.
    fn replace_value(&mut self, key: &str, h: u64, value: Vec<u8>, ttl: Option<u64>, now: u64)
        requires
            old(self).wf_core(),
            h == key_hash(key@),
            old(self).entries@.contains_key(key@),
            old(self).used_bytes + entry_bytes(key@, value@) <= u64::MAX,
        ensures
            final(self).wf_core(),
            final(self).max_memory_bytes == old(self).max_memory_bytes,
            final(self).view() == old(self).view().staged(key@, value@, ttl, now),
    {
        let ghost e0 = self.entries@;
        let ghost k = key@;
        let ghost m0 = self.view();
        proof {
            old(self).lemma_view();
            assert(old(self).entry_linked(k));
            let p = m0.order.index_of(k);
            lemma_total_remove(m0.order, m0.entries, p);
            lemma_total_nonneg(m0.order.remove(p), m0.entries);
        }
        let bytes = Self::entry_size(key, value.len());
        let removed = bucket_remove(&mut self.buckets, key, h, Ghost(self.entries@));
        let mut ie = match removed {
            Some(ie) => ie,
            None => {
                proof { assert(false); }
                return;
            },
        };
        self.used_bytes = self.used_bytes.saturating_sub(ie.bytes) + bytes;
        ie.entry = Entry::new(value, ttl, now);
        ie.bytes = bytes;
        let idx = ie.lru_index;
        let ghost ie2 = ie;
        bucket_insert(&mut self.buckets, h, ie, Ghost(e0.remove(k)));
        proof {
            assert(e0.remove(k).insert(k, ie2) =~= e0.insert(k, ie2));
        }
        self.entries = Ghost(e0.insert(k, ie2));
        let ghost o0 = self.lru.order@;
        let ghost p = o0.index_of(idx);
        self.lru.touch(idx);
        proof {
            let m1 = self.view();
            let o1 = self.lru.order@;
            assert(m0.order.index_of(k) == p);
            assert forall|x: usize| o1.contains(x) <==> o0.contains(x) by {
                if o1.contains(x) {
                    let i = o1.index_of(x);
                    if i == o1.len() - 1 { assert(x == idx); } else {
                        let i0 = if i < p { i } else { i + 1 };
                        assert(o1[i] == o0[i0]);
                    }
                }
                if o0.contains(x) {
                    let i = o0.index_of(x);
                    if x != idx {
                        assert(i != p);
                        let i1 = if i < p { i } else { i - 1 };
                        assert(o1[i1] == x);
                    } else {
                        assert(o1[o1.len() - 1] == x);
                    }
                }
            }
            assert(m1.order =~= without(m0.order, k).push(k)) by {
                assert forall|i: int| 0 <= i < m1.order.len() implies m1.order[i] == without(m0.order, k).push(k)[i] by {
                    if i < o1.len() - 1 {
                        let i0 = if i < p { i } else { i + 1 };
                        assert(o1[i] == o0[i0]);
                    }
                }
            }
            assert(m1.entries =~= m0.entries.insert(k, StoredEntry { data: ie2.entry.data@, expires_at: expiry_after(now, ttl), last_access: now }));
            assert forall|k2: Seq<char>| #[trigger] self.entries@.contains_key(k2) implies self.entry_linked(k2) by {
                if k2 != k {
                    assert(old(self).entry_linked(k2));
                }
            }
            assert forall|i: int| 0 <= i < o1.len() implies #[trigger] self.slot_linked(i) by {
                if i == o1.len() - 1 {
                    assert(o1[i] == idx);
                } else {
                    let i0 = if i < p { i } else { i + 1 };
                    assert(o1[i] == o0[i0]);
                    assert(old(self).slot_linked(i0));
                }
            }
            let mid = without(m0.order, k);
            lemma_total_push(mid, m1.entries, k);
            assert forall|i: int| 0 <= i < mid.len() implies #[trigger] m0.entries[mid[i]].data == m1.entries[mid[i]].data by {
                let i0 = if i < p { i } else { i + 1 };
                assert(mid[i] == m0.order[i0]);
            }
            lemma_total_congruent(mid, m0.entries, m1.entries);
        }
    }

    /// Evicts least recently used entries until the memory cap holds.
    #[verifier::rlimit(60)]
    fn evict_if_needed(&mut self) -> (evicted: u64)
        requires
            old(self).wf_core(),
        ensures
            final(self).wf(),
            final(self).view() == evict_model(old(self).view()).0,
            evicted == evict_model(old(self).view()).1,
    {
        let mut evicted: u64 = 0;
        proof {
            old(self).lemma_view();
            lemma_evict_count_bounded(old(self).view());
            assert(self.lru.nodes.len() == self.lru.nodes@.len());
        }
        while self.used_bytes > self.max_memory_bytes
            invariant
                self.wf_core(),
                self.max_memory_bytes == old(self).max_memory_bytes,
                evict_model(self.view()).0 == evict_model(old(self).view()).0,
                evict_model(self.view()).1 + evicted == evict_model(old(self).view()).1,
                evict_model(old(self).view()).1 <= usize::MAX,
            decreases self.lru.order@.len(),
        {
            let ghost before = *self;
            let ghost e0 = self.entries@;
            proof {
                self.lemma_view();
                assert(self.slot_linked(0));
            }
            let popped = self.lru.pop_lru();
            let key = match popped {
                Some((_, key)) => key,
                None => {
                    proof { assert(false); }
                    return evicted;
                },
            };
            let ghost k = key@;
            let h = hash_of(key.as_str());
            let removed = bucket_remove(&mut self.buckets, key.as_str(), h, Ghost(e0));
            let bytes = match removed {
                Some(ie) => ie.bytes,
                None => {
                    proof { assert(false); }
                    0
                },
            };
            proof {
                lemma_evict_bytes(before, k);
            }
            self.used_bytes = self.used_bytes - bytes;
            evicted = evicted + 1;
            self.entries = Ghost(e0.remove(k));
            proof {
                lemma_evict_step(before, *self, k);
            }
        }
        proof {
            assert(self.view().used() <= self.view().max_memory);
        }
        evicted
    }

    /// Writes `key` at `now`, then evicts as needed; how many keys went.
    fn set(&mut self, key: &str, value: Vec<u8>, ttl: Option<u64>, now: u64) -> (evicted: u64)
        requires
            old(self).wf(),
            old(self).used_bytes + entry_bytes(key@, value@) <= u64::MAX,
        ensures
            final(self).wf(),
            final(self).view() == set_outcome(old(self).view(), key@, value@, ttl, now).0,
            evicted == set_outcome(old(self).view(), key@, value@, ttl, now).1,
    {
        let h = hash_of(key);
        let pos = bucket_find(&self.buckets, key, h, Ghost(self.entries@));
        match pos {
            Some(_) => self.replace_value(key, h, value, ttl, now),
            None => self.insert_new(key, h, value, ttl, now),
        }
        self.evict_if_needed()
    }
}

impl CacheInner {
    /// The stored entry of `key`, if any.
    fn find_entry(&self, key: &str) -> (found: Option<&IndexedEntry>)
        requires
            buckets_wf(self.buckets@, self.entries@),
        ensures
            match found {
                Some(ie) => self.entries@.contains_key(key@) && *ie == self.entries@[key@],
                None => !self.entries@.contains_key(key@),
            },
    {
        let h = hash_of(key);
        match bucket_find(&self.buckets, key, h, Ghost(self.entries@)) {
            None => None,
            Some(j) => match self.buckets.get(&h) {
                Some(bucket) => Some(&bucket[j]),
                None => {
                    proof { assert(false); }
                    None
                },
            },
        }
    }

    /// The stored keys, least recently used first.
    fn keys_in_order(&self) -> (keys: Vec<String>)
        requires
            self.wf_core(),
        ensures
            keys@.len() == self.view().order.len(),
            forall|i: int| 0 <= i < keys@.len() ==> #[trigger] keys@[i]@ == self.view().order[i],
    {
        proof { self.lemma_view(); }
        let ghost o = self.lru.order@;
        let mut keys: Vec<String> = Vec::new();
        let mut cur = self.lru.head;
        let ghost mut j: int = 0;
        while cur.is_some()
            invariant
                self.wf_core(),
                o == self.lru.order@,
                0 <= j <= o.len(),
                keys@.len() == j,
                cur == (if j < o.len() { Some(o[j]) } else { None::<usize> }),
                forall|i: int| 0 <= i < j ==> #[trigger] keys@[i]@ == self.view().order[i],
                self.view().order.len() == o.len(),
                forall|i: int| 0 <= i < o.len() ==> #[trigger] self.view().order[i] == self.lru.nodes@[o[i] as int].key@,
            decreases o.len() - j,
        {
            let i = match cur {
                Some(i) => i,
                None => {
                    proof { assert(false); }
                    return keys;
                },
            };
            proof { assert(self.lru.link_ok(j)); }
            keys.push(self.lru.nodes[i].key.clone());
            cur = self.lru.nodes[i].next;
            proof { j = j + 1; }
        }
        keys
    }

    /// Drops every entry expired at `now`, in recency order; how many went.
    fn purge_expired(&mut self, now: u64) -> (count: usize)
        requires
            old(self).wf(),
        ensures
            final(self).wf(),
            final(self).view() == purge_model(old(self).view(), old(self).view().order, now).0,
            count == purge_model(old(self).view(), old(self).view().order, now).1,
    {
        let keys = self.keys_in_order();
        let ghost order0 = old(self).view().order;
        let ghost goal = purge_model(old(self).view(), order0, now);
        let mut count: usize = 0;
        let mut i: usize = 0;
        proof {
            assert(order0.skip(0) =~= order0);
        }
        while i < keys.len()
            invariant
                self.wf(),
                keys@.len() == order0.len(),
                forall|m: int| 0 <= m < keys@.len() ==> #[trigger] keys@[m]@ == order0[m],
                i <= keys@.len(),
                count <= i,
                purge_model(self.view(), order0.skip(i as int), now).0 == goal.0,
                purge_model(self.view(), order0.skip(i as int), now).1 + count == goal.1,
            decreases keys@.len() - i,
        {
            let key = keys[i].as_str();
            let ghost m0 = self.view();
            let ghost rest = order0.skip(i as int);
            proof {
                assert(rest[0] == key@);
                assert(rest.drop_first() =~= order0.skip(i + 1));
            }
            let expired = match self.find_entry(key) {
                Some(ie) => ie.entry.is_expired(now),
                None => false,
            };
            if expired {
                let h = hash_of(key);
                let _ = self.discard(key, h);
                count = count + 1;
            }
            i = i + 1;
        }
        proof {
            assert(order0.skip(i as int) =~= Seq::<Seq<char>>::empty());
        }
        count
    }

    /// Every stored key with a copy of its value and its remaining lifetime in
    /// whole seconds at `now`, least recently used first.
    fn snapshot(&self, now: u64) -> (entries: Vec<(String, Vec<u8>, Option<u64>)>)
        requires
            self.wf_core(),
        ensures
            entries@.len() == self.view().order.len(),
            forall|i: int| 0 <= i < entries@.len() ==> {
                let k = self.view().order[i];
                &&& (#[trigger] entries@[i]).0@ == k
                &&& entries@[i].1@ == self.view().entries[k].data
                &&& entries@[i].2 == ttl_secs(self.view().entries[k].expires_at, now)
            },
    {
        let keys = self.keys_in_order();
        proof { self.lemma_view(); }
        let mut out: Vec<(String, Vec<u8>, Option<u64>)> = Vec::new();
        let mut i: usize = 0;
        while i < keys.len()
            invariant
                self.wf_core(),
                keys@.len() == self.view().order.len(),
                forall|m: int| 0 <= m < keys@.len() ==> #[trigger] keys@[m]@ == self.view().order[m],
                forall|k: Seq<char>| #[trigger] self.view().entries.contains_key(k) <==> self.view().order.contains(k),
                i <= keys@.len(),
                out@.len() == i,
                forall|m: int| 0 <= m < i ==> {
                    let k = self.view().order[m];
                    &&& (#[trigger] out@[m]).0@ == k
                    &&& out@[m].1@ == self.view().entries[k].data
                    &&& out@[m].2 == ttl_secs(self.view().entries[k].expires_at, now)
                },
            decreases keys@.len() - i,
        {
            let key = keys[i].as_str();
            proof {
                assert(self.view().order.contains(key@));
                assert(self.view().entries.contains_key(key@));
            }
            match self.find_entry(key) {
                Some(ie) => {
                    let ttl = match ie.entry.ttl_remaining(now) {
                        Some(nanos) => {
                            let secs = nanos / NANOS_PER_SEC;
                            Some(if secs > u64::MAX as u128 { u64::MAX } else { secs as u64 })
                        },
                        None => None,
                    };
                    let data = ie.entry.data.clone();
                    proof { assert(data@ =~= ie.entry.data@); }
                    out.push((keys[i].clone(), data, ttl));
                },
                None => {
                    proof { assert(false); }
                },
            }
            i = i + 1;
        }
        out
    }
}

/// The accounted size of an entry for `key` holding `data_len` bytes: the
/// key's bytes, the value's bytes and a fixed overhead.
pub fn entry_size(key: &str, data_len: usize) -> (bytes: u64)
    requires
        encode_utf8(key@).len() + data_len + ENTRY_OVERHEAD_BYTES <= u64::MAX,
    ensures
        bytes == encode_utf8(key@).len() + data_len + ENTRY_OVERHEAD_BYTES,
{
    CacheInner::entry_size(key, data_len)
}

/// A thread-unaware LRU cache with TTL expiry and a memory cap; the server
/// guards it with a lock.
pub struct CacheStore {
    inner: CacheInner,
    evictions: u64,
    ttl_expirations: u64,
    clock: Clock,
    /// The latest clock reading the store acted on.
    last_ns: u64,
}

impl CacheStore {
    /// The abstract state of the store.
    pub closed spec fn view(&self) -> CacheModel {
        self.inner.view()
    }

    /// The store's internal structure is consistent and the memory cap holds.
    pub closed spec fn wf(&self) -> bool {
        self.inner.wf()
    }

    /// How many keys were evicted so far (wrapping).
    pub closed spec fn evictions(&self) -> u64 {
        self.evictions
    }

    /// How many keys were dropped for having expired so far (wrapping).
    pub closed spec fn expirations(&self) -> u64 {
        self.ttl_expirations
    }

    /// The latest time, in nanoseconds on the store's own clock, at which
    /// a read, write or purge of the store took place; 0 before the first.
    pub closed spec fn last_reading(&self) -> u64 {
        self.last_ns
    }

    /// The model of a well-formed store is well formed.
    pub proof fn lemma_wf(&self)
        requires
            self.wf(),
        ensures
            self.view().wf(),
    {
        self.inner.lemma_view();
    }

    /// An empty store capped at `max_memory_bytes`.
    pub fn new(max_memory_bytes: u64) -> (store: Self)
        ensures
            store.wf(),
            store.view() == (CacheModel { order: Seq::empty(), entries: Map::empty(), max_memory: max_memory_bytes }),
            store.evictions() == 0,
            store.expirations() == 0,
            store.last_reading() == 0,
    {
        CacheStore {
            inner: CacheInner::new(max_memory_bytes),
            evictions: 0,
            ttl_expirations: 0,
            clock: Clock::new(),
            last_ns: 0,
        }
    }

    /// Reads the store's clock for an operation. `Instant` is documented
    /// as monotonic, so a reading never falls below the one before it; the
    /// store keeps the latest reading and holds every later one to it, so
    /// that the times its operations act at never go back.
    fn read_clock(&mut self) -> (now: u64)
        ensures
            now >= old(self).last_reading(),
            final(self).last_reading() == now,
            final(self).view() == old(self).view(),
            final(self).wf() == old(self).wf(),
            final(self).evictions() == old(self).evictions(),
            final(self).expirations() == old(self).expirations(),
    {
        let reading = self.clock.now_ns();
        let now = if reading < self.last_ns { self.last_ns } else { reading };
        self.last_ns = now;
        now
    }

    /// Reads `key` at `now`; the value if it is stored and live, and whether
    /// it was dropped for having expired.
    pub fn get_at(&mut self, key: &str, now: u64) -> (result: (Option<Vec<u8>>, bool))
        requires
            old(self).wf(),
        ensures
            final(self).wf(),
            final(self).view() == get_outcome(old(self).view(), key@, now).0,
            opt_bytes(result.0) == get_outcome(old(self).view(), key@, now).1,
            result.1 == get_outcome(old(self).view(), key@, now).2,
            final(self).evictions() == old(self).evictions(),
            final(self).expirations() == (if result.1 { old(self).expirations().wrapping_add(1) } else { old(self).expirations() }),
            final(self).last_reading() == old(self).last_reading(),
    {
        let (value, expired) = self.inner.get(key, now);
        if expired {
            self.ttl_expirations = self.ttl_expirations.wrapping_add(1);
        }
        (value, expired)
    }

    /// Reads `key` now (see [`CacheStore::get_at`]): at the store's clock
    /// reading, which is never earlier than that of the operation before.
    pub fn get(&mut self, key: &str) -> (result: (Option<Vec<u8>>, bool))
        requires
            old(self).wf(),
        ensures
            final(self).wf(),
            final(self).last_reading() >= old(self).last_reading(),
            final(self).view() == get_outcome(old(self).view(), key@, final(self).last_reading()).0,
            opt_bytes(result.0) == get_outcome(old(self).view(), key@, final(self).last_reading()).1,
            result.1 == get_outcome(old(self).view(), key@, final(self).last_reading()).2,
            final(self).evictions() == old(self).evictions(),
            final(self).expirations() == (if result.1 { old(self).expirations().wrapping_add(1) } else { old(self).expirations() }),
    {
        let now = self.read_clock();
        self.get_at(key, now)
    }

    /// Writes `key` at `now` and evicts least recently used keys while the
    /// memory cap is exceeded.
    pub fn set_at(&mut self, key: &str, value: Vec<u8>, ttl: Option<u64>, now: u64)
        requires
            old(self).wf(),
            old(self).view().used() + entry_bytes(key@, value@) <= u64::MAX,
        ensures
            final(self).wf(),
            final(self).view() == set_outcome(old(self).view(), key@, value@, ttl, now).0,
            final(self).evictions() == old(self).evictions().wrapping_add(set_outcome(old(self).view(), key@, value@, ttl, now).1 as u64),
            final(self).expirations() == old(self).expirations(),
            final(self).last_reading() == old(self).last_reading(),
    {
        let evicted = self.inner.set(key, value, ttl, now);
        self.evictions = self.evictions.wrapping_add(evicted);
    }

    /// Writes `key` now (see [`CacheStore::set_at`]): at the store's clock
    /// reading, which is never earlier than that of the operation before.
    pub fn set(&mut self, key: &str, value: Vec<u8>, ttl: Option<u64>)
        requires
            old(self).wf(),
            old(self).view().used() + entry_bytes(key@, value@) <= u64::MAX,
        ensures
            final(self).wf(),
            final(self).last_reading() >= old(self).last_reading(),
            final(self).view() == set_outcome(old(self).view(), key@, value@, ttl, final(self).last_reading()).0,
            final(self).evictions() == old(self).evictions().wrapping_add(
                set_outcome(old(self).view(), key@, value@, ttl, final(self).last_reading()).1 as u64,
            ),
            final(self).expirations() == old(self).expirations(),
    {
        let now = self.read_clock();
        self.set_at(key, value, ttl, now)
    }

    /// Removes `key`; whether it was stored.
    pub fn delete(&mut self, key: &str) -> (deleted: bool)
        requires
            old(self).wf(),
        ensures
            final(self).wf(),
            final(self).view() == delete_outcome(old(self).view(), key@).0,
            deleted == delete_outcome(old(self).view(), key@).1,
            final(self).evictions() == old(self).evictions(),
            final(self).expirations() == old(self).expirations(),
            final(self).last_reading() == old(self).last_reading(),
    {
        self.inner.delete(key)
    }

    /// Drops every key expired at `now`; how many went.
    pub fn purge_expired_at(&mut self, now: u64) -> (removed: usize)
        requires
            old(self).wf(),
        ensures
            final(self).wf(),
            final(self).view() == purge_model(old(self).view(), old(self).view().order, now).0,
            removed == purge_model(old(self).view(), old(self).view().order, now).1,
            final(self).evictions() == old(self).evictions(),
            final(self).expirations() == old(self).expirations().wrapping_add(removed as u64),
            final(self).last_reading() == old(self).last_reading(),
    {
        let removed = self.inner.purge_expired(now);
        self.ttl_expirations = self.ttl_expirations.wrapping_add(removed as u64);
        removed
    }

    /// Drops every key expired now (see [`CacheStore::purge_expired_at`]):
    /// at the store's clock reading, which is never earlier than that of the
    /// operation before.
    pub fn purge_expired(&mut self) -> (removed: usize)
        requires
            old(self).wf(),
        ensures
            final(self).wf(),
            final(self).last_reading() >= old(self).last_reading(),
            final(self).view() == purge_model(old(self).view(), old(self).view().order, final(self).last_reading()).0,
            removed == purge_model(old(self).view(), old(self).view().order, final(self).last_reading()).1,
            final(self).evictions() == old(self).evictions(),
            final(self).expirations() == old(self).expirations().wrapping_add(removed as u64),
    {
        let now = self.read_clock();
        self.purge_expired_at(now)
    }

    /// Every key with its value and remaining lifetime in whole seconds at
    /// `now`, least recently used first, so that writing them back in order
    /// rebuilds the recency order.
    pub fn snapshot_at(&self, now: u64) -> (entries: Vec<(String, Vec<u8>, Option<u64>)>)
        requires
            self.wf(),
        ensures
            snapshot_view(entries@) == snapshot_of(self.view(), now),
    {
        let entries = self.inner.snapshot(now);
        proof {
            assert(snapshot_view(entries@) =~= snapshot_of(self.view(), now));
        }
        entries
    }

    /// Every key with its value and remaining lifetime now (see
    /// [`CacheStore::snapshot_at`]): at a clock reading no earlier than that
    /// of the store's last operation.
    pub fn snapshot(&self) -> (entries: Vec<(String, Vec<u8>, Option<u64>)>)
        requires
            self.wf(),
        ensures
            exists|now: u64| now >= self.last_reading() && snapshot_view(entries@) == #[trigger] snapshot_of(self.view(), now),
    {
        let reading = self.clock.now_ns();
        let now = if reading < self.last_ns { self.last_ns } else { reading };
        self.snapshot_at(now)
    }

    /// How many keys are stored.
    pub fn key_count(&self) -> (count: usize)
        requires
            self.wf(),
        ensures
            count == self.view().order.len(),
    {
        proof { self.inner.lemma_view(); }
        let mut n: usize = 0;
        let mut cur = self.inner.lru.head;
        let ghost o = self.inner.lru.order@;
        proof {
            assert(self.inner.lru.nodes.len() == self.inner.lru.nodes@.len());
        }
        while cur.is_some()
            invariant
                self.wf(),
                o == self.inner.lru.order@,
                0 <= n <= o.len(),
                o.len() <= usize::MAX,
                o.len() == self.view().order.len(),
                cur == (if n < o.len() { Some(o[n as int]) } else { None::<usize> }),
            decreases o.len() - n,
        {
            let i = match cur {
                Some(i) => i,
                None => {
                    proof { assert(false); }
                    return n;
                },
            };
            proof { assert(self.inner.lru.link_ok(n as int)); }
            cur = self.inner.lru.nodes[i].next;
            n = n + 1;
        }
        n
    }

    /// Bytes in use.
    pub fn memory_usage(&self) -> (used: u64)
        requires
            self.wf(),
        ensures
            used == self.view().used(),
    {
        self.inner.used_bytes
    }

    /// Whether writing `data_len` bytes under `key` keeps the byte count
    /// within a `u64`.
    pub fn fits(&self, key: &str, data_len: usize) -> (fits: bool)
        requires
            self.wf(),
        ensures
            fits == (self.view().used() + encode_utf8(key@).len() + data_len + ENTRY_OVERHEAD_BYTES <= u64::MAX),
    {
        let used = self.memory_usage();
        let key_len = key.as_bytes().len() as u64;
        assert(key_len == encode_utf8(key@).len());
        match used.checked_add(key_len) {
            Some(a) => match a.checked_add(data_len as u64) {
                Some(b) => b.checked_add(ENTRY_OVERHEAD_BYTES).is_some(),
                None => false,
            },
            None => false,
        }
    }

    /// The memory cap in bytes.
    pub fn max_memory(&self) -> (max: u64)
        ensures
            max == self.view().max_memory,
    {
        self.inner.max_memory_bytes
    }

    /// Keys stored, bytes in use and the memory cap.
    pub fn stats(&self) -> (stats: (usize, u64, u64))
        requires
            self.wf(),
        ensures
            stats.0 == self.view().order.len(),
            stats.1 == self.view().used(),
            stats.2 == self.view().max_memory,
    {
        (self.key_count(), self.memory_usage(), self.max_memory())
    }

    /// How many keys were evicted so far.
    pub fn eviction_count(&self) -> (count: u64)
        ensures
            count == self.evictions(),
    {
        self.evictions
    }

    /// How many keys were dropped for having expired so far.
    pub fn ttl_expiration_count(&self) -> (count: u64)
        ensures
            count == self.expirations(),
    {
        self.ttl_expirations
    }
}

/// Eviction leaves the memory cap satisfied.
pub proof fn lemma_evict_within_cap(m: CacheModel)
    ensures
        evict_model(m).0.used() <= m.max_memory,
        evict_model(m).0.max_memory == m.max_memory,
    decreases m.order.len(),
{
    if m.order.len() == 0 {
        assert(m.used() == 0);
    } else if m.used() > m.max_memory {
        let k = m.order[0];
        lemma_evict_within_cap(CacheModel { order: m.order.drop_first(), entries: m.entries.remove(k), max_memory: m.max_memory });
    }
}

/// Eviction removes a prefix of the recency order, least recently used
/// first: what stays is the order without its first `count` keys, and the
/// entries without those keys.
pub proof fn lemma_evict_drops_prefix(m: CacheModel)
    ensures
        evict_model(m).1 <= m.order.len(),
        evict_model(m).0.order == m.order.skip(evict_model(m).1 as int),
        evict_model(m).0.entries == m.entries.remove_keys(m.order.take(evict_model(m).1 as int).to_set()),
        evict_model(m).0.max_memory == m.max_memory,
    decreases m.order.len(),
{
    if m.order.len() == 0 || m.used() <= m.max_memory {
        assert(m.order.skip(0) =~= m.order);
        assert(m.entries.remove_keys(m.order.take(0).to_set()) =~= m.entries);
    } else {
        let k0 = m.order[0];
        let next = CacheModel { order: m.order.drop_first(), entries: m.entries.remove(k0), max_memory: m.max_memory };
        lemma_evict_drops_prefix(next);
        let r = evict_model(next);
        let n = r.1 as int;
        assert(next.order.skip(n) =~= m.order.skip(n + 1));
        let s1 = next.order.take(n).to_set();
        let s = m.order.take(n + 1).to_set();
        assert forall|x: Seq<char>| s.contains(x) <==> (x == k0 || s1.contains(x)) by {
            if s.contains(x) && x != k0 {
                let i = m.order.take(n + 1).index_of(x);
                assert(next.order.take(n)[i - 1] == x);
            }
            if s1.contains(x) {
                let i = next.order.take(n).index_of(x);
                assert(m.order.take(n + 1)[i + 1] == x);
            }
            if x == k0 {
                assert(m.order.take(n + 1)[0] == x);
            }
        }
        assert(r.0.entries =~= m.entries.remove_keys(s));
    }
}

/// A key at the most recently used end whose entry fits under the cap
/// survives eviction unchanged.
pub proof fn lemma_evict_keeps_last(m: CacheModel, k: Seq<char>)
    requires
        m.order.no_duplicates(),
        m.order.len() > 0,
        m.order.last() == k,
        m.entries.contains_key(k),
        entry_bytes(k, m.entries[k].data) <= m.max_memory,
    ensures
        evict_model(m).0.entries.contains_key(k),
        evict_model(m).0.entries[k] == m.entries[k],
        evict_model(m).0.order.contains(k),
    decreases m.order.len(),
{
    if m.used() <= m.max_memory {
        assert(m.order[m.order.len() - 1] == k);
    } else {
        if m.order.len() == 1 {
            assert(m.order.drop_first().len() == 0);
            assert(total_bytes(m.order.drop_first(), m.entries) == 0);
            assert(m.order[0] == k);
            assert(m.used() == entry_bytes(k, m.entries[k].data));
        }
        let k0 = m.order[0];
        assert(k0 != k) by {
            assert(m.order[m.order.len() - 1] == k);
        }
        let next = CacheModel { order: m.order.drop_first(), entries: m.entries.remove(k0), max_memory: m.max_memory };
        assert(next.order.last() == k);
        lemma_evict_keeps_last(next, k);
    }
}

/// Staging a write keeps every key once in the recency order, and adds
/// at most the new entry's size to the bytes in use.
proof fn lemma_staged(m: CacheModel, k: Seq<char>, data: Seq<u8>, ttl: Option<u64>, now: u64)
    requires
        m.wf(),
    ensures
        m.staged(k, data, ttl, now).order.no_duplicates(),
        m.staged(k, data, ttl, now).used() <= m.used() + entry_bytes(k, data),
{
    let st = m.staged(k, data, ttl, now);
    assert(st.order.no_duplicates()) by {
        if m.entries.contains_key(k) {
            let p = m.order.index_of(k);
            let w = without(m.order, k);
            assert forall|a: int, b: int| 0 <= a < b < st.order.len() implies st.order[a] != st.order[b] by {
                let a0 = if a < p { a } else { a + 1 };
                assert(st.order[a] == m.order[a0]);
                if b < st.order.len() - 1 {
                    let b0 = if b < p { b } else { b + 1 };
                    assert(st.order[b] == m.order[b0]);
                } else {
                    assert(m.order[p] == k);
                }
            }
        } else {
            assert forall|a: int, b: int| 0 <= a < b < st.order.len() implies st.order[a] != st.order[b] by {
                if b == st.order.len() - 1 {
                    assert(m.order.contains(m.order[a]));
                }
            }
        }
    }
    let e = m.entries;
    let e2 = st.entries;
    if m.entries.contains_key(k) {
        let p = m.order.index_of(k);
        let w = without(m.order, k);
        assert(m.order.contains(k));
        assert(m.order[p] == k);
        assert forall|i: int| 0 <= i < w.len() implies #[trigger] e2[w[i]].data == e[w[i]].data by {
            let i0 = if i < p { i } else { i + 1 };
            assert(w[i] == m.order[i0]);
        }
        lemma_total_congruent(w, e2, e);
        lemma_total_push(w, e2, k);
        lemma_total_remove(m.order, e, p);
    } else {
        assert forall|i: int| 0 <= i < m.order.len() implies #[trigger] e2[m.order[i]].data == e[m.order[i]].data by {
            assert(m.order.contains(m.order[i]));
        }
        lemma_total_congruent(m.order, e2, e);
        lemma_total_push(m.order, e2, k);
    }
}

/// Eviction never adds to the bytes in use.
proof fn lemma_evict_used(m: CacheModel)
    requires
        m.order.no_duplicates(),
    ensures
        evict_model(m).0.used() <= m.used(),
    decreases m.order.len(),
{
    if m.order.len() > 0 && m.used() > m.max_memory {
        let k0 = m.order[0];
        let next = CacheModel { order: m.order.drop_first(), entries: m.entries.remove(k0), max_memory: m.max_memory };
        assert forall|i: int| 0 <= i < next.order.len() implies #[trigger] next.entries[next.order[i]].data
            == m.entries[next.order[i]].data by {
            assert(next.order[i] == m.order[i + 1]);
        }
        lemma_total_congruent(next.order, next.entries, m.entries);
        lemma_evict_used(next);
    }
}

/// A write adds at most its entry's size to the bytes in use.
pub proof fn lemma_set_used(m: CacheModel, k: Seq<char>, data: Seq<u8>, ttl: Option<u64>, now: u64)
    requires
        m.wf(),
    ensures
        set_outcome(m, k, data, ttl, now).0.used() <= m.used() + entry_bytes(k, data),
{
    lemma_staged(m, k, data, ttl, now);
    lemma_evict_used(m.staged(k, data, ttl, now));
}

/// Read your write: right after `k` is written with `data`, a read of `k`
/// at any time before the entry expires returns `data`, provided the entry
/// alone fits under the memory cap.
pub proof fn lemma_set_then_get(m: CacheModel, k: Seq<char>, data: Seq<u8>, ttl: Option<u64>, now: u64, later: u64)
    requires
        m.wf(),
        entry_bytes(k, data) <= m.max_memory,
        !expired_at(expiry_after(now, ttl), later),
    ensures
        get_outcome(set_outcome(m, k, data, ttl, now).0, k, later).1 == Some(data),
{
    let st = m.staged(k, data, ttl, now);
    lemma_staged(m, k, data, ttl, now);
    assert(st.order.last() == k);
    lemma_evict_keeps_last(st, k);
}

/// A key written with a lifetime of `secs` seconds at `now` reads as
/// missing at any time from `now` plus that lifetime on, whether it was
/// evicted in the meantime or not.
pub proof fn lemma_set_then_expire(m: CacheModel, k: Seq<char>, data: Seq<u8>, secs: u64, now: u64, later: u64)
    requires
        later >= now + secs * NANOS_PER_SEC,
    ensures
        get_outcome(set_outcome(m, k, data, Some(secs), now).0, k, later).1 == None::<Seq<u8>>,
{
    let st = m.staged(k, data, Some(secs), now);
    lemma_evict_drops_prefix(st);
    let r = evict_model(st).0;
    if r.entries.contains_key(k) {
        assert(r.entries[k] == st.entries[k]);
        assert(expired_at(st.entries[k].expires_at, later));
    }
}

/// A deleted key reads as missing.
pub proof fn lemma_delete_then_get(m: CacheModel, k: Seq<char>, now: u64)
    ensures
        get_outcome(delete_outcome(m, k).0, k, now).1 == None::<Seq<u8>>,
        !delete_outcome(m, k).0.entries.contains_key(k),
{
}

/// A read that finds a live key makes it the most recently used one.
pub proof fn lemma_get_touches(m: CacheModel, k: Seq<char>, now: u64)
    requires
        get_outcome(m, k, now).1 is Some,
    ensures
        get_outcome(m, k, now).0.order.last() == k,
        get_outcome(m, k, now).0.entries[k].data == m.entries[k].data,
{
}

/// A purge drops exactly the keys of `keys` whose entries are expired at
/// `now` and keeps every other entry as it was.
pub proof fn lemma_purge_drops_expired(m: CacheModel, keys: Seq<Seq<char>>, now: u64)
    requires
        keys.no_duplicates(),
    ensures
        forall|k: Seq<char>| #[trigger] purge_model(m, keys, now).0.entries.contains_key(k) <==> (m.entries.contains_key(k) && !(keys.contains(k) && expired_at(m.entries[k].expires_at, now))),
        forall|k: Seq<char>| #[trigger] purge_model(m, keys, now).0.entries.contains_key(k) ==> purge_model(m, keys, now).0.entries[k] == m.entries[k],
    decreases keys.len(),
{
    if keys.len() > 0 {
        let k0 = keys[0];
        let rest = keys.drop_first();
        assert(rest.no_duplicates()) by {
            assert forall|a: int, b: int| 0 <= a < b < rest.len() implies rest[a] != rest[b] by {
                assert(rest[a] == keys[a + 1] && rest[b] == keys[b + 1]);
            }
        }
        assert forall|k: Seq<char>| #[trigger] keys.contains(k) <==> (k == k0 || rest.contains(k)) by {
            if keys.contains(k) && k != k0 {
                let i = keys.index_of(k);
                assert(rest[i - 1] == k);
            }
            if rest.contains(k) {
                let i = rest.index_of(k);
                assert(keys[i + 1] == k);
            }
        }
        assert(!rest.contains(k0)) by {
            if rest.contains(k0) {
                let i = rest.index_of(k0);
                assert(keys[i + 1] == keys[0]);
            }
        }
        if m.entries.contains_key(k0) && expired_at(m.entries[k0].expires_at, now) {
            let m1 = m.removed(k0);
            lemma_purge_drops_expired(m1, rest, now);
            let r = purge_model(m1, rest, now).0;
            assert(purge_model(m, keys, now).0 == r);
            assert forall|k: Seq<char>| #[trigger] r.entries.contains_key(k) <==> (m.entries.contains_key(k) && !(keys.contains(k) && expired_at(m.entries[k].expires_at, now))) by {
                if k != k0 {
                    assert(m1.entries.contains_key(k) == m.entries.contains_key(k));
                }
            }
            assert forall|k: Seq<char>| #[trigger] r.entries.contains_key(k) implies r.entries[k] == m.entries[k] by {
                assert(k != k0);
                assert(m1.entries[k] == m.entries[k]);
            }
        } else {
            lemma_purge_drops_expired(m, rest, now);
            let r = purge_model(m, rest, now).0;
            assert(purge_model(m, keys, now).0 == r);
            assert forall|k: Seq<char>| #[trigger] r.entries.contains_key(k) <==> (m.entries.contains_key(k) && !(keys.contains(k) && expired_at(m.entries[k].expires_at, now))) by {
                if k == k0 {
                    assert(!rest.contains(k0));
                }
            }
        }
    }
}
} // verus!
