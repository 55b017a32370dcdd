use vstd::prelude::*;
use crate::config::HeartbeatConfig;
use crate::text::{owned, str_equal};

verus! {

/// What the failure detector believes of a peer.
#[derive(Debug, Clone, Copy, PartialEq, Eq, Structural)]
pub enum PeerStatus {
    Alive,
    Suspected,
    Failed,
}

impl PeerStatus {
    /// The status as a lower-case word.
    pub fn as_str(&self) -> (text: &'static str)
        ensures
            text@ == match self {
                PeerStatus::Alive => "alive"@,
                PeerStatus::Suspected => "suspected"@,
                PeerStatus::Failed => "failed"@,
            },
    {
        match self {
            PeerStatus::Alive => "alive",
            PeerStatus::Suspected => "suspected",
            PeerStatus::Failed => "failed",
        }
    }
}

/// The detector's record of one peer; times are nanoseconds on the node's clock.
#[derive(Debug, Clone, Copy, PartialEq, Eq, Structural)]
pub struct PeerState {
    pub status: PeerStatus,
    /// Pings missed in a row.
    pub missed: u32,
    /// When the peer last answered.
    pub last_seen: u64,
    /// When the peer was first found failed, while it stays failed.
    pub detected_failed_at: Option<u64>,
}

/// A fresh peer, alive as of `now`.
pub open spec fn fresh_peer(now: u64) -> PeerState {
    PeerState { status: PeerStatus::Alive, missed: 0, last_seen: now, detected_failed_at: None }
}

/// The record after a missed ping at `now`: the miss count rises
/// (saturating); at `threshold` misses the peer is failed, noting when,
/// after the first miss it is suspected, and otherwise it keeps its status.
pub open spec fn after_miss(st: PeerState, threshold: u32, now: u64) -> PeerState {
    let missed = if st.missed == u32::MAX { u32::MAX } else { (st.missed + 1) as u32 };
    if missed >= threshold {
        PeerState {
            status: PeerStatus::Failed,
            missed,
            last_seen: st.last_seen,
            detected_failed_at: if st.detected_failed_at is None { Some(now) } else { st.detected_failed_at },
        }
    } else if missed == 1 {
        PeerState { status: PeerStatus::Suspected, missed, ..st }
    } else {
        PeerState { missed, ..st }
    }
}

/// The record after an answered ping at `now`: a peer that was not alive
/// is alive again with no misses and no failure time; the time is noted.
pub open spec fn after_answer(st: PeerState, now: u64) -> PeerState {
    if st.status != PeerStatus::Alive {
        PeerState { status: PeerStatus::Alive, missed: 0, last_seen: now, detected_failed_at: None }
    } else {
        PeerState { last_seen: now, ..st }
    }
}

/// How long a recovered peer had been failed: set when a failed peer
/// answers again.
pub open spec fn recovery_time(st: PeerState, now: u64) -> Option<u64> {
    if st.status != PeerStatus::Alive {
        match st.detected_failed_at {
            Some(at) => Some(if now >= at { (now - at) as u64 } else { 0 }),
            None => None,
        }
    } else {
        None
    }
}

/// The status agrees with the miss count, and a failure time is held
/// exactly while the peer is failed.
pub open spec fn consistent_peer(st: PeerState, threshold: u32) -> bool {
    &&& (st.status == PeerStatus::Alive <==> st.missed == 0)
    &&& (st.status == PeerStatus::Failed <==> st.missed >= threshold)
    &&& (st.detected_failed_at is Some <==> st.status == PeerStatus::Failed)
}

/// A fresh peer is consistent, and misses and answers keep a peer
/// consistent, for any positive threshold.
pub proof fn lemma_peer_consistency(st: PeerState, threshold: u32, now: u64)
    requires
        threshold >= 1,
        consistent_peer(st, threshold),
    ensures
        consistent_peer(fresh_peer(now), threshold),
        consistent_peer(after_miss(st, threshold, now), threshold),
        consistent_peer(after_answer(st, now), threshold),
{
}

/// A failure detector: the status of each peer from the pings it answers
/// or misses.
pub struct Heartbeat {
    peers: Vec<(String, PeerState)>,
    peer_addrs: Vec<String>,
    internal: Vec<(String, String)>,
    interval_secs: u64,
    timeout_ms: u64,
    miss_threshold: u32,
    last_detection_ns: u64,
}

/// Whether a name differs from `name`.
pub open spec fn not_named(name: Seq<char>) -> spec_fn(Seq<char>) -> bool {
    |n: Seq<char>| n != name
}

/// The record after `k` pings in a row were missed, at `now`.
pub open spec fn after_misses(st: PeerState, threshold: u32, k: nat, now: u64) -> PeerState
    decreases k,
{
    if k == 0 {
        st
    } else {
        after_miss(after_misses(st, threshold, (k - 1) as nat, now), threshold, now)
    }
}

/// A live peer that misses `k` pings in a row (`k` at least 1) is failed
/// once `k` reaches the threshold and suspected before that; one answer
/// makes it alive again.
pub proof fn lemma_misses_mark_failed(st: PeerState, threshold: u32, k: nat, now: u64, later: u64)
    requires
        threshold >= 1,
        st.status == PeerStatus::Alive,
        consistent_peer(st, threshold),
        1 <= k <= u32::MAX,
    ensures
        after_misses(st, threshold, k, now).missed == k,
        after_misses(st, threshold, k, now).status == if k >= threshold {
            PeerStatus::Failed
        } else {
            PeerStatus::Suspected
        },
        after_answer(after_misses(st, threshold, k, now), later).status == PeerStatus::Alive,
        after_answer(after_misses(st, threshold, k, now), later).missed == 0,
    decreases k,
{
    let prev = after_misses(st, threshold, (k - 1) as nat, now);
    assert(after_misses(st, threshold, k, now) == after_miss(prev, threshold, now));
    if k > 1 {
        lemma_misses_mark_failed(st, threshold, (k - 1) as nat, now, later);
        assert(prev.missed == k - 1);
    } else {
        assert(prev == st);
        assert(st.missed == 0);
    }
}

/// The table after `peer` missed a ping at `now`: its record, if it has
/// one, as [`after_miss`] leaves it; every other record as it was.
pub open spec fn missed_in(table: Seq<(Seq<char>, PeerState)>, peer: Seq<char>, threshold: u32, now: u64) -> Seq<(Seq<char>, PeerState)> {
    table.map_values(
        |e: (Seq<char>, PeerState)|
            if e.0 == peer {
                (e.0, after_miss(e.1, threshold, now))
            } else {
                e
            },
    )
}

/// The table after `peer` missed one ping at each of `times`, in order.
pub open spec fn missed_at(table: Seq<(Seq<char>, PeerState)>, peer: Seq<char>, threshold: u32, times: Seq<u64>) -> Seq<(Seq<char>, PeerState)>
    decreases times.len(),
{
    if times.len() == 0 {
        table
    } else {
        missed_in(missed_at(table, peer, threshold, times.drop_last()), peer, threshold, times.last())
    }
}

/// One missed ping changes what a lookup of `peer` finds as
/// [`after_miss`] does, and nothing else: other names read the same, and
/// a table without `peer` is left as it was.
pub proof fn lemma_lookup_missed(table: Seq<(Seq<char>, PeerState)>, peer: Seq<char>, threshold: u32, now: u64)
    ensures
        lookup(missed_in(table, peer, threshold, now), peer) == match lookup(table, peer) {
            Some(st) => Some(after_miss(st, threshold, now)),
            None => None::<PeerState>,
        },
        forall|n: Seq<char>| n != peer ==> #[trigger] lookup(missed_in(table, peer, threshold, now), n) == lookup(table, n),
        lookup(table, peer) is None ==> missed_in(table, peer, threshold, now) == table,
    decreases table.len(),
{
    let t2 = missed_in(table, peer, threshold, now);
    if table.len() == 0 {
        assert(t2 =~= table);
    } else {
        let tail = table.drop_first();
        lemma_lookup_missed(tail, peer, threshold, now);
        assert(t2.drop_first() =~= missed_in(tail, peer, threshold, now));
        assert(t2[0].0 == table[0].0);
        assert forall|n: Seq<char>| n != peer implies #[trigger] lookup(t2, n) == lookup(table, n) by {
            assert(t2.len() == table.len());
            if table[0].0 == n {
                assert(t2[0] == table[0]);
            } else {
                assert(lookup(t2, n) == lookup(t2.drop_first(), n));
                assert(lookup(missed_in(tail, peer, threshold, now), n) == lookup(tail, n));
            }
        }
        if lookup(table, peer) is None {
            assert(table[0].0 != peer);
            assert(t2 =~= table) by {
                assert forall|k: int| 0 <= k < table.len() implies t2[k] == table[k] by {
                    if k > 0 {
                        assert(t2[k] == t2.drop_first()[k - 1]);
                        assert(table[k] == tail[k - 1]);
                    }
                }
            }
        }
    }
}

/// A peer that misses a ping at each of `times` (at least one), with no
/// answer in between, from when it was created or last answered: its
/// record counts that many misses, and it reads as failed once the count
/// reaches the threshold and as suspected before that. Every other peer
/// reads the same, and misses of a name that is no peer change nothing.
pub proof fn lemma_missed_pings_status(table: Seq<(Seq<char>, PeerState)>, peer: Seq<char>, threshold: u32, times: Seq<u64>)
    requires
        threshold >= 1,
        1 <= times.len() <= u32::MAX,
        forall|i: int| 0 <= i < table.len() && #[trigger] table[i].0 == peer ==> table[i].1.status == PeerStatus::Alive
            && consistent_peer(table[i].1, threshold),
    ensures
        lookup(table, peer) is None ==> missed_at(table, peer, threshold, times) == table,
        lookup(table, peer) is Some ==> (lookup(missed_at(table, peer, threshold, times), peer) matches Some(st)
            && st.missed == times.len() && st.status == if times.len() >= threshold {
            PeerStatus::Failed
        } else {
            PeerStatus::Suspected
        }),
        forall|n: Seq<char>| n != peer ==> #[trigger] lookup(missed_at(table, peer, threshold, times), n) == lookup(table, n),
    decreases times.len(),
{
    let k = times.len();
    let before = times.drop_last();
    let prev = missed_at(table, peer, threshold, before);
    lemma_lookup_missed(prev, peer, threshold, times.last());
    if k > 1 {
        lemma_missed_pings_status(table, peer, threshold, before);
    } else {
        assert(before.len() == 0);
        assert(prev == table);
        lemma_lookup_found(table, peer);
    }
}

/// What a lookup finds is the record of an entry with that name.
proof fn lemma_lookup_found(table: Seq<(Seq<char>, PeerState)>, name: Seq<char>)
    ensures
        lookup(table, name) matches Some(st) ==> exists|i: int| 0 <= i < table.len() && #[trigger] table[i].0 == name && table[i].1 == st,
    decreases table.len(),
{
    if table.len() > 0 && table[0].0 != name {
        let tail = table.drop_first();
        lemma_lookup_found(tail, name);
        if lookup(tail, name) is Some {
            let i = choose|i: int| 0 <= i < tail.len() && #[trigger] tail[i].0 == name && tail[i].1 == lookup(tail, name)->0;
            assert(table[i + 1] == tail[i]);
        }
    }
}

/// The first record of `name` in `table`, if any.
pub open spec fn lookup(table: Seq<(Seq<char>, PeerState)>, name: Seq<char>) -> Option<PeerState>
    decreases table.len(),
{
    if table.len() == 0 {
        None
    } else if table[0].0 == name {
        Some(table[0].1)
    } else {
        lookup(table.drop_first(), name)
    }
}

/// How many records of `table` have status `s`.
pub open spec fn status_count(table: Seq<(Seq<char>, PeerState)>, s: PeerStatus) -> nat
    decreases table.len(),
{
    if table.len() == 0 {
        0
    } else {
        status_count(table.drop_last(), s) + if table.last().1.status == s {
            1nat
        } else {
            0nat
        }
    }
}

impl Heartbeat {
    /// Each peer with its record, every peer once.
    pub closed spec fn table(&self) -> Seq<(Seq<char>, PeerState)> {
        self.peers@.map_values(|p: (String, PeerState)| (p.0@, p.1))
    }

    /// The peers pinged on every round, in order.
    pub closed spec fn ping_list(&self) -> Seq<Seq<char>> {
        self.peer_addrs@.map_values(|s: String| s@)
    }

    /// Each node's public address with its internal address.
    pub closed spec fn internal_pairs(&self) -> Seq<(Seq<char>, Seq<char>)> {
        self.internal@.map_values(|p: (String, String)| (p.0@, p.1@))
    }

    /// Misses that mark a peer failed.
    pub closed spec fn threshold(&self) -> u32 {
        self.miss_threshold
    }

    /// Every peer appears once in the table and its record is consistent.
    pub closed spec fn wf(&self) -> bool {
        &&& self.miss_threshold >= 1
        &&& self.table().map_values(|p: (Seq<char>, PeerState)| p.0).no_duplicates()
        &&& forall|i: int| 0 <= i < self.table().len() ==> consistent_peer(#[trigger] self.table()[i].1, self.miss_threshold)
    }

    /// A detector for every node of `cluster_nodes` but `self_address`, all
    /// alive as of `now`. The round interval is at least a second, the ping
    /// timeout at least 50 ms, and at least one miss marks a peer failed.
    pub fn new(self_address: &str, cluster_nodes: &[String], internal: Vec<(String, String)>, config: HeartbeatConfig, now: u64) -> (hb: Self)
        ensures
            hb.wf(),
            hb.ping_list() == cluster_nodes@.map_values(|s: String| s@).filter(not_named(self_address@)),
            hb.ping_list().to_set() == hb.table().map_values(|p: (Seq<char>, PeerState)| p.0).to_set(),
            hb.table().len() == hb.ping_list().to_set().len(),
            forall|i: int| 0 <= i < hb.table().len() ==> #[trigger] hb.table()[i].1 == fresh_peer(now),
            hb.threshold() == if config.miss_threshold >= 1 { config.miss_threshold } else { 1 },
            hb.interval_secs() == if config.interval_secs >= 1 { config.interval_secs } else { 1 },
            hb.timeout_ms() == if config.timeout_ms >= 50 { config.timeout_ms } else { 50 },
            hb.detection_ns() == 0,
    {
        let ghost all = cluster_nodes@.map_values(|s: String| s@);
        let ghost keep = not_named(self_address@);
        let mut peer_addrs: Vec<String> = Vec::new();
        let mut peers: Vec<(String, PeerState)> = Vec::new();
        let threshold = if config.miss_threshold >= 1 {
            config.miss_threshold
        } else {
            1
        };
        let mut i: usize = 0;
        while i < cluster_nodes.len()
            invariant
                i <= cluster_nodes@.len(),
                all == cluster_nodes@.map_values(|s: String| s@),
                keep == not_named(self_address@),
                threshold >= 1,
                peer_addrs@.map_values(|s: String| s@) == all.take(i as int).filter(not_named(self_address@)),
                peers@.map_values(|p: (String, PeerState)| p.0@).no_duplicates(),
                peer_addrs@.map_values(|s: String| s@).to_set() == peers@.map_values(|p: (String, PeerState)| p.0@).to_set(),
                forall|j: int| 0 <= j < peers@.len() ==> #[trigger] peers@[j].1 == fresh_peer(now),
            decreases cluster_nodes@.len() - i,
        {
            let node = cluster_nodes[i].as_str();
            let ghost before_addrs = peer_addrs@.map_values(|s: String| s@);
            let ghost before_peers = peers@.map_values(|p: (String, PeerState)| p.0@);
            proof {
                assert(all.take(i + 1) =~= all.take(i as int).push(node@));
            }
            if !str_equal(node, self_address) {
                let ghost names_before = peers@.map_values(|p: (String, PeerState)| p.0@);
                let known = contains_name_pairs(&peers, node);
                peer_addrs.push(owned(node));
                proof {
                    assert(peer_addrs@.map_values(|s: String| s@) =~= before_addrs.push(node@));
                    crate::hashing::lemma_push_to_set(before_addrs, node@);
                }
                if !known {
                    peers.push((owned(node), fresh_peer_state(now)));
                    proof {
                        let names = peers@.map_values(|p: (String, PeerState)| p.0@);
                        assert(names =~= names_before.push(node@));
                        crate::hashing::lemma_push_to_set(names_before, node@);
                        assert forall|a: int, b: int| 0 <= a < b < names.len() implies names[a] != names[b] by {
                            if b == names.len() - 1 {
                                assert(names_before.contains(names[a]));
                            }
                        }
                    }
                } else {
                    proof {
                        assert(before_addrs.to_set().insert(node@) =~= before_peers.to_set());
                    }
                }
                proof {
                    all.take(i as int).lemma_filter_push(node@, keep);
                    assert(keep(node@));
                    assert(peer_addrs@.map_values(|s: String| s@) == all.take(i + 1).filter(keep));
                }
            } else {
                proof {
                    all.take(i as int).lemma_filter_push(node@, keep);
                    assert(!keep(node@));
                    assert(peer_addrs@.map_values(|s: String| s@) == all.take(i + 1).filter(keep));
                }
            }
            i = i + 1;
        }
        proof {
            assert(all.take(cluster_nodes@.len() as int) =~= all);
        }
        let hb = Heartbeat {
            peers,
            peer_addrs,
            internal,
            interval_secs: if config.interval_secs >= 1 {
                config.interval_secs
            } else {
                1
            },
            timeout_ms: if config.timeout_ms >= 50 {
                config.timeout_ms
            } else {
                50
            },
            miss_threshold: threshold,
            last_detection_ns: 0,
        };
        proof {
            assert(hb.table().map_values(|p: (Seq<char>, PeerState)| p.0) =~= hb.peers@.map_values(|p: (String, PeerState)| p.0@));
            hb.table().map_values(|p: (Seq<char>, PeerState)| p.0).unique_seq_to_set();
        }
        hb
    }

    /// Nanoseconds between the last recovered peer's failure and its recovery.
    pub closed spec fn detection_ns(&self) -> u64 {
        self.last_detection_ns
    }

    /// Nanoseconds between the last recovered peer's failure and its recovery.
    pub fn last_detection_ns(&self) -> (ns: u64)
        ensures
            ns == self.detection_ns(),
    {
        self.last_detection_ns
    }

    /// Seconds between rounds of pings.
    pub closed spec fn interval_secs(&self) -> u64 {
        self.interval_secs
    }

    /// Milliseconds a ping may take.
    pub closed spec fn timeout_ms(&self) -> u64 {
        self.timeout_ms
    }

    /// Seconds between rounds of pings.
    pub fn interval(&self) -> (secs: u64)
        ensures
            secs == self.interval_secs(),
    {
        self.interval_secs
    }

    /// Milliseconds a ping may take.
    pub fn timeout(&self) -> (ms: u64)
        ensures
            ms == self.timeout_ms(),
    {
        self.timeout_ms
    }

    /// The peers to ping in a round, in order.
    pub fn peers_to_ping(&self) -> (peers: &[String])
        ensures
            peers@.map_values(|s: String| s@) == self.ping_list(),
    {
        self.peer_addrs.as_slice()
    }

    /// The internal address to ping `peer` at, if the cluster map has one.
    pub fn internal_address_of(&self, peer: &str) -> (address: Option<&str>)
        ensures
            address is Some ==> exists|i: int| 0 <= i < self.internal_pairs().len() && #[trigger] self.internal_pairs()[i] == (peer@, address->0@),
            address is None ==> forall|i: int| 0 <= i < self.internal_pairs().len() ==> #[trigger] self.internal_pairs()[i].0 != peer@,
    {
        let mut i: usize = 0;
        while i < self.internal.len()
            invariant
                i <= self.internal@.len(),
                forall|j: int| 0 <= j < i ==> #[trigger] self.internal_pairs()[j].0 != peer@,
            decreases self.internal@.len() - i,
        {
            if str_equal(self.internal[i].0.as_str(), peer) {
                assert(self.internal_pairs()[i as int] == (peer@, self.internal@[i as int].1@));
                return Some(self.internal[i].1.as_str());
            }
            assert(self.internal_pairs()[i as int].0 == self.internal@[i as int].0@);
            i = i + 1;
        }
        None
    }

    /// The position of `peer` in the table, if it is there.
    fn position(&self, peer: &str) -> (pos: Option<usize>)
        requires
            self.wf(),
        ensures
            match pos {
                Some(i) => i < self.table().len() && self.table()[i as int].0 == peer@,
                None => forall|i: int| 0 <= i < self.table().len() ==> #[trigger] self.table()[i].0 != peer@,
            },
    {
        let mut i: usize = 0;
        while i < self.peers.len()
            invariant
                i <= self.peers@.len(),
                forall|j: int| 0 <= j < i ==> #[trigger] self.table()[j].0 != peer@,
            decreases self.peers@.len() - i,
        {
            if str_equal(self.peers[i].0.as_str(), peer) {
                return Some(i);
            }
            i = i + 1;
        }
        None
    }

    /// Notes that `peer` answered a ping at `now`.
    pub fn mark_alive(&mut self, peer: &str, now: u64)
        requires
            old(self).wf(),
        ensures
            final(self).wf(),
            final(self).ping_list() == old(self).ping_list(),
            final(self).threshold() == old(self).threshold(),
            final(self).table().len() == old(self).table().len(),
            forall|i: int| 0 <= i < old(self).table().len() ==> #[trigger] final(self).table()[i] == if old(self).table()[i].0 == peer@ {
                (peer@, after_answer(old(self).table()[i].1, now))
            } else {
                old(self).table()[i]
            },
            final(self).detection_ns() == match lookup(old(self).table(), peer@) {
                Some(st) => match recovery_time(st, now) {
                    Some(d) => d,
                    None => old(self).detection_ns(),
                },
                None => old(self).detection_ns(),
            },
    {
        match self.position(peer) {
            Some(i) => {
                proof {
                    lemma_lookup_unique(self.table(), peer@, i as int);
                    lemma_only_position(self.table(), peer@, i as int);
                }
                let st = self.peers[i].1;
                if st.status != PeerStatus::Alive {
                    match st.detected_failed_at {
                        Some(at) => {
                            self.last_detection_ns = if now >= at { now - at } else { 0 };
                        },
                        None => {},
                    }
                }
                let next = if st.status != PeerStatus::Alive {
                    PeerState { status: PeerStatus::Alive, missed: 0, last_seen: now, detected_failed_at: None }
                } else {
                    PeerState { last_seen: now, ..st }
                };
                self.set_state(i, next);
                proof {
                    lemma_peer_consistency(st, self.miss_threshold, now);
                }
            },
            None => {
                proof {
                    lemma_lookup_absent(self.table(), peer@);
                }
            },
        }
    }

    /// Notes that `peer` missed a ping at `now`.
    pub fn mark_missed(&mut self, peer: &str, now: u64)
        requires
            old(self).wf(),
        ensures
            final(self).wf(),
            final(self).ping_list() == old(self).ping_list(),
            final(self).threshold() == old(self).threshold(),
            final(self).table().len() == old(self).table().len(),
            forall|i: int| 0 <= i < old(self).table().len() ==> #[trigger] final(self).table()[i] == if old(self).table()[i].0 == peer@ {
                (peer@, after_miss(old(self).table()[i].1, old(self).threshold(), now))
            } else {
                old(self).table()[i]
            },
            final(self).table() == missed_in(old(self).table(), peer@, old(self).threshold(), now),
            final(self).detection_ns() == old(self).detection_ns(),
    {
        match self.position(peer) {
            Some(i) => {
                proof {
                    lemma_lookup_unique(self.table(), peer@, i as int);
                    lemma_only_position(self.table(), peer@, i as int);
                }
                let st = self.peers[i].1;
                let missed = st.missed.saturating_add(1);
                let next = if missed >= self.miss_threshold {
                    PeerState {
                        status: PeerStatus::Failed,
                        missed,
                        last_seen: st.last_seen,
                        detected_failed_at: if st.detected_failed_at.is_none() {
                            Some(now)
                        } else {
                            st.detected_failed_at
                        },
                    }
                } else if missed == 1 {
                    PeerState { status: PeerStatus::Suspected, missed, ..st }
                } else {
                    PeerState { missed, ..st }
                };
                self.set_state(i, next);
                proof {
                    lemma_peer_consistency(st, self.miss_threshold, now);
                }
            },
            None => {},
        }
        proof {
            assert(self.table() =~= missed_in(old(self).table(), peer@, old(self).threshold(), now));
        }
    }

    /// Replaces the record at position `i`.
    fn set_state(&mut self, i: usize, st: PeerState)
        requires
            old(self).wf(),
            i < old(self).table().len(),
            consistent_peer(st, old(self).miss_threshold),
        ensures
            final(self).wf(),
            final(self).ping_list() == old(self).ping_list(),
            final(self).threshold() == old(self).threshold(),
            final(self).detection_ns() == old(self).detection_ns(),
            final(self).internal == old(self).internal,
            final(self).table() == old(self).table().update(i as int, (old(self).table()[i as int].0, st)),
    {
        let ghost before = self.table();
        let name = owned(self.peers[i].0.as_str());
        self.peers.set(i, (name, st));
        proof {
            assert(self.table() =~= before.update(i as int, (before[i as int].0, st)));
            assert(self.table().map_values(|p: (Seq<char>, PeerState)| p.0) =~= before.map_values(|p: (Seq<char>, PeerState)| p.0));
        }
    }

    /// The status of `peer`, if it is one.
    pub fn status_of(&self, peer: &str) -> (status: Option<PeerStatus>)
        requires
            self.wf(),
        ensures
            status == match lookup(self.table(), peer@) {
                Some(st) => Some(st.status),
                None => None::<PeerStatus>,
            },
    {
        match self.position(peer) {
            Some(i) => {
                proof {
                    lemma_lookup_unique(self.table(), peer@, i as int);
                }
                Some(self.peers[i].1.status)
            },
            None => {
                proof {
                    lemma_lookup_absent(self.table(), peer@);
                }
                None
            },
        }
    }

    /// How many peers are alive, suspected and failed.
    pub fn summary(&self) -> (counts: (usize, usize, usize))
        ensures
            counts.0 == status_count(self.table(), PeerStatus::Alive),
            counts.1 == status_count(self.table(), PeerStatus::Suspected),
            counts.2 == status_count(self.table(), PeerStatus::Failed),
            counts.0 + counts.1 + counts.2 == self.table().len(),
    {
        let ghost t = self.table();
        let mut alive: usize = 0;
        let mut suspected: usize = 0;
        let mut failed: usize = 0;
        let mut i: usize = 0;
        while i < self.peers.len()
            invariant
                i <= self.peers@.len(),
                t == self.table(),
                t.len() == self.peers@.len(),
                alive == status_count(t.take(i as int), PeerStatus::Alive),
                suspected == status_count(t.take(i as int), PeerStatus::Suspected),
                failed == status_count(t.take(i as int), PeerStatus::Failed),
                alive + suspected + failed == i,
            decreases self.peers@.len() - i,
        {
            assert(t.take(i + 1).drop_last() =~= t.take(i as int));
            assert(t.take(i + 1).last() == t[i as int]);
            match self.peers[i].1.status {
                PeerStatus::Alive => alive = alive + 1,
                PeerStatus::Suspected => suspected = suspected + 1,
                PeerStatus::Failed => failed = failed + 1,
            }
            i = i + 1;
        }
        assert(t.take(t.len() as int) =~= t);
        (alive, suspected, failed)
    }
}

/// A fresh peer record, alive as of `now`.
fn fresh_peer_state(now: u64) -> (st: PeerState)
    ensures
        st == fresh_peer(now),
{
    PeerState { status: PeerStatus::Alive, missed: 0, last_seen: now, detected_failed_at: None }
}

/// Whether `x` names a record of `v`.
fn contains_name_pairs(v: &Vec<(String, PeerState)>, x: &str) -> (found: bool)
    ensures
        found == v@.map_values(|p: (String, PeerState)| p.0@).contains(x@),
{
    let ghost views = v@.map_values(|p: (String, PeerState)| p.0@);
    let mut i: usize = 0;
    while i < v.len()
        invariant
            i <= v@.len(),
            views == v@.map_values(|p: (String, PeerState)| p.0@),
            forall|j: int| 0 <= j < i ==> #[trigger] views[j] != x@,
        decreases v@.len() - i,
    {
        if str_equal(v[i].0.as_str(), x) {
            assert(views[i as int] == x@);
            return true;
        }
        i = i + 1;
    }
    false
}

/// In a table whose names are distinct, the record found for the name at
/// position `i` is the one at `i`.
proof fn lemma_lookup_unique(table: Seq<(Seq<char>, PeerState)>, name: Seq<char>, i: int)
    requires
        table.map_values(|p: (Seq<char>, PeerState)| p.0).no_duplicates(),
        0 <= i < table.len(),
        table[i].0 == name,
    ensures
        lookup(table, name) == Some(table[i].1),
    decreases table.len(),
{
    if i > 0 {
        let rest = table.drop_first();
        assert(table.map_values(|p: (Seq<char>, PeerState)| p.0)[0] == table[0].0);
        assert(table.map_values(|p: (Seq<char>, PeerState)| p.0)[i] == table[i].0);
        assert(rest.map_values(|p: (Seq<char>, PeerState)| p.0) =~= table.map_values(|p: (Seq<char>, PeerState)| p.0).drop_first());
        lemma_lookup_unique(rest, name, i - 1);
    }
}

/// In a table whose names are distinct, only position `i` holds the name there.
proof fn lemma_only_position(table: Seq<(Seq<char>, PeerState)>, name: Seq<char>, i: int)
    requires
        table.map_values(|p: (Seq<char>, PeerState)| p.0).no_duplicates(),
        0 <= i < table.len(),
        table[i].0 == name,
    ensures
        forall|j: int| 0 <= j < table.len() && j != i ==> #[trigger] table[j].0 != name,
{
    let names = table.map_values(|p: (Seq<char>, PeerState)| p.0);
    assert forall|j: int| 0 <= j < table.len() && j != i implies #[trigger] table[j].0 != name by {
        assert(names[j] == table[j].0);
        assert(names[i] == table[i].0);
    }
}

/// A name on no record is not found.
proof fn lemma_lookup_absent(table: Seq<(Seq<char>, PeerState)>, name: Seq<char>)
    requires
        forall|i: int| 0 <= i < table.len() ==> #[trigger] table[i].0 != name,
    ensures
        lookup(table, name) is None,
    decreases table.len(),
{
    if table.len() > 0 {
        assert(table[0].0 != name);
        assert forall|i: int| 0 <= i < table.drop_first().len() implies #[trigger] table.drop_first()[i].0 != name by {
            assert(table.drop_first()[i] == table[i + 1]);
        }
        lemma_lookup_absent(table.drop_first(), name);
    }
}

} // verus!
