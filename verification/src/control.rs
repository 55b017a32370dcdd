use vstd::prelude::*;
use crate::config::{
    AofConfig, CacheConfig, ClusterConfig, Config, HashingConfig, HeartbeatConfig, MetricsConfig,
    NodeConfig, ReplicationConfig,
};
use crate::text::{chars_of, decimal, decimal_text, owned, str_equal};

verus! {

/// The shape of a local test cluster: where its nodes listen and how they
/// are configured. Node `i` (from 1) listens on `public_base + i - 1` and
/// serves metrics on `metrics_base + i - 1`.
#[derive(Debug, Clone, PartialEq, Eq)]
pub struct ClusterSpec {
    pub host: String,
    pub public_base: u16,
    pub metrics_base: u16,
    pub node_count: u16,
    pub replication_factor: u32,
    pub vnodes: usize,
    pub max_memory_bytes: u64,
}

/// The memory cap a cluster's nodes get by default: 100 MiB.
pub const DEFAULT_NODE_MEMORY_BYTES: u64 = 104_857_600;

/// The size at which a generated node config rewrites its append-only file: 64 MiB.
pub const GENERATED_REWRITE_THRESHOLD_BYTES: u64 = 67_108_864;

impl Default for ClusterSpec {
    fn default() -> (s: Self)
        ensures
            s.host@ == "127.0.0.1"@,
            s.public_base == 7001,
            s.metrics_base == 9001,
            s.node_count == 3,
            s.replication_factor == 1,
            s.vnodes == 100,
            s.max_memory_bytes == DEFAULT_NODE_MEMORY_BYTES,
    {
        ClusterSpec {
            host: owned("127.0.0.1"),
            public_base: 7001,
            metrics_base: 9001,
            node_count: 3,
            replication_factor: 1,
            vnodes: 100,
            max_memory_bytes: DEFAULT_NODE_MEMORY_BYTES,
        }
    }
}

impl ClusterSpec {
    /// The node listening on `public_port`, if one of the spec's does.
    pub fn node_for_port(&self, public_port: u16) -> (id: Option<u16>)
        requires
            self.public_base + self.node_count <= u16::MAX,
        ensures
            id == if self.public_base <= public_port < self.public_base + self.node_count {
                Some((public_port - self.public_base + 1) as u16)
            } else {
                None::<u16>
            },
    {
        if public_port >= self.public_base && public_port < self.public_base + self.node_count {
            Some(public_port - self.public_base + 1)
        } else {
            None
        }
    }

    /// The public port of node `node_id`.
    pub fn public_port(&self, node_id: u16) -> (port: u16)
        requires
            1 <= self.public_base + node_id <= u16::MAX,
        ensures
            port == self.public_base + node_id - 1,
    {
        self.public_base + node_id - 1
    }

    /// The metrics port of node `node_id`.
    pub fn metrics_port(&self, node_id: u16) -> (port: u16)
        requires
            1 <= self.metrics_base + node_id <= u16::MAX,
        ensures
            port == self.metrics_base + node_id - 1,
    {
        self.metrics_base + node_id - 1
    }

    /// The internal port of node `node_id`: its public port plus 1000.
    pub fn internal_port(&self, node_id: u16) -> (port: u16)
        requires
            1 <= self.public_base + node_id <= u16::MAX,
            self.public_base + node_id - 1 + 1000 <= u16::MAX,
        ensures
            port == self.public_base + node_id - 1 + 1000,
    {
        self.public_port(node_id) + 1000
    }

    /// `host:port` of node `node_id`.
    pub fn public_address(&self, node_id: u16) -> (address: String)
        requires
            1 <= self.public_base + node_id <= u16::MAX,
        ensures
            address@ == self.host@ + ":"@ + decimal((self.public_base + node_id - 1) as nat),
    {
        let mut address = owned(self.host.as_str());
        address.append(":");
        let port = decimal_text(self.public_port(node_id) as u64);
        address.append(port.as_str());
        address
    }

    /// The metrics endpoint of node `node_id`.
    pub fn metrics_url(&self, node_id: u16) -> (url: String)
        requires
            1 <= self.metrics_base + node_id <= u16::MAX,
        ensures
            url@ == "http://"@ + self.host@ + ":"@ + decimal((self.metrics_base + node_id - 1) as nat) + "/metrics"@,
    {
        let mut url = owned("http://");
        url.append(self.host.as_str());
        url.append(":");
        let port = decimal_text(self.metrics_port(node_id) as u64);
        url.append(port.as_str());
        url.append("/metrics");
        url
    }

    /// The public address of every node, by id.
    pub fn public_addresses(&self) -> (addresses: Vec<String>)
        requires
            self.public_base + self.node_count <= u16::MAX,
        ensures
            addresses@.len() == self.node_count,
            forall|i: int| 0 <= i < addresses@.len() ==> #[trigger] addresses@[i]@ == self.host@ + ":"@ + decimal((self.public_base + i) as nat),
    {
        let mut addresses: Vec<String> = Vec::new();
        let mut id: u32 = 1;
        while id <= self.node_count as u32
            invariant
                1 <= id <= self.node_count + 1,
                self.public_base + self.node_count <= u16::MAX,
                addresses@.len() == id - 1,
                forall|i: int| 0 <= i < addresses@.len() ==> #[trigger] addresses@[i]@ == self.host@ + ":"@ + decimal((self.public_base + i) as nat),
            decreases self.node_count + 1 - id,
        {
            addresses.push(self.public_address(id as u16));
            id = id + 1;
        }
        addresses
    }
}

/// A node of the cluster as the control service reports it.
#[derive(Debug, Clone, PartialEq, Eq)]
pub struct NodeInfo {
    pub id: u16,
    pub public_port: u16,
    pub metrics_port: u16,
    pub address: String,
    pub pid: Option<u32>,
}

/// The cluster's spec, its nodes, and whether every node is up.
#[derive(Debug, Clone, PartialEq, Eq)]
pub struct ClusterStatus {
    pub spec: ClusterSpec,
    pub nodes: Vec<NodeInfo>,
    pub ready: bool,
}

/// The settings file of node `node_id`: `node<id>.toml`.
pub fn config_file_name(node_id: u16) -> (name: String)
    ensures
        name@ == "node"@ + decimal(node_id as nat) + ".toml"@,
{
    let mut name = owned("node");
    let id = decimal_text(node_id as u64);
    name.append(id.as_str());
    name.append(".toml");
    name
}

/// The append-only file of node `node_id`: `node<id>.aof`.
pub fn aof_file_name(node_id: u16) -> (name: String)
    ensures
        name@ == "node"@ + decimal(node_id as nat) + ".aof"@,
{
    let mut name = owned("node");
    let id = decimal_text(node_id as u64);
    name.append(id.as_str());
    name.append(".aof");
    name
}

/// The settings of node `node_id` of the cluster `spec`: its address and
/// ports, every node of the cluster, persistence on, replication on when
/// more than one copy is asked for, and metrics served.
pub fn build_config(spec: &ClusterSpec, node_id: u16) -> (c: Config)
    requires
        1 <= node_id,
        spec.public_base + spec.node_count <= u16::MAX,
        spec.public_base + node_id <= u16::MAX,
        spec.metrics_base + node_id <= u16::MAX,
    ensures
        c.node.id == node_id as u32,
        c.node.host@ == spec.host@,
        c.node.port == spec.public_base + node_id - 1,
        c.cluster.nodes@.len() == spec.node_count,
        forall|i: int| 0 <= i < c.cluster.nodes@.len() ==> #[trigger] c.cluster.nodes@[i]@ == spec.host@ + ":"@ + decimal((spec.public_base + i) as nat),
        c.cache.max_memory_bytes == spec.max_memory_bytes,
        c.cache.eviction_policy@ == "lru"@,
        c.cache.ttl_purge_interval_secs == 1,
        c.aof.enabled,
        c.aof.path@ == "node"@ + decimal(node_id as nat) + ".aof"@,
        c.aof.fsync@ == "interval"@,
        c.aof.fsync_interval_secs == 1,
        c.aof.rewrite_threshold_bytes == GENERATED_REWRITE_THRESHOLD_BYTES,
        c.hashing.vnodes == spec.vnodes,
        c.replication.enabled == (spec.replication_factor > 1),
        c.replication.factor == spec.replication_factor,
        c.heartbeat.interval_secs == 1 && c.heartbeat.timeout_ms == 500 && c.heartbeat.miss_threshold == 2,
        c.metrics.enabled,
        c.metrics.host@ == spec.host@,
        c.metrics.port == spec.metrics_base + node_id - 1,
{
    let nodes = spec.public_addresses();
    Config {
        node: NodeConfig { id: node_id as u32, host: owned(spec.host.as_str()), port: spec.public_port(node_id) },
        cluster: ClusterConfig { nodes },
        cache: CacheConfig {
            max_memory_bytes: spec.max_memory_bytes,
            eviction_policy: owned("lru"),
            ttl_purge_interval_secs: 1,
        },
        aof: AofConfig {
            enabled: true,
            path: aof_file_name(node_id),
            fsync: owned("interval"),
            fsync_interval_secs: 1,
            rewrite_threshold_bytes: GENERATED_REWRITE_THRESHOLD_BYTES,
        },
        hashing: HashingConfig { vnodes: spec.vnodes },
        replication: ReplicationConfig { enabled: spec.replication_factor > 1, factor: spec.replication_factor },
        heartbeat: HeartbeatConfig { interval_secs: 1, timeout_ms: 500, miss_threshold: 2 },
        metrics: MetricsConfig { enabled: true, host: owned(spec.host.as_str()), port: spec.metrics_port(node_id) },
    }
}

/// Parameters of the eviction experiment.
#[derive(Debug, Clone, PartialEq, Eq)]
pub struct EvictionParams {
    pub capacity_bytes: u64,
    pub working_set: u64,
    pub value_size: usize,
    pub samples: Vec<u64>,
}

impl Default for EvictionParams {
    fn default() -> (p: Self)
        ensures
            p.capacity_bytes == 1_048_576,
            p.working_set == 20_000,
            p.value_size == 128,
            p.samples@.len() == 0,
    {
        EvictionParams { capacity_bytes: 1_048_576, working_set: 20_000, value_size: 128, samples: Vec::new() }
    }
}

/// Parameters of the failure experiment.
#[derive(Debug, Clone, PartialEq, Eq)]
pub struct FailureParams {
    pub node_id: u16,
    pub warmup_sets: u64,
    pub verify_samples: u64,
    pub workers: usize,
    pub value_size: usize,
    pub vnodes: usize,
}

impl Default for FailureParams {
    fn default() -> (p: Self)
        ensures
            p.node_id == 2,
            p.warmup_sets == 20_000,
            p.verify_samples == 1_000,
            p.workers == 8,
            p.value_size == 128,
            p.vnodes == 100,
    {
        FailureParams { node_id: 2, warmup_sets: 20_000, verify_samples: 1_000, workers: 8, value_size: 128, vnodes: 100 }
    }
}

/// Parameters of the hashing experiment.
#[derive(Debug, Clone, PartialEq, Eq)]
pub struct HashingParams {
    pub keys: u64,
    pub vnodes: usize,
    pub seed: u64,
}

impl Default for HashingParams {
    fn default() -> (p: Self)
        ensures
            p.keys == 0 && p.vnodes == 0 && p.seed == 0,
    {
        HashingParams { keys: 0, vnodes: 0, seed: 0 }
    }
}

/// Parameters of the TTL experiment.
#[derive(Debug, Clone, PartialEq, Eq)]
pub struct TtlParams {
    pub keys: u64,
    pub ttl_secs: u64,
    pub value_size: usize,
    pub interval_secs: u64,
}

impl Default for TtlParams {
    fn default() -> (p: Self)
        ensures
            p.keys == 5_000 && p.ttl_secs == 10 && p.value_size == 64 && p.interval_secs == 1,
    {
        TtlParams { keys: 5_000, ttl_secs: 10, value_size: 64, interval_secs: 1 }
    }
}

/// Peer counts as a node's metrics report them.
#[derive(Debug, Clone, Copy, PartialEq, Eq, Default)]
pub struct PeerCounts {
    pub alive: usize,
    pub suspected: usize,
    pub failed: usize,
}

/// Storage figures as a node's metrics report them.
#[derive(Debug, Clone, Copy, PartialEq, Eq, Default)]
pub struct StorageInfo {
    pub keys: u64,
    pub used_bytes: u64,
    pub max_bytes: u64,
    pub evictions: u64,
    pub ttl_expirations: u64,
}

/// Request rates as a node's metrics report them.
#[derive(Debug, Clone, Copy, PartialEq, Eq, Default)]
pub struct RatesInfo {
    pub total: u64,
    pub get: u64,
    pub set: u64,
    pub delete: u64,
}

/// Replication figures as a node's metrics report them.
#[derive(Debug, Clone, Copy, PartialEq, Eq, Default)]
pub struct ReplicationInfo {
    pub sent: u64,
    pub failed: u64,
    pub received: u64,
}

/// Append-only file figures as a node's metrics report them.
#[derive(Debug, Clone, Copy, PartialEq, Eq, Default)]
pub struct AofInfo {
    pub bytes_written: u64,
    pub write_count: u64,
    pub fsync_count: u64,
    pub rewrite_count: u64,
}

/// Figures summed over the nodes of a cluster.
#[derive(Debug, Clone, Copy, PartialEq, Eq)]
pub struct ClusterMetrics {
    pub used_bytes: u64,
    pub keys: u64,
    pub evictions: u64,
    pub repl_sent: u64,
    pub repl_received: u64,
}

impl ClusterMetrics {
    /// All zero.
    pub fn new() -> (m: Self)
        ensures
            m == (ClusterMetrics { used_bytes: 0, keys: 0, evictions: 0, repl_sent: 0, repl_received: 0 }),
    {
        ClusterMetrics { used_bytes: 0, keys: 0, evictions: 0, repl_sent: 0, repl_received: 0 }
    }

    /// Adds one node's figures.
    pub fn add_node(&mut self, storage: &StorageInfo, replication: Option<ReplicationInfo>)
        requires
            old(self).used_bytes + storage.used_bytes <= u64::MAX,
            old(self).keys + storage.keys <= u64::MAX,
            old(self).evictions + storage.evictions <= u64::MAX,
            replication is Some ==> old(self).repl_sent + replication->0.sent <= u64::MAX,
            replication is Some ==> old(self).repl_received + replication->0.received <= u64::MAX,
        ensures
            final(self).used_bytes == old(self).used_bytes + storage.used_bytes,
            final(self).keys == old(self).keys + storage.keys,
            final(self).evictions == old(self).evictions + storage.evictions,
            final(self).repl_sent == old(self).repl_sent + match replication {
                Some(r) => r.sent,
                None => 0,
            },
            final(self).repl_received == old(self).repl_received + match replication {
                Some(r) => r.received,
                None => 0,
            },
    {
        self.used_bytes = self.used_bytes + storage.used_bytes;
        self.keys = self.keys + storage.keys;
        self.evictions = self.evictions + storage.evictions;
        match replication {
            Some(r) => {
                self.repl_sent = self.repl_sent + r.sent;
                self.repl_received = self.repl_received + r.received;
            },
            None => {},
        }
    }
}

/// The most nodes a cluster may be scaled to.
pub const MAX_NODES: u16 = 16;

/// The highest replication factor the control service accepts.
pub const MAX_REPLICATION_FACTOR: u32 = 4;

/// Checks a requested node count for starting the cluster: none asked is
/// fine, otherwise it must lie within `1..=16`.
pub fn requested_node_count(nodes: Option<u16>) -> (checked: Result<Option<u16>, String>)
    ensures
        match nodes {
            None => checked == Ok::<Option<u16>, String>(None),
            Some(n) => if 1 <= n <= MAX_NODES {
                checked == Ok::<Option<u16>, String>(Some(n))
            } else {
                checked matches Err(m) && m@ == "nodes must be 1..=16"@
            },
        },
{
    match nodes {
        None => Ok(None),
        Some(n) => if 1 <= n && n <= MAX_NODES {
            Ok(Some(n))
        } else {
            Err(owned("nodes must be 1..=16"))
        },
    }
}

/// Sets the cluster's replication factor, which must lie within `1..=4`;
/// whether it changed (and the cluster must be restarted).
pub fn set_replication_factor(spec: &mut ClusterSpec, factor: u32) -> (changed: Result<bool, String>)
    ensures
        if 1 <= factor <= MAX_REPLICATION_FACTOR {
            &&& changed == Ok::<bool, String>(old(spec).replication_factor != factor)
            &&& *final(spec) == (ClusterSpec { replication_factor: factor, ..*old(spec) })
        } else {
            &&& changed matches Err(m) && m@ == "factor must be 1..=4"@
            &&& *final(spec) == *old(spec)
        },
{
    if factor < 1 || factor > MAX_REPLICATION_FACTOR {
        return Err(owned("factor must be 1..=4"));
    }
    if spec.replication_factor == factor {
        Ok(false)
    } else {
        spec.replication_factor = factor;
        Ok(true)
    }
}

/// Sets the cluster's node count, which must lie within `1..=16`; whether
/// it changed (and the cluster must be restarted).
pub fn scale_to(spec: &mut ClusterSpec, target: u16) -> (changed: Result<bool, String>)
    ensures
        if 1 <= target <= MAX_NODES {
            &&& changed == Ok::<bool, String>(old(spec).node_count != target)
            &&& *final(spec) == (ClusterSpec { node_count: target, ..*old(spec) })
        } else {
            &&& changed matches Err(m) && m@ == "target must be 1..=16"@
            &&& *final(spec) == *old(spec)
        },
{
    if target < 1 || target > MAX_NODES {
        return Err(owned("target must be 1..=16"));
    }
    if spec.node_count == target {
        Ok(false)
    } else {
        spec.node_count = target;
        Ok(true)
    }
}

/// Checks that `node_id` names a node of the cluster.
pub fn check_node(spec: &ClusterSpec, node_id: u16) -> (checked: Result<(), String>)
    ensures
        if 1 <= node_id <= spec.node_count {
            checked is Ok
        } else {
            checked matches Err(m) && m@ == "no node "@ + decimal(node_id as nat)
        },
{
    if node_id < 1 || node_id > spec.node_count {
        let mut message = owned("no node ");
        let id = decimal_text(node_id as u64);
        message.append(id.as_str());
        return Err(message);
    }
    Ok(())
}

/// The process id recorded for `port` in `pids`, the first if several are.
pub open spec fn pid_of(pids: Seq<(u16, u32)>, port: u16) -> Option<u32>
    decreases pids.len(),
{
    if pids.len() == 0 {
        None
    } else if pids[0].0 == port {
        Some(pids[0].1)
    } else {
        pid_of(pids.drop_first(), port)
    }
}

/// The process id recorded for `port`.
fn lookup_pid(pids: &Vec<(u16, u32)>, port: u16) -> (pid: Option<u32>)
    ensures
        pid == pid_of(pids@, port),
{
    let mut i: usize = 0;
    assert(pids@.skip(0) =~= pids@);
    while i < pids.len()
        invariant
            i <= pids@.len(),
            pid_of(pids@.skip(i as int), port) == pid_of(pids@, port),
        decreases pids@.len() - i,
    {
        let entry = pids[i];
        assert(pids@.skip(i as int).drop_first() =~= pids@.skip(i + 1));
        if entry.0 == port {
            return Some(entry.1);
        }
        i = i + 1;
    }
    assert(pids@.skip(i as int).len() == 0);
    None
}

/// The cluster as the control service reports it: every node with its
/// ports, its address and the process id recorded for its public port.
pub fn cluster_status(spec: &ClusterSpec, pids: &Vec<(u16, u32)>, ready: bool) -> (status: ClusterStatus)
    requires
        spec.public_base + spec.node_count <= u16::MAX,
        spec.metrics_base + spec.node_count <= u16::MAX,
    ensures
        status.spec.host@ == spec.host@,
        status.spec == (ClusterSpec { host: status.spec.host, ..*spec }),
        status.ready == ready,
        status.nodes@.len() == spec.node_count,
        forall|i: int| 0 <= i < spec.node_count ==> {
            let n = #[trigger] status.nodes@[i];
            &&& n.id == i + 1
            &&& n.public_port == spec.public_base + i
            &&& n.metrics_port == spec.metrics_base + i
            &&& n.address@ == spec.host@ + ":"@ + decimal((spec.public_base + i) as nat)
            &&& n.pid == pid_of(pids@, (spec.public_base + i) as u16)
        },
{
    let mut nodes: Vec<NodeInfo> = Vec::new();
    let mut id: u32 = 1;
    while id <= spec.node_count as u32
        invariant
            1 <= id <= spec.node_count + 1,
            spec.public_base + spec.node_count <= u16::MAX,
            spec.metrics_base + spec.node_count <= u16::MAX,
            nodes@.len() == id - 1,
            forall|i: int| 0 <= i < nodes@.len() ==> {
                let n = #[trigger] nodes@[i];
                &&& n.id == i + 1
                &&& n.public_port == spec.public_base + i
                &&& n.metrics_port == spec.metrics_base + i
                &&& n.address@ == spec.host@ + ":"@ + decimal((spec.public_base + i) as nat)
                &&& n.pid == pid_of(pids@, (spec.public_base + i) as u16)
            },
        decreases spec.node_count + 1 - id,
    {
        let node_id = id as u16;
        let public_port = spec.public_port(node_id);
        nodes.push(NodeInfo {
            id: node_id,
            public_port,
            metrics_port: spec.metrics_port(node_id),
            address: spec.public_address(node_id),
            pid: lookup_pid(pids, public_port),
        });
        id = id + 1;
    }
    let copy = ClusterSpec {
        host: owned(spec.host.as_str()),
        public_base: spec.public_base,
        metrics_base: spec.metrics_base,
        node_count: spec.node_count,
        replication_factor: spec.replication_factor,
        vnodes: spec.vnodes,
        max_memory_bytes: spec.max_memory_bytes,
    };
    ClusterStatus { spec: copy, nodes, ready }
}

/// The peers reported alive, suspected and failed over a cluster: a node
/// that could not be reached counts as one failed peer, one that tracks no
/// peers adds nothing.
pub open spec fn peer_totals(reports: Seq<Option<Option<PeerCounts>>>) -> (int, int, int)
    decreases reports.len(),
{
    if reports.len() == 0 {
        (0, 0, 0)
    } else {
        let rest = peer_totals(reports.drop_last());
        match reports.last() {
            None => (rest.0, rest.1, rest.2 + 1),
            Some(None) => rest,
            Some(Some(p)) => (rest.0 + p.alive, rest.1 + p.suspected, rest.2 + p.failed),
        }
    }
}

/// Adds up the peer counts the nodes of a cluster reported, `None` standing
/// for a node that could not be reached.
pub fn cluster_peer_counts(reports: &Vec<Option<Option<PeerCounts>>>) -> (totals: (usize, usize, usize))
    requires
        forall|k: int| 0 <= k <= reports@.len() ==> {
            let t = #[trigger] peer_totals(reports@.take(k));
            t.0 <= usize::MAX && t.1 <= usize::MAX && t.2 <= usize::MAX
        },
    ensures
        totals.0 == peer_totals(reports@).0,
        totals.1 == peer_totals(reports@).1,
        totals.2 == peer_totals(reports@).2,
{
    let mut alive: usize = 0;
    let mut suspected: usize = 0;
    let mut failed: usize = 0;
    let mut i: usize = 0;
    assert(reports@.take(0) =~= Seq::<Option<Option<PeerCounts>>>::empty());
    while i < reports.len()
        invariant
            i <= reports@.len(),
            forall|k: int| 0 <= k <= reports@.len() ==> {
                let t = #[trigger] peer_totals(reports@.take(k));
                t.0 <= usize::MAX && t.1 <= usize::MAX && t.2 <= usize::MAX
            },
            (alive as int, suspected as int, failed as int) == peer_totals(reports@.take(i as int)),
        decreases reports@.len() - i,
    {
        let ghost next = peer_totals(reports@.take(i + 1));
        assert(reports@.take(i + 1).drop_last() =~= reports@.take(i as int));
        assert(reports@.take(i + 1).last() == reports@[i as int]);
        match reports[i] {
            None => {
                failed = failed + 1;
            },
            Some(None) => {},
            Some(Some(p)) => {
                alive = alive + p.alive;
                suspected = suspected + p.suspected;
                failed = failed + p.failed;
            },
        }
        i = i + 1;
    }
    assert(reports@.take(reports@.len() as int) =~= reports@);
    (alive, suspected, failed)
}

/// The HTTP request that fetches `path` from `host:port` on a connection
/// the server closes after answering.
pub fn http_get_request(host: &str, port: u16, path: &str) -> (request: String)
    ensures
        request@ == "GET "@ + path@ + " HTTP/1.1\r\nHost: "@ + host@ + ":"@ + decimal(port as nat)
            + "\r\nConnection: close\r\n\r\n"@,
{
    let mut request = owned("GET ");
    request.append(path);
    request.append(" HTTP/1.1\r\nHost: ");
    request.append(host);
    request.append(":");
    let digits = decimal_text(port as u64);
    request.append(digits.as_str());
    request.append("\r\nConnection: close\r\n\r\n");
    request
}

/// Whether a blank line, `\r\n\r\n`, starts at `i` in `s`.
pub open spec fn blank_line_at(s: Seq<char>, i: int) -> bool {
    0 <= i && i + 4 <= s.len() && s.subrange(i, i + 4) == "\r\n\r\n"@
}

/// The first position from `i` on where a blank line starts, if any.
pub open spec fn first_blank_line(s: Seq<char>, i: nat) -> Option<nat>
    decreases s.len() - i,
{
    if i + 4 > s.len() {
        None
    } else if blank_line_at(s, i as int) {
        Some(i)
    } else {
        first_blank_line(s, i + 1)
    }
}

/// The body of an HTTP response: what follows the first blank line, or
/// the whole text if there is none.
pub open spec fn response_body(text: Seq<char>) -> Seq<char> {
    match first_blank_line(text, 0) {
        Some(i) => text.skip(i as int + 4),
        None => text,
    }
}

/// The body of the HTTP response `text`.
pub fn body_of(text: &str) -> (body: String)
    ensures
        body@ == response_body(text@),
{
    let chars = chars_of(text);
    let n = chars.len();
    let mut i: usize = 0;
    while i <= n && n - i >= 4
        invariant
            i <= n,
            n == chars@.len(),
            chars@ == text@,
            first_blank_line(text@, i as nat) == first_blank_line(text@, 0),
        decreases n - i,
    {
        if chars[i] == '\r' && chars[i + 1] == '\n' && chars[i + 2] == '\r' && chars[i + 3] == '\n' {
            proof {
                reveal_strlit("\r\n\r\n");
                assert(text@.subrange(i as int, i + 4) =~= "\r\n\r\n"@);
            }
            let body = owned(text.substring_char(i + 4, n));
            assert(text@.subrange(i + 4, n as int) =~= text@.skip(i + 4));
            return body;
        }
        proof {
            reveal_strlit("\r\n\r\n");
            if blank_line_at(text@, i as int) {
                assert(text@.subrange(i as int, i + 4)[0] == text@[i as int]);
                assert(text@.subrange(i as int, i + 4)[1] == text@[i + 1]);
                assert(text@.subrange(i as int, i + 4)[2] == text@[i + 2]);
                assert(text@.subrange(i as int, i + 4)[3] == text@[i + 3]);
            }
        }
        i = i + 1;
    }
    owned(text)
}

/// The position of the first `x` in `s`, or its length if there is none.
pub open spec fn first_position(s: Seq<Seq<char>>, x: Seq<char>) -> int
    decreases s.len(),
{
    if s.len() == 0 {
        0
    } else if s[0] == x {
        0
    } else {
        1 + first_position(s.drop_first(), x)
    }
}

/// The first `x` in `s` is at `i`.
proof fn lemma_first_position(s: Seq<Seq<char>>, x: Seq<char>, i: int)
    requires
        0 <= i <= s.len(),
        forall|j: int| 0 <= j < i ==> #[trigger] s[j] != x,
        i == s.len() || s[i] == x,
    ensures
        first_position(s, x) == i,
    decreases i,
{
    if i > 0 {
        assert(s[0] != x);
        assert forall|j: int| 0 <= j < i - 1 implies #[trigger] s.drop_first()[j] != x by {
            assert(s.drop_first()[j] == s[j + 1]);
        }
        lemma_first_position(s.drop_first(), x, i - 1);
    }
}

/// The value after the first `flag` in `args`, if `flag` is there and
/// something follows it.
pub fn arg_value(args: &[String], flag: &str) -> (value: Option<String>)
    ensures
        ({
            let views = args@.map_values(|s: String| s@);
            let p = first_position(views, flag@);
            &&& value is Some <==> p + 1 < views.len()
            &&& value is Some ==> value->0@ == views[p + 1]
        }),
{
    let ghost views = args@.map_values(|s: String| s@);
    let mut i: usize = 0;
    while i < args.len()
        invariant
            i <= args@.len(),
            views == args@.map_values(|s: String| s@),
            forall|j: int| 0 <= j < i ==> #[trigger] views[j] != flag@,
        decreases args@.len() - i,
    {
        if str_equal(args[i].as_str(), flag) {
            proof {
                lemma_first_position(views, flag@, i as int);
            }
            if i + 1 < args.len() {
                return Some(owned(args[i + 1].as_str()));
            } else {
                return None;
            }
        }
        i = i + 1;
    }
    proof {
        lemma_first_position(views, flag@, i as int);
    }
    None
}

} // verus!
