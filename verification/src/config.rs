use vstd::prelude::*;
use crate::text::{decimal, decimal_text, owned};

verus! {

/// A node's settings: every section, each with its defaults.
#[derive(Debug, Clone, PartialEq, Eq)]
pub struct Config {
    pub node: NodeConfig,
    pub cluster: ClusterConfig,
    pub cache: CacheConfig,
    pub aof: AofConfig,
    pub hashing: HashingConfig,
    pub replication: ReplicationConfig,
    pub heartbeat: HeartbeatConfig,
    pub metrics: MetricsConfig,
}

/// Which node this is and where it listens.
#[derive(Debug, Clone, PartialEq, Eq)]
pub struct NodeConfig {
    pub id: u32,
    pub host: String,
    pub port: u16,
}

/// The public addresses of every node of the cluster.
#[derive(Debug, Clone, PartialEq, Eq)]
pub struct ClusterConfig {
    pub nodes: Vec<String>,
}

/// Memory cap, eviction policy and how often expired keys are purged.
#[derive(Debug, Clone, PartialEq, Eq)]
pub struct CacheConfig {
    pub max_memory_bytes: u64,
    pub eviction_policy: String,
    pub ttl_purge_interval_secs: u64,
}

/// The append-only file: where it is, when it is synced and when rewritten.
#[derive(Debug, Clone, PartialEq, Eq)]
pub struct AofConfig {
    pub enabled: bool,
    pub path: String,
    pub fsync: String,
    pub fsync_interval_secs: u64,
    pub rewrite_threshold_bytes: u64,
}

/// Virtual nodes per server on the hash ring.
#[derive(Debug, Clone, PartialEq, Eq)]
pub struct HashingConfig {
    pub vnodes: usize,
}

/// Whether writes are copied to other nodes, and to how many in all.
#[derive(Debug, Clone, PartialEq, Eq)]
pub struct ReplicationConfig {
    pub enabled: bool,
    pub factor: u32,
}

/// How often peers are pinged, how long a ping may take and how many
/// misses mark a peer failed.
#[derive(Debug, Clone, PartialEq, Eq)]
pub struct HeartbeatConfig {
    pub interval_secs: u64,
    pub timeout_ms: u64,
    pub miss_threshold: u32,
}

/// Whether the metrics endpoint runs, and where.
#[derive(Debug, Clone, PartialEq, Eq)]
pub struct MetricsConfig {
    pub enabled: bool,
    pub host: String,
    pub port: u16,
}

/// The default memory cap: 100 MiB.
pub const DEFAULT_MAX_MEMORY_BYTES: u64 = 104_857_600;

/// The default size at which the append-only file is rewritten: 32 MiB.
pub const DEFAULT_REWRITE_THRESHOLD_BYTES: u64 = 33_554_432;

impl Default for NodeConfig {
    fn default() -> (c: Self)
        ensures
            c.id == 1,
            c.host@ == "127.0.0.1"@,
            c.port == 7001,
    {
        NodeConfig { id: 1, host: owned("127.0.0.1"), port: 7001 }
    }
}

impl NodeConfig {
    /// `host:port`.
    pub fn address(&self) -> (address: String)
        ensures
            address@ == self.host@ + ":"@ + decimal(self.port as nat),
    {
        let mut address = owned(self.host.as_str());
        address.append(":");
        let port = decimal_text(self.port as u64);
        address.append(port.as_str());
        address
    }
}

impl Default for ClusterConfig {
    fn default() -> (c: Self)
        ensures
            c.nodes@.len() == 0,
    {
        ClusterConfig { nodes: Vec::new() }
    }
}

impl Default for CacheConfig {
    fn default() -> (c: Self)
        ensures
            c.max_memory_bytes == DEFAULT_MAX_MEMORY_BYTES,
            c.eviction_policy@ == "lru"@,
            c.ttl_purge_interval_secs == 1,
    {
        CacheConfig {
            max_memory_bytes: DEFAULT_MAX_MEMORY_BYTES,
            eviction_policy: owned("lru"),
            ttl_purge_interval_secs: 1,
        }
    }
}

impl Default for AofConfig {
    fn default() -> (c: Self)
        ensures
            !c.enabled,
            c.path@ == "cachex.aof"@,
            c.fsync@ == "interval"@,
            c.fsync_interval_secs == 1,
            c.rewrite_threshold_bytes == DEFAULT_REWRITE_THRESHOLD_BYTES,
    {
        AofConfig {
            enabled: false,
            path: owned("cachex.aof"),
            fsync: owned("interval"),
            fsync_interval_secs: 1,
            rewrite_threshold_bytes: DEFAULT_REWRITE_THRESHOLD_BYTES,
        }
    }
}

impl Default for HashingConfig {
    fn default() -> (c: Self)
        ensures
            c.vnodes == 100,
    {
        HashingConfig { vnodes: 100 }
    }
}

impl Default for ReplicationConfig {
    fn default() -> (c: Self)
        ensures
            !c.enabled,
            c.factor == 1,
    {
        ReplicationConfig { enabled: false, factor: 1 }
    }
}

impl Default for HeartbeatConfig {
    fn default() -> (c: Self)
        ensures
            c.interval_secs == 1,
            c.timeout_ms == 500,
            c.miss_threshold == 2,
    {
        HeartbeatConfig { interval_secs: 1, timeout_ms: 500, miss_threshold: 2 }
    }
}

impl Default for MetricsConfig {
    fn default() -> (c: Self)
        ensures
            !c.enabled,
            c.host@ == "127.0.0.1"@,
            c.port == 9001,
    {
        MetricsConfig { enabled: false, host: owned("127.0.0.1"), port: 9001 }
    }
}

impl Default for Config {
    fn default() -> (c: Self)
        ensures
            c.node.id == 1 && c.node.host@ == "127.0.0.1"@ && c.node.port == 7001,
            c.cluster.nodes@.len() == 0,
            c.cache.max_memory_bytes == DEFAULT_MAX_MEMORY_BYTES,
            c.cache.eviction_policy@ == "lru"@,
            c.cache.ttl_purge_interval_secs == 1,
            !c.aof.enabled && c.aof.path@ == "cachex.aof"@ && c.aof.fsync@ == "interval"@,
            c.aof.fsync_interval_secs == 1,
            c.aof.rewrite_threshold_bytes == DEFAULT_REWRITE_THRESHOLD_BYTES,
            c.hashing.vnodes == 100,
            !c.replication.enabled && c.replication.factor == 1,
            c.heartbeat.interval_secs == 1 && c.heartbeat.timeout_ms == 500 && c.heartbeat.miss_threshold == 2,
            !c.metrics.enabled && c.metrics.host@ == "127.0.0.1"@ && c.metrics.port == 9001,
    {
        Config {
            node: NodeConfig::default(),
            cluster: ClusterConfig::default(),
            cache: CacheConfig::default(),
            aof: AofConfig::default(),
            hashing: HashingConfig::default(),
            replication: ReplicationConfig::default(),
            heartbeat: HeartbeatConfig::default(),
            metrics: MetricsConfig::default(),
        }
    }
}

} // verus!
