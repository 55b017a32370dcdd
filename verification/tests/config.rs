use cachex::config::{Config, NodeConfig};

#[test]
fn defaults_match_documentation() {
    let config = Config::default();
    assert_eq!(config.node.port, 7001);
    assert_eq!(config.cache.max_memory_bytes, 100 * 1024 * 1024);
    assert!(!config.aof.enabled);
    assert_eq!(config.aof.fsync, "interval");
    assert_eq!(config.aof.rewrite_threshold_bytes, 32 * 1024 * 1024);
    assert_eq!(config.hashing.vnodes, 100);
    assert!(!config.replication.enabled);
    assert_eq!(config.heartbeat.miss_threshold, 2);
    assert!(!config.metrics.enabled);
    assert_eq!(config.metrics.port, 9001);
}

#[test]
fn node_address_joins_host_and_port() {
    let node = NodeConfig { id: 2, host: "127.0.0.1".into(), port: 7002 };
    assert_eq!(node.address(), "127.0.0.1:7002");
}
