use cachex::control::{
    arg_value, body_of, build_config, check_node, cluster_peer_counts, cluster_status, config_file_name,
    requested_node_count, scale_to, set_replication_factor, ClusterMetrics, ClusterSpec, PeerCounts, ReplicationInfo,
    StorageInfo,
};
use cachex::experiment::keyset;

#[test]
fn ports_derive_from_spec() {
    let spec = ClusterSpec::default();
    assert_eq!(spec.public_port(1), 7001);
    assert_eq!(spec.public_port(3), 7003);
    assert_eq!(spec.internal_port(2), 8002);
    assert_eq!(spec.metrics_port(2), 9002);
    assert_eq!(spec.public_address(2), "127.0.0.1:7002");
}

#[test]
fn rf_one_disables_replication() {
    let spec = ClusterSpec::default();
    let config = build_config(&spec, 1);
    assert!(!config.replication.enabled);
    assert_eq!(config.replication.factor, 1);
}

#[test]
fn generated_config_matches_spec() {
    let spec = ClusterSpec { node_count: 3, replication_factor: 2, ..ClusterSpec::default() };
    for node_id in 1..=3u16 {
        let config = build_config(&spec, node_id);
        assert_eq!(config.node.id, node_id as u32);
        assert_eq!(config.node.port, spec.public_port(node_id));
        assert_eq!(config.metrics.port, spec.metrics_port(node_id));
        assert_eq!(config.cluster.nodes, vec!["127.0.0.1:7001", "127.0.0.1:7002", "127.0.0.1:7003"]);
        assert!(config.aof.enabled);
        assert_eq!(config.aof.path, format!("node{node_id}.aof"));
        assert_eq!(config.replication.factor, 2);
        assert!(config.replication.enabled);
    }
    assert_eq!(config_file_name(2), "node2.toml");
}

#[test]
fn node_for_port_and_urls() {
    let spec = ClusterSpec::default();
    assert_eq!(spec.node_for_port(7001), Some(1));
    assert_eq!(spec.node_for_port(7003), Some(3));
    assert_eq!(spec.node_for_port(7004), None);
    assert_eq!(spec.node_for_port(7000), None);
    assert_eq!(spec.metrics_url(1), "http://127.0.0.1:9001/metrics");
    assert_eq!(spec.public_addresses().len(), 3);
}

#[test]
fn args_and_keys() {
    let args: Vec<String> = vec!["--root".into(), "/tmp".into(), "--port".into()];
    assert_eq!(arg_value(&args, "--root"), Some("/tmp".to_string()));
    assert_eq!(arg_value(&args, "--port"), None);
    assert_eq!(arg_value(&args, "--bench"), None);
    assert_eq!(keyset(3), vec!["key:00000000", "key:00000001", "key:00000002"]);
}

#[test]
fn cluster_metrics_sum_nodes() {
    let mut m = ClusterMetrics::new();
    m.add_node(&StorageInfo { keys: 2, used_bytes: 10, max_bytes: 100, evictions: 1, ttl_expirations: 0 }, Some(ReplicationInfo { sent: 3, failed: 0, received: 4 }));
    m.add_node(&StorageInfo { keys: 1, used_bytes: 5, max_bytes: 100, evictions: 0, ttl_expirations: 0 }, None);
    assert_eq!(m, ClusterMetrics { used_bytes: 15, keys: 3, evictions: 1, repl_sent: 3, repl_received: 4 });
}

#[test]
fn control_requests_are_checked() {
    assert_eq!(requested_node_count(None), Ok(None));
    assert_eq!(requested_node_count(Some(4)), Ok(Some(4)));
    assert_eq!(requested_node_count(Some(0)), Err("nodes must be 1..=16".to_string()));
    assert_eq!(requested_node_count(Some(17)), Err("nodes must be 1..=16".to_string()));

    let mut spec = ClusterSpec::default();
    assert_eq!(set_replication_factor(&mut spec, 1), Ok(false));
    assert_eq!(set_replication_factor(&mut spec, 2), Ok(true));
    assert_eq!(spec.replication_factor, 2);
    assert_eq!(set_replication_factor(&mut spec, 5), Err("factor must be 1..=4".to_string()));
    assert_eq!(spec.replication_factor, 2);

    assert_eq!(scale_to(&mut spec, 3), Ok(false));
    assert_eq!(scale_to(&mut spec, 5), Ok(true));
    assert_eq!(spec.node_count, 5);
    assert_eq!(scale_to(&mut spec, 0), Err("target must be 1..=16".to_string()));
    assert_eq!(spec.node_count, 5);

    assert_eq!(check_node(&spec, 5), Ok(()));
    assert_eq!(check_node(&spec, 6), Err("no node 6".to_string()));
    assert_eq!(check_node(&spec, 0), Err("no node 0".to_string()));
}

#[test]
fn cluster_status_lists_nodes_with_pids() {
    let spec = ClusterSpec::default();
    let status = cluster_status(&spec, &vec![(7002, 42), (7002, 43), (9001, 7)], true);
    assert_eq!(status.spec, spec);
    assert!(status.ready);
    assert_eq!(status.nodes.len(), 3);
    assert_eq!(status.nodes[0].id, 1);
    assert_eq!(status.nodes[0].pid, None);
    assert_eq!(status.nodes[1].public_port, 7002);
    assert_eq!(status.nodes[1].metrics_port, 9002);
    assert_eq!(status.nodes[1].address, "127.0.0.1:7002");
    assert_eq!(status.nodes[1].pid, Some(42));
    assert_eq!(status.nodes[2].pid, None);
}

#[test]
fn peer_counts_add_up_over_nodes() {
    let reports = vec![
        Some(Some(PeerCounts { alive: 2, suspected: 0, failed: 0 })),
        None,
        Some(None),
        Some(Some(PeerCounts { alive: 1, suspected: 1, failed: 1 })),
    ];
    assert_eq!(cluster_peer_counts(&reports), (3, 1, 2));
    assert_eq!(cluster_peer_counts(&vec![]), (0, 0, 0));
}

#[test]
fn http_body_follows_the_blank_line() {
    assert_eq!(body_of("HTTP/1.1 200 OK\r\nContent-Type: json\r\n\r\n{\"a\":1}"), "{\"a\":1}");
    assert_eq!(body_of("HTTP/1.1 200 OK\r\n\r\nx\r\n\r\ny"), "x\r\n\r\ny");
    assert_eq!(body_of("{\"a\":1}"), "{\"a\":1}");
    assert_eq!(body_of("head\r\n\r\n"), "");
}

#[test]
fn http_requests_close_the_connection() {
    assert_eq!(
        cachex::control::http_get_request("127.0.0.1", 9001, "/metrics"),
        "GET /metrics HTTP/1.1\r\nHost: 127.0.0.1:9001\r\nConnection: close\r\n\r\n"
    );
}
