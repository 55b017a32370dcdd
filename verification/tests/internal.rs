use cachex::internal::{decode_frame_len, encode_frame_len, internal_address, internal_map_for_cluster};

#[test]
fn internal_address_moves_the_port() {
    assert_eq!(internal_address("127.0.0.1:7001"), "127.0.0.1:8001");
    assert_eq!(internal_address("host:port"), "host:port");
    assert_eq!(internal_address("nohost"), "nohost");
    assert_eq!(internal_address("a:b:7002"), "a:b:8002");
    assert_eq!(internal_address("h:70000"), "h:70000");
}

#[test]
fn cluster_map_pairs_each_node() {
    let nodes: Vec<String> = vec!["127.0.0.1:7001".into(), "127.0.0.1:7002".into()];
    let map = internal_map_for_cluster(&nodes);
    assert_eq!(map, vec![
        ("127.0.0.1:7001".to_string(), "127.0.0.1:8001".to_string()),
        ("127.0.0.1:7002".to_string(), "127.0.0.1:8002".to_string()),
    ]);
}

#[test]
fn frame_headers_round_trip_and_cap() {
    assert_eq!(encode_frame_len(258), [2, 1, 0, 0]);
    assert_eq!(decode_frame_len(encode_frame_len(258)), Some(258));
    assert_eq!(decode_frame_len(encode_frame_len(16 * 1024 * 1024)), Some(16 * 1024 * 1024));
    assert_eq!(decode_frame_len(encode_frame_len(16 * 1024 * 1024 + 1)), None);
}

#[test]
fn public_ports_are_read_after_the_last_colon() {
    assert_eq!(cachex::internal::public_port("127.0.0.1:7001"), Some(7001));
    assert_eq!(cachex::internal::public_port("[::1]:80"), Some(80));
    assert_eq!(cachex::internal::public_port("host"), None);
    assert_eq!(cachex::internal::public_port("host:70000"), None);
    assert!(cachex::internal::internal_port_fits("host:64535"));
    assert!(!cachex::internal::internal_port_fits("host:64536"));
    assert!(cachex::internal::internal_port_fits("host:x"));
}
