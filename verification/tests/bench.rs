use cachex::bench::{is_float_text, usage, BenchStats, Config, GetOutcome, RouterKind};
use cachex::workload::KeyOrder;

fn args(items: &[&str]) -> Vec<String> {
    items.iter().map(|s| s.to_string()).collect()
}

/// The arguments read in full: the library's parse, then the GET ratio read
/// as a fraction in [0, 1].
fn parse(args: &[String]) -> Result<(Config, f64), String> {
    let config = Config::parse(args)?;
    let ratio = match &config.get_ratio_text {
        Some(text) => text.parse::<f64>().map_err(|_| format!("invalid --get-ratio value `{text}`"))?,
        None => 0.5,
    };
    if !(0.0..=1.0).contains(&ratio) {
        return Err("`--get-ratio` must be in [0, 1]".to_string());
    }
    Ok((config, ratio))
}

#[test]
fn parses_full_configuration() {
    let (config, get_ratio) = parse(&args(&[
        "--nodes", "127.0.0.1:7001,127.0.0.1:7002",
        "--router", "modulo",
        "--vnodes", "50",
        "--clients", "8",
        "--requests", "5000",
        "--keys", "2000",
        "--value-size", "128",
        "--get-ratio", "0.9",
        "--key-order", "sequential",
        "--seed", "42",
        "--ttl", "60",
        "--output", "out.csv",
    ]))
    .unwrap();
    assert_eq!(config.nodes.len(), 2);
    assert_eq!(config.router, RouterKind::Modulo);
    assert_eq!(config.vnodes, 50);
    assert_eq!(config.clients, 8);
    assert_eq!(config.requests, 5000);
    assert_eq!(config.keys, 2000);
    assert_eq!(config.value_size, 128);
    assert_eq!(get_ratio, 0.9);
    assert_eq!(config.key_order, KeyOrder::Sequential);
    assert_eq!(config.seed, 42);
    assert_eq!(config.ttl, 60);
    assert_eq!(config.output, "out.csv");
}

#[test]
fn missing_nodes_is_an_error() {
    assert!(parse(&[]).is_err());
    assert!(parse(&args(&["--clients", "2"])).is_err());
}

#[test]
fn defaults_apply() {
    let (config, get_ratio) = parse(&args(&["--nodes", "127.0.0.1:7001"])).unwrap();
    assert_eq!(config.router, RouterKind::Consistent);
    assert_eq!(config.clients, 1);
    assert_eq!(config.requests, 1000);
    assert_eq!(get_ratio, 0.5);
    assert_eq!(config.key_order, KeyOrder::Uniform);
    assert_eq!(config.ttl, 0);
    assert_eq!(config.output, "bench-results.csv");
}

#[test]
fn rejects_invalid_values() {
    assert!(parse(&args(&["--nodes", "a", "--clients", "0"])).is_err());
    assert!(parse(&args(&["--nodes", "a", "--get-ratio", "1.5"])).is_err());
    assert!(parse(&args(&["--nodes", "a", "--router", "magic"])).is_err());
    assert!(parse(&args(&["--nodes", "a", "--key-order", "hotspot"])).is_err());
    assert!(parse(&args(&["--nodes", "a", "--bogus", "1"])).is_err());
}

#[test]
fn error_messages_name_the_problem() {
    assert_eq!(Config::parse(&args(&["--nodes"])).unwrap_err(), "missing value for `--nodes`");
    assert_eq!(Config::parse(&args(&["--nodes", "a", "--vnodes", "x"])).unwrap_err(), "invalid --vnodes value `x`");
    assert_eq!(Config::parse(&args(&["--bogus", "1"])).unwrap_err(), "unknown flag `--bogus` (see --help)");
    assert_eq!(Config::parse(&args(&["--nodes", " , ,"])).unwrap_err(), "`--nodes` is required: comma-separated host:port addresses");
    assert_eq!(Config::parse(&args(&["--nodes", "a", "--keys", "0"])).unwrap_err(), "`--keys` must be >= 1");
}

#[test]
fn node_list_is_split_and_trimmed() {
    let config = Config::parse(&args(&["--nodes", " a:1 ,, b:2,\tc:3 "])).unwrap();
    assert_eq!(config.nodes, vec!["a:1", "b:2", "c:3"]);
    assert!(usage().contains("--nodes LIST"));
    assert_eq!(RouterKind::Modulo.as_str(), "modulo");
}

#[test]
fn bench_stats_count_requests_by_result() {
    let mut stats = BenchStats::new();
    stats.record_get(GetOutcome::Hit, 10);
    stats.record_get(GetOutcome::Miss, 20);
    stats.record_get(GetOutcome::Failed, 30);
    stats.record_set(true, 40);
    stats.record_set(false, 50);
    assert_eq!((stats.gets(), stats.sets()), (3, 2));
    assert_eq!((stats.hits(), stats.misses(), stats.errors()), (1, 1, 2));
    assert_eq!(stats.latency().count(), 5);
    assert_eq!(stats.latency().sum_us(), 150);
    assert_eq!(stats.latency().max_us(), 50);
}

#[test]
fn bad_ratio_is_reported_at_its_flag() {
    assert_eq!(
        Config::parse(&args(&["--get-ratio", "abc", "--bogus", "1"])).unwrap_err(),
        "invalid --get-ratio value `abc`"
    );
    assert_eq!(
        Config::parse(&args(&["--nodes", "a", "--get-ratio", "0.5x"])).unwrap_err(),
        "invalid --get-ratio value `0.5x`"
    );
    assert_eq!(
        Config::parse(&args(&["--get-ratio", "1.5", "--bogus", "1"])).unwrap_err(),
        "unknown flag `--bogus` (see --help)"
    );
}

#[test]
fn float_text_agrees_with_std() {
    let samples = [
        "0", "0.9", "1", "1.", ".5", ".", "", "+", "-", "+0.5", "-1", "1e3", "1E-3", "2.5e+7", "1e", "1e+",
        "e5", ".e5", "1.e5", "inf", "-inf", "+Infinity", "INFINITY", "infin", "nan", "NaN", "-nan", "abc",
        " 1", "1 ", "0x10", "1_000", "++1", "1e1.5", "00.00", "9999999999999999999999", "1e99999",
    ];
    for s in samples {
        assert_eq!(is_float_text(s), s.parse::<f64>().is_ok(), "{s:?}");
    }
}

#[test]
fn router_words_read_back() {
    for kind in [RouterKind::Consistent, RouterKind::Modulo] {
        let config = Config::parse(&args(&["--nodes", "a", "--router", kind.as_str()])).unwrap();
        assert_eq!(config.router, kind);
    }
}
