use cachex::workload::{KeyOrder, SplitMix64, Workload};

fn threshold(ratio: f64) -> u64 {
    (ratio * 1_000_000.0).clamp(0.0, 1_000_000.0) as u64
}

#[test]
fn splitmix_below_is_uniform() {
    let mut rng = SplitMix64::new(1234);
    let mut counts = [0u64; 10];
    for _ in 0..100_000 {
        counts[rng.below(10) as usize] += 1;
    }
    for (i, count) in counts.iter().enumerate() {
        assert!(*count > 9_000, "bucket {i} too small: {count}");
        assert!(*count < 11_000, "bucket {i} too large: {count}");
    }
}

#[test]
fn same_seed_reproduces_key_stream() {
    let mut a = Workload::new(1000, 32, threshold(0.5), KeyOrder::Uniform, 7);
    let mut b = Workload::new(1000, 32, threshold(0.5), KeyOrder::Uniform, 7);
    for _ in 0..1000 {
        assert_eq!(a.next_key(), b.next_key());
        assert_eq!(a.next_value(), b.next_value());
        assert_eq!(a.should_get(), b.should_get());
    }
}

#[test]
fn sequential_keys_visit_every_key_exactly_once() {
    let mut workload = Workload::new(5, 16, threshold(0.5), KeyOrder::Sequential, 1);
    let expected: Vec<String> = (0..5).map(|i| format!("key:{i:08}")).collect();
    for _ in 0..3 {
        let seen: Vec<String> = (0..5).map(|_| workload.next_key()).collect();
        assert_eq!(seen, expected, "sequential keys must cycle in order");
    }
}

#[test]
fn keys_stay_within_keyspace() {
    let mut workload = Workload::new(50, 16, threshold(0.5), KeyOrder::Uniform, 1);
    for _ in 0..10_000 {
        let key = workload.next_key();
        let number: u64 = key["key:".len()..].parse().unwrap();
        assert!(number < 50, "key {key} out of keyspace");
    }
}

#[test]
fn values_have_exact_size() {
    let mut workload = Workload::new(100, 128, threshold(0.5), KeyOrder::Uniform, 2);
    for _ in 0..100 {
        assert_eq!(workload.next_value().len(), 128);
    }
}

#[test]
fn values_are_newline_safe_printable_ascii() {
    let mut workload = Workload::new(100, 512, threshold(0.5), KeyOrder::Uniform, 2);
    for _ in 0..1000 {
        for byte in workload.next_value() {
            assert!((b'!'..=b'~').contains(&byte), "value byte {byte:#04x} would break the text protocol");
        }
    }
}

#[test]
fn get_ratio_is_honored_statistically() {
    for (ratio, tolerance) in [(0.0, 0.0), (1.0, 0.0), (0.5, 0.03), (0.9, 0.03)] {
        let mut workload = Workload::new(1000, 16, threshold(ratio), KeyOrder::Uniform, 99);
        let mut gets = 0u64;
        let total = 100_000u64;
        for _ in 0..total {
            if workload.should_get() {
                gets += 1;
            }
        }
        let actual = gets as f64 / total as f64;
        assert!((actual - ratio).abs() <= tolerance, "ratio {ratio} produced {actual}");
    }
}

#[test]
fn splitmix_matches_reference_sequence() {
    let mut rng = SplitMix64::new(0);
    let mut state: u64 = 0;
    for _ in 0..4 {
        state = state.wrapping_add(0x9E37_79B9_7F4A_7C15);
        let mut z = state;
        z = (z ^ (z >> 30)).wrapping_mul(0xBF58_476D_1CE4_E5B9);
        z = (z ^ (z >> 27)).wrapping_mul(0x94D0_49BB_1331_11EB);
        assert_eq!(rng.next_u64(), z ^ (z >> 31));
    }
}

#[test]
fn long_key_numbers_are_not_truncated() {
    let mut workload = Workload::new(u64::MAX, 1, 0, KeyOrder::Sequential, 0);
    assert_eq!(workload.next_key(), "key:00000000");
    assert_eq!(cachex::workload::key_text(123_456_789), "key:123456789");
    assert_eq!(KeyOrder::Sequential.as_str(), "sequential");
}

#[test]
fn odd_value_sizes_are_cut_from_whole_words() {
    let mut a = Workload::new(10, 3, 0, KeyOrder::Uniform, 5);
    let mut b = Workload::new(10, 8, 0, KeyOrder::Uniform, 5);
    let short = a.next_value();
    let full = b.next_value();
    assert_eq!(short.len(), 3);
    assert_eq!(&full[..3], &short[..]);
}
