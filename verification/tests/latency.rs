use cachex::latency::{bucket_index, Histogram};

fn percentile(h: &Histogram, p: f64) -> u64 {
    let target = ((h.count() as f64) * (p / 100.0)).ceil() as u64;
    h.percentile_at_rank(target)
}

#[test]
fn empty_histogram_reads_zero() {
    let h = Histogram::new();
    assert_eq!(h.count(), 0);
    assert_eq!(h.avg_us(), 0);
    assert_eq!(h.max_us(), 0);
    assert_eq!(percentile(&h, 50.0), 0);
    assert_eq!(percentile(&h, 99.0), 0);
}

#[test]
fn records_land_in_the_right_bucket() {
    let mut h = Histogram::new();
    h.record_us(0);
    h.record_us(1);
    h.record_us(7);
    h.record_us(1_500);
    h.record_us(100_000_000);

    assert_eq!(h.count(), 5);
    assert_eq!(h.max_us(), 100_000_000);
    let expected: Vec<u64> = (0..=19).map(|i| h.bucket_count(i)).collect();
    assert_eq!(expected[0], 2);
    assert_eq!(expected[3], 1);
    assert_eq!(expected[10], 1);
    assert_eq!(expected[19], 1);
}

#[test]
fn percentile_uses_bucket_upper_bound() {
    let mut h = Histogram::new();
    h.record_us(1);
    h.record_us(10);
    h.record_us(100);
    assert_eq!(percentile(&h, 50.0), 10);
    assert_eq!(percentile(&h, 100.0), 100);
}

#[test]
fn top_bucket_percentile_uses_max() {
    let mut h = Histogram::new();
    h.record_us(1);
    h.record_us(2_000_000);
    assert_eq!(percentile(&h, 100.0), 2_000_000);
}

#[test]
fn avg_and_sum_are_exact() {
    let mut h = Histogram::new();
    h.record_us(10);
    h.record_us(30);
    assert_eq!(h.sum_us(), 40);
    assert_eq!(h.avg_us(), 20);
}

#[test]
fn bucket_edges_are_inclusive_upper_bounds() {
    assert_eq!(bucket_index(0), 0);
    assert_eq!(bucket_index(1), 0);
    assert_eq!(bucket_index(2), 1);
    assert_eq!(bucket_index(3), 2);
    assert_eq!(bucket_index(1_000_000), 18);
    assert_eq!(bucket_index(1_000_001), 19);
    assert_eq!(bucket_index(u64::MAX), 19);
}

#[test]
fn rank_beyond_count_reports_largest_bound() {
    let mut h = Histogram::new();
    h.record_us(5);
    assert_eq!(h.value_at_rank(2), 1_000_000);
    assert_eq!(h.value_at_rank(1), 5);
}

#[test]
fn percentile_rank_is_zero_when_empty_and_at_least_one() {
    let empty = Histogram::new();
    assert_eq!(empty.percentile_at_rank(0), 0);
    assert_eq!(empty.percentile_at_rank(5), 0);
    let mut h = Histogram::new();
    h.record_us(3);
    h.record_us(40);
    assert_eq!(h.percentile_at_rank(0), h.value_at_rank(1));
    assert_eq!(h.percentile_at_rank(1), 5);
    assert_eq!(h.percentile_at_rank(2), 50);
}
