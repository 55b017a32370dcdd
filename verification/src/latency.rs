use vstd::prelude::*;

verus! {

/// Number of bucket upper bounds; the last bucket holds everything above them.
pub const BUCKET_BOUND_COUNT: usize = 19;

/// The upper bound, in microseconds, of bucket `i` for `i` below
/// [`BUCKET_BOUND_COUNT`].
pub open spec fn bucket_bound(i: int) -> u64 {
    if i == 0 {
        1
    } else if i == 1 {
        2
    } else if i == 2 {
        5
    } else if i == 3 {
        10
    } else if i == 4 {
        20
    } else if i == 5 {
        50
    } else if i == 6 {
        100
    } else if i == 7 {
        200
    } else if i == 8 {
        500
    } else if i == 9 {
        1_000
    } else if i == 10 {
        2_000
    } else if i == 11 {
        5_000
    } else if i == 12 {
        10_000
    } else if i == 13 {
        20_000
    } else if i == 14 {
        50_000
    } else if i == 15 {
        100_000
    } else if i == 16 {
        200_000
    } else if i == 17 {
        500_000
    } else {
        1_000_000
    }
}

/// The bucket bounds are strictly increasing.
pub proof fn lemma_bounds_increasing(i: int, j: int)
    requires
        0 <= i < j < BUCKET_BOUND_COUNT,
    ensures
        bucket_bound(i) < bucket_bound(j),
{
}

/// The bucket a sample of `us` microseconds lands in: the number of bounds
/// below it, so that bucket `i` holds the samples above bound `i - 1` and
/// at most bound `i`, and the last bucket the samples above every bound.
pub open spec fn bucket_of(us: u64) -> int
    decreases BUCKET_BOUND_COUNT,
{
    bounds_below(us, BUCKET_BOUND_COUNT as int)
}

/// How many of the first `n` bounds lie below `us`.
pub open spec fn bounds_below(us: u64, n: int) -> int
    decreases n,
{
    if n <= 0 {
        0
    } else {
        bounds_below(us, n - 1) + if bucket_bound(n - 1) < us {
            1int
        } else {
            0int
        }
    }
}

/// Bound `i` of the table, as a value.
pub fn bound_at(i: usize) -> (bound: u64)
    requires
        i < BUCKET_BOUND_COUNT,
    ensures
        bound == bucket_bound(i as int),
{
    if i == 0 {
        1
    } else if i == 1 {
        2
    } else if i == 2 {
        5
    } else if i == 3 {
        10
    } else if i == 4 {
        20
    } else if i == 5 {
        50
    } else if i == 6 {
        100
    } else if i == 7 {
        200
    } else if i == 8 {
        500
    } else if i == 9 {
        1_000
    } else if i == 10 {
        2_000
    } else if i == 11 {
        5_000
    } else if i == 12 {
        10_000
    } else if i == 13 {
        20_000
    } else if i == 14 {
        50_000
    } else if i == 15 {
        100_000
    } else if i == 16 {
        200_000
    } else if i == 17 {
        500_000
    } else {
        1_000_000
    }
}

/// The bucket for a sample of `us` microseconds.
pub fn bucket_index(us: u64) -> (index: usize)
    ensures
        index as int == bucket_of(us),
        index <= BUCKET_BOUND_COUNT,
{
    let mut i: usize = 0;
    while i < BUCKET_BOUND_COUNT
        invariant
            i <= BUCKET_BOUND_COUNT,
            bounds_below(us, i as int) == i,
            forall|j: int| 0 <= j < i ==> #[trigger] bucket_bound(j) < us,
        decreases BUCKET_BOUND_COUNT - i,
    {
        if bound_at(i) >= us {
            proof {
                lemma_bounds_below_stop(us, i as int, BUCKET_BOUND_COUNT as int);
            }
            return i;
        }
        i = i + 1;
    }
    i
}

/// Once a bound reaches `us`, no later bound lies below it.
proof fn lemma_bounds_below_stop(us: u64, i: int, n: int)
    requires
        0 <= i < n <= BUCKET_BOUND_COUNT,
        bucket_bound(i) >= us,
    ensures
        bounds_below(us, n) == bounds_below(us, i),
    decreases n - i,
{
    if n - 1 > i {
        lemma_bounds_below_stop(us, i, n - 1);
        lemma_bounds_increasing(i, n - 1);
    }
}

/// A latency histogram over fixed microsecond buckets, with a count, a
/// sum and a maximum of the samples. Counters wrap on overflow.
pub struct Histogram {
    buckets: Vec<u64>,
    count: u64,
    sum_us: u64,
    max_us: u64,
}

/// What a histogram has recorded.
#[verifier::ext_equal]
pub struct HistogramModel {
    /// Samples per bucket, one entry per bucket.
    pub buckets: Seq<u64>,
    pub count: u64,
    pub sum_us: u64,
    pub max_us: u64,
}

/// The histogram after a sample of `us` microseconds.
pub open spec fn recorded(h: HistogramModel, us: u64) -> HistogramModel {
    let i = bucket_of(us);
    HistogramModel {
        buckets: h.buckets.update(i, h.buckets[i].wrapping_add(1)),
        count: h.count.wrapping_add(1),
        sum_us: h.sum_us.wrapping_add(us),
        max_us: if us > h.max_us { us } else { h.max_us },
    }
}

/// The value reported for the sample of rank `target` (counting from 1):
/// the upper bound of the first bucket whose running total reaches it, the
/// maximum for the last bucket, and the largest bound if none does.
pub open spec fn value_at(buckets: Seq<u64>, max_us: u64, target: int, i: int, seen: int) -> u64
    decreases buckets.len() - i,
{
    if i >= buckets.len() {
        bucket_bound(BUCKET_BOUND_COUNT - 1)
    } else if seen + buckets[i] >= target {
        if i == BUCKET_BOUND_COUNT {
            max_us
        } else {
            bucket_bound(i)
        }
    } else {
        value_at(buckets, max_us, target, i + 1, seen + buckets[i])
    }
}

impl View for Histogram {
    type V = HistogramModel;

    closed spec fn view(&self) -> HistogramModel {
        HistogramModel { buckets: self.buckets@, count: self.count, sum_us: self.sum_us, max_us: self.max_us }
    }
}

impl Histogram {
    /// One bucket per bound and one above them.
    pub closed spec fn wf(&self) -> bool {
        self.buckets@.len() == BUCKET_BOUND_COUNT + 1
    }

    /// An empty histogram.
    pub fn new() -> (h: Self)
        ensures
            h.wf(),
            h@.buckets == Seq::new((BUCKET_BOUND_COUNT + 1) as nat, |i: int| 0u64),
            h@.count == 0,
            h@.sum_us == 0,
            h@.max_us == 0,
    {
        let mut buckets: Vec<u64> = Vec::new();
        while buckets.len() < BUCKET_BOUND_COUNT + 1
            invariant
                buckets@.len() <= BUCKET_BOUND_COUNT + 1,
                forall|i: int| 0 <= i < buckets@.len() ==> #[trigger] buckets@[i] == 0,
            decreases BUCKET_BOUND_COUNT + 1 - buckets@.len(),
        {
            buckets.push(0);
        }
        let h = Histogram { buckets, count: 0, sum_us: 0, max_us: 0 };
        assert(h@.buckets =~= Seq::new((BUCKET_BOUND_COUNT + 1) as nat, |i: int| 0u64));
        h
    }

    /// Records a sample of `us` microseconds.
    pub fn record_us(&mut self, us: u64)
        requires
            old(self).wf(),
        ensures
            final(self).wf(),
            final(self)@ == recorded(old(self)@, us),
    {
        let index = bucket_index(us);
        let b = self.buckets[index];
        self.buckets.set(index, b.wrapping_add(1));
        self.count = self.count.wrapping_add(1);
        self.sum_us = self.sum_us.wrapping_add(us);
        if us > self.max_us {
            self.max_us = us;
        }
    }

    /// How many samples were recorded (wrapping).
    pub fn count(&self) -> (count: u64)
        ensures
            count == self@.count,
    {
        self.count
    }

    /// The sum of the samples (wrapping).
    pub fn sum_us(&self) -> (sum: u64)
        ensures
            sum == self@.sum_us,
    {
        self.sum_us
    }

    /// The largest sample.
    pub fn max_us(&self) -> (max: u64)
        ensures
            max == self@.max_us,
    {
        self.max_us
    }

    /// The mean sample, rounded down; 0 when nothing was recorded.
    pub fn avg_us(&self) -> (avg: u64)
        ensures
            avg == if self@.count == 0 { 0 } else { self@.sum_us / self@.count },
    {
        if self.count == 0 {
            0
        } else {
            self.sum_us / self.count
        }
    }

    /// Samples recorded in bucket `i`.
    pub fn bucket_count(&self, i: usize) -> (n: u64)
        requires
            self.wf(),
            i <= BUCKET_BOUND_COUNT,
        ensures
            n == self@.buckets[i as int],
    {
        self.buckets[i]
    }

    /// The value reported for the sample of rank `target`, counting from 1:
    /// the upper bound of the first bucket whose running total reaches
    /// `target`, the maximum when that is the bucket above every bound.
    pub fn value_at_rank(&self, target: u64) -> (value: u64)
        requires
            self.wf(),
        ensures
            value == value_at(self@.buckets, self@.max_us, target as int, 0, 0),
    {
        let mut cumulative: u64 = 0;
        let ghost mut seen: int = 0;
        let mut i: usize = 0;
        let n = self.buckets.len();
        while i < n
            invariant
                n == self.buckets@.len(),
                n == BUCKET_BOUND_COUNT + 1,
                i <= n,
                seen >= 0,
                cumulative as int == if seen > u64::MAX { u64::MAX as int } else { seen },
                value_at(self@.buckets, self@.max_us, target as int, 0, 0) == value_at(
                    self@.buckets,
                    self@.max_us,
                    target as int,
                    i as int,
                    seen,
                ),
            decreases n - i,
        {
            let b = self.buckets[i];
            cumulative = cumulative.saturating_add(b);
            proof {
                seen = seen + b;
            }
            if cumulative >= target {
                if i == BUCKET_BOUND_COUNT {
                    return self.max_us;
                }
                return bound_at(i);
            }
            i = i + 1;
        }
        bound_at(BUCKET_BOUND_COUNT - 1)
    }

    /// The percentile reported for the sample of rank `target`: 0 while
    /// nothing was recorded, else the value at that rank, a rank below 1
    /// counting as 1.
    pub fn percentile_at_rank(&self, target: u64) -> (value: u64)
        requires
            self.wf(),
        ensures
            value == if self@.count == 0 {
                0
            } else {
                value_at(self@.buckets, self@.max_us, if target == 0 { 1 } else { target as int }, 0, 0)
            },
    {
        if self.count == 0 {
            return 0;
        }
        let rank = if target == 0 { 1 } else { target };
        self.value_at_rank(rank)
    }
}

/// Scanning the bounds from `i` on finds the bucket of `us`.
proof fn lemma_bucket_scan(us: u64, i: int)
    requires
        0 <= i <= BUCKET_BOUND_COUNT,
        bounds_below(us, i) == i,
        forall|j: int| 0 <= j < i ==> #[trigger] bucket_bound(j) < us,
    ensures
        0 <= bucket_of(us) <= BUCKET_BOUND_COUNT,
        bucket_of(us) > 0 ==> bucket_bound(bucket_of(us) - 1) < us,
        bucket_of(us) < BUCKET_BOUND_COUNT ==> us <= bucket_bound(bucket_of(us)),
    decreases BUCKET_BOUND_COUNT - i,
{
    if i < BUCKET_BOUND_COUNT && bucket_bound(i) < us {
        lemma_bucket_scan(us, i + 1);
    } else {
        if i < BUCKET_BOUND_COUNT {
            lemma_bounds_below_stop(us, i, BUCKET_BOUND_COUNT as int);
        }
        if i > 0 {
            assert(bucket_bound(i - 1) < us);
        }
    }
}

/// Bucket `i` holds exactly the samples above bound `i - 1` and at most
/// bound `i`; the last bucket holds the samples above every bound.
pub proof fn lemma_bucket_range(us: u64)
    ensures
        0 <= bucket_of(us) <= BUCKET_BOUND_COUNT,
        bucket_of(us) > 0 ==> bucket_bound(bucket_of(us) - 1) < us,
        bucket_of(us) < BUCKET_BOUND_COUNT ==> us <= bucket_bound(bucket_of(us)),
{
    lemma_bucket_scan(us, 0);
}

} // verus!