//! Summaries of measured latencies.

use vstd::prelude::*;

verus! {

/// A summary of latencies in nanoseconds.
#[derive(Clone, Debug)]
pub struct LatencyStats {
    pub count: usize,
    pub min_ns: u128,
    pub max_ns: u128,
    pub avg_ns: u128,
    pub p50_ns: u128,
    pub p95_ns: u128,
    pub p99_ns: u128,
}

/// The sum of `samples`.
pub open spec fn sum(samples: Seq<u128>) -> nat
    decreases samples.len(),
{
    if samples.len() == 0 {
        0
    } else {
        sum(samples.drop_last()) + samples.last() as nat
    }
}

/// Whether `samples` ascend.
pub open spec fn is_sorted(samples: Seq<u128>) -> bool {
    forall|i: int, j: int| 0 <= i <= j < samples.len() ==> samples[i] <= samples[j]
}

/// `slice::sort_unstable` puts the elements of the slice into ascending order: the same elements,
/// each as often as before.
#[verifier::external_body]
fn sort_samples(samples: &mut [u128])
    ensures
        is_sorted(final(samples)@),
        final(samples)@.to_multiset() == old(samples)@.to_multiset(),
{
    samples.sort_unstable()
}

/// The sample at `percentile` percent of the way through `samples`, which ascend.
pub open spec fn percentile_of(samples: Seq<u128>, percentile: nat) -> u128 {
    let index = samples.len() * percentile / 100;
    if index < samples.len() {
        samples[index as int]
    } else {
        samples.last()
    }
}

/// Whether `stats` is the summary of samples that add up to `total` and are `sorted` in ascending
/// order.
pub open spec fn summarizes(stats: LatencyStats, sorted: Seq<u128>, total: nat) -> bool {
    if sorted.len() == 0 {
        &&& stats.count == 0
        &&& stats.min_ns == 0
        &&& stats.max_ns == 0
        &&& stats.avg_ns == 0
        &&& stats.p50_ns == 0
        &&& stats.p95_ns == 0
        &&& stats.p99_ns == 0
    } else {
        &&& stats.count == sorted.len()
        &&& stats.min_ns == sorted.first()
        &&& stats.max_ns == sorted.last()
        &&& stats.avg_ns == total / sorted.len()
        &&& stats.p50_ns == percentile_of(sorted, 50)
        &&& stats.p95_ns == percentile_of(sorted, 95)
        &&& stats.p99_ns == percentile_of(sorted, 99)
    }
}

/// Sorts `samples` and summarizes them.
pub fn summarize_ns(samples: &mut [u128]) -> (stats: LatencyStats)
    requires
        sum(old(samples)@) <= u128::MAX,
    ensures
        final(samples)@.len() == old(samples)@.len(),
        is_sorted(final(samples)@),
        final(samples)@.to_multiset() == old(samples)@.to_multiset(),
        summarizes(stats, final(samples)@, sum(old(samples)@)),
{
    if samples.is_empty() {
        assert(samples@ =~= Seq::<u128>::empty());
        return LatencyStats {
            count: 0,
            min_ns: 0,
            max_ns: 0,
            avg_ns: 0,
            p50_ns: 0,
            p95_ns: 0,
            p99_ns: 0,
        };
    }
    let total: u128 = sum_ns(samples);
    sort_samples(samples);
    proof {
        old(samples)@.to_multiset_ensures();
        samples@.to_multiset_ensures();
    }
    LatencyStats {
        count: samples.len(),
        min_ns: samples[0],
        max_ns: samples[samples.len() - 1],
        avg_ns: total / samples.len() as u128,
        p50_ns: percentile_ns(samples, 50),
        p95_ns: percentile_ns(samples, 95),
        p99_ns: percentile_ns(samples, 99),
    }
}

/// The first samples add up to no more than all of them.
proof fn lemma_sum_of_first(samples: Seq<u128>, count: int)
    requires
        0 <= count <= samples.len(),
    ensures
        sum(samples.take(count)) <= sum(samples),
    decreases samples.len(),
{
    if count == samples.len() {
        assert(samples.take(count) =~= samples);
    } else {
        lemma_sum_of_first(samples.drop_last(), count);
        assert(samples.drop_last().take(count) =~= samples.take(count));
    }
}

/// The sum of `samples`.
fn sum_ns(samples: &[u128]) -> (total: u128)
    requires
        sum(samples@) <= u128::MAX,
    ensures
        total == sum(samples@),
{
    let mut total: u128 = 0;
    let mut i: usize = 0;
    while i < samples.len()
        invariant
            i <= samples@.len(),
            sum(samples@) <= u128::MAX,
            total == sum(samples@.take(i as int)),
        decreases samples@.len() - i,
    {
        proof {
            assert(samples@.take(i + 1).drop_last() =~= samples@.take(i as int));
            lemma_sum_of_first(samples@, i + 1);
        }
        total = total + samples[i];
        i = i + 1;
    }
    assert(samples@.take(samples@.len() as int) =~= samples@);
    total
}

/// The sample at `percentile` percent of the way through `samples`, which ascend.
fn percentile_ns(samples: &[u128], percentile: usize) -> (sample: u128)
    requires
        samples@.len() > 0,
    ensures
        sample == percentile_of(samples@, percentile as nat),
{
    let len: u128 = samples.len() as u128;
    assert(len * (percentile as u128) < 0x1_0000_0000_0000_0000_0000_0000_0000_0000)
        by (nonlinear_arith)
        requires
            len <= 0xffff_ffff_ffff_ffff,
            percentile <= 0xffff_ffff_ffff_ffff,
    ;
    let index: u128 = len * (percentile as u128) / 100;
    if index < len {
        samples[index as usize]
    } else {
        samples[samples.len() - 1]
    }
}

/// The index at `percentile` percent of the way from the first to the last of `len` values.
pub fn percentile_index(len: usize, percentile: usize) -> (index: usize)
    requires
        len > 0,
        (len - 1) * percentile / 100 < len,
    ensures
        index == (len - 1) * percentile / 100,
        100 * index <= (len - 1) * percentile < 100 * (index + 1),
{
    let last: u128 = (len - 1) as u128;
    assert(last * (percentile as u128) < 0x1_0000_0000_0000_0000_0000_0000_0000_0000)
        by (nonlinear_arith)
        requires
            last <= 0xffff_ffff_ffff_ffff,
            percentile <= 0xffff_ffff_ffff_ffff,
    ;
    (last * (percentile as u128) / 100) as usize
}

/// Taking a sample out takes it off the sum.
proof fn lemma_sum_remove(samples: Seq<u128>, i: int)
    requires
        0 <= i < samples.len(),
    ensures
        sum(samples) == sum(samples.remove(i)) + samples[i],
    decreases samples.len(),
{
    if i == samples.len() - 1 {
        assert(samples.remove(i) =~= samples.drop_last());
    } else {
        lemma_sum_remove(samples.drop_last(), i);
        assert(samples.remove(i).drop_last() =~= samples.drop_last().remove(i));
    }
}

/// The order of the samples does not matter to their sum.
pub proof fn lemma_sum_of_permutation(a: Seq<u128>, b: Seq<u128>)
    requires
        a.to_multiset() == b.to_multiset(),
    ensures
        sum(a) == sum(b),
    decreases a.len(),
{
    a.to_multiset_ensures();
    b.to_multiset_ensures();
    if a.len() > 0 {
        let x = a.last();
        assert(a.contains(x)) by {
            assert(a[a.len() - 1] == x);
        }
        assert(b.contains(x)) by {
            assert(b.to_multiset().count(x) > 0);
        }
        let i = choose|i: int| 0 <= i < b.len() && b[i] == x;
        assert(a.drop_last() =~= a.remove(a.len() - 1));
        lemma_sum_of_permutation(a.drop_last(), b.remove(i));
        lemma_sum_remove(b, i);
    }
}

/// Samples between two bounds have an average between them.
proof fn lemma_sum_bounds(samples: Seq<u128>, low: u128, high: u128)
    requires
        forall|i: int| 0 <= i < samples.len() ==> low <= #[trigger] samples[i] <= high,
    ensures
        samples.len() * low <= sum(samples) <= samples.len() * high,
    decreases samples.len(),
{
    if samples.len() > 0 {
        lemma_sum_bounds(samples.drop_last(), low, high);
        let n = samples.len() as int;
        assert(n * low == (n - 1) * low + low && n * high == (n - 1) * high + high)
            by (nonlinear_arith);
    }
}

/// In a summary of at least one sample the smallest sample, the percentiles and the largest
/// sample ascend, and the average lies between the smallest and the largest.
pub proof fn lemma_summary_ascends(stats: LatencyStats, samples: Seq<u128>, sorted: Seq<u128>)
    requires
        samples.len() > 0,
        is_sorted(sorted),
        sorted.to_multiset() == samples.to_multiset(),
        summarizes(stats, sorted, sum(samples)),
    ensures
        stats.min_ns <= stats.p50_ns <= stats.p95_ns <= stats.p99_ns <= stats.max_ns,
        stats.min_ns <= stats.avg_ns <= stats.max_ns,
{
    sorted.to_multiset_ensures();
    samples.to_multiset_ensures();
    lemma_sum_of_permutation(samples, sorted);
    lemma_sum_bounds(sorted, sorted.first(), sorted.last());
    let n = sorted.len() as int;
    let total = sum(samples) as int;
    let low = sorted.first() as int;
    let high = sorted.last() as int;
    assert(low <= total / n <= high) by (nonlinear_arith)
        requires
            n > 0,
            n * low <= total <= n * high,
    ;
}

/// Sums add up, and one sample counts by itself.
pub proof fn lemma_sums_add_up(a: Seq<u128>, b: Seq<u128>, sample: u128)
    ensures
        sum(a + b) == sum(a) + sum(b),
        sum(seq![sample]) == sample,
        sum(Seq::<u128>::empty()) == 0,
    decreases b.len(),
{
    reveal_with_fuel(sum, 2);
    assert(seq![sample].drop_last() =~= Seq::<u128>::empty());
    if b.len() == 0 {
        assert(a + b =~= a);
    } else {
        lemma_sums_add_up(a, b.drop_last(), sample);
        assert((a + b).drop_last() =~= a + b.drop_last());
    }
}

/// In a summary of at least one sample, no sample is below the smallest or above the largest, both
/// of which are samples. The average is the sum divided by the count and rounded down. The
/// percentile at 50, 95 or 99 of a hundred is the sample behind that part of all samples, the part
/// rounded down.
pub proof fn lemma_summary(
    stats: LatencyStats,
    sorted: Seq<u128>,
    total: nat,
    i: int,
)
    requires
        sorted.len() > 0,
        is_sorted(sorted),
        summarizes(stats, sorted, total),
        0 <= i < sorted.len(),
    ensures
        stats.count == sorted.len(),
        stats.min_ns <= sorted[i] <= stats.max_ns,
        sorted.contains(stats.min_ns),
        sorted.contains(stats.max_ns),
        stats.avg_ns * sorted.len() <= total < (stats.avg_ns + 1) * sorted.len(),
        100 * i <= sorted.len() * 50 < 100 * (i + 1) ==> stats.p50_ns == sorted[i],
        100 * i <= sorted.len() * 95 < 100 * (i + 1) ==> stats.p95_ns == sorted[i],
        100 * i <= sorted.len() * 99 < 100 * (i + 1) ==> stats.p99_ns == sorted[i],
{
    let n = sorted.len() as int;
    assert(sorted[0] == stats.min_ns);
    assert(sorted[n - 1] == stats.max_ns);
    let avg = stats.avg_ns as int;
    vstd::arithmetic::div_mod::lemma_fundamental_div_mod(total as int, n);
    assert(avg * n <= total && total < (avg + 1) * n) by (nonlinear_arith)
        requires
            n > 0,
            total as int == n * avg + total as int % n,
            0 <= total as int % n < n,
    ;
}

/// A summary of no samples is all zeros.
pub proof fn lemma_empty_summary(stats: LatencyStats, total: nat)
    requires
        summarizes(stats, Seq::empty(), total),
    ensures
        stats.count == 0,
        stats.min_ns == 0 && stats.max_ns == 0 && stats.avg_ns == 0,
        stats.p50_ns == 0 && stats.p95_ns == 0 && stats.p99_ns == 0,
{
}

} // verus!
