//! Latency percentiles.
use vstd::prelude::*;
use vstd::relations::sorted_by;
use vstd::slice::slice_to_vec;

verus! {

/// Percentiles of latency samples, in nanoseconds.
#[derive(Debug, Clone, Copy, PartialEq, Eq, Structural)]
pub struct LatencySummary {
    pub p50: u64,
    pub p95: u64,
    pub p99: u64,
    pub p999: u64,
}

impl Default for LatencySummary {
    fn default() -> (summary: Self)
        ensures
            summary == (LatencySummary { p50: 0, p95: 0, p99: 0, p999: 0 }),
    {
        LatencySummary { p50: 0, p95: 0, p99: 0, p999: 0 }
    }
}

/// Not above.
pub open spec fn at_most() -> spec_fn(u64, u64) -> bool {
    |a: u64, b: u64| a <= b
}

/// The nearest-rank percentile of samples in rising order: the least sample that at
/// least `per_mille` thousandths of the samples do not exceed; zero without samples.
pub open spec fn nearest_rank(sorted: Seq<u64>, per_mille: int) -> u64 {
    if sorted.len() == 0 {
        0
    } else {
        sorted[(per_mille * sorted.len() + 999) / 1000 - 1]
    }
}

/// The percentiles of samples in rising order.
pub open spec fn summary_of(sorted: Seq<u64>) -> LatencySummary {
    LatencySummary {
        p50: nearest_rank(sorted, 500),
        p95: nearest_rank(sorted, 950),
        p99: nearest_rank(sorted, 990),
        p999: nearest_rank(sorted, 999),
    }
}

/// Whether `sorted` are the samples in rising order.
pub open spec fn rising(sorted: Seq<u64>, samples: Seq<u64>) -> bool {
    &&& sorted_by(sorted, at_most())
    &&& sorted.to_multiset() == samples.to_multiset()
}

/// Whether `value` stands in samples at a place such that no fewer than `part` of `whole`
/// of them stand up to it, and fewer before it.
pub open spec fn stands_at(sorted: Seq<u64>, value: u64, part: int, whole: int) -> bool {
    exists|k: int|
        {
            &&& 0 <= k < sorted.len()
            &&& #[trigger] sorted[k] == value
            &&& whole * (k + 1) >= part * sorted.len()
            &&& whole * k < part * sorted.len()
        }
}

/// The percentiles are samples: half of all samples do not exceed the first, nineteen of
/// twenty the second, ninety-nine of a hundred the third and nine hundred and ninety-nine
/// of a thousand the last, and no lower sample will do. Without samples all are zero.
pub proof fn law_percentiles_are_samples(sorted: Seq<u64>)
    ensures
        ({
            let summary = summary_of(sorted);
            if sorted.len() == 0 {
                summary.p50 == 0 && summary.p95 == 0 && summary.p99 == 0 && summary.p999 == 0
            } else {
                &&& stands_at(sorted, summary.p50, 1, 2)
                &&& stands_at(sorted, summary.p95, 19, 20)
                &&& stands_at(sorted, summary.p99, 99, 100)
                &&& stands_at(sorted, summary.p999, 999, 1000)
            }
        }),
{
    let n = sorted.len() as int;
    if n > 0 {
        assert(sorted[(500 * n + 999) / 1000 - 1] == summary_of(sorted).p50);
        assert(sorted[(950 * n + 999) / 1000 - 1] == summary_of(sorted).p95);
        assert(sorted[(990 * n + 999) / 1000 - 1] == summary_of(sorted).p99);
        assert(sorted[(999 * n + 999) / 1000 - 1] == summary_of(sorted).p999);
    }
}

/// Higher percentiles are not lower.
pub proof fn law_percentiles_rise(sorted: Seq<u64>)
    requires
        sorted_by(sorted, at_most()),
    ensures
        summary_of(sorted).p50 <= summary_of(sorted).p95 <= summary_of(sorted).p99
            <= summary_of(sorted).p999,
{
    lemma_rank_rises(sorted, 500, 950);
    lemma_rank_rises(sorted, 950, 990);
    lemma_rank_rises(sorted, 990, 999);
}

/// A higher percentile is not lower than a lower one.
proof fn lemma_rank_rises(sorted: Seq<u64>, low: int, high: int)
    requires
        sorted_by(sorted, at_most()),
        1 <= low <= high <= 1000,
    ensures
        nearest_rank(sorted, low) <= nearest_rank(sorted, high),
{
    let n = sorted.len() as int;
    if n > 0 {
        assert(n <= low * n <= high * n <= 1000 * n) by (nonlinear_arith)
            requires
                1 <= low <= high <= 1000,
                n > 0,
        ;
        let i = (low * n + 999) / 1000 - 1;
        let j = (high * n + 999) / 1000 - 1;
        assert(0 <= i <= j < n);
        if i < j {
            assert(at_most()(sorted[i], sorted[j]));
        }
    }
}

/// `slice::sort_unstable`: the elements in rising order, none added and none lost.
#[verifier::external_body]
fn sort(samples: &mut Vec<u64>)
    ensures
        rising(final(samples)@, old(samples)@),
{
    samples.sort_unstable();
}

/// The nearest-rank percentile of samples in rising order.
fn percentile(sorted: &Vec<u64>, per_mille: u64) -> (value: u64)
    requires
        1 <= per_mille <= 1000,
    ensures
        value == nearest_rank(sorted@, per_mille as int),
{
    let n: usize = sorted.len();
    if n == 0 {
        return 0;
    }
    proof {
        assert(per_mille * n <= 1000 * n && per_mille * n >= n) by (nonlinear_arith)
            requires
                1 <= per_mille <= 1000,
                n >= 1,
        ;
    }
    let product: u128 = per_mille as u128 * n as u128;
    let rank: usize = ((product + 999) / 1000) as usize;
    sorted[rank - 1]
}

impl LatencySummary {
    /// The percentiles of `samples`; zeros without samples.
    pub fn from_samples(samples: &[u64]) -> (summary: Self)
        ensures
            exists|sorted: Seq<u64>| #[trigger]
                rising(sorted, samples@) && summary == summary_of(sorted),
            forall|sorted: Seq<u64>| #[trigger]
                rising(sorted, samples@) ==> summary == summary_of(sorted),
    {
        let mut sorted: Vec<u64> = slice_to_vec(samples);
        sort(&mut sorted);
        proof {
            assert forall|other: Seq<u64>| #[trigger] rising(other, samples@) implies other
                == sorted@ by {
                vstd::seq_lib::lemma_sorted_unique(other, sorted@, at_most());
            }
        }
        LatencySummary {
            p50: percentile(&sorted, 500),
            p95: percentile(&sorted, 950),
            p99: percentile(&sorted, 990),
            p999: percentile(&sorted, 999),
        }
    }
}

} // verus!
