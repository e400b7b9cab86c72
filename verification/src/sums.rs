//! Sums of an integer function over a range, the measure of depth everywhere in
//! the book.
use vstd::prelude::*;

verus! {

/// Sum of `f(i)` for `lo <= i < hi`.
pub open spec fn range_sum(f: spec_fn(int) -> int, lo: int, hi: int) -> int
    decreases hi - lo,
{
    if lo >= hi {
        0
    } else {
        range_sum(f, lo, hi - 1) + f(hi - 1)
    }
}

/// A range may be summed in two parts.
pub proof fn lemma_sum_split(f: spec_fn(int) -> int, lo: int, mid: int, hi: int)
    requires
        lo <= mid <= hi,
    ensures
        range_sum(f, lo, hi) == range_sum(f, lo, mid) + range_sum(f, mid, hi),
    decreases hi - mid,
{
    if mid < hi {
        lemma_sum_split(f, lo, mid, hi - 1);
    }
}

/// Functions that agree on a range have equal sums there.
pub proof fn lemma_sum_same(f: spec_fn(int) -> int, g: spec_fn(int) -> int, lo: int, hi: int)
    requires
        forall|i: int| lo <= i < hi ==> #[trigger] f(i) == g(i),
    ensures
        range_sum(f, lo, hi) == range_sum(g, lo, hi),
    decreases hi - lo,
{
    if lo < hi {
        lemma_sum_same(f, g, lo, hi - 1);
    }
}

/// A function that is zero on a range sums to zero.
pub proof fn lemma_sum_zero(f: spec_fn(int) -> int, lo: int, hi: int)
    requires
        forall|i: int| lo <= i < hi ==> #[trigger] f(i) == 0,
    ensures
        range_sum(f, lo, hi) == 0,
    decreases hi - lo,
{
    if lo < hi {
        lemma_sum_zero(f, lo, hi - 1);
    }
}

/// A change at one point moves every sum over that point by as much.
pub proof fn lemma_sum_point(f: spec_fn(int) -> int, g: spec_fn(int) -> int, lo: int, hi: int, k: int)
    requires
        forall|i: int| lo <= i < hi && i != k ==> #[trigger] f(i) == g(i),
    ensures
        range_sum(g, lo, hi) == range_sum(f, lo, hi) + (if lo <= k < hi {
            g(k) - f(k)
        } else {
            0
        }),
    decreases hi - lo,
{
    if lo < hi {
        lemma_sum_point(f, g, lo, hi - 1, k);
        if hi - 1 != k {
            assert(f(hi - 1) == g(hi - 1));
        }
    }
}

/// Sums of a function that is nowhere negative grow with the range.
pub proof fn lemma_sum_monotone(f: spec_fn(int) -> int, lo: int, a: int, b: int, hi: int)
    requires
        lo <= a <= b <= hi,
        forall|i: int| lo <= i < hi ==> #[trigger] f(i) >= 0,
    ensures
        0 <= range_sum(f, a, b) <= range_sum(f, lo, hi),
{
    lemma_sum_nonnegative(f, lo, a);
    lemma_sum_nonnegative(f, a, b);
    lemma_sum_nonnegative(f, b, hi);
    lemma_sum_split(f, lo, a, hi);
    lemma_sum_split(f, a, b, hi);
}

/// The sum of a function that is nowhere negative is not negative.
pub proof fn lemma_sum_nonnegative(f: spec_fn(int) -> int, lo: int, hi: int)
    requires
        forall|i: int| lo <= i < hi ==> #[trigger] f(i) >= 0,
    ensures
        range_sum(f, lo, hi) >= 0,
    decreases hi - lo,
{
    if lo < hi {
        lemma_sum_nonnegative(f, lo, hi - 1);
    }
}

/// A function that is nowhere above another has the smaller sum.
pub proof fn lemma_sum_le(f: spec_fn(int) -> int, g: spec_fn(int) -> int, lo: int, hi: int)
    requires
        forall|i: int| lo <= i < hi ==> #[trigger] f(i) <= g(i),
    ensures
        range_sum(f, lo, hi) <= range_sum(g, lo, hi),
    decreases hi - lo,
{
    if lo < hi {
        lemma_sum_le(f, g, lo, hi - 1);
    }
}

/// A function moved along has the same sums over ranges moved along.
pub proof fn lemma_sum_shift(f: spec_fn(int) -> int, g: spec_fn(int) -> int, lo: int, hi: int, by: int)
    requires
        forall|i: int| lo <= i < hi ==> #[trigger] f(i) == g(i + by),
    ensures
        range_sum(f, lo, hi) == range_sum(g, lo + by, hi + by),
    decreases hi - lo,
{
    if lo < hi {
        lemma_sum_shift(f, g, lo, hi - 1, by);
        assert(f(hi - 1) == g(hi - 1 + by));
    }
}

} // verus!
