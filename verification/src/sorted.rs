//! Search in ascending price lists.
use vstd::prelude::*;

verus! {

/// Whether `prices` rise strictly.
pub open spec fn ascending(prices: Seq<u64>) -> bool {
    forall|i: int, j: int| 0 <= i < j < prices.len() ==> prices[i] < prices[j]
}

/// Number of prices below `price`: the rank that `price` has, or would have.
pub fn lower_bound(prices: &Vec<u64>, price: u64) -> (rank: usize)
    requires
        ascending(prices@),
    ensures
        rank <= prices@.len(),
        forall|i: int| 0 <= i < rank ==> prices@[i] < price,
        forall|i: int| rank <= i < prices@.len() ==> prices@[i] >= price,
{
    let mut low: usize = 0;
    let mut high: usize = prices.len();
    while low < high
        invariant
            low <= high <= prices@.len(),
            ascending(prices@),
            forall|i: int| 0 <= i < low ==> prices@[i] < price,
            forall|i: int| high <= i < prices@.len() ==> prices@[i] >= price,
        decreases high - low,
    {
        let mid: usize = low + (high - low) / 2;
        if prices[mid] < price {
            low = mid + 1;
        } else {
            high = mid;
        }
    }
    low
}

} // verus!
