//! Range-volume index over the prices away from the dense window.
use crate::fenwick::{as_slots, lemma_node_bounds, node_covers, node_sum, slot_sum, FenwickTree};
use crate::sorted::{ascending, lower_bound};
use crate::sums::{
    lemma_sum_monotone, lemma_sum_nonnegative, lemma_sum_point, lemma_sum_same, lemma_sum_split,
    lemma_sum_zero, range_sum,
};
use vstd::prelude::*;

verus! {

/// Rising price keys with a Fenwick tree over their quantities, for volume
/// queries in logarithmic time.
pub struct SparseVolumeIndex {
    prices: Vec<u64>,
    qtys: Vec<u64>,
    fenwick: FenwickTree,
}

/// The quantity that `qtys` holds for `price`, zero where `prices` lacks it.
pub open spec fn qty_in(prices: Seq<u64>, qtys: Seq<u64>, price: int) -> int {
    if exists|i: int| 0 <= i < prices.len() && prices[i] == price {
        qtys[choose|i: int| 0 <= i < prices.len() && prices[i] == price] as int
    } else {
        0
    }
}

/// One past the highest price.
pub open spec fn price_limit() -> int {
    0x1_0000_0000_0000_0000
}

proof fn lemma_qty_at(prices: Seq<u64>, qtys: Seq<u64>, i: int)
    requires
        ascending(prices),
        0 <= i < prices.len(),
    ensures
        qty_in(prices, qtys, prices[i] as int) == qtys[i],
{
    let price = prices[i] as int;
    let k = choose|k: int| 0 <= k < prices.len() && prices[k] == price;
    assert(0 <= k < prices.len() && prices[k] == price);
    assert(k == i);
}

/// The quantities at prices below `bound` are those of the first `rank` keys.
proof fn lemma_rank_sum(prices: Seq<u64>, qtys: Seq<u64>, rank: int, bound: int)
    requires
        ascending(prices),
        prices.len() == qtys.len(),
        0 <= rank <= prices.len(),
        0 <= bound,
        forall|i: int| 0 <= i < rank ==> prices[i] < bound,
        forall|i: int| rank <= i < prices.len() ==> prices[i] >= bound,
    ensures
        range_sum(|p: int| qty_in(prices, qtys, p), 0, bound) == slot_sum(as_slots(qtys), 0, rank),
    decreases rank,
{
    let f = |p: int| qty_in(prices, qtys, p);
    if rank == 0 {
        assert forall|p: int| 0 <= p < bound implies #[trigger] f(p) == 0 by {}
        lemma_sum_zero(f, 0, bound);
    } else {
        let top = prices[rank - 1] as int;
        lemma_rank_sum(prices, qtys, rank - 1, top);
        lemma_sum_split(f, 0, top, bound);
        lemma_sum_split(f, top, top + 1, bound);
        assert forall|p: int| top + 1 <= p < bound implies #[trigger] f(p) == 0 by {
            if exists|i: int| 0 <= i < prices.len() && prices[i] == p {
                let i = choose|i: int| 0 <= i < prices.len() && prices[i] == p;
                assert(prices[i] == p);
            }
        }
        lemma_sum_zero(f, top + 1, bound);
        lemma_qty_at(prices, qtys, rank - 1);
        reveal_with_fuel(range_sum, 2);
    }
}

impl SparseVolumeIndex {
    /// The quantity at `price`.
    pub closed spec fn qty(&self, price: int) -> int {
        qty_in(self.prices@, self.qtys@, price)
    }

    /// The sum of all quantities.
    pub open spec fn total(&self) -> int {
        range_sum(|p: int| self.qty(p), 0, price_limit())
    }

    /// The prices rise, each has a quantity above zero, the tree sums the
    /// quantities, and their total fits a `u64`.
    pub closed spec fn wf(&self) -> bool {
        &&& self.shape()
        &&& self.positive()
        &&& self.total() <= u64::MAX
        &&& self.fenwick@ =~= as_slots(self.qtys@)
    }

    /// What holds of the index while its tree is out of date.
    closed spec fn shape(&self) -> bool {
        &&& ascending(self.prices@)
        &&& self.prices@.len() == self.qtys@.len()
        &&& self.prices@.len() < usize::MAX / 16
        &&& self.fenwick.wf()
    }

    /// No key has the quantity zero.
    closed spec fn positive(&self) -> bool {
        forall|i: int| 0 <= i < self.qtys@.len() ==> #[trigger] self.qtys@[i] > 0
    }

    /// The prices that have a key.
    pub closed spec fn keys(&self) -> Seq<u64> {
        self.prices@
    }

    /// Keys occur once, and at each there is some quantity.
    pub proof fn lemma_keys(&self)
        requires
            self.wf(),
        ensures
            self.keys().no_duplicates(),
            forall|i: int| 0 <= i < self.keys().len() ==> self.qty(#[trigger] self.keys()[i] as int) > 0,
    {
        assert forall|i: int| 0 <= i < self.keys().len() implies self.qty(
            #[trigger] self.keys()[i] as int,
        ) > 0 by {
            lemma_qty_at(self.prices@, self.qtys@, i);
            assert(self.qtys@[i] > 0);
        }
    }

    /// Quantities are not negative.
    pub proof fn lemma_qty_nonnegative(&self)
        ensures
            forall|price: int| #[trigger] self.qty(price) >= 0,
    {
    }

    /// An index without quantities.
    pub fn new() -> (index: Self)
        ensures
            index.wf(),
            index.keys().len() == 0,
            forall|price: int| #[trigger] index.qty(price) == 0,
            index.total() == 0,
    {
        let index = SparseVolumeIndex {
            prices: Vec::new(),
            qtys: Vec::new(),
            fenwick: FenwickTree::new(0),
        };
        proof {
            lemma_sum_zero(|p: int| index.qty(p), 0, price_limit());
        }
        index
    }

    proof fn lemma_total(&self)
        requires
            self.shape(),
        ensures
            self.total() == slot_sum(as_slots(self.qtys@), 0, self.qtys@.len() as int),
    {
        lemma_rank_sum(self.prices@, self.qtys@, self.prices@.len() as int, price_limit());
        lemma_sum_same(
            |p: int| self.qty(p),
            |p: int| qty_in(self.prices@, self.qtys@, p),
            0,
            price_limit(),
        );
    }

    /// Adds `qty` at `price`.
    pub fn add(&mut self, price: u64, qty: u64)
        requires
            old(self).wf(),
            old(self).total() + qty <= u64::MAX,
            old(self).keys().len() + 1 < usize::MAX / 16,
        ensures
            final(self).wf(),
            final(self).qty(price as int) == old(self).qty(price as int) + qty,
            forall|p: int| p != price ==> #[trigger] final(self).qty(p) == old(self).qty(p),
            final(self).total() == old(self).total() + qty,
    {
        if qty == 0 {
            return;
        }
        let rank: usize = lower_bound(&self.prices, price);
        let ghost before = as_slots(self.qtys@);
        if rank < self.prices.len() && self.prices[rank] == price {
            proof {
                lemma_qty_at(self.prices@, self.qtys@, rank as int);
                self.lemma_total();
                assert forall|i: int|
                    rank < i <= before.len() && #[trigger] node_covers(
                        i,
                        rank as int,
                    ) implies node_sum(before, i) + qty <= u64::MAX by {
                    lemma_node_bounds(before, i, rank as int);
                }
                let f = |k: int| before[k];
                lemma_sum_monotone(f, 0, rank as int, rank + 1, before.len() as int);
                reveal_with_fuel(range_sum, 2);
            }
            let current: u64 = self.qtys[rank];
            self.qtys[rank] = current + qty;
            self.fenwick.add(rank, qty);
            proof {
                assert(self.fenwick@ =~= as_slots(self.qtys@));
                self.lemma_same_but(old(self), rank as int);
                lemma_qty_at(self.prices@, self.qtys@, rank as int);
                lemma_sum_point(
                    |p: int| old(self).qty(p),
                    |p: int| self.qty(p),
                    0,
                    price_limit(),
                    price as int,
                );
            }
        } else {
            self.prices.insert(rank, price);
            self.qtys.insert(rank, qty);
            proof {
                assert(self.prices@[rank as int] == price);
                self.lemma_inserted(old(self), rank as int);
                assert(self.positive());
                lemma_sum_point(
                    |p: int| old(self).qty(p),
                    |p: int| self.qty(p),
                    0,
                    price_limit(),
                    price as int,
                );
            }
            self.rebuild_fenwick();
        }
    }

    proof fn lemma_same_but(&self, old_self: &Self, rank: int)
        requires
            self.prices@ == old_self.prices@,
            ascending(self.prices@),
            self.qtys@.len() == old_self.qtys@.len() == self.prices@.len(),
            0 <= rank < self.prices@.len(),
            forall|i: int|
                0 <= i < self.qtys@.len() && i != rank ==> self.qtys@[i] == old_self.qtys@[i],
        ensures
            forall|p: int| p != self.prices@[rank] ==> #[trigger] self.qty(p) == old_self.qty(p),
    {
        assert forall|p: int| p != self.prices@[rank] implies #[trigger] self.qty(p) == old_self.qty(
            p,
        ) by {
            if exists|i: int| 0 <= i < self.prices@.len() && self.prices@[i] == p {
                let i = choose|i: int| 0 <= i < self.prices@.len() && self.prices@[i] == p;
                assert(self.prices@[i] == p);
                lemma_qty_at(self.prices@, self.qtys@, i);
                lemma_qty_at(self.prices@, old_self.qtys@, i);
            }
        }
    }

    /// `self` has one key more than `less`, at position `rank`.
    proof fn lemma_inserted(&self, less: &Self, rank: int)
        requires
            ascending(self.prices@),
            ascending(less.prices@),
            less.prices@.len() == less.qtys@.len(),
            0 <= rank <= less.prices@.len(),
            self.prices@ == less.prices@.insert(rank, self.prices@[rank]),
            self.qtys@ == less.qtys@.insert(rank, self.qtys@[rank]),
        ensures
            self.qty(self.prices@[rank] as int) == self.qtys@[rank],
            less.qty(self.prices@[rank] as int) == 0,
            forall|p: int| p != self.prices@[rank] ==> #[trigger] self.qty(p) == less.qty(p),
    {
        lemma_qty_at(self.prices@, self.qtys@, rank);
        let price = self.prices@[rank];
        assert(!less.prices@.contains(price)) by {
            if less.prices@.contains(price) {
                let k = choose|k: int| 0 <= k < less.prices@.len() && less.prices@[k] == price;
                let m = if k < rank { k } else { k + 1 };
                assert(self.prices@[m] == price);
            }
        }
        assert forall|p: int| p != price implies #[trigger] self.qty(p) == less.qty(p) by {
            if exists|i: int| 0 <= i < less.prices@.len() && less.prices@[i] == p {
                let i = choose|i: int| 0 <= i < less.prices@.len() && less.prices@[i] == p;
                assert(less.prices@[i] == p);
                lemma_qty_at(less.prices@, less.qtys@, i);
                let m = if i < rank { i } else { i + 1 };
                assert(self.prices@[m] == p);
                lemma_qty_at(self.prices@, self.qtys@, m);
            } else if exists|m: int| 0 <= m < self.prices@.len() && self.prices@[m] == p {
                let m = choose|m: int| 0 <= m < self.prices@.len() && self.prices@[m] == p;
                assert(self.prices@[m] == p);
                let i = if m < rank { m } else { m - 1 };
                assert(less.prices@[i] == p);
            }
        }
    }

    /// Takes `qty` from `price`; a price whose quantity comes to zero is dropped.
    pub fn sub(&mut self, price: u64, qty: u64)
        requires
            old(self).wf(),
            old(self).qty(price as int) >= qty,
        ensures
            final(self).wf(),
            final(self).qty(price as int) == old(self).qty(price as int) - qty,
            forall|p: int| p != price ==> #[trigger] final(self).qty(p) == old(self).qty(p),
            final(self).total() == old(self).total() - qty,
    {
        let rank: usize = lower_bound(&self.prices, price);
        let ghost before = as_slots(self.qtys@);
        if rank < self.prices.len() && self.prices[rank] == price {
            proof {
                lemma_qty_at(self.prices@, self.qtys@, rank as int);
                assert forall|i: int|
                    rank < i <= before.len() && #[trigger] node_covers(
                        i,
                        rank as int,
                    ) implies node_sum(before, i) >= qty by {
                    lemma_node_bounds(before, i, rank as int);
                }
            }
            let left: u64 = self.qtys[rank] - qty;
            self.qtys[rank] = left;
            self.fenwick.sub(rank, qty);
            proof {
                assert(self.fenwick@ =~= as_slots(self.qtys@));
                self.lemma_same_but(old(self), rank as int);
                lemma_qty_at(self.prices@, self.qtys@, rank as int);
                lemma_sum_point(
                    |p: int| old(self).qty(p),
                    |p: int| self.qty(p),
                    0,
                    price_limit(),
                    price as int,
                );
            }
            if left == 0 {
                let ghost full = *self;
                self.prices.remove(rank);
                self.qtys.remove(rank);
                proof {
                    assert(full.prices@ =~= self.prices@.insert(rank as int, full.prices@[rank as int]));
                    assert(full.qtys@ =~= self.qtys@.insert(rank as int, full.qtys@[rank as int]));
                    full.lemma_inserted(self, rank as int);
                    assert forall|p: int| #[trigger] self.qty(p) == full.qty(p) by {}
                    lemma_sum_same(|p: int| self.qty(p), |p: int| full.qty(p), 0, price_limit());
                }
                self.rebuild_fenwick();
            }
        } else {
            proof {
                if exists|i: int| 0 <= i < self.prices@.len() && self.prices@[i] == price as int {
                    let i = choose|i: int|
                        0 <= i < self.prices@.len() && self.prices@[i] == price as int;
                    assert(self.prices@[i] == price);
                }
            }
        }
    }

    /// Builds the tree anew from the quantities.
    fn rebuild_fenwick(&mut self)
        requires
            old(self).shape(),
            old(self).positive(),
            old(self).total() <= u64::MAX,
        ensures
            final(self).wf(),
            forall|p: int| #[trigger] final(self).qty(p) == old(self).qty(p),
            final(self).total() == old(self).total(),
    {
        proof {
            self.lemma_total();
        }
        self.fenwick = FenwickTree::build(&self.qtys);
        proof {
            assert forall|p: int| #[trigger] self.qty(p) == old(self).qty(p) by {}
            lemma_sum_same(|p: int| self.qty(p), |p: int| old(self).qty(p), 0, price_limit());
        }
    }

    /// Sum of the quantities at `price` and below.
    pub fn sum_at_or_below(&self, price: u64) -> (sum: u64)
        requires
            self.wf(),
        ensures
            sum == range_sum(|p: int| self.qty(p), 0, price + 1),
    {
        let mut n: usize = lower_bound(&self.prices, price);
        if n < self.prices.len() && self.prices[n] == price {
            n = n + 1;
        }
        proof {
            self.lemma_total();
            lemma_rank_sum(self.prices@, self.qtys@, n as int, price + 1);
            lemma_sum_same(
                |p: int| self.qty(p),
                |p: int| qty_in(self.prices@, self.qtys@, p),
                0,
                price + 1,
            );
            lemma_sum_monotone(
                |k: int| as_slots(self.qtys@)[k],
                0,
                0,
                n as int,
                self.qtys@.len() as int,
            );
        }
        if n == 0 {
            return 0;
        }
        self.fenwick.prefix_sum(n - 1)
    }

    /// Sum of the quantities at `price` and above.
    pub fn sum_at_or_above(&self, price: u64) -> (sum: u64)
        requires
            self.wf(),
        ensures
            sum == range_sum(|p: int| self.qty(p), price as int, price_limit()),
    {
        let start: usize = lower_bound(&self.prices, price);
        let n: usize = self.prices.len();
        proof {
            let f = |p: int| self.qty(p);
            self.lemma_total();
            lemma_rank_sum(self.prices@, self.qtys@, start as int, price as int);
            lemma_sum_same(f, |p: int| qty_in(self.prices@, self.qtys@, p), 0, price as int);
            lemma_sum_split(f, 0, price as int, price_limit());
            lemma_sum_nonnegative(f, price as int, price_limit());
            lemma_sum_nonnegative(f, 0, price as int);
        }
        if start >= n {
            return 0;
        }
        let total: u64 = self.fenwick.prefix_sum(n - 1);
        let before: u64 = if start > 0 {
            self.fenwick.prefix_sum(start - 1)
        } else {
            0
        };
        total - before
    }
}

} // verus!
