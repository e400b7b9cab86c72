//! The price levels of one side of the book: a dense window of ticks near the
//! best price, and an ordered map for the prices away from it.
use crate::fenwick::{as_slots, lemma_node_bounds, node_covers, node_sum, slot_sum, FenwickTree};
use crate::occupancy::Occupancy;
use crate::sparse_index::{price_limit, SparseVolumeIndex};
use crate::sparse_levels::SparseLevels;
use crate::sums::{
    lemma_sum_le, lemma_sum_monotone, lemma_sum_nonnegative, lemma_sum_point, lemma_sum_same, lemma_sum_shift,
    lemma_sum_split, lemma_sum_zero, range_sum,
};
use crate::types::{PriceLevel, Side};
use vstd::prelude::*;

verus! {

/// Whether `price` lies in the window of `ticks` ticks from `base`.
pub open spec fn in_window(base: u64, ticks: u32, price: int) -> bool {
    base <= price < base + ticks
}

/// Whether `a` is a better price than `b` for a resting order on `side`.
pub open spec fn better(side: Side, a: u64, b: u64) -> bool {
    match side {
        Side::Bid => a > b,
        Side::Ask => a < b,
    }
}

/// The best of `prices` on `side`.
pub open spec fn best_of(side: Side, prices: Set<u64>) -> Option<u64> {
    if exists|p: u64| prices.contains(p) {
        Some(
            choose|p: u64|
                prices.contains(p) && forall|q: u64| #[trigger]
                    prices.contains(q) ==> !better(side, q, p),
        )
    } else {
        None
    }
}

/// The price that takes over when the best level empties: the best of the prices
/// in the window or, where there is none, the best of all.
pub open spec fn next_best(side: Side, prices: Set<u64>, base: u64, ticks: u32) -> Option<u64> {
    let dense = prices.filter(|p: u64| in_window(base, ticks, p as int));
    match best_of(side, dense) {
        Some(p) => Some(p),
        None => best_of(side, prices),
    }
}

/// A price that no other beats is the best.
pub proof fn lemma_best(side: Side, prices: Set<u64>, p: u64)
    requires
        prices.contains(p),
        forall|q: u64| #[trigger] prices.contains(q) ==> !better(side, q, p),
    ensures
        best_of(side, prices) == Some(p),
{
    let best = choose|p: u64|
        prices.contains(p) && forall|q: u64| #[trigger] prices.contains(q) ==> !better(side, q, p);
    assert(prices.contains(best) && forall|q: u64| #[trigger]
        prices.contains(q) ==> !better(side, q, best));
}

/// There is a best price wherever there is a price.
pub proof fn lemma_best_exists(side: Side, prices: Set<u64>, p: u64)
    requires
        prices.contains(p),
    ensures
        best_of(side, prices) matches Some(best) && prices.contains(best) && forall|q: u64| #[trigger]
            prices.contains(q) ==> !better(side, q, best),
    decreases
            (match side {
                Side::Bid => u64::MAX - p,
                Side::Ask => p as int,
            }),
{
    if exists|q: u64| #[trigger] prices.contains(q) && better(side, q, p) {
        let q = choose|q: u64| #[trigger] prices.contains(q) && better(side, q, p);
        lemma_best_exists(side, prices, q);
    } else {
        lemma_best(side, prices, p);
    }
}

/// The price that takes over is one of the prices, and there is one wherever there
/// are prices.
pub proof fn lemma_next_best(side: Side, prices: Set<u64>, base: u64, ticks: u32)
    ensures
        next_best(side, prices, base, ticks) matches Some(p) ==> prices.contains(p),
        forall|p: u64| #[trigger]
            prices.contains(p) ==> next_best(side, prices, base, ticks) is Some,
{
    let dense = prices.filter(|p: u64| in_window(base, ticks, p as int));
    if exists|p: u64| dense.contains(p) {
        lemma_best_exists(side, dense, choose|p: u64| dense.contains(p));
    } else if exists|p: u64| prices.contains(p) {
        lemma_best_exists(side, prices, choose|p: u64| prices.contains(p));
    }
}

/// Whether a level without orders is the empty level.
pub open spec fn sane(level: PriceLevel) -> bool {
    level.order_count == 0 ==> level == PriceLevel::none()
}

/// The levels of one side.
pub struct Levels {
    dense: Vec<PriceLevel>,
    base: u64,
    ticks: u32,
    sparse: SparseLevels,
    /// Depth of the dense ticks.
    depth: FenwickTree,
    /// The dense ticks that hold orders.
    occupied: Occupancy,
    /// Depth of the sparse prices.
    sparse_depth: SparseVolumeIndex,
}

/// The dense levels hold what their depth index and occupancy bits say.
spec fn dense_agrees(
    dense: Seq<PriceLevel>,
    base: u64,
    depth: FenwickTree,
    occupied: Occupancy,
) -> bool {
    &&& depth.wf()
    &&& depth@.len() == dense.len()
    &&& dense.len() <= occupied.bits() <= dense.len() + 64
    &&& forall|i: int| 0 <= i < dense.len() ==> #[trigger] depth@[i] == dense[i].total_quantity
    &&& forall|i: int|
        #[trigger] occupied.has(i) <==> 0 <= i < dense.len() && dense[i].order_count > 0
    &&& forall|i: int| 0 <= i < dense.len() ==> sane(#[trigger] dense[i])
    &&& forall|i: int|
        0 <= i < dense.len() && base + i > u64::MAX ==> #[trigger] dense[i] == PriceLevel::none()
}

impl Levels {
    /// The level at `price`.
    pub closed spec fn level(&self, price: u64) -> PriceLevel {
        if in_window(self.base, self.ticks, price as int) {
            self.dense@[price - self.base]
        } else if self.sparse@.contains_key(price) {
            self.sparse@[price]
        } else {
            PriceLevel::none()
        }
    }

    /// The quantity at `price`.
    pub open spec fn qty(&self, price: int) -> int {
        if 0 <= price < price_limit() {
            self.level(price as u64).total_quantity as int
        } else {
            0
        }
    }

    /// The quantity at all prices.
    pub open spec fn total(&self) -> int {
        range_sum(|p: int| self.qty(p), 0, price_limit())
    }

    /// The prices at which orders rest.
    pub open spec fn prices(&self) -> Set<u64> {
        Set::new(|p: u64| self.level(p).order_count > 0)
    }

    /// First price of the window.
    pub closed spec fn window_base(&self) -> u64 {
        self.base
    }

    /// Width of the window.
    pub closed spec fn window_ticks(&self) -> u32 {
        self.ticks
    }

    /// The sparse prices with some depth.
    pub closed spec fn sparse_keys(&self) -> Seq<u64> {
        self.sparse_depth.keys()
    }

    /// Whether `price` has an entry away from the window.
    pub closed spec fn sparse_entry(&self, price: u64) -> bool {
        self.sparse@.contains_key(price)
    }

    /// The levels and their indices agree.
    pub closed spec fn wf(&self) -> bool {
        &&& self.dense@.len() == self.ticks
        &&& self.ticks < usize::MAX / 16
        &&& dense_agrees(self.dense@, self.base, self.depth, self.occupied)
        &&& self.sparse.wf()
        &&& forall|p: u64| #[trigger]
            self.sparse@.contains_key(p) ==> !in_window(self.base, self.ticks, p as int)
                && self.sparse@[p].order_count > 0
        &&& self.sparse_depth.wf()
        &&& forall|p: int| #[trigger]
            self.sparse_depth.qty(p) == self.sparse_qty(p)
        &&& self.total() <= u64::MAX
    }

    /// The levels can be read: there is one for each tick of the window, and the others
    /// are away from it. The indices need not agree.
    pub closed spec fn readable(&self) -> bool {
        &&& self.dense@.len() == self.ticks
        &&& self.ticks < usize::MAX / 16
        &&& self.sparse.wf()
        &&& forall|p: u64| #[trigger]
            self.sparse@.contains_key(p) ==> !in_window(self.base, self.ticks, p as int)
    }

    /// Levels that agree with their indices can be read.
    pub proof fn lemma_readable(&self)
        requires
            self.wf(),
        ensures
            self.readable(),
    {
    }

    closed spec fn sparse_qty(&self, p: int) -> int {
        if 0 <= p < price_limit() && self.sparse@.contains_key(p as u64) {
            self.sparse@[p as u64].total_quantity as int
        } else {
            0
        }
    }

    /// A level without orders is empty; a sparse entry is a level with orders away
    /// from the window; sparse keys are distinct prices of such levels.
    pub proof fn lemma_levels(&self)
        requires
            self.wf(),
        ensures
            forall|p: u64| sane(#[trigger] self.level(p)),
            forall|p: u64| #[trigger]
                self.sparse_entry(p) <==> (self.level(p).order_count > 0 && !in_window(
                    self.window_base(),
                    self.window_ticks(),
                    p as int,
                )),
            self.sparse_keys().no_duplicates(),
            forall|i: int|
                0 <= i < self.sparse_keys().len() ==> self.level(
                    #[trigger] self.sparse_keys()[i],
                ).order_count > 0,
            self.total() <= u64::MAX,
            self.window_ticks() < usize::MAX / 16,
    {
        self.sparse_depth.lemma_keys();
        assert forall|i: int| 0 <= i < self.sparse_keys().len() implies self.level(
            #[trigger] self.sparse_keys()[i],
        ).order_count > 0 by {
            let p = self.sparse_depth.keys()[i];
            assert(self.sparse_depth.qty(p as int) > 0);
        }
    }

    /// A window of `ticks` empty ticks from `base`.
    pub fn new(base: u64, ticks: u32) -> (levels: Self)
        requires
            ticks < usize::MAX / 16,
        ensures
            levels.wf(),
            levels.window_base() == base,
            levels.window_ticks() == ticks,
            forall|p: u64| #[trigger] levels.level(p) == PriceLevel::none(),
            levels.sparse_keys().len() == 0,
            levels.total() == 0,
    {
        let size: usize = ticks as usize;
        let mut dense: Vec<PriceLevel> = Vec::with_capacity(size);
        let mut i: usize = 0;
        while i < size
            invariant
                i <= size,
                dense@.len() == i,
                forall|k: int| 0 <= k < i ==> dense@[k] == PriceLevel::none(),
            decreases size - i,
        {
            dense.push(PriceLevel::empty());
            i += 1;
        }
        let levels = Levels {
            dense,
            base,
            ticks,
            sparse: SparseLevels::new(),
            depth: FenwickTree::new(size),
            occupied: Occupancy::new(size),
            sparse_depth: SparseVolumeIndex::new(),
        };
        proof {
            lemma_sum_zero(|p: int| levels.qty(p), 0, price_limit());
        }
        levels
    }

    /// First price of the window.
    #[inline]
    pub fn base_price(&self) -> (base: u64)
        ensures
            base == self.window_base(),
    {
        self.base
    }

    /// Width of the window.
    #[inline]
    pub fn width(&self) -> (ticks: u32)
        ensures
            ticks == self.window_ticks(),
    {
        self.ticks
    }

    /// Position of `price` in the window.
    #[inline]
    pub fn dense_index(&self, price: u64) -> (index: Option<usize>)
        requires
            self.window_ticks() < usize::MAX,
        ensures
            index == (if in_window(self.window_base(), self.window_ticks(), price as int) {
                Some((price - self.window_base()) as usize)
            } else {
                None
            }),
    {
        if price < self.base {
            return None;
        }
        let idx: u64 = price - self.base;
        if idx < self.ticks as u64 {
            Some(idx as usize)
        } else {
            None
        }
    }

    /// The level at `price`.
    #[inline]
    pub fn get(&self, price: u64) -> (level: PriceLevel)
        requires
            self.readable(),
        ensures
            level == self.level(price),
    {
        match self.dense_index(price) {
            Some(i) => self.dense[i],
            None => match self.sparse.get(price) {
                Some(level) => *level,
                None => PriceLevel::empty(),
            },
        }
    }

    /// The level at `price`, by reference, where there is an entry.
    #[inline]
    pub fn entry(&self, price: u64) -> (level: &PriceLevel)
        requires
            self.readable(),
            in_window(self.window_base(), self.window_ticks(), price as int) || self.level(
                price,
            ).order_count > 0,
        ensures
            *level == self.level(price),
    {
        match self.dense_index(price) {
            Some(i) => &self.dense[i],
            None => self.sparse.get(price).unwrap(),
        }
    }

    /// The level at `price`, to be changed; away from the window an empty one is put
    /// there first where there is none. The indices are left as they are.
    pub fn entry_mut(&mut self, price: u64) -> (level: &mut PriceLevel)
        requires
            old(self).readable(),
        ensures
            *level == old(self).level(price),
            final(self).readable(),
            forall|p: u64| #[trigger]
                final(self).sparse_entry(p) == (old(self).sparse_entry(p) || (p == price
                    && !in_window(
                    old(self).window_base(),
                    old(self).window_ticks(),
                    price as int,
                ))),
            final(self).level(price) == *final(level),
            forall|p: u64| p != price ==> #[trigger] final(self).level(p) == old(self).level(p),
            final(self).window_base() == old(self).window_base(),
            final(self).window_ticks() == old(self).window_ticks(),
            *final(level) == *level && (in_window(
                old(self).window_base(),
                old(self).window_ticks(),
                price as int,
            ) || old(self).level(price).order_count > 0) && old(self).wf() ==> final(self).wf(),
    {
        match self.dense_index(price) {
            Some(i) => {
                let level = &mut self.dense[i];
                proof {
                    Self::lemma_same_parts(*old(self));
                    assert(*final(level) == *level ==> after_borrow(*self).dense@ =~= old(self).dense@);
                    assert(*final(level) == *level ==> Self::same_parts(*old(self), after_borrow(*self)));
                }
                level
            },
            None => {
                let level = self.sparse.entry_mut(price);
                proof {
                    Self::lemma_same_parts(*old(self));
                    assert(*final(level) == *level && old(self).level(price).order_count > 0
                        ==> after_borrow(*self).sparse@ =~= old(self).sparse@);
                    assert(*final(level) == *level && old(self).level(price).order_count > 0
                        ==> Self::same_parts(*old(self), after_borrow(*self)));
                }
                level
            },
        }
    }

    /// The levels have the same parts.
    closed spec fn same_parts(a: Levels, b: Levels) -> bool {
        &&& b.dense@ == a.dense@
        &&& b.base == a.base
        &&& b.ticks == a.ticks
        &&& b.sparse@ == a.sparse@
        &&& b.sparse.wf()
        &&& b.depth == a.depth
        &&& b.occupied == a.occupied
        &&& b.sparse_depth == a.sparse_depth
    }

    /// Levels with the same parts are as sound.
    proof fn lemma_same_parts(a: Levels)
        ensures
            forall|b: Levels| #[trigger] Self::same_parts(a, b) && a.wf() ==> b.wf(),
    {
        assert forall|b: Levels| #[trigger] Self::same_parts(a, b) && a.wf() implies b.wf() by {
            lemma_sum_same(|p: int| b.qty(p), |p: int| a.qty(p), 0, price_limit());
            assert forall|p: int| #[trigger] b.sparse_depth.qty(p) == b.sparse_qty(p) by {
                assert(a.sparse_depth.qty(p) == a.sparse_qty(p));
            }
        }
    }

    /// Whether `price` has an entry away from the window.
    pub fn is_in_sparse(&self, price: u64) -> (found: bool)
        requires
            self.readable(),
        ensures
            found == self.sparse_entry(price),
    {
        self.sparse.get(price).is_some()
    }

    /// First price past the window, or past all prices.
    closed spec fn window_end(&self) -> int {
        if self.base + self.ticks <= price_limit() {
            self.base + self.ticks
        } else {
            price_limit()
        }
    }

    /// The depth of prices in the window is that of their slots.
    proof fn lemma_dense_sum(&self, a: int, b: int)
        requires
            self.wf(),
            self.base <= a <= b <= self.window_end(),
        ensures
            range_sum(|p: int| self.qty(p), a, b) == slot_sum(
                self.depth@,
                a - self.base,
                b - self.base,
            ),
            range_sum(|p: int| self.sparse_depth.qty(p), a, b) == 0,
    {
        let f = |p: int| self.qty(p);
        let g = |i: int| self.depth@[i];
        assert forall|p: int| a <= p < b implies #[trigger] f(p) == g(p + (0 - self.base)) by {
            assert(self.depth@[p - self.base] == self.dense@[p - self.base].total_quantity);
        }
        lemma_sum_shift(f, g, a, b, 0 - self.base);
        lemma_sum_zero(|p: int| self.sparse_depth.qty(p), a, b);
    }

    /// The depth of prices away from the window is that of the sparse index.
    proof fn lemma_sparse_sum(&self, a: int, b: int)
        requires
            self.wf(),
            0 <= a <= b <= price_limit(),
            b <= self.base || self.window_end() <= a,
        ensures
            range_sum(|p: int| self.qty(p), a, b) == range_sum(
                |p: int| self.sparse_depth.qty(p),
                a,
                b,
            ),
    {
        let f = |p: int| self.qty(p);
        let g = |p: int| self.sparse_depth.qty(p);
        assert forall|p: int| a <= p < b implies #[trigger] f(p) == g(p) by {
            assert(self.sparse_depth.qty(p) == self.sparse_qty(p));
        }
        lemma_sum_same(f, g, a, b);
    }

    /// All slots of the window together hold what its prices hold.
    proof fn lemma_slots_total(&self)
        requires
            self.wf(),
        ensures
            slot_sum(self.depth@, 0, self.ticks as int) == range_sum(
                |p: int| self.qty(p),
                self.base as int,
                self.window_end(),
            ),
            forall|i: int| 0 <= i < self.depth@.len() ==> #[trigger] self.depth@[i] >= 0,
    {
        let g = |i: int| self.depth@[i];
        let width = self.window_end() - self.base;
        lemma_sum_split(g, 0, width, self.ticks as int);
        assert forall|i: int| width <= i < self.ticks implies #[trigger] g(i) == 0 by {
            assert(self.dense@[i] == PriceLevel::none());
        }
        lemma_sum_zero(g, width, self.ticks as int);
        self.lemma_dense_sum(self.base as int, self.window_end());
    }

    /// The depth of the side is that of the window and that of the sparse index.
    proof fn lemma_total(&self)
        requires
            self.wf(),
        ensures
            self.total() == slot_sum(self.depth@, 0, self.ticks as int) + self.sparse_depth.total(),
    {
        let f = |p: int| self.qty(p);
        let g = |p: int| self.sparse_depth.qty(p);
        let base = self.base as int;
        let end = self.window_end();
        lemma_sum_split(f, 0, base, price_limit());
        lemma_sum_split(f, base, end, price_limit());
        lemma_sum_split(g, 0, base, price_limit());
        lemma_sum_split(g, base, end, price_limit());
        self.lemma_sparse_sum(0, base);
        self.lemma_sparse_sum(end, price_limit());
        self.lemma_dense_sum(base, end);
        self.lemma_slots_total();
    }

    /// Puts `level` at `price`, and its quantity into the depth index.
    pub fn store(&mut self, price: u64, level: PriceLevel)
        requires
            old(self).wf(),
            sane(level),
            old(self).total() - old(self).level(price).total_quantity + level.total_quantity
                <= u64::MAX,
            old(self).sparse_keys().len() + 1 < usize::MAX / 16,
        ensures
            final(self).wf(),
            final(self).level(price) == level,
            forall|p: u64| p != price ==> #[trigger] final(self).level(p) == old(self).level(p),
            final(self).window_base() == old(self).window_base(),
            final(self).window_ticks() == old(self).window_ticks(),
            final(self).total() == old(self).total() - old(self).level(price).total_quantity
                + level.total_quantity,
    {
        let before: u64 = self.get(price).total_quantity;
        let ghost at = price - self.base;
        proof {
            self.lemma_total();
            self.lemma_slots_total();
            let g = |p: int| self.sparse_depth.qty(p);
            self.sparse_depth.lemma_qty_nonnegative();
            lemma_sum_nonnegative(g, 0, price_limit());
            lemma_sum_nonnegative(|i: int| self.depth@[i], 0, self.ticks as int);
        }
        match self.dense_index(price) {
            Some(i) => {
                proof {
                    let values = self.depth@;
                    assert(values[i as int] == before);
                    assert forall|k: int|
                        i < k <= values.len() && #[trigger] node_covers(k, i as int) implies before
                        <= node_sum(values, k) <= slot_sum(values, 0, values.len() as int) by {
                        lemma_node_bounds(values, k, i as int);
                    }
                }
                self.dense[i] = level;
                if level.total_quantity >= before {
                    self.depth.add(i, level.total_quantity - before);
                } else {
                    self.depth.sub(i, before - level.total_quantity);
                }
                if level.order_count > 0 {
                    self.occupied.set(i);
                } else {
                    self.occupied.clear(i);
                }
                proof {
                    assert(dense_agrees(self.dense@, self.base, self.depth, self.occupied));
                }
            },
            None => {
                if level.order_count > 0 {
                    self.sparse.insert(price, level);
                } else {
                    self.sparse.remove(price);
                }
                proof {
                    assert(self.sparse_depth.qty(price as int) == before);
                }
                if level.total_quantity >= before {
                    self.sparse_depth.add(price, level.total_quantity - before);
                } else {
                    self.sparse_depth.sub(price, before - level.total_quantity);
                }
                proof {
                    assert forall|p: int| #[trigger] self.sparse_depth.qty(p) == self.sparse_qty(p) by {
                        assert(old(self).sparse_depth.qty(p) == old(self).sparse_qty(p));
                    }
                }
            },
        }
        proof {
            assert forall|p: u64| p != price implies #[trigger] self.level(p) == old(self).level(p) by {}
            lemma_sum_point(
                |p: int| old(self).qty(p),
                |p: int| self.qty(p),
                0,
                price_limit(),
                price as int,
            );
        }
    }

    /// The price that takes over when the best level empties.
    pub fn best_price(&self, side: Side) -> (best: Option<u64>)
        requires
            self.wf(),
        ensures
            best == next_best(side, self.prices(), self.window_base(), self.window_ticks()),
    {
        let tick: Option<usize> = match side {
            Side::Bid => self.occupied.highest(),
            Side::Ask => self.occupied.lowest(),
        };
        let ghost dense = self.prices().filter(|p: u64| in_window(self.base, self.ticks, p as int));
        proof {
            assert forall|p: u64| #[trigger] dense.contains(p) implies self.occupied.has(
                p - self.base,
            ) by {}
        }
        match tick {
            Some(i) => {
                assert(self.occupied.has(i as int));
                let price: u64 = self.base + i as u64;
                proof {
                    assert(dense.contains(price));
                    lemma_best(side, dense, price);
                }
                Some(price)
            },
            None => {
                let best: Option<u64> = match side {
                    Side::Bid => self.sparse.last_price(),
                    Side::Ask => self.sparse.first_price(),
                };
                proof {
                    assert(best_of(side, dense) is None);
                    assert forall|p: u64| #[trigger] self.prices().contains(p) implies self.sparse@.contains_key(
                        p,
                    ) by {
                        assert(!dense.contains(p));
                    }
                    match best {
                        Some(price) => {
                            assert(self.prices().contains(price));
                            lemma_best(side, self.prices(), price);
                        },
                        None => {
                            assert(forall|p: u64| !self.sparse@.contains_key(p));
                        },
                    }
                }
                best
            },
        }
    }

    /// Quantity at `price` and below.
    pub fn at_or_below(&self, price: u64) -> (sum: u64)
        requires
            self.wf(),
        ensures
            sum == range_sum(|p: int| self.qty(p), 0, price + 1),
    {
        let ghost f = |p: int| self.qty(p);
        let ghost g = |p: int| self.sparse_depth.qty(p);
        let ghost base = self.base as int;
        let ghost end = self.window_end();
        proof {
            lemma_sum_monotone(f, 0, 0, price + 1, price_limit());
            lemma_sum_nonnegative(f, 0, base);
            self.sparse_depth.lemma_qty_nonnegative();
        }
        let window_end: u64 = self.base.saturating_add(self.ticks as u64);
        match self.dense_index(price) {
            Some(i) => {
                proof {
                    lemma_sum_split(f, 0, base, price + 1);
                    self.lemma_sparse_sum(0, base);
                    self.lemma_dense_sum(base, price + 1);
                    if base == 0 {
                        self.lemma_dense_sum(0, 1);
                    }
                    lemma_sum_nonnegative(f, base, price + 1);
                }
                let dense: u64 = self.depth.prefix_sum_le(i);
                let sparse: u64 = self.sparse_depth.sum_at_or_below(self.base.saturating_sub(1));
                dense + sparse
            },
            None => {
                if price >= window_end {
                    proof {
                        lemma_sum_split(f, 0, base, price + 1);
                        lemma_sum_split(f, base, end, price + 1);
                        lemma_sum_split(g, 0, base, price + 1);
                        lemma_sum_split(g, base, end, price + 1);
                        self.lemma_sparse_sum(0, base);
                        self.lemma_sparse_sum(end, price + 1);
                        self.lemma_dense_sum(base, end);
                        lemma_sum_nonnegative(f, base, end);
                        lemma_sum_nonnegative(f, end, price + 1);
                    }
                    let dense_total: u64 = if self.ticks > 0 {
                        self.depth.prefix_sum(self.ticks as usize - 1)
                    } else {
                        0
                    };
                    dense_total + self.sparse_depth.sum_at_or_below(price)
                } else {
                    proof {
                        self.lemma_sparse_sum(0, price + 1);
                    }
                    self.sparse_depth.sum_at_or_below(price)
                }
            },
        }
    }

    /// Quantity at `price` and above.
    pub fn at_or_above(&self, price: u64) -> (sum: u64)
        requires
            self.wf(),
        ensures
            sum == range_sum(|p: int| self.qty(p), price as int, price_limit()),
    {
        let ghost f = |p: int| self.qty(p);
        let ghost g = |p: int| self.sparse_depth.qty(p);
        let ghost base = self.base as int;
        let ghost end = self.window_end();
        proof {
            lemma_sum_monotone(f, 0, price as int, price_limit(), price_limit());
            lemma_sum_monotone(f, 0, base, end, price_limit());
            self.lemma_slots_total();
            self.sparse_depth.lemma_qty_nonnegative();
            lemma_sum_nonnegative(f, end, price_limit());
        }
        let window_end: u64 = self.base.saturating_add(self.ticks as u64);
        match self.dense_index(price) {
            Some(i) => {
                proof {
                    lemma_sum_split(f, price as int, end, price_limit());
                    self.lemma_sparse_sum(end, price_limit());
                    self.lemma_dense_sum(base, price as int);
                    lemma_sum_split(f, base, price as int, end);
                    lemma_sum_split(|k: int| self.depth@[k], 0, i as int, self.ticks as int);
                    lemma_sum_nonnegative(|k: int| self.depth@[k], i as int, self.ticks as int);
                    lemma_sum_nonnegative(f, price as int, end);
                    if window_end < end {
                        self.lemma_dense_sum(window_end as int, end);
                        lemma_sum_split(g, window_end as int, end, price_limit());
                    }
                }
                let dense: u64 = self.depth.suffix_sum_ge(i);
                let sparse: u64 = self.sparse_depth.sum_at_or_above(window_end);
                dense + sparse
            },
            None => {
                if price < self.base {
                    proof {
                        lemma_sum_split(f, price as int, base, price_limit());
                        lemma_sum_split(f, base, end, price_limit());
                        lemma_sum_split(g, price as int, base, price_limit());
                        lemma_sum_split(g, base, end, price_limit());
                        self.lemma_sparse_sum(price as int, base);
                        self.lemma_sparse_sum(end, price_limit());
                        self.lemma_dense_sum(base, end);
                        lemma_sum_nonnegative(f, price as int, base);
                        lemma_sum_nonnegative(f, base, end);
                    }
                    let dense_total: u64 = if self.ticks > 0 {
                        self.depth.prefix_sum(self.ticks as usize - 1)
                    } else {
                        0
                    };
                    dense_total + self.sparse_depth.sum_at_or_above(price)
                } else {
                    proof {
                        self.lemma_sparse_sum(price as int, price_limit());
                    }
                    self.sparse_depth.sum_at_or_above(price)
                }
            },
        }
    }

    /// Fewer prices hold orders than a depth index can have keys.
    pub open spec fn few_prices(&self) -> bool {
        forall|s: Seq<u64>|
            #[trigger] s.no_duplicates() && (forall|i: int|
                0 <= i < s.len() ==> self.level(#[trigger] s[i]).order_count > 0) ==> s.len() + 1
                < usize::MAX / 16
    }

    /// Moves the window to `new_base`: all dense levels go to the sparse map, the
    /// sparse levels that the new window covers come back, and the indices are
    /// built anew.
    pub fn recenter(&mut self, new_base: u64)
        requires
            old(self).wf(),
            old(self).few_prices(),
        ensures
            final(self).wf(),
            final(self).window_base() == new_base,
            final(self).window_ticks() == old(self).window_ticks(),
            forall|p: u64| #[trigger] final(self).level(p) == old(self).level(p),
    {
        let ghost first = *self;
        self.evict_dense();
        self.base = new_base;
        self.absorb_sparse(Ghost(first));
        self.rebuild_indices(Ghost(first));
    }

    /// The sparse map holds the levels of `all` that lie outside `lo..hi`.
    closed spec fn sparse_but(&self, all: Levels, lo: int, hi: int) -> bool {
        &&& self.sparse.wf()
        &&& forall|p: u64| #[trigger]
            self.sparse@.contains_key(p) <==> (all.level(p).order_count > 0 && !(lo <= p < hi))
        &&& forall|p: u64| #[trigger]
            self.sparse@.contains_key(p) ==> self.sparse@[p] == all.level(p)
    }

    /// Moves every dense level that holds orders to the sparse map.
    fn evict_dense(&mut self)
        requires
            old(self).wf(),
        ensures
            final(self).ticks == old(self).ticks,
            final(self).dense@.len() == old(self).ticks,
            forall|i: int| 0 <= i < final(self).dense@.len() ==> final(self).dense@[i]
                == PriceLevel::none(),
            final(self).sparse_but(*old(self), 0, 0),
    {
        let count: usize = self.ticks as usize;
        let mut i: usize = 0;
        while i < count
            invariant
                i <= count == old(self).ticks,
                old(self).wf(),
                self.ticks == old(self).ticks,
                self.base == old(self).base,
                self.dense@.len() == count,
                forall|k: int| 0 <= k < i ==> self.dense@[k] == PriceLevel::none(),
                forall|k: int| i <= k < count ==> self.dense@[k] == old(self).dense@[k],
                self.sparse_but(*old(self), self.base + i, self.base + count),
            decreases count - i,
        {
            let moved: PriceLevel = self.dense[i];
            if !moved.is_empty() {
                let price: u64 = self.base + i as u64;
                self.sparse.insert(price, moved);
            } else {
                proof {
                    assert(sane(old(self).dense@[i as int]));
                }
            }
            self.dense[i] = PriceLevel::empty();
            i += 1;
        }
    }

    /// Moves the sparse levels that the window covers into it.
    fn absorb_sparse(&mut self, Ghost(all): Ghost<Levels>)
        requires
            all.wf(),
            old(self).dense@.len() == old(self).ticks < usize::MAX / 16,
            forall|i: int| 0 <= i < old(self).dense@.len() ==> old(self).dense@[i]
                == PriceLevel::none(),
            old(self).sparse_but(all, 0, 0),
        ensures
            final(self).ticks == old(self).ticks,
            final(self).base == old(self).base,
            final(self).dense@.len() == old(self).ticks,
            forall|i: int|
                0 <= i < final(self).dense@.len() ==> #[trigger] final(self).dense@[i] == (if final(self).base + i <= u64::MAX {
                    all.level((final(self).base + i) as u64)
                } else {
                    PriceLevel::none()
                }),
            final(self).sparse_but(all, old(self).base as int, old(self).base + old(self).ticks),
    {
        let count: usize = self.ticks as usize;
        proof {
            all.lemma_levels();
        }
        let mut i: usize = 0;
        while i < count
            invariant
                i <= count == old(self).ticks,
                all.wf(),
                forall|p: u64| sane(#[trigger] all.level(p)),
                self.ticks == old(self).ticks,
                self.base == old(self).base,
                self.dense@.len() == count,
                forall|k: int|
                    0 <= k < i ==> #[trigger] self.dense@[k] == (if self.base + k <= u64::MAX {
                        all.level((self.base + k) as u64)
                    } else {
                        PriceLevel::none()
                    }),
                forall|k: int| i <= k < count ==> self.dense@[k] == PriceLevel::none(),
                self.sparse_but(all, self.base as int, self.base + i),
            decreases count - i,
        {
            match self.base.checked_add(i as u64) {
                Some(price) => {
                    let found: Option<PriceLevel> = match self.sparse.get(price) {
                        Some(level) => Some(*level),
                        None => None,
                    };
                    match found {
                        Some(level) => {
                            self.sparse.remove(price);
                            self.dense[i] = level;
                        },
                        None => {
                            assert(sane(all.level(price)));
                        },
                    }
                },
                None => {},
            }
            i += 1;
        }
    }

    /// Builds the bitset and the depth indices from the levels.
    fn rebuild_indices(&mut self, Ghost(all): Ghost<Levels>)
        requires
            all.wf(),
            all.few_prices(),
            old(self).dense@.len() == old(self).ticks < usize::MAX / 16,
            forall|i: int|
                0 <= i < old(self).dense@.len() ==> #[trigger] old(self).dense@[i] == (if old(self).base + i <= u64::MAX {
                    all.level((old(self).base + i) as u64)
                } else {
                    PriceLevel::none()
                }),
            old(self).sparse_but(all, old(self).base as int, old(self).base + old(self).ticks),
        ensures
            final(self).wf(),
            final(self).base == old(self).base,
            final(self).ticks == old(self).ticks,
            forall|p: u64| #[trigger] final(self).level(p) == all.level(p),
    {
        let count: usize = self.ticks as usize;
        proof {
            all.lemma_levels();
            assert forall|p: u64| #[trigger] self.level(p) == all.level(p) by {
                assert(sane(all.level(p)));
            }
        }
        let mut occupied: Occupancy = Occupancy::new(count);
        let mut totals: Vec<u64> = Vec::with_capacity(count);
        let mut i: usize = 0;
        while i < count
            invariant
                i <= count == self.ticks,
                self.dense@.len() == count,
                count <= occupied.bits() <= count + 64,
                totals@.len() == i,
                forall|k: int| 0 <= k < i ==> totals@[k] == self.dense@[k].total_quantity,
                forall|k: int| #[trigger]
                    occupied.has(k) <==> 0 <= k < i && self.dense@[k].order_count > 0,
            decreases count - i,
        {
            if !self.dense[i].is_empty() {
                occupied.set(i);
            }
            totals.push(self.dense[i].total_quantity);
            i += 1;
        }
        proof {
            let f = |p: int| all.qty(p);
            let g = |k: int| as_slots(totals@)[k];
            let end = self.window_end();
            let width = end - self.base;
            assert forall|k: int| 0 <= k < width implies #[trigger] g(k) == f(k + self.base) by {
                assert(self.dense@[k] == all.level((self.base + k) as u64));
            }
            lemma_sum_shift(g, f, 0, width, self.base as int);
            assert forall|k: int| width <= k < count implies #[trigger] g(k) == 0 by {
                assert(self.dense@[k] == PriceLevel::none());
            }
            lemma_sum_zero(g, width, count as int);
            lemma_sum_split(g, 0, width, count as int);
            lemma_sum_monotone(f, 0, self.base as int, end, price_limit());
        }
        self.depth = FenwickTree::build(&totals);
        self.occupied = occupied;
        proof {
            assert forall|k: int| 0 <= k < self.dense@.len() implies sane(#[trigger] self.dense@[k]) by {
                if self.base + k <= u64::MAX {
                    assert(sane(all.level((self.base + k) as u64)));
                }
            }
            assert(dense_agrees(self.dense@, self.base, self.depth, self.occupied));
        }
        self.rebuild_sparse_depth(Ghost(all));
        proof {
            assert forall|p: u64| #[trigger] self.level(p) == all.level(p) by {
                assert(sane(all.level(p)));
            }
            lemma_sum_same(|p: int| self.qty(p), |p: int| all.qty(p), 0, price_limit());
        }
    }

    /// Builds the depth index of the sparse levels.
    fn rebuild_sparse_depth(&mut self, Ghost(all): Ghost<Levels>)
        requires
            all.wf(),
            all.few_prices(),
            old(self).sparse_but(all, old(self).base as int, old(self).base + old(self).ticks),
        ensures
            final(self).dense == old(self).dense,
            final(self).base == old(self).base,
            final(self).ticks == old(self).ticks,
            final(self).sparse == old(self).sparse,
            final(self).depth == old(self).depth,
            final(self).occupied == old(self).occupied,
            final(self).sparse_depth.wf(),
            forall|p: int| #[trigger] final(self).sparse_depth.qty(p) == final(self).sparse_qty(p),
    {
        let mut index: SparseVolumeIndex = SparseVolumeIndex::new();
        let count: usize = self.sparse.len();
        let mut i: usize = 0;
        proof {
            self.sparse.lemma_positions();
        }
        while i < count
            invariant
                i <= count == self.sparse.count(),
                *self == *old(self),
                all.wf(),
                all.few_prices(),
                self.sparse_but(all, self.base as int, self.base + self.ticks),
                index.wf(),
                forall|a: int, b: int|
                    0 <= a < b < count ==> self.sparse.price_at(a) < self.sparse.price_at(b),
                forall|p: int| #[trigger]
                    index.qty(p) == (if self.listed_before(i as int, p) {
                        self.sparse_qty(p)
                    } else {
                        0
                    }),
            decreases count - i,
        {
            let (price, level) = self.sparse.at(i);
            proof {
                let f = |p: int| index.qty(p);
                let g = |p: int|
                    if p == price {
                        level.total_quantity as int
                    } else {
                        index.qty(p)
                    };
                let h = |p: int| all.qty(p);
                assert(!self.listed_before(i as int, price as int));
                assert forall|p: int| 0 <= p < price_limit() implies #[trigger] g(p) <= h(p) by {}
                lemma_sum_point(f, g, 0, price_limit(), price as int);
                lemma_sum_le(g, h, 0, price_limit());
                index.lemma_keys();
                let keys = index.keys();
                assert forall|k: int| 0 <= k < keys.len() implies all.level(
                    #[trigger] keys[k],
                ).order_count > 0 by {
                    assert(index.qty(keys[k] as int) > 0);
                }
                assert(keys.no_duplicates());
            }
            let ghost before = index;
            index.add(price, level.total_quantity);
            proof {
                assert forall|p: int| #[trigger] index.qty(p) == (if self.listed_before(i + 1, p) {
                    self.sparse_qty(p)
                } else {
                    0
                }) by {
                    assert(before.qty(p) == (if self.listed_before(i as int, p) {
                        self.sparse_qty(p)
                    } else {
                        0
                    }));
                    if p == price {
                        assert(self.sparse.price_at(i as int) == p);
                    } else if self.listed_before(i + 1, p) {
                        let a = choose|a: int| 0 <= a < i + 1 && self.sparse.price_at(a) == p;
                        assert(0 <= a < i && self.sparse.price_at(a) == p);
                    }
                }
            }
            i += 1;
        }
        self.sparse_depth = index;
        proof {
            self.sparse.lemma_positions();
            assert forall|p: int| #[trigger] self.sparse_depth.qty(p) == self.sparse_qty(p) by {
                if 0 <= p < price_limit() && self.sparse@.contains_key(p as u64) {
                    let a = choose|a: int|
                        0 <= a < self.sparse.count() && self.sparse.price_at(a) == p as u64;
                    assert(self.sparse.price_at(a) == p);
                }
            }
        }
    }

    /// Whether one of the first `n` sparse prices is `p`.
    closed spec fn listed_before(&self, n: int, p: int) -> bool {
        exists|a: int| 0 <= a < n && self.sparse.price_at(a) == p
    }
}

} // verus!
