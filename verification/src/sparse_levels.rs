//! Price levels away from the dense window, ordered by price.
use crate::sorted::{ascending, lower_bound};
use crate::types::PriceLevel;
use vstd::prelude::*;

verus! {

/// Ordered map from price to level.
pub struct SparseLevels {
    prices: Vec<u64>,
    levels: Vec<PriceLevel>,
}

/// The level that `levels` holds for `price`, where `prices` lists the prices.
spec fn entry_of(prices: Seq<u64>, levels: Seq<PriceLevel>, price: u64) -> PriceLevel {
    levels[choose|i: int| 0 <= i < prices.len() && prices[i] == price]
}

impl SparseLevels {
    /// The levels by price.
    pub closed spec fn view(&self) -> Map<u64, PriceLevel> {
        Map::new(
            |price: u64| self.prices@.contains(price),
            |price: u64| entry_of(self.prices@, self.levels@, price),
        )
    }

    /// The prices rise and each has a level.
    pub closed spec fn wf(&self) -> bool {
        &&& ascending(self.prices@)
        &&& self.prices@.len() == self.levels@.len()
    }

    proof fn lemma_entry(&self, i: int)
        requires
            self.wf(),
            0 <= i < self.prices@.len(),
        ensures
            self@.contains_key(self.prices@[i]),
            self@[self.prices@[i]] == self.levels@[i],
    {
        let price = self.prices@[i];
        let k = choose|k: int| 0 <= k < self.prices@.len() && self.prices@[k] == price;
        assert(0 <= k < self.prices@.len() && self.prices@[k] == price);
        assert(k == i);
    }

    /// No levels.
    pub fn new() -> (map: Self)
        ensures
            map.wf(),
            map@ == Map::<u64, PriceLevel>::empty(),
    {
        let map = SparseLevels { prices: Vec::new(), levels: Vec::new() };
        assert(map@ =~= Map::<u64, PriceLevel>::empty());
        map
    }

    /// Number of levels.
    pub fn len(&self) -> (count: usize)
        requires
            self.wf(),
        ensures
            count == 0 ==> self@ == Map::<u64, PriceLevel>::empty(),
            self.count() == count,
    {
        assert(self.prices@.len() == 0 ==> self@ =~= Map::<u64, PriceLevel>::empty());
        self.prices.len()
    }

    /// Number of levels.
    pub closed spec fn count(&self) -> nat {
        self.prices@.len()
    }

    /// The price of the level at position `i` in price order.
    pub closed spec fn price_at(&self, i: int) -> u64 {
        self.prices@[i]
    }

    /// Positions and prices correspond, in rising order.
    pub proof fn lemma_positions(&self)
        requires
            self.wf(),
        ensures
            forall|i: int, j: int| 0 <= i < j < self.count() ==> self.price_at(i) < self.price_at(j),
            forall|i: int| 0 <= i < self.count() ==> self@.contains_key(#[trigger] self.price_at(i)),
            forall|price: u64| #[trigger]
                self@.contains_key(price) ==> exists|i: int|
                    0 <= i < self.count() && self.price_at(i) == price,
    {
        assert forall|i: int| 0 <= i < self.count() implies self@.contains_key(
            #[trigger] self.price_at(i),
        ) by {
            self.lemma_entry(i);
        }
        assert forall|price: u64| #[trigger] self@.contains_key(price) implies exists|i: int|
            0 <= i < self.count() && self.price_at(i) == price by {
            let i = choose|i: int| 0 <= i < self.prices@.len() && self.prices@[i] == price;
            assert(self.price_at(i) == price);
        }
    }

    /// The price and the level at position `i`.
    pub fn at(&self, i: usize) -> (entry: (u64, PriceLevel))
        requires
            self.wf(),
            i < self.count(),
        ensures
            entry.0 == self.price_at(i as int),
            self@.contains_key(entry.0),
            self@[entry.0] == entry.1,
    {
        proof {
            self.lemma_entry(i as int);
        }
        (self.prices[i], self.levels[i])
    }

    /// The level at `price`.
    pub fn get(&self, price: u64) -> (level: Option<&PriceLevel>)
        requires
            self.wf(),
        ensures
            level == (if self@.contains_key(price) {
                Some(&self@[price])
            } else {
                None
            }),
    {
        let rank: usize = lower_bound(&self.prices, price);
        if rank < self.prices.len() && self.prices[rank] == price {
            proof {
                self.lemma_entry(rank as int);
            }
            Some(&self.levels[rank])
        } else {
            None
        }
    }

    /// Puts `level` at `price`.
    pub fn insert(&mut self, price: u64, level: PriceLevel)
        requires
            old(self).wf(),
        ensures
            final(self).wf(),
            final(self)@ == old(self)@.insert(price, level),
            !old(self)@.contains_key(price) ==> final(self).count() == old(self).count() + 1,
            old(self)@.contains_key(price) ==> final(self).count() == old(self).count(),
    {
        let rank: usize = lower_bound(&self.prices, price);
        if rank < self.prices.len() && self.prices[rank] == price {
            self.levels[rank] = level;
            proof {
                old(self).lemma_entry(rank as int);
                assert forall|p: u64| #[trigger] self@.contains_key(p) && p != price implies self@[p]
                    == old(self)@[p] by {
                    let k = choose|k: int| 0 <= k < self.prices@.len() && self.prices@[k] == p;
                    assert(0 <= k < self.prices@.len() && self.prices@[k] == p);
                    self.lemma_entry(k);
                    old(self).lemma_entry(k);
                }
                self.lemma_entry(rank as int);
                assert(self@ =~= old(self)@.insert(price, level));
            }
        } else {
            self.prices.insert(rank, price);
            self.levels.insert(rank, level);
            proof {
                assert(self.prices@[rank as int] == price);
                self.lemma_entry(rank as int);
                assert(!old(self)@.contains_key(price));
                assert forall|p: u64| p != price implies (#[trigger] self@.contains_key(p)
                    <==> old(self)@.contains_key(p)) && (old(self)@.contains_key(p) ==> self@[p]
                    == old(self)@[p]) by {
                    if old(self)@.contains_key(p) {
                        let k = choose|k: int|
                            0 <= k < old(self).prices@.len() && old(self).prices@[k] == p;
                        assert(0 <= k < old(self).prices@.len() && old(self).prices@[k] == p);
                        old(self).lemma_entry(k);
                        let m = if k < rank { k } else { k + 1 };
                        assert(self.prices@[m] == p);
                        self.lemma_entry(m);
                    } else if self@.contains_key(p) {
                        let m = choose|m: int| 0 <= m < self.prices@.len() && self.prices@[m] == p;
                        assert(0 <= m < self.prices@.len() && self.prices@[m] == p);
                        let k = if m < rank { m } else { m - 1 };
                        assert(old(self).prices@[k] == p);
                    }
                }
                assert(self@ =~= old(self)@.insert(price, level));
            }
        }
    }

    /// The level at `price`, to be changed; an empty one is put there first where
    /// there is none.
    pub fn entry_mut(&mut self, price: u64) -> (level: &mut PriceLevel)
        requires
            old(self).wf(),
        ensures
            *level == (if old(self)@.contains_key(price) {
                old(self)@[price]
            } else {
                PriceLevel::none()
            }),
            final(self).wf(),
            final(self)@ == old(self)@.insert(price, *final(level)),
    {
        if self.get(price).is_none() {
            self.insert(price, PriceLevel::empty());
        }
        let rank: usize = lower_bound(&self.prices, price);
        let ghost there = *self;
        proof {
            self.lemma_positions();
            assert(self@.contains_key(price));
            let i = choose|i: int| 0 <= i < self.count() && self.price_at(i) == price;
            assert(self.prices@[i] == price);
            self.lemma_entry(rank as int);
            assert forall|other: SparseLevels|
                other.prices@ == there.prices@ && other.levels@ == there.levels@.update(
                    rank as int,
                    other.levels@[rank as int],
                ) implies #[trigger] other.view() == there@.insert(price, other.levels@[rank as int]) by {
                assert(other.wf());
                assert forall|p: u64| #[trigger] other@.contains_key(p) implies other@[p]
                    == there@.insert(price, other.levels@[rank as int])[p] by {
                    let k = choose|k: int| 0 <= k < other.prices@.len() && other.prices@[k] == p;
                    assert(0 <= k < other.prices@.len() && other.prices@[k] == p);
                    other.lemma_entry(k);
                    there.lemma_entry(k);
                }
                assert(other@ =~= there@.insert(price, other.levels@[rank as int]));
            }
        }
        let level = &mut self.levels[rank];
        proof {
            assert(after_borrow(*self).view() == there@.insert(price, *final(level)));
            assert(there@.insert(price, *final(level)) =~= old(self)@.insert(price, *final(level)));
        }
        level
    }

    /// Takes the level at `price` out, if there is one.
    pub fn remove(&mut self, price: u64)
        requires
            old(self).wf(),
        ensures
            final(self).wf(),
            final(self)@ == old(self)@.remove(price),
    {
        let rank: usize = lower_bound(&self.prices, price);
        if rank < self.prices.len() && self.prices[rank] == price {
            self.prices.remove(rank);
            self.levels.remove(rank);
            proof {
                assert(!self.prices@.contains(price)) by {
                    if self.prices@.contains(price) {
                        let m = choose|m: int| 0 <= m < self.prices@.len() && self.prices@[m] == price;
                        let k = if m < rank { m } else { m + 1 };
                        assert(old(self).prices@[k] == price);
                        assert(old(self).prices@[rank as int] == price);
                    }
                }
                assert forall|p: u64| p != price implies (#[trigger] self@.contains_key(p)
                    <==> old(self)@.contains_key(p)) && (old(self)@.contains_key(p) ==> self@[p]
                    == old(self)@[p]) by {
                    if old(self)@.contains_key(p) {
                        let k = choose|k: int|
                            0 <= k < old(self).prices@.len() && old(self).prices@[k] == p;
                        assert(0 <= k < old(self).prices@.len() && old(self).prices@[k] == p);
                        old(self).lemma_entry(k);
                        let m = if k < rank { k } else { k - 1 };
                        assert(self.prices@[m] == p);
                        self.lemma_entry(m);
                    } else if self@.contains_key(p) {
                        let m = choose|m: int| 0 <= m < self.prices@.len() && self.prices@[m] == p;
                        assert(0 <= m < self.prices@.len() && self.prices@[m] == p);
                        let k = if m < rank { m } else { m + 1 };
                        assert(old(self).prices@[k] == p);
                    }
                }
                assert(self@ =~= old(self)@.remove(price));
            }
        } else {
            assert(!self@.contains_key(price));
            assert(self@ =~= old(self)@.remove(price));
        }
    }

    /// The lowest price, if there is a level.
    pub fn first_price(&self) -> (first: Option<u64>)
        requires
            self.wf(),
        ensures
            first is None ==> self@ == Map::<u64, PriceLevel>::empty(),
            first matches Some(price) ==> self@.contains_key(price) && forall|p: u64| #[trigger]
                self@.contains_key(p) ==> price <= p,
    {
        if self.prices.len() == 0 {
            assert(self@ =~= Map::<u64, PriceLevel>::empty());
            None
        } else {
            proof {
                self.lemma_entry(0);
                self.lemma_positions();
            }
            Some(self.prices[0])
        }
    }

    /// The highest price, if there is a level.
    pub fn last_price(&self) -> (last: Option<u64>)
        requires
            self.wf(),
        ensures
            last is None ==> self@ == Map::<u64, PriceLevel>::empty(),
            last matches Some(price) ==> self@.contains_key(price) && forall|p: u64| #[trigger]
                self@.contains_key(p) ==> p <= price,
    {
        if self.prices.len() == 0 {
            assert(self@ =~= Map::<u64, PriceLevel>::empty());
            None
        } else {
            proof {
                self.lemma_entry(self.prices@.len() - 1);
                self.lemma_positions();
            }
            Some(self.prices[self.prices.len() - 1])
        }
    }
}

} // verus!
