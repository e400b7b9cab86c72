//! The order book as a mathematical object: resting orders, one queue per price
//! level, and the best price of each side.
use crate::levels::{better, lemma_next_best, next_best};
use crate::sparse_index::price_limit;
use crate::sums::{lemma_sum_point, range_sum};
use crate::types::{
    lemma_slices, matchable_of, slices_of, Order, OrderType, Side, TimeInForce,
};
use vstd::arithmetic::div_mod::{
    lemma_div_is_ordered, lemma_fundamental_div_mod, lemma_fundamental_div_mod_converse,
    lemma_mod_pos_bound,
};
use vstd::prelude::*;

verus! {

/// What a resting order is, apart from its identifier and its place in the queue.
pub struct Resting {
    pub side: Side,
    pub price: u64,
    pub quantity: u64,
    pub filled: u64,
    pub order_type: OrderType,
    pub visible_quantity: u64,
    /// `STP_NONE` means no self-trade-prevention group.
    pub stp_group: u32,
    pub time_in_force: TimeInForce,
    pub timestamp: u64,
}

impl Resting {
    /// Unfilled quantity.
    pub open spec fn unfilled(self) -> int {
        self.quantity - self.filled
    }

    /// Quantity that one match may take.
    pub open spec fn matchable(self) -> int {
        matchable_of(
            self.order_type,
            self.visible_quantity as int,
            self.filled as int,
            self.unfilled(),
        )
    }

    /// Number of matches that use the order up where each takes all that it may.
    pub open spec fn slices(self) -> int {
        slices_of(
            self.order_type,
            self.visible_quantity as int,
            self.quantity as int,
            self.filled as int,
        )
    }

    /// An order of which nothing is filled, good til cancelled.
    pub open spec fn fresh(
        side: Side,
        price: u64,
        qty: u64,
        order_type: OrderType,
        visible_qty: Option<u64>,
        stp_group: u32,
    ) -> Resting {
        Resting {
            side,
            price,
            quantity: qty,
            filled: 0,
            order_type,
            visible_quantity: match visible_qty {
                Some(visible) => visible,
                None => qty,
            },
            stp_group,
            time_in_force: TimeInForce::GTC,
            timestamp: 0,
        }
    }

    /// The order with `delta` more of it filled.
    pub open spec fn reduced(self, delta: int) -> Resting {
        Resting { filled: (self.filled + delta) as u64, ..self }
    }
}

impl Order {
    /// The order without its links.
    pub open spec fn resting(&self) -> Resting {
        Resting {
            side: self.side,
            price: self.price,
            quantity: self.quantity,
            filled: self.filled,
            order_type: self.order_type,
            visible_quantity: self.visible_quantity,
            stp_group: self.stp_group,
            time_in_force: self.time_in_force,
            timestamp: self.timestamp,
        }
    }
}

/// Sum of the unfilled quantities of the orders `queue`.
pub open spec fn queue_qty(orders: Map<u64, Resting>, queue: Seq<u64>) -> int
    decreases queue.len(),
{
    if queue.len() == 0 {
        0
    } else {
        queue_qty(orders, queue.drop_last()) + orders[queue.last()].unfilled()
    }
}

/// `queue` without `id`.
pub open spec fn without(queue: Seq<u64>, id: u64) -> Seq<u64> {
    queue.remove(queue.index_of(id))
}

/// Number of matches that use all `orders` up where each takes all that it may.
pub open spec fn total_slices(orders: Map<u64, Resting>) -> int
    decreases orders.dom().len(),
    when orders.dom().finite()
{
    if orders.dom().len() == 0 {
        0
    } else {
        let id = orders.dom().choose();
        orders[id].slices() + total_slices(orders.remove(id))
    }
}

/// The slices of all orders are those of one and those of the others.
pub proof fn lemma_total_slices(orders: Map<u64, Resting>, id: u64)
    requires
        orders.dom().finite(),
        orders.contains_key(id),
    ensures
        total_slices(orders) == orders[id].slices() + total_slices(orders.remove(id)),
    decreases orders.dom().len(),
{
    assert(orders.dom().contains(id));
    let first = orders.dom().choose();
    assert(orders.dom().contains(first));
    assert(orders.remove(first).dom() =~= orders.dom().remove(first));
    assert(orders.remove(id).dom() =~= orders.dom().remove(id));
    if first != id {
        lemma_total_slices(orders.remove(first), id);
        lemma_total_slices(orders.remove(id), first);
        assert(orders.remove(first).remove(id) =~= orders.remove(id).remove(first));
    }
}

/// There are no fewer slices than none, and no more than each order can have.
pub proof fn lemma_total_slices_bounds(orders: Map<u64, Resting>)
    requires
        orders.dom().finite(),
        forall|id: u64| #[trigger]
            orders.contains_key(id) ==> orders[id].filled <= orders[id].quantity,
    ensures
        0 <= total_slices(orders) <= 0x2_0000_0000_0000_0000 * orders.dom().len(),
    decreases orders.dom().len(),
{
    if orders.dom().len() > 0 {
        let id = orders.dom().choose();
        assert(orders.dom().contains(id));
        let rest = orders.remove(id);
        assert(rest.dom() =~= orders.dom().remove(id));
        assert forall|x: u64| #[trigger] rest.contains_key(x) implies rest[x].filled
            <= rest[x].quantity by {
            assert(orders.contains_key(x));
        }
        let order = orders[id];
        assert(orders.contains_key(id));
        lemma_slices(
            order.order_type,
            order.visible_quantity as int,
            order.quantity as int,
            order.filled as int,
        );
        lemma_total_slices_bounds(rest);
    }
}

/// Filling more of an order brings it no slices, and takes one where all that one match
/// may take is taken and some of the order is left.
pub proof fn lemma_slices_reduced(order: Resting, qty: int)
    requires
        order.filled <= order.quantity,
        0 <= qty <= order.unfilled(),
    ensures
        order.reduced(qty).slices() <= order.slices(),
        qty == order.matchable() && qty < order.unfilled() ==> order.reduced(qty).slices()
            == order.slices() - 1,
{
    let peak = order.visible_quantity as int;
    let filled = order.filled as int;
    if order.order_type == OrderType::Iceberg && peak > 0 {
        lemma_div_is_ordered(filled, filled + qty, peak);
        lemma_fundamental_div_mod(filled, peak);
        lemma_mod_pos_bound(filled, peak);
        if qty == order.matchable() && qty < order.unfilled() {
            let turn = filled / peak;
            assert(filled + qty == (turn + 1) * peak) by (nonlinear_arith)
                requires
                    filled == peak * turn + filled % peak,
                    qty == peak - filled % peak,
            ;
            lemma_fundamental_div_mod_converse(filled + qty, peak, turn + 1, 0);
        }
    }
}

/// An order book.
#[verifier::ext_equal]
pub struct Book {
    /// The resting orders by identifier.
    pub orders: Map<u64, Resting>,
    /// The queue of each price level, oldest order first.
    pub queues: Map<(Side, u64), Seq<u64>>,
    pub best_bid: Option<u64>,
    pub best_ask: Option<u64>,
    /// First price of the dense window.
    pub base: u64,
    /// Width of the dense window.
    pub ticks: u32,
}

impl Book {
    /// The book without orders.
    pub open spec fn empty(base: u64, ticks: u32) -> Book {
        Book {
            orders: Map::empty(),
            queues: Map::total(|level: (Side, u64)| Seq::<u64>::empty()),
            best_bid: None,
            best_ask: None,
            base,
            ticks,
        }
    }

    /// The queue at `price`.
    pub open spec fn queue(self, side: Side, price: u64) -> Seq<u64> {
        self.queues[(side, price)]
    }

    /// The unfilled quantity at `price`.
    pub open spec fn level_qty(self, side: Side, price: int) -> int {
        if 0 <= price < price_limit() {
            queue_qty(self.orders, self.queue(side, price as u64))
        } else {
            0
        }
    }

    /// The unfilled quantity on `side`.
    pub open spec fn side_qty(self, side: Side) -> int {
        range_sum(|p: int| self.level_qty(side, p), 0, price_limit())
    }

    /// The unfilled quantity that an order on the side opposite to `side` could
    /// trade against at `price`: at that price or a better one.
    pub open spec fn depth(self, side: Side, price: u64) -> int {
        match side {
            Side::Bid => range_sum(|p: int| self.level_qty(Side::Bid, p), price as int, price_limit()),
            Side::Ask => range_sum(|p: int| self.level_qty(Side::Ask, p), 0, price + 1),
        }
    }

    /// The best price of `side`.
    pub open spec fn best(self, side: Side) -> Option<u64> {
        match side {
            Side::Bid => self.best_bid,
            Side::Ask => self.best_ask,
        }
    }

    /// The book with another best price on `side`.
    pub open spec fn with_best(self, side: Side, best: Option<u64>) -> Book {
        match side {
            Side::Bid => Book { best_bid: best, ..self },
            Side::Ask => Book { best_ask: best, ..self },
        }
    }

    /// The prices of `side` at which orders rest.
    pub open spec fn prices(self, side: Side) -> Set<u64> {
        Set::new(|p: u64| self.queue(side, p).len() > 0)
    }

    /// The book with a new order `id` at the end of its queue.
    pub open spec fn rest(self, id: u64, order: Resting) -> Book {
        let level = (order.side, order.price);
        let book = Book {
            orders: self.orders.insert(id, order),
            queues: self.queues.insert(level, self.queues[level].push(id)),
            ..self
        };
        match self.best(order.side) {
            Some(best) if !better(order.side, order.price, best) => book,
            _ => book.with_best(order.side, Some(order.price)),
        }
    }

    /// The book without order `id`.
    pub open spec fn take_out(self, id: u64) -> Book {
        let order = self.orders[id];
        let level = (order.side, order.price);
        let book = Book {
            orders: self.orders.remove(id),
            queues: self.queues.insert(level, without(self.queues[level], id)),
            ..self
        };
        if book.queues[level].len() == 0 && self.best(order.side) == Some(order.price) {
            book.with_best(
                order.side,
                next_best(order.side, book.prices(order.side), self.base, self.ticks),
            )
        } else {
            book
        }
    }

    /// The book with `delta` more of order `id` filled.
    pub open spec fn reduce(self, id: u64, delta: int) -> Book {
        Book { orders: self.orders.insert(id, self.orders[id].reduced(delta)), ..self }
    }

    /// The book with order `id` at the end of its queue.
    pub open spec fn requeue(self, id: u64) -> Book {
        let level = (self.orders[id].side, self.orders[id].price);
        Book {
            queues: self.queues.insert(level, without(self.queues[level], id).push(id)),
            ..self
        }
    }

    /// The book with its dense window at `base`.
    pub open spec fn recentered(self, base: u64) -> Book {
        Book { base, ..self }
    }

    /// Ticks from an end of the window beyond which a best price has drifted: seven
    /// tenths of its width.
    pub open spec fn drift_ticks(self) -> int {
        self.ticks * 7 / 10
    }

    /// Whether the best bid stands in the upper three tenths of the window or above
    /// it, or the best ask in the lower three tenths or below it.
    pub open spec fn drifted(self) -> bool {
        ||| self.best_bid matches Some(bid) && bid >= self.base + self.drift_ticks()
        ||| self.best_ask matches Some(ask) && ask < self.base + (self.ticks - self.drift_ticks())
    }

    /// First price of a window with the best bid in the middle, or the best ask where
    /// there is no bid.
    pub open spec fn centered_base(self) -> u64 {
        let center = match (self.best_bid, self.best_ask) {
            (Some(bid), _) => bid,
            (None, Some(ask)) => ask,
            (None, None) => 0,
        };
        if center >= self.ticks / 2 {
            (center - self.ticks / 2) as u64
        } else {
            0
        }
    }

    /// Every order stands once in the queue of its level and nowhere else; no
    /// order is overfilled; a side has a best price if and only if orders rest
    /// there, and some rest at that price.
    pub open spec fn wf(self) -> bool {
        &&& self.orders.dom().finite()
        &&& forall|level: (Side, u64)| #[trigger] self.queues.contains_key(level)
        &&& forall|id: u64| #[trigger]
            self.orders.contains_key(id) ==> self.orders[id].filled <= self.orders[id].quantity
                && self.queues[(self.orders[id].side, self.orders[id].price)].contains(id)
        &&& forall|level: (Side, u64)| #[trigger] self.queues[level].no_duplicates()
        &&& forall|level: (Side, u64), i: int|
            0 <= i < self.queues[level].len() ==> self.placed(level, #[trigger] self.queues[level][i])
        &&& forall|side: Side| #[trigger] self.best(side) matches Some(price) ==> self.queue(
            side,
            price,
        ).len() > 0
        &&& forall|side: Side, price: u64| #[trigger]
            self.queue(side, price).len() > 0 ==> self.best(side) is Some
    }

    /// Order `id` belongs to `level`.
    pub open spec fn placed(self, level: (Side, u64), id: u64) -> bool {
        &&& self.orders.contains_key(id)
        &&& self.orders[id].side == level.0
        &&& self.orders[id].price == level.1
    }
}

/// The dense window has drifted if and only if the best bid is at or above seven tenths of
/// its width, in whole ticks, or the best ask is below what is left of the width without
/// them. A window with the best bid in the middle starts half its width below that, or at
/// zero; without bids the best ask takes its place, and without orders it starts at zero.
pub proof fn law_window_follows_the_best_price(book: Book, tenths: int)
    requires
        10 * tenths <= 7 * book.ticks < 10 * (tenths + 1),
    ensures
        book.drifted() <==> {
            ||| book.best_bid is Some && book.best_bid->Some_0 - book.base >= tenths
            ||| book.best_ask is Some && book.best_ask->Some_0 - book.base < book.ticks - tenths
        },
        book.best_bid is Some ==> {
            let half = (book.ticks / 2) as int;
            if book.best_bid->Some_0 >= half {
                book.centered_base() + half == book.best_bid->Some_0
            } else {
                book.centered_base() == 0
            }
        },
        book.best_bid is None && book.best_ask is Some ==> {
            let half = (book.ticks / 2) as int;
            if book.best_ask->Some_0 >= half {
                book.centered_base() + half == book.best_ask->Some_0
            } else {
                book.centered_base() == 0
            }
        },
        book.best_bid is None && book.best_ask is None ==> book.centered_base() == 0,
        book.recentered(book.centered_base()).orders == book.orders,
        book.recentered(book.centered_base()).queues == book.queues,
        book.recentered(book.centered_base()).best_bid == book.best_bid,
        book.recentered(book.centered_base()).best_ask == book.best_ask,
        book.recentered(book.centered_base()).ticks == book.ticks,
        book.recentered(book.centered_base()).base == book.centered_base(),
{
}

/// Where the unfilled quantities agree, so do the sums.
pub proof fn lemma_qty_same(a: Map<u64, Resting>, b: Map<u64, Resting>, queue: Seq<u64>)
    requires
        forall|i: int|
            0 <= i < queue.len() ==> a[#[trigger] queue[i]].unfilled() == b[queue[i]].unfilled(),
    ensures
        queue_qty(a, queue) == queue_qty(b, queue),
    decreases queue.len(),
{
    if queue.len() > 0 {
        let rest = queue.drop_last();
        assert forall|i: int| 0 <= i < rest.len() implies a[#[trigger] rest[i]].unfilled()
            == b[rest[i]].unfilled() by {
            assert(rest[i] == queue[i]);
        }
        lemma_qty_same(a, b, rest);
        assert(queue.last() == queue[queue.len() - 1]);
    }
}

/// A queue that lost its `k`th order lost that order's unfilled quantity.
pub proof fn lemma_qty_remove(orders: Map<u64, Resting>, queue: Seq<u64>, k: int)
    requires
        0 <= k < queue.len(),
    ensures
        queue_qty(orders, queue.remove(k)) == queue_qty(orders, queue) - orders[queue[k]].unfilled(),
    decreases queue.len(),
{
    let rest = queue.drop_last();
    if k == queue.len() - 1 {
        assert(queue.remove(k) =~= rest);
    } else {
        lemma_qty_remove(orders, rest, k);
        assert(queue.remove(k).drop_last() =~= rest.remove(k));
        assert(queue.remove(k).last() == queue.last());
    }
}

/// A queue holds at least the unfilled quantity of each of its orders.
pub proof fn lemma_qty_bounds(orders: Map<u64, Resting>, queue: Seq<u64>, k: int)
    requires
        0 <= k < queue.len(),
        forall|i: int|
            0 <= i < queue.len() ==> orders[#[trigger] queue[i]].filled <= orders[queue[i]].quantity,
    ensures
        queue_qty(orders, queue) >= orders[queue[k]].unfilled() >= 0,
{
    lemma_qty_remove(orders, queue, k);
    assert forall|i: int| 0 <= i < queue.remove(k).len() implies orders[#[trigger] queue.remove(
        k,
    )[i]].filled <= orders[queue.remove(k)[i]].quantity by {
        assert(queue.remove(k)[i] == queue[if i < k {
            i
        } else {
            i + 1
        }]);
    }
    lemma_qty_nonnegative(orders, queue.remove(k));
    assert(orders[queue[k]].filled <= orders[queue[k]].quantity);
}

/// No queue holds a negative quantity.
pub proof fn lemma_qty_nonnegative(orders: Map<u64, Resting>, queue: Seq<u64>)
    requires
        forall|i: int|
            0 <= i < queue.len() ==> orders[#[trigger] queue[i]].filled <= orders[queue[i]].quantity,
    ensures
        queue_qty(orders, queue) >= 0,
    decreases queue.len(),
{
    if queue.len() > 0 {
        let rest = queue.drop_last();
        assert forall|i: int| 0 <= i < rest.len() implies orders[#[trigger] rest[i]].filled
            <= orders[rest[i]].quantity by {
            assert(rest[i] == queue[i]);
        }
        lemma_qty_nonnegative(orders, rest);
        assert(queue.last() == queue[queue.len() - 1]);
    }
}

impl Book {
    /// Resting an order keeps the book well formed and adds the order's unfilled
    /// quantity to its level.
    pub proof fn lemma_rest(self, id: u64, order: Resting)
        requires
            self.wf(),
            !self.orders.contains_key(id),
            order.filled <= order.quantity,
        ensures
            self.rest(id, order).wf(),
            forall|side: Side, p: int| #[trigger]
                self.rest(id, order).level_qty(side, p) == self.level_qty(side, p) + (if side
                    == order.side && p == order.price {
                    order.unfilled()
                } else {
                    0
                }),
            forall|side: Side| #[trigger]
                self.rest(id, order).side_qty(side) == self.side_qty(side) + (if side == order.side {
                    order.unfilled()
                } else {
                    0
                }),
    {
        let after = self.rest(id, order);
        let level = (order.side, order.price);
        let queue = self.queues[level];
        assert(!queue.contains(id)) by {
            if queue.contains(id) {
                let i = choose|i: int| 0 <= i < queue.len() && queue[i] == id;
                assert(self.placed(level, queue[i]));
            }
        }
        assert(after.queues[level] == queue.push(id));
        assert forall|l: (Side, u64)| #[trigger] after.queues[l].no_duplicates() by {
            assert(self.queues[l].no_duplicates());
        }
        assert forall|side: Side| #[trigger] after.best(side) matches Some(price) ==> after.queue(
            side,
            price,
        ).len() > 0 by {
            if let Some(price) = after.best(side) {
                if self.best(side) == Some(price) {
                    assert(self.queue(side, price).len() > 0);
                }
            }
        }
        assert forall|side: Side, price: u64| #[trigger]
            after.queue(side, price).len() > 0 implies after.best(side) is Some by {
            if (side, price) != level {
                assert(self.queue(side, price).len() > 0);
                assert(self.best(side) is Some);
            }
        }
        assert forall|l: (Side, u64), i: int| 0 <= i < after.queues[l].len() implies after.placed(
            l,
            #[trigger] after.queues[l][i],
        ) by {
            if l == level && i == queue.len() {
            } else {
                assert(after.queues[l][i] == self.queues[l][i]);
                assert(self.placed(l, self.queues[l][i]));
            }
        }
        assert forall|x: u64| #[trigger] after.orders.contains_key(x) implies after.queues[(
            after.orders[x].side,
            after.orders[x].price,
        )].contains(x) by {
            let l = (after.orders[x].side, after.orders[x].price);
            if x == id {
                assert(after.queues[level][queue.len() as int] == id);
            } else {
                assert(self.orders.contains_key(x));
                let i = choose|i: int| 0 <= i < self.queues[l].len() && self.queues[l][i] == x;
                assert(after.queues[l][i] == x);
            }
        }
        assert forall|side: Side, p: int| #[trigger] after.level_qty(side, p) == self.level_qty(
            side,
            p,
        ) + (if side == order.side && p == order.price {
            order.unfilled()
        } else {
            0
        }) by {
            if 0 <= p < price_limit() {
                let q = self.queue(side, p as u64);
                assert forall|i: int| 0 <= i < q.len() implies after.orders[#[trigger] q[i]].unfilled()
                    == self.orders[q[i]].unfilled() by {
                    assert(self.placed((side, p as u64), self.queues[(side, p as u64)][i]));
                }
                lemma_qty_same(after.orders, self.orders, q);
                if side == order.side && p == order.price {
                    assert(after.queue(side, p as u64).drop_last() =~= q);
                }
            }
        }
        assert forall|side: Side| #[trigger] after.side_qty(side) == self.side_qty(side) + (if side
            == order.side {
            order.unfilled()
        } else {
            0
        }) by {
            lemma_sum_point(
                |p: int| self.level_qty(side, p),
                |p: int| after.level_qty(side, p),
                0,
                price_limit(),
                order.price as int,
            );
        }
    }

    /// Position of order `id` in its queue.
    pub open spec fn position(self, id: u64) -> int {
        self.queue(self.orders[id].side, self.orders[id].price).index_of(id)
    }

    /// An order stands at its position.
    pub proof fn lemma_position(self, id: u64)
        requires
            self.wf(),
            self.orders.contains_key(id),
        ensures
            0 <= self.position(id) < self.queue(self.orders[id].side, self.orders[id].price).len(),
            self.queue(self.orders[id].side, self.orders[id].price)[self.position(id)] == id,
    {
        let queue = self.queue(self.orders[id].side, self.orders[id].price);
        assert(queue.contains(id));
    }

    /// Taking an order out keeps the book well formed and takes the order's
    /// unfilled quantity from its level.
    pub proof fn lemma_take_out(self, id: u64)
        requires
            self.wf(),
            self.orders.contains_key(id),
        ensures
            self.take_out(id).wf(),
            self.orders[id].unfilled() >= 0,
            forall|side: Side, p: int| #[trigger]
                self.take_out(id).level_qty(side, p) == self.level_qty(side, p) - (if side
                    == self.orders[id].side && p == self.orders[id].price {
                    self.orders[id].unfilled()
                } else {
                    0
                }),
            forall|side: Side| #[trigger]
                self.take_out(id).side_qty(side) == self.side_qty(side) - (if side
                    == self.orders[id].side {
                    self.orders[id].unfilled()
                } else {
                    0
                }),
    {
        let after = self.take_out(id);
        let order = self.orders[id];
        let level = (order.side, order.price);
        let queue = self.queues[level];
        let k = self.position(id);
        self.lemma_position(id);
        assert(self.queues[level].no_duplicates());
        let rest = Book {
            orders: self.orders.remove(id),
            queues: self.queues.insert(level, without(queue, id)),
            ..self
        };
        assert(rest.prices(order.side) =~= after.prices(order.side));
        lemma_next_best(order.side, after.prices(order.side), self.base, self.ticks);
        assert(after.queues[level] == queue.remove(k));
        assert forall|l: (Side, u64), i: int| 0 <= i < after.queues[l].len() implies after.placed(
            l,
            #[trigger] after.queues[l][i],
        ) by {
            if l == level {
                let j = if i < k {
                    i
                } else {
                    i + 1
                };
                assert(after.queues[l][i] == queue[j]);
                assert(self.placed(l, self.queues[l][j]));
                assert(queue[j] != queue[k]);
            } else {
                assert(after.queues[l][i] == self.queues[l][i]);
                assert(self.placed(l, self.queues[l][i]));
            }
        }
        assert forall|l: (Side, u64)| #[trigger] after.queues[l].no_duplicates() by {
            assert(self.queues[l].no_duplicates());
        }
        assert forall|x: u64| #[trigger] after.orders.contains_key(x) implies after.queues[(
            after.orders[x].side,
            after.orders[x].price,
        )].contains(x) by {
            let l = (after.orders[x].side, after.orders[x].price);
            assert(self.orders.contains_key(x));
            let i = choose|i: int| 0 <= i < self.queues[l].len() && self.queues[l][i] == x;
            if l == level {
                let j = if i < k {
                    i
                } else {
                    i - 1
                };
                assert(after.queues[l][j] == x);
            } else {
                assert(after.queues[l][i] == x);
            }
        }
        assert forall|side: Side, price: u64| #[trigger]
            after.queue(side, price).len() > 0 implies after.best(side) is Some by {
            assert(self.queue(side, price).len() > 0);
            assert(self.best(side) is Some);
            assert(after.prices(side).contains(price));
        }
        assert forall|side: Side| #[trigger] after.best(side) matches Some(price) ==> after.queue(
            side,
            price,
        ).len() > 0 by {
            if let Some(price) = after.best(side) {
                if side == order.side && after.queues[level].len() == 0 && self.best(side) == Some(
                    order.price,
                ) {
                    assert(after.prices(side).contains(price));
                } else {
                    assert(self.best(side) == Some(price));
                    assert(self.queue(side, price).len() > 0);
                }
            }
        }
        assert forall|side: Side, p: int| #[trigger] after.level_qty(side, p) == self.level_qty(
            side,
            p,
        ) - (if side == order.side && p == order.price {
            order.unfilled()
        } else {
            0
        }) by {
            if 0 <= p < price_limit() {
                let l = (side, p as u64);
                let q = after.queues[l];
                assert forall|i: int| 0 <= i < q.len() implies after.orders[#[trigger] q[i]].unfilled()
                    == self.orders[q[i]].unfilled() by {
                    assert(after.placed(l, after.queues[l][i]));
                }
                lemma_qty_same(after.orders, self.orders, q);
                if l == level {
                    lemma_qty_remove(self.orders, queue, k);
                }
            }
        }
        assert forall|side: Side| #[trigger] after.side_qty(side) == self.side_qty(side) - (if side
            == order.side {
            order.unfilled()
        } else {
            0
        }) by {
            lemma_sum_point(
                |p: int| self.level_qty(side, p),
                |p: int| after.level_qty(side, p),
                0,
                price_limit(),
                order.price as int,
            );
        }
    }

    /// Filling part of an order keeps the book well formed and takes that part from
    /// its level.
    pub proof fn lemma_reduce(self, id: u64, delta: int)
        requires
            self.wf(),
            self.orders.contains_key(id),
            0 <= delta <= self.orders[id].unfilled(),
        ensures
            self.reduce(id, delta).wf(),
            forall|side: Side, p: int| #[trigger]
                self.reduce(id, delta).level_qty(side, p) == self.level_qty(side, p) - (if side
                    == self.orders[id].side && p == self.orders[id].price {
                    delta
                } else {
                    0
                }),
            forall|side: Side| #[trigger]
                self.reduce(id, delta).side_qty(side) == self.side_qty(side) - (if side
                    == self.orders[id].side {
                    delta
                } else {
                    0
                }),
    {
        let after = self.reduce(id, delta);
        let order = self.orders[id];
        let level = (order.side, order.price);
        let queue = self.queues[level];
        let k = self.position(id);
        self.lemma_position(id);
        assert(self.queues[level].no_duplicates());
        assert forall|l: (Side, u64), i: int| 0 <= i < after.queues[l].len() implies after.placed(
            l,
            #[trigger] after.queues[l][i],
        ) by {
            assert(self.placed(l, self.queues[l][i]));
        }
        assert forall|side: Side| #[trigger] after.best(side) matches Some(price) ==> after.queue(
            side,
            price,
        ).len() > 0 by {
            assert(after.best(side) == self.best(side));
            if let Some(price) = self.best(side) {
                assert(self.queue(side, price).len() > 0);
            }
        }
        assert forall|side: Side, price: u64| #[trigger]
            after.queue(side, price).len() > 0 implies after.best(side) is Some by {
            assert(self.queue(side, price).len() > 0);
            assert(after.best(side) == self.best(side));
        }
        assert forall|side: Side, p: int| #[trigger] after.level_qty(side, p) == self.level_qty(
            side,
            p,
        ) - (if side == order.side && p == order.price {
            delta
        } else {
            0
        }) by {
            if 0 <= p < price_limit() {
                let l = (side, p as u64);
                let q = self.queues[l];
                if l == level {
                    let others = q.remove(k);
                    assert forall|i: int| 0 <= i < others.len() implies after.orders[#[trigger] others[i]].unfilled()
                        == self.orders[others[i]].unfilled() by {
                        let j = if i < k {
                            i
                        } else {
                            i + 1
                        };
                        assert(others[i] == q[j] && q[j] != q[k]);
                    }
                    lemma_qty_same(after.orders, self.orders, others);
                    lemma_qty_remove(self.orders, q, k);
                    lemma_qty_remove(after.orders, q, k);
                } else {
                    assert forall|i: int| 0 <= i < q.len() implies after.orders[#[trigger] q[i]].unfilled()
                        == self.orders[q[i]].unfilled() by {
                        assert(self.placed(l, self.queues[l][i]));
                    }
                    lemma_qty_same(after.orders, self.orders, q);
                }
            }
        }
        assert forall|side: Side| #[trigger] after.side_qty(side) == self.side_qty(side) - (if side
            == order.side {
            delta
        } else {
            0
        }) by {
            lemma_sum_point(
                |p: int| self.level_qty(side, p),
                |p: int| after.level_qty(side, p),
                0,
                price_limit(),
                order.price as int,
            );
        }
    }

    /// Where an order stands whose queue it was sent to the end of.
    pub proof fn lemma_requeued(self, id: u64)
        requires
            self.wf(),
            self.orders.contains_key(id),
        ensures
            ({
                let level = (self.orders[id].side, self.orders[id].price);
                let queue = self.queues[level];
                let after = self.requeue(id).queues[level];
                &&& after.len() == queue.len()
                &&& after.last() == id
                &&& forall|i: int|
                    0 <= i < queue.len() - 1 ==> #[trigger] after[i] == queue[if i < self.position(
                        id,
                    ) {
                        i
                    } else {
                        i + 1
                    }]
                &&& after.no_duplicates()
                &&& after.to_set() == queue.to_set()
            }),
    {
        let level = (self.orders[id].side, self.orders[id].price);
        let queue = self.queues[level];
        let after = self.requeue(id).queues[level];
        let k = self.position(id);
        self.lemma_position(id);
        assert(self.queues[level].no_duplicates());
        assert(after == queue.remove(k).push(id));
        assert forall|x: u64| #[trigger] queue.contains(x) implies after.contains(x) by {
            let i = queue.index_of(x);
            let j = if i < k {
                i
            } else if i == k {
                queue.len() - 1
            } else {
                i - 1
            };
            assert(after[j] == x);
        }
        assert(after.to_set() =~= queue.to_set());
    }

    /// Sending an order to the end of its queue keeps the book well formed and every
    /// quantity the same.
    pub proof fn lemma_requeue(self, id: u64)
        requires
            self.wf(),
            self.orders.contains_key(id),
        ensures
            self.requeue(id).wf(),
            forall|side: Side, p: u64| #[trigger]
                self.requeue(id).queue(side, p).len() == self.queue(side, p).len(),
            forall|side: Side, p: int| #[trigger]
                self.requeue(id).level_qty(side, p) == self.level_qty(side, p),
            forall|side: Side| #[trigger] self.requeue(id).side_qty(side) == self.side_qty(side),
    {
        let after = self.requeue(id);
        let level = (self.orders[id].side, self.orders[id].price);
        let queue = self.queues[level];
        let k = self.position(id);
        self.lemma_position(id);
        self.lemma_requeued(id);
        assert forall|l: (Side, u64)| #[trigger] after.queues[l].no_duplicates() by {
            assert(self.queues[l].no_duplicates());
        }
        assert forall|l: (Side, u64), i: int| 0 <= i < after.queues[l].len() implies after.placed(
            l,
            #[trigger] after.queues[l][i],
        ) by {
            if l == level {
                if i < queue.len() - 1 {
                    let j = if i < k {
                        i
                    } else {
                        i + 1
                    };
                    assert(after.queues[l][i] == queue[j]);
                    assert(self.placed(l, self.queues[l][j]));
                }
            } else {
                assert(self.placed(l, self.queues[l][i]));
            }
        }
        assert forall|x: u64| #[trigger] after.orders.contains_key(x) implies after.queues[(
            after.orders[x].side,
            after.orders[x].price,
        )].contains(x) by {
            let l = (after.orders[x].side, after.orders[x].price);
            assert(self.queues[l].contains(x));
            if l == level {
                assert(queue.to_set().contains(x));
                assert(after.queues[l].to_set().contains(x));
            }
        }
        assert forall|side: Side, p: u64| #[trigger] after.queue(side, p).len() == self.queue(
            side,
            p,
        ).len() by {
            if (side, p) == level {
            }
        }
        assert forall|side: Side| #[trigger] after.best(side) matches Some(price) ==> after.queue(
            side,
            price,
        ).len() > 0 by {
            assert(after.best(side) == self.best(side));
            if let Some(price) = self.best(side) {
                assert(self.queue(side, price).len() > 0);
            }
        }
        assert forall|side: Side, price: u64| #[trigger]
            after.queue(side, price).len() > 0 implies after.best(side) is Some by {
            assert(self.queue(side, price).len() > 0);
            assert(after.best(side) == self.best(side));
        }
        assert forall|side: Side, p: int| #[trigger] after.level_qty(side, p) == self.level_qty(
            side,
            p,
        ) by {
            if side == level.0 && p == level.1 {
                lemma_qty_remove(self.orders, queue, k);
                assert(after.queues[level].drop_last() =~= queue.remove(k));
            }
        }
        assert forall|side: Side| #[trigger] after.side_qty(side) == self.side_qty(side) by {
            lemma_sum_point(
                |p: int| self.level_qty(side, p),
                |p: int| after.level_qty(side, p),
                0,
                price_limit(),
                level.1 as int,
            );
        }
    }
}

} // verus!
