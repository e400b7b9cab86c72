//! The words in which the laws of incoming orders and commands are stated: plain
//! comparisons of prices, sums over events, and places in queues.
use crate::book_model::{Book, Resting};
use crate::engine_model::{Engine, Incoming, StopEntry};
use crate::sparse_index::price_limit;
use crate::sums::{lemma_sum_point, lemma_sum_zero};
use crate::types::{
    EventMeta, MatchEvent, OrderId, OrderType, RejectReason, Side, TimeInForce, STP_NONE,
};
use vstd::prelude::*;

verus! {

/// The side against which an order on `side` trades.
pub open spec fn opposite(side: Side) -> Side {
    match side {
        Side::Bid => Side::Ask,
        Side::Ask => Side::Bid,
    }
}

/// The best price of `side`.
pub open spec fn best_on(book: Book, side: Side) -> Option<u64> {
    match side {
        Side::Bid => book.best_bid,
        Side::Ask => book.best_ask,
    }
}

/// The stops that wait on `side`, the next to trigger first.
pub open spec fn stops_on(state: Engine, side: Side) -> Seq<(u64, StopEntry)> {
    match side {
        Side::Bid => state.stop_bids,
        Side::Ask => state.stop_asks,
    }
}

/// Whether a bid up to `limit` may pay `price`, or an ask down to `limit` may get it.
pub open spec fn within(side: Side, limit: u64, price: u64) -> bool {
    match side {
        Side::Bid => price <= limit,
        Side::Ask => price >= limit,
    }
}

/// Whether orders on `side` at `a` are served before those at `b`: bids that pay more,
/// asks that want less.
pub open spec fn beats(side: Side, a: u64, b: u64) -> bool {
    match side {
        Side::Bid => a > b,
        Side::Ask => a < b,
    }
}

/// The price up to which an order trades: its own, and any for a market order.
pub open spec fn limit_of(order: Incoming) -> u64 {
    if order.order_type == OrderType::Market {
        match order.side {
            Side::Bid => u64::MAX,
            Side::Ask => 0,
        }
    } else {
        order.price
    }
}

/// What is left of a resting order.
pub open spec fn left_of(order: Resting) -> int {
    order.quantity - order.filled
}

/// What a resting order offers at once when `taken` more of it is filled: what is left of
/// it or, of an iceberg order, what is left of the slice that it shows.
pub open spec fn shown(order: Resting, taken: int) -> int {
    let left = left_of(order) - taken;
    if order.order_type == OrderType::Iceberg && order.visible_quantity > 0 {
        let slice = order.visible_quantity - (order.filled + taken) % (order.visible_quantity as int);
        if slice < left {
            slice
        } else {
            left
        }
    } else {
        left
    }
}

/// The smaller of two numbers.
pub open spec fn min_of(a: int, b: int) -> int {
    if a <= b {
        a
    } else {
        b
    }
}

/// Whether a resting order is of the self-trade-prevention group of an incoming one.
pub open spec fn of_group(order: Incoming, resting: Resting) -> bool {
    order.stp_group is Some && order.stp_group->Some_0 == resting.stp_group && resting.stp_group
        != STP_NONE
}

/// Whether what is left of an order may rest.
pub open spec fn may_rest(order: Incoming) -> bool {
    order.order_type != OrderType::Market && order.time_in_force == TimeInForce::GTC
}

/// The order that an order on `side` up to `limit` meets first: the one at the front of
/// the queue at the best opposite price, where that price is within its limit.
pub open spec fn front(book: Book, side: Side, limit: u64) -> Option<u64> {
    match best_on(book, opposite(side)) {
        Some(price) => if within(side, limit, price) {
            Some(book.queues[(opposite(side), price)][0])
        } else {
            None
        },
        None => None,
    }
}

/// The events of `after` that `before` has not.
pub open spec fn since(before: Engine, after: Engine) -> Seq<MatchEvent> {
    after.events.skip(before.events.len() as int)
}

/// Whether `after` has all events of `before`, and as the next one `event`.
pub open spec fn goes_on_with(before: Engine, after: Engine, event: MatchEvent) -> bool {
    let n = before.events.len();
    &&& after.events.len() > n
    &&& after.events.take(n as int) == before.events
    &&& after.events[n as int] == event
}

/// The metadata of the `n`th event after `state`.
pub open spec fn meta_after(state: Engine, n: int) -> EventMeta {
    EventMeta {
        sequence: (state.sequence + n) as u64,
        timestamp_ns: (state.sequence + n) as u64,
    }
}

/// Quantity that events trade.
pub open spec fn sold(events: Seq<MatchEvent>) -> int
    decreases events.len(),
{
    if events.len() == 0 {
        0
    } else {
        sold(events.drop_last()) + match events.last() {
            MatchEvent::Fill { qty, .. } => qty as int,
            _ => 0,
        }
    }
}

/// Quantity of order `id` that events trade with it as the maker.
pub open spec fn filled_of(events: Seq<MatchEvent>, id: u64) -> int
    decreases events.len(),
{
    if events.len() == 0 {
        0
    } else {
        filled_of(events.drop_last(), id) + match events.last() {
            MatchEvent::Fill { maker_id, qty, .. } => if maker_id.0 == id {
                qty as int
            } else {
                0
            },
            _ => 0,
        }
    }
}

/// Quantity of order `id` that events cancel.
pub open spec fn cancelled_of(events: Seq<MatchEvent>, id: u64) -> int
    decreases events.len(),
{
    if events.len() == 0 {
        0
    } else {
        cancelled_of(events.drop_last(), id) + match events.last() {
            MatchEvent::OrderCancelled { id: gone, remaining_qty, .. } => if gone.0 == id {
                remaining_qty as int
            } else {
                0
            },
            _ => 0,
        }
    }
}

/// The price of the last trade among events, and `before` where there is none.
pub open spec fn last_price(events: Seq<MatchEvent>, before: Option<u64>) -> Option<u64>
    decreases events.len(),
{
    if events.len() == 0 {
        before
    } else {
        match events.last() {
            MatchEvent::Fill { price, .. } => Some(price),
            _ => last_price(events.drop_last(), before),
        }
    }
}

/// Whether an event cancels order `id`.
pub open spec fn cancels(event: MatchEvent, id: u64) -> bool {
    event matches MatchEvent::OrderCancelled { id: gone, .. } && gone.0 == id
}

/// Whether `a` stands before `b` in `queue`.
pub open spec fn stands_before(queue: Seq<u64>, a: u64, b: u64) -> bool {
    exists|i: int, j: int|
        0 <= i < j < queue.len() && #[trigger] queue[i] == a && #[trigger] queue[j] == b
}

/// A state with one more event, which rejects order `id`.
pub open spec fn with_rejection(state: Engine, id: u64, reason: RejectReason) -> Engine {
    Engine {
        sequence: state.sequence + 1,
        events: state.events.push(
            MatchEvent::OrderRejected {
                meta: meta_after(state, 1),
                id: OrderId(id),
                reason,
            },
        ),
        ..state
    }
}

/// One more event adds what it says to each sum.
pub proof fn lemma_push(events: Seq<MatchEvent>, event: MatchEvent, id: u64, before: Option<u64>)
    ensures
        sold(events.push(event)) == sold(events) + match event {
            MatchEvent::Fill { qty, .. } => qty as int,
            _ => 0,
        },
        filled_of(events.push(event), id) == filled_of(events, id) + match event {
            MatchEvent::Fill { maker_id, qty, .. } => if maker_id.0 == id {
                qty as int
            } else {
                0
            },
            _ => 0,
        },
        cancelled_of(events.push(event), id) == cancelled_of(events, id) + match event {
            MatchEvent::OrderCancelled { id: gone, remaining_qty, .. } => if gone.0 == id {
                remaining_qty as int
            } else {
                0
            },
            _ => 0,
        },
        last_price(events.push(event), before) == match event {
            MatchEvent::Fill { price, .. } => Some(price),
            _ => last_price(events, before),
        },
{
    assert(events.push(event).drop_last() =~= events);
}

/// No sum is negative.
pub proof fn lemma_sums_nonnegative(events: Seq<MatchEvent>, id: u64)
    ensures
        sold(events) >= filled_of(events, id) >= 0,
        cancelled_of(events, id) >= 0,
    decreases events.len(),
{
    if events.len() > 0 {
        lemma_sums_nonnegative(events.drop_last(), id);
    }
}

/// Whether a resting order is within the limit of an order on `side`.
pub open spec fn in_reach(order: Resting, side: Side, limit: u64) -> bool {
    order.side == opposite(side) && within(side, limit, order.price)
}

/// What is left of all orders that an order on `side` up to `limit` may trade with.
pub open spec fn offered(orders: Map<u64, Resting>, side: Side, limit: u64) -> int
    decreases orders.dom().len(),
    when orders.dom().finite()
{
    if orders.dom().len() == 0 {
        0
    } else {
        let id = orders.dom().choose();
        offered(orders.remove(id), side, limit) + if in_reach(orders[id], side, limit) {
            left_of(orders[id])
        } else {
            0
        }
    }
}

/// The depth of a book is what is left of the orders in reach.
pub proof fn law_depth_is_what_is_offered(book: Book, side: Side, limit: u64)
    requires
        book.wf(),
    ensures
        book.depth(opposite(side), limit) == offered(book.orders, side, limit),
    decreases book.orders.dom().len(),
{
    let other = opposite(side);
    let f = |p: int| book.level_qty(other, p);
    if book.orders.dom().len() == 0 {
        assert forall|p: int| 0 <= p < price_limit() implies #[trigger] f(p) == 0 by {
            let level = (other, p as u64);
            if book.queues[level].len() > 0 {
                assert(book.placed(level, book.queues[level][0]));
                assert(book.orders.dom().contains(book.queues[level][0]));
            }
        }
        match other {
            Side::Bid => lemma_sum_zero(f, limit as int, price_limit()),
            Side::Ask => lemma_sum_zero(f, 0, limit + 1),
        }
    } else {
        let id = book.orders.dom().choose();
        assert(book.orders.dom().contains(id));
        assert(book.orders.contains_key(id));
        let order = book.orders[id];
        let less = book.take_out(id);
        book.lemma_take_out(id);
        assert(less.orders == book.orders.remove(id));
        assert(less.orders.dom() =~= book.orders.dom().remove(id));
        law_depth_is_what_is_offered(less, side, limit);
        let g = |p: int| less.level_qty(other, p);
        assert forall|p: int| p != order.price implies #[trigger] g(p) == f(p) by {
            assert(less.level_qty(other, p) == book.level_qty(other, p));
        }
        assert(g(order.price as int) == less.level_qty(other, order.price as int));
        match other {
            Side::Bid => lemma_sum_point(g, f, limit as int, price_limit(), order.price as int),
            Side::Ask => lemma_sum_point(g, f, 0, limit + 1, order.price as int),
        }
    }
}

} // verus!
