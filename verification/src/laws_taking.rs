//! Law of taking: what an incoming order that is matched at once does, in terms of the
//! orders that rested before, of those that rest afterwards, and of the events between.
use crate::book_model::{without, Book, Resting};
use crate::engine_model::{lesser, same_group, Engine, Incoming};
use crate::laws_orders::law_iceberg_shows_a_slice;
use crate::terms::{
    best_on, cancelled_of, cancels, filled_of, front, goes_on_with, last_price, left_of, lemma_push,
    lemma_sums_nonnegative, limit_of, meta_after, min_of, of_group, opposite, shown, since, sold,
    stands_before, within,
};
use crate::types::{MatchEvent, OrderType, Side, StpMode};
use vstd::prelude::*;

verus! {

/// The event that accepts an order.
pub open spec fn acceptance(before: Engine, order: Incoming) -> MatchEvent {
    MatchEvent::OrderAccepted {
        meta: meta_after(before, 1),
        id: order.id,
        side: order.side,
        price: order.price,
        qty: order.qty,
        order_type: order.order_type,
    }
}

/// Whether an event publishes the level of a resting order.
pub open spec fn publishes(event: MatchEvent, order: Resting) -> bool {
    event matches MatchEvent::BookUpdate { side, price, .. } && side == order.side && price
        == order.price
}

/// Whether the `i`th event is a fair trade of `order`, the events of which start at `n`.
/// The maker rested before, on the other side and within the order's limit, and is not of
/// its group. They trade at the maker's price, and as much as both can: what is left of
/// the order, or what the maker offers at once. The event says what is left of both, and
/// the next one publishes the level.
pub open spec fn fair_trade(
    book: Book,
    events: Seq<MatchEvent>,
    n: int,
    i: int,
    order: Incoming,
) -> bool {
    let so_far = events.subrange(n, i);
    &&& i + 1 < events.len()
    &&& events[i] matches MatchEvent::Fill {
        maker_id,
        taker_id,
        price,
        qty,
        maker_remaining,
        taker_remaining,
        ..
    }
    &&& book.orders.contains_key(maker_id.0)
    &&& {
        let maker = book.orders[maker_id.0];
        let taken = filled_of(so_far, maker_id.0);
        let wanted = order.qty - sold(so_far);
        &&& taker_id == order.id
        &&& maker.side == opposite(order.side)
        &&& within(order.side, limit_of(order), maker.price)
        &&& !of_group(order, maker)
        &&& price == maker.price
        &&& qty > 0
        &&& qty == min_of(wanted, shown(maker, taken))
        &&& maker_remaining == left_of(maker) - taken - qty
        &&& taker_remaining == wanted - qty
        &&& publishes(events[i + 1], maker)
    }
}

/// Whether the `i`th event cancels an order of the group of `order`, which rested before,
/// on the other side and within the limit, with all that was left of it; the next event
/// publishes the level.
pub open spec fn fair_cancel(
    book: Book,
    events: Seq<MatchEvent>,
    n: int,
    i: int,
    order: Incoming,
) -> bool {
    let so_far = events.subrange(n, i);
    &&& i + 1 < events.len()
    &&& events[i] matches MatchEvent::OrderCancelled { id, remaining_qty, .. }
    &&& book.orders.contains_key(id.0)
    &&& {
        let maker = book.orders[id.0];
        &&& maker.side == opposite(order.side)
        &&& within(order.side, limit_of(order), maker.price)
        &&& of_group(order, maker)
        &&& remaining_qty == left_of(maker) - filled_of(so_far, id.0)
        &&& publishes(events[i + 1], maker)
    }
}

/// Whether all events of an order between its acceptance and the `to`th are fair trades,
/// fair cancellations and published levels.
#[verifier::opaque]
pub open spec fn fair_events(
    before: Engine,
    events: Seq<MatchEvent>,
    order: Incoming,
    to: int,
) -> bool {
    let n = before.events.len() as int;
    forall|i: int|
        n < i < to ==> match #[trigger] events[i] {
            MatchEvent::Fill { .. } => fair_trade(before.book, events, n, i, order),
            MatchEvent::OrderCancelled { .. } => fair_cancel(before.book, events, n, i, order)
                && (before.stp_mode == StpMode::CancelOldest || before.stp_mode
                == StpMode::CancelBoth),
            MatchEvent::BookUpdate { .. } => true,
            _ => false,
        }
}

/// Whether every order that rested before is accounted for: an order that still rests is
/// the same but for what was traded of it, and an order that does not was traded or
/// cancelled to the last lot. Only order `m` lost `d` more.
#[verifier::opaque]
pub open spec fn accounted_for(before: Engine, after: Engine, m: u64, d: int) -> bool {
    let events = since(before, after);
    forall|id: u64| #[trigger]
        before.book.orders.contains_key(id) ==> {
            let order = before.book.orders[id];
            let lost = filled_of(events, id) + cancelled_of(events, id) + if id == m {
                d
            } else {
                0
            };
            if after.book.orders.contains_key(id) {
                &&& cancelled_of(events, id) == 0
                &&& after.book.orders[id] == (Resting {
                    filled: (order.filled + lost) as u64,
                    ..order
                })
                &&& left_of(order) >= lost
            } else {
                left_of(order) == lost
            }
        }
}

/// Whether an order is out of the reach of an incoming one: on the same side, or beyond
/// the limit.
pub open spec fn out_of_reach(order: Incoming, side: Side, price: u64) -> bool {
    side == order.side || !within(order.side, limit_of(order), price)
}

/// Whether what is out of reach stays as it is: the orders, and the queues but for the
/// incoming order itself.
#[verifier::opaque]
pub open spec fn left_alone(before: Book, after: Book, order: Incoming) -> bool {
    &&& forall|id: u64| #[trigger]
        before.orders.contains_key(id) && out_of_reach(
            order,
            before.orders[id].side,
            before.orders[id].price,
        ) ==> after.orders.contains_key(id) && after.orders[id] == before.orders[id]
    &&& forall|side: Side, price: u64|
        out_of_reach(order, side, price) && (side, price) != (order.side, order.price)
            ==> #[trigger] after.queues[(side, price)] == before.queues[(side, price)]
}

/// Whether order `id` lost all that it offered at once in `before`, or more.
pub open spec fn lost_slice(before: Book, after: Book, id: u64) -> bool {
    let gone = after.orders[id].filled - before.orders[id].filled;
    gone > 0 && gone >= shown(before.orders[id], 0)
}

/// Whether the queues keep their turn: of two orders that rest at one level before and
/// after, one that stood before the other does so still, unless it lost what it offered
/// at once; and one that lost that stands behind all that did not. Nothing is said of the
/// order `but`.
#[verifier::opaque]
pub open spec fn in_turn(before: Book, after: Book, but: Option<u64>) -> bool {
    forall|side: Side, price: u64, a: u64, b: u64|
        {
            &&& but != Some(a)
            &&& but != Some(b)
            &&& before.queues[(side, price)].contains(a)
            &&& before.queues[(side, price)].contains(b)
            &&& after.orders.contains_key(a)
            &&& after.orders.contains_key(b)
            &&& a != b
            &&& !lost_slice(before, after, a)
            &&& stands_before(before.queues[(side, price)], a, b) || lost_slice(before, after, b)
        } ==> #[trigger] stands_before(after.queues[(side, price)], a, b)
}

/// Whether no order is cancelled by the events from the `from`th on.
pub open spec fn none_cancelled(events: Seq<MatchEvent>, from: int) -> bool {
    forall|i: int| from <= i < events.len() ==> #[trigger] events[i] !is OrderCancelled
}

/// What holds while an order is matched, with `left` of it left: `d` of it and of order
/// `m` was taken away without a trade.
pub open spec fn taking(
    before: Engine,
    now: Engine,
    order: Incoming,
    left: int,
    m: u64,
    d: int,
) -> bool {
    &&& goes_on_with(before, now, acceptance(before, order))
    &&& 0 <= left == order.qty - sold(since(before, now)) - d
    &&& fair_events(before, now.events, order, now.events.len() as int)
    &&& accounted_for(before, now, m, d)
    &&& left_alone(before.book, now.book, order)
    &&& now.book.queues[(order.side, order.price)] == before.book.queues[(order.side, order.price)]
    &&& best_on(now.book, order.side) == best_on(before.book, order.side)
    &&& in_turn(
        before.book,
        now.book,
        if d > 0 {
            Some(m)
        } else {
            None
        },
    )
    &&& forall|id: u64| #[trigger]
        now.book.orders.contains_key(id) ==> before.book.orders.contains_key(id)
    &&& now.last_trade == last_price(since(before, now), before.last_trade)
}

/// Two events more.
proof fn lemma_two_more(
    before: Engine,
    now: Engine,
    next: Engine,
    order: Incoming,
    x: MatchEvent,
    y: MatchEvent,
)
    requires
        goes_on_with(before, now, acceptance(before, order)),
        next.events == now.events.push(x).push(y),
    ensures
        goes_on_with(before, next, acceptance(before, order)),
        since(before, next) == since(before, now).push(x).push(y),
{
    let n = before.events.len() as int;
    assert(next.events.take(n) =~= now.events.take(n));
    assert(since(before, next) =~= since(before, now).push(x).push(y));
}

/// Fair events stay fair when two more follow, of which the first is fair too.
proof fn lemma_fair_on(
    before: Engine,
    events: Seq<MatchEvent>,
    more: Seq<MatchEvent>,
    order: Incoming,
    x: MatchEvent,
    y: MatchEvent,
)
    requires
        fair_events(before, events, order, events.len() as int),
        before.events.len() < events.len(),
        more == events.push(x).push(y),
        y is BookUpdate,
        match x {
            MatchEvent::Fill { .. } => fair_trade(
                before.book,
                more,
                before.events.len() as int,
                events.len() as int,
                order,
            ),
            MatchEvent::OrderCancelled { .. } => fair_cancel(
                before.book,
                more,
                before.events.len() as int,
                events.len() as int,
                order,
            ) && (before.stp_mode == StpMode::CancelOldest || before.stp_mode
                == StpMode::CancelBoth),
            _ => false,
        },
    ensures
        fair_events(before, more, order, more.len() as int),
{
    reveal(fair_events);
    let n = before.events.len() as int;
    assert forall|i: int| n < i < more.len() implies match #[trigger] more[i] {
        MatchEvent::Fill { .. } => fair_trade(before.book, more, n, i, order),
        MatchEvent::OrderCancelled { .. } => fair_cancel(before.book, more, n, i, order) && (
        before.stp_mode == StpMode::CancelOldest || before.stp_mode == StpMode::CancelBoth),
        MatchEvent::BookUpdate { .. } => true,
        _ => false,
    } by {
        if i < events.len() {
            assert(more[i] == events[i]);
            assert(more.subrange(n, i) =~= events.subrange(n, i));
            if i + 1 < events.len() {
                assert(more[i + 1] == events[i + 1]);
            }
        }
    }
}

/// What stands before what in a queue without its `k`th order.
proof fn lemma_before_removed(queue: Seq<u64>, k: int, a: u64, b: u64)
    requires
        0 <= k < queue.len(),
        stands_before(queue, a, b),
        queue[k] != a,
        queue[k] != b,
    ensures
        stands_before(queue.remove(k), a, b),
        stands_before(queue.remove(k).push(queue[k]), a, b),
{
    let (i, j) = choose|i: int, j: int|
        0 <= i < j < queue.len() && #[trigger] queue[i] == a && #[trigger] queue[j] == b;
    let p = if i < k {
        i
    } else {
        i - 1
    };
    let q = if j < k {
        j
    } else {
        j - 1
    };
    let less = queue.remove(k);
    assert(less[p] == a && less[q] == b);
    assert(less.push(queue[k])[p] == a && less.push(queue[k])[q] == b);
}

/// The last order of a queue stands behind every other.
proof fn lemma_before_last(queue: Seq<u64>, a: u64, b: u64)
    requires
        queue.len() > 0,
        queue.last() == b,
        queue.contains(a),
        a != b,
    ensures
        stands_before(queue, a, b),
{
    let i = queue.index_of(a);
    assert(queue[i] == a);
    assert(queue[queue.len() - 1] == b);
}

/// What an order offers once less than that has been taken of it.
proof fn lemma_shown(order: Resting, taken: int, more: int)
    requires
        order.filled <= order.quantity,
        0 <= taken,
        0 <= more,
        taken + more <= left_of(order),
    ensures
        shown(order, taken) == order.reduced(taken).matchable(),
        order.reduced(taken).reduced(more) == order.reduced(taken + more),
        shown(order, 0) == order.matchable(),
        0 < taken < shown(order, 0) ==> shown(order, taken) == shown(order, 0) - taken,
        left_of(order) - taken > 0 ==> 0 < shown(order, taken) <= left_of(order) - taken,
        left_of(order) > 0 ==> shown(order, 0) > 0,
{
    if order.order_type == OrderType::Iceberg && order.visible_quantity > 0 {
        if 0 < taken < shown(order, 0) {
            law_iceberg_shows_a_slice(order, taken);
        }
        let peak = order.visible_quantity as int;
        assert(0 <= (order.filled + taken) % peak < peak) by (nonlinear_arith)
            requires
                peak > 0,
                order.filled + taken >= 0,
        ;
        assert(0 <= (order.filled as int) % peak < peak) by (nonlinear_arith)
            requires
                peak > 0,
                order.filled as int >= 0,
        ;
    }
}

/// Whether two books differ at most in that an order has left a queue of `after`.
spec fn one_out(before: Book, after: Book, id: u64) -> bool {
    let level = (before.orders[id].side, before.orders[id].price);
    &&& before.orders.contains_key(id)
    &&& after.orders == before.orders.remove(id)
    &&& after.queues == before.queues.insert(level, without(before.queues[level], id))
}

/// Where an order leaves, the turn of the others is kept.
proof fn lemma_out_in_turn(before: Book, now: Book, next: Book, id: u64)
    requires
        now.wf(),
        before.wf(),
        in_turn(before, now, None),
        one_out(now, next, id),
    ensures
        in_turn(before, next, None),
{
    reveal(in_turn);
    now.lemma_position(id);
    let gone = now.orders[id];
    assert forall|side: Side, price: u64, a: u64, b: u64|
        {
            &&& before.queues[(side, price)].contains(a)
            &&& before.queues[(side, price)].contains(b)
            &&& next.orders.contains_key(a)
            &&& next.orders.contains_key(b)
            &&& a != b
            &&& !lost_slice(before, next, a)
            &&& stands_before(before.queues[(side, price)], a, b) || lost_slice(before, next, b)
        } implies #[trigger] stands_before(next.queues[(side, price)], a, b) by {
        assert(stands_before(now.queues[(side, price)], a, b));
        if side == gone.side && price == gone.price {
            lemma_before_removed(now.queues[(side, price)], now.position(id), a, b);
        }
    }
}

/// Where an order is partly traded, and goes to the end of its queue where it lost all
/// that it offered at once, the turn is kept.
proof fn lemma_traded_in_turn(before: Book, now: Book, next: Book, id: u64, taken: int, qty: int)
    requires
        now.wf(),
        before.wf(),
        in_turn(before, now, None),
        now.orders.contains_key(id),
        before.orders.contains_key(id),
        0 <= taken,
        0 < qty,
        taken + qty <= left_of(before.orders[id]),
        now.orders[id] == before.orders[id].reduced(taken),
        forall|x: u64| #[trigger] now.orders.contains_key(x) ==> before.orders.contains_key(x)
            && now.orders[x].side == before.orders[x].side && now.orders[x].price
            == before.orders[x].price,
        now.queues[(now.orders[id].side, now.orders[id].price)].len() > 0,
        now.queues[(now.orders[id].side, now.orders[id].price)][0] == id,
        qty <= shown(before.orders[id], taken),
        qty < left_of(before.orders[id]) - taken,
        qty == shown(before.orders[id], taken) ==> next == now.reduce(id, qty).requeue(id),
        qty < shown(before.orders[id], taken) ==> next == now.reduce(id, qty),
    ensures
        in_turn(before, next, None),
{
    reveal(in_turn);
    let order = before.orders[id];
    let level = (order.side, order.price);
    let queue = now.queues[level];
    lemma_shown(order, taken, qty);
    now.lemma_position(id);
    assert(now.queues[level].no_duplicates());
    assert(queue.index_of(id) == 0) by {
        let k = queue.index_of(id);
        assert(queue[k] == queue[0]);
    }
    assert(next.orders == now.orders.insert(id, order.reduced(taken + qty)));
    assert forall|side: Side, price: u64, a: u64, b: u64|
        {
            &&& before.queues[(side, price)].contains(a)
            &&& before.queues[(side, price)].contains(b)
            &&& next.orders.contains_key(a)
            &&& next.orders.contains_key(b)
            &&& a != b
            &&& !lost_slice(before, next, a)
            &&& stands_before(before.queues[(side, price)], a, b) || lost_slice(before, next, b)
        } implies #[trigger] stands_before(next.queues[(side, price)], a, b) by {
        let here = before.queues[(side, price)];
        assert(before.placed((side, price), here[here.index_of(a)]));
        assert(before.placed((side, price), here[here.index_of(b)]));
        assert(now.orders.contains_key(a) && now.orders.contains_key(b));
        assert(now.queues[(side, price)].contains(a));
        assert(now.queues[(side, price)].contains(b));
        if qty < shown(order, taken) {
            assert(!lost_slice(before, now, a));
            assert(lost_slice(before, next, b) ==> lost_slice(before, now, b)) by {
                if b == id && !lost_slice(before, now, b) && taken > 0 {
                    assert(shown(order, taken) == shown(order, 0) - taken);
                }
            }
            assert(stands_before(now.queues[(side, price)], a, b));
        } else {
            assert(lost_slice(before, next, id)) by {
                if taken > 0 && taken < shown(order, 0) {
                    assert(shown(order, taken) == shown(order, 0) - taken);
                }
            }
            assert(a != id);
            if (side, price) == level {
                let moved = next.queues[level];
                assert(moved == queue.remove(0).push(id));
                if b == id {
                    let i = queue.index_of(a);
                    assert(queue[i] == a && i > 0);
                    assert(moved[i - 1] == a);
                    lemma_before_last(moved, a, b);
                } else {
                    assert(stands_before(now.queues[(side, price)], a, b));
                    lemma_before_removed(queue, 0, a, b);
                }
            } else {
                assert(stands_before(now.queues[(side, price)], a, b));
            }
        }
    }
}

/// Where only a maker in reach and its queue change, what is out of reach is left alone.
proof fn lemma_alone_on(before: Book, now: Book, next: Book, order: Incoming, maker: u64)
    requires
        left_alone(before, now, order),
        before.orders.contains_key(maker) ==> before.orders[maker].side == opposite(order.side)
            && within(order.side, limit_of(order), before.orders[maker].price),
        now.orders[maker].side == opposite(order.side),
        within(order.side, limit_of(order), now.orders[maker].price),
        forall|id: u64| #[trigger]
            now.orders.contains_key(id) && id != maker ==> next.orders.contains_key(id)
                && next.orders[id] == now.orders[id],
        forall|level: (Side, u64)|
            level != (now.orders[maker].side, now.orders[maker].price) ==> #[trigger] next.queues[level]
                == now.queues[level],
    ensures
        left_alone(before, next, order),
{
    reveal(left_alone);
    assert forall|side: Side, price: u64|
        out_of_reach(order, side, price) && (side, price) != (order.side, order.price) implies
        #[trigger] next.queues[(side, price)] == before.queues[(side, price)] by {
        assert(now.queues[(side, price)] == before.queues[(side, price)]);
    }
    assert forall|id: u64| #[trigger]
        before.orders.contains_key(id) && out_of_reach(
            order,
            before.orders[id].side,
            before.orders[id].price,
        ) implies next.orders.contains_key(id) && next.orders[id] == before.orders[id] by {
        assert(now.orders.contains_key(id));
    }
}

/// What is known of the maker that comes next.
proof fn lemma_next_maker(before: Engine, now: Engine, order: Incoming, left: int, maker: u64)
    requires
        before.book.wf(),
        now.book.wf(),
        taking(before, now, order, left, 0, 0),
        now.first_maker(order.side, order.reach()) == Some(maker),
    ensures
        order.reach() == limit_of(order),
        order.side.other() == opposite(order.side),
        front(now.book, order.side, limit_of(order)) == Some(maker),
        now.book.orders.contains_key(maker),
        before.book.orders.contains_key(maker),
        ({
            let taken = filled_of(since(before, now), maker);
            let rested = before.book.orders[maker];
            let maker_order = now.book.orders[maker];
            &&& cancelled_of(since(before, now), maker) == 0
            &&& 0 <= taken <= left_of(rested)
            &&& rested.filled <= rested.quantity
            &&& maker_order == rested.reduced(taken)
            &&& maker_order.unfilled() == left_of(rested) - taken
            &&& rested.side == opposite(order.side)
            &&& within(order.side, limit_of(order), rested.price)
            &&& maker_order.matchable() == shown(rested, taken)
            &&& now.book.queues[(rested.side, rested.price)].len() > 0
            &&& now.book.queues[(rested.side, rested.price)][0] == maker
            &&& same_group(order.stp_group, maker_order.stp_group) == of_group(order, rested)
        }),
        forall|x: u64| #[trigger]
            now.book.orders.contains_key(x) ==> before.book.orders.contains_key(x)
                && now.book.orders[x].side == before.book.orders[x].side
                && now.book.orders[x].price == before.book.orders[x].price,
{
    reveal(accounted_for);
    now.lemma_first_maker(order.side, order.reach());
    assert(before.book.orders.contains_key(maker));
    let events = since(before, now);
    lemma_sums_nonnegative(events, maker);
    lemma_shown(before.book.orders[maker], filled_of(events, maker), 0);
    assert forall|x: u64| #[trigger]
        now.book.orders.contains_key(x) implies before.book.orders.contains_key(x)
        && now.book.orders[x].side == before.book.orders[x].side && now.book.orders[x].price
        == before.book.orders[x].price by {
        assert(before.book.orders.contains_key(x));
    }
}

/// Accounts stay right where one order changes and events tell of it.
proof fn lemma_accounts_on(
    before: Engine,
    now: Engine,
    next: Engine,
    maker: u64,
    filled: int,
    cancelled: int,
    d: int,
)
    requires
        accounted_for(before, now, 0, 0),
        before.book.orders.contains_key(maker),
        now.book.orders.contains_key(maker),
        forall|id: u64|
            filled_of(since(before, next), id) == #[trigger] filled_of(since(before, now), id) + (if id
                == maker {
                filled
            } else {
                0
            }),
        forall|id: u64|
            cancelled_of(since(before, next), id) == #[trigger] cancelled_of(since(before, now), id)
                + (if id == maker {
                cancelled
            } else {
                0
            }),
        forall|id: u64|
            id != maker ==> (#[trigger] next.book.orders.contains_key(id)
                == now.book.orders.contains_key(id)) && (now.book.orders.contains_key(id)
                ==> next.book.orders[id] == now.book.orders[id]),
        0 <= filled,
        0 <= cancelled,
        0 <= d,
        filled + cancelled + d <= left_of(now.book.orders[maker]),
        now.book.orders[maker].filled <= now.book.orders[maker].quantity,
        if next.book.orders.contains_key(maker) {
            &&& cancelled == 0
            &&& next.book.orders[maker] == now.book.orders[maker].reduced(filled + d)
        } else {
            filled + cancelled + d == left_of(now.book.orders[maker])
        },
    ensures
        accounted_for(before, next, maker, d),
        d == 0 ==> accounted_for(before, next, 0, 0),
{
    reveal(accounted_for);
    let old_events = since(before, now);
    let events = since(before, next);
    assert forall|id: u64| #[trigger] before.book.orders.contains_key(id) implies {
        let order = before.book.orders[id];
        let lost = filled_of(events, id) + cancelled_of(events, id) + if id == maker {
            d
        } else {
            0
        };
        if next.book.orders.contains_key(id) {
            &&& cancelled_of(events, id) == 0
            &&& next.book.orders[id] == (Resting { filled: (order.filled + lost) as u64, ..order })
            &&& left_of(order) >= lost
        } else {
            left_of(order) == lost
        }
    } by {
        assert(filled_of(events, id) == filled_of(old_events, id) + (if id == maker {
            filled
        } else {
            0
        }));
        assert(cancelled_of(events, id) == cancelled_of(old_events, id) + (if id == maker {
            cancelled
        } else {
            0
        }));
        lemma_sums_nonnegative(old_events, id);
        if id != maker {
            assert(next.book.orders.contains_key(id) == now.book.orders.contains_key(id));
        }
    }
}

/// A maker with nothing left leaves.
proof fn lemma_stale_taken(before: Engine, now: Engine, order: Incoming, left: int, maker: u64)
    requires
        before.book.wf(),
        now.book.wf(),
        taking(before, now, order, left, 0, 0),
        now.first_maker(order.side, order.reach()) == Some(maker),
        now.book.orders[maker].unfilled() == 0,
    ensures
        taking(before, now.take_out(maker), order, left, 0, 0),
{
    let next = now.take_out(maker);
    lemma_next_maker(before, now, order, left, maker);
    lemma_out_in_turn(before.book, now.book, next.book, maker);
    lemma_alone_on(before.book, now.book, next.book, order, maker);
    lemma_accounts_on(before, now, next, maker, 0, 0, 0);
}

/// A maker of the order's group is cancelled.
proof fn lemma_cancel_taken(before: Engine, now: Engine, order: Incoming, left: int, maker: u64)
    requires
        before.book.wf(),
        now.book.wf(),
        taking(before, now, order, left, 0, 0),
        now.first_maker(order.side, order.reach()) == Some(maker),
        now.book.orders[maker].unfilled() > 0,
        same_group(order.stp_group, now.book.orders[maker].stp_group),
        before.stp_mode == StpMode::CancelOldest || before.stp_mode == StpMode::CancelBoth,
    ensures
        taking(before, now.cancel_maker(maker), order, left, 0, 0),
        ({
            let events = now.cancel_maker(maker).events;
            &&& events.len() == now.events.len() + 2
            &&& events[now.events.len() as int] is OrderCancelled
        }),
{
    let next = now.cancel_maker(maker);
    let old_events = since(before, now);
    let k = now.events.len() as int;
    let n = before.events.len() as int;
    lemma_next_maker(before, now, order, left, maker);
    let x = next.events[k];
    let y = next.events[k + 1];
    assert(next.events =~= now.events.push(x).push(y));
    lemma_two_more(before, now, next, order, x, y);
    lemma_out_in_turn(before.book, now.book, next.book, maker);
    lemma_alone_on(before.book, now.book, next.book, order, maker);
    let rest = now.book.orders[maker].unfilled();
    assert forall|id: u64| {
        &&& filled_of(since(before, next), id) == #[trigger] filled_of(old_events, id)
        &&& sold(since(before, next)) == sold(old_events)
        &&& last_price(since(before, next), before.last_trade) == last_price(
            old_events,
            before.last_trade,
        )
    } by {
        lemma_push(old_events, x, id, before.last_trade);
        lemma_push(old_events.push(x), y, id, before.last_trade);
    }
    assert forall|id: u64|
        cancelled_of(since(before, next), id) == #[trigger] cancelled_of(old_events, id) + (if id
            == maker {
            rest
        } else {
            0
        }) by {
        lemma_push(old_events, x, id, before.last_trade);
        lemma_push(old_events.push(x), y, id, before.last_trade);
    }
    assert(filled_of(since(before, next), maker) == filled_of(old_events, maker));
    lemma_accounts_on(before, now, next, maker, 0, rest, 0);
    assert(next.events.subrange(n, k) =~= old_events);
    lemma_fair_on(before, now.events, next.events, order, x, y);
}

/// A maker trades.
proof fn lemma_fill_taken(before: Engine, now: Engine, order: Incoming, left: int, maker: u64)
    requires
        before.book.wf(),
        now.book.wf(),
        left > 0,
        taking(before, now, order, left, 0, 0),
        now.first_maker(order.side, order.reach()) == Some(maker),
        now.book.orders[maker].unfilled() > 0,
        !same_group(order.stp_group, now.book.orders[maker].stp_group),
    ensures
        ({
            let qty = lesser(left, now.book.orders[maker].matchable());
            let next = now.fill(maker, order.id, qty, left - qty);
            &&& taking(before, next, order, left - qty, 0, 0)
            &&& next.events.len() == now.events.len() + 2
            &&& next.events[now.events.len() as int] !is OrderCancelled
            &&& next.events[now.events.len() as int + 1] !is OrderCancelled
        }),
{
    let qty = lesser(left, now.book.orders[maker].matchable());
    let next = now.fill(maker, order.id, qty, left - qty);
    let old_events = since(before, now);
    let k = now.events.len() as int;
    let n = before.events.len() as int;
    lemma_next_maker(before, now, order, left, maker);
    let taken = filled_of(old_events, maker);
    let rested = before.book.orders[maker];
    lemma_shown(rested, taken, qty);
    lemma_sums_nonnegative(old_events, maker);
    let x = next.events[k];
    let y = next.events[k + 1];
    assert(next.events =~= now.events.push(x).push(y));
    lemma_two_more(before, now, next, order, x, y);
    let reduced = now.book.reduce(maker, qty);
    now.book.lemma_reduce(maker, qty);
    assert(in_turn(before.book, next.book, None)) by {
        if qty == left_of(rested) - taken {
            lemma_full_in_turn(before.book, now.book, next.book, maker, qty);
        } else {
            lemma_traded_in_turn(before.book, now.book, next.book, maker, taken, qty);
        }
    }
    lemma_alone_on(before.book, now.book, next.book, order, maker);
    assert(best_on(next.book, order.side) == best_on(now.book, order.side));
    assert forall|id: u64| {
        &&& cancelled_of(since(before, next), id) == #[trigger] cancelled_of(old_events, id)
        &&& sold(since(before, next)) == sold(old_events) + qty
        &&& last_price(since(before, next), before.last_trade) == Some(rested.price)
    } by {
        lemma_push(old_events, x, id, before.last_trade);
        lemma_push(old_events.push(x), y, id, before.last_trade);
    }
    assert forall|id: u64|
        filled_of(since(before, next), id) == #[trigger] filled_of(old_events, id) + (if id == maker {
            qty
        } else {
            0
        }) by {
        lemma_push(old_events, x, id, before.last_trade);
        lemma_push(old_events.push(x), y, id, before.last_trade);
    }
    assert(cancelled_of(since(before, next), maker) == cancelled_of(old_events, maker));
    lemma_accounts_on(before, now, next, maker, qty, 0, 0);
    assert(next.events.subrange(n, k) =~= old_events);
    assert(fair_trade(before.book, next.events, n, k, order));
    lemma_fair_on(before, now.events, next.events, order, x, y);
}

/// Where an order is traded to the last lot and leaves, the turn of the others is kept.
proof fn lemma_full_in_turn(before: Book, now: Book, next: Book, id: u64, qty: int)
    requires
        now.wf(),
        before.wf(),
        in_turn(before, now, None),
        now.orders.contains_key(id),
        0 <= qty <= now.orders[id].unfilled(),
        next == now.reduce(id, qty).take_out(id),
    ensures
        in_turn(before, next, None),
{
    let out = now.take_out(id);
    lemma_out_in_turn(before, now, out, id);
    assert(next.orders =~= out.orders);
    assert(next.queues =~= out.queues);
    reveal(in_turn);
    assert forall|side: Side, price: u64, a: u64, b: u64|
        {
            &&& before.queues[(side, price)].contains(a)
            &&& before.queues[(side, price)].contains(b)
            &&& next.orders.contains_key(a)
            &&& next.orders.contains_key(b)
            &&& a != b
            &&& !lost_slice(before, next, a)
            &&& stands_before(before.queues[(side, price)], a, b) || lost_slice(before, next, b)
        } implies #[trigger] stands_before(next.queues[(side, price)], a, b) by {
        assert(lost_slice(before, out, a) == lost_slice(before, next, a));
        assert(stands_before(out.queues[(side, price)], a, b));
    }
}

/// The order and a maker of its group take the same quantity off each other.
proof fn lemma_decrement_taken(before: Engine, now: Engine, order: Incoming, left: int, maker: u64)
    requires
        before.book.wf(),
        now.book.wf(),
        left > 0,
        taking(before, now, order, left, 0, 0),
        now.first_maker(order.side, order.reach()) == Some(maker),
        now.book.orders[maker].unfilled() > 0,
    ensures
        ({
            let d = lesser(left, now.book.orders[maker].unfilled());
            let next = now.decrement_maker(maker, d);
            &&& taking(before, next, order, left - d, maker, d)
            &&& next.events == now.events.push(next.events.last())
            &&& next.events.last() is BookUpdate
        }),
{
    let d = lesser(left, now.book.orders[maker].unfilled());
    let next = now.decrement_maker(maker, d);
    let old_events = since(before, now);
    let y = next.events.last();
    lemma_next_maker(before, now, order, left, maker);
    let n = before.events.len() as int;
    assert(next.events =~= now.events.push(y));
    assert(next.events.take(n) =~= now.events.take(n));
    assert(since(before, next) =~= old_events.push(y));
    lemma_alone_on(before.book, now.book, next.book, order, maker);
    assert forall|id: u64| {
        &&& filled_of(since(before, next), id) == #[trigger] filled_of(old_events, id)
        &&& sold(since(before, next)) == sold(old_events)
        &&& last_price(since(before, next), before.last_trade) == last_price(
            old_events,
            before.last_trade,
        )
    } by {
        lemma_push(old_events, y, id, before.last_trade);
    }
    assert forall|id: u64|
        cancelled_of(since(before, next), id) == #[trigger] cancelled_of(old_events, id) by {
        lemma_push(old_events, y, id, before.last_trade);
    }
    assert(filled_of(since(before, next), maker) == filled_of(old_events, maker));
    lemma_accounts_on(before, now, next, maker, 0, 0, d);
    lemma_fair_one(before, now.events, next.events, order, y);
    lemma_decrement_in_turn(before.book, now.book, next.book, maker, d);
}

/// Where an order is decremented, the turn of the others is kept.
proof fn lemma_decrement_in_turn(before: Book, now: Book, next: Book, id: u64, d: int)
    requires
        now.wf(),
        before.wf(),
        in_turn(before, now, None),
        now.orders.contains_key(id),
        next == now.reduce(id, d) || next == now.take_out(id),
    ensures
        in_turn(before, next, Some(id)),
{
    if next == now.take_out(id) {
        lemma_out_in_turn(before, now, next, id);
        reveal(in_turn);
    } else {
        reveal(in_turn);
        assert forall|side: Side, price: u64, a: u64, b: u64|
            {
                &&& Some(id) != Some(a)
                &&& Some(id) != Some(b)
                &&& before.queues[(side, price)].contains(a)
                &&& before.queues[(side, price)].contains(b)
                &&& next.orders.contains_key(a)
                &&& next.orders.contains_key(b)
                &&& a != b
                &&& !lost_slice(before, next, a)
                &&& stands_before(before.queues[(side, price)], a, b) || lost_slice(
                    before,
                    next,
                    b,
                )
            } implies #[trigger] stands_before(next.queues[(side, price)], a, b) by {
            assert(lost_slice(before, now, a) == lost_slice(before, next, a));
            assert(lost_slice(before, now, b) == lost_slice(before, next, b));
            assert(stands_before(now.queues[(side, price)], a, b));
        }
    }
}

/// Fair events stay fair when a level is published.
proof fn lemma_fair_one(
    before: Engine,
    events: Seq<MatchEvent>,
    more: Seq<MatchEvent>,
    order: Incoming,
    y: MatchEvent,
)
    requires
        fair_events(before, events, order, events.len() as int),
        before.events.len() < events.len(),
        more == events.push(y),
        y is BookUpdate,
    ensures
        fair_events(before, more, order, more.len() as int),
{
    lemma_fair_prefix(before, events, more, order);
    reveal(fair_events);
}

/// Fair events stay fair whatever follows.
proof fn lemma_fair_prefix(
    before: Engine,
    events: Seq<MatchEvent>,
    more: Seq<MatchEvent>,
    order: Incoming,
)
    requires
        fair_events(before, events, order, events.len() as int),
        before.events.len() < events.len() <= more.len(),
        forall|i: int| 0 <= i < events.len() ==> #[trigger] more[i] == events[i],
    ensures
        fair_events(before, more, order, events.len() as int),
{
    reveal(fair_events);
    let n = before.events.len() as int;
    assert forall|i: int| n < i < events.len() implies match #[trigger] more[i] {
        MatchEvent::Fill { .. } => fair_trade(before.book, more, n, i, order),
        MatchEvent::OrderCancelled { .. } => fair_cancel(before.book, more, n, i, order) && (
        before.stp_mode == StpMode::CancelOldest || before.stp_mode == StpMode::CancelBoth),
        MatchEvent::BookUpdate { .. } => true,
        _ => false,
    } by {
        assert(more[i] == events[i]);
        assert(more.subrange(n, i) =~= events.subrange(n, i));
        if i + 1 < events.len() {
            assert(more[i + 1] == events[i + 1]);
        }
    }
}

/// An order of the group of the incoming one is never traded.
proof fn lemma_group_not_filled(
    before: Engine,
    events: Seq<MatchEvent>,
    order: Incoming,
    id: u64,
    to: int,
)
    requires
        fair_events(before, events, order, events.len() as int),
        before.events.len() < events.len(),
        events[before.events.len() as int] == acceptance(before, order),
        before.book.orders.contains_key(id),
        of_group(order, before.book.orders[id]),
        before.events.len() <= to <= events.len(),
    ensures
        filled_of(events.subrange(before.events.len() as int, to), id) == 0,
    decreases to,
{
    reveal(fair_events);
    let n = before.events.len() as int;
    if to > n {
        lemma_group_not_filled(before, events, order, id, to - 1);
        assert(events.subrange(n, to).drop_last() =~= events.subrange(n, to - 1));
        assert(events.subrange(n, to).last() == events[to - 1]);
        if to - 1 > n {
            match events[to - 1] {
                MatchEvent::Fill { .. } => {
                    assert(fair_trade(before.book, events, n, to - 1, order));
                },
                _ => {},
            }
        }
    }
}

/// How matching ends: `d` of the order and of order `m` was taken away without a trade.
pub open spec fn match_ends(
    before: Engine,
    end: Engine,
    order: Incoming,
    left: int,
    cancel: bool,
    m: u64,
    d: int,
) -> bool {
    let at_front = front(end.book, order.side, limit_of(order));
    &&& taking(before, end, order, left, m, d)
    &&& 0 <= d
    &&& d > 0 ==> taken_off(before, end, order, m, d) && cancel
    &&& !cancel ==> d == 0 && (left == 0 || at_front is None)
    &&& before.stp_mode != StpMode::CancelOldest && (before.stp_mode != StpMode::CancelBoth || !cancel)
        ==> none_cancelled(end.events, before.events.len() as int)
    &&& cancel ==> match before.stp_mode {
        StpMode::CancelNewest => left > 0 && d == 0 && (at_front matches Some(x) && of_group(
            order,
            end.book.orders[x],
        )),
        StpMode::CancelOldest => false,
        StpMode::CancelBoth => d == 0 && some_cancelled(before, end, order),
        StpMode::DecrementAndCancel => d > 0,
    }
}

/// Whether an order other than the incoming one is cancelled.
pub open spec fn some_cancelled(before: Engine, after: Engine, order: Incoming) -> bool {
    exists|i: int|
        before.events.len() < i < after.events.len() && (#[trigger] after.events[i]) is OrderCancelled
            && !cancels(after.events[i], order.id.0)
}

/// Whether `d` of the incoming order and of order `m`, which is of its group and in its
/// reach, was taken away without a trade: all of the one or of the other, and only under
/// `DecrementAndCancel`.
pub open spec fn taken_off(before: Engine, after: Engine, order: Incoming, m: u64, d: int) -> bool {
    let maker = before.book.orders[m];
    &&& before.stp_mode == StpMode::DecrementAndCancel
    &&& before.book.orders.contains_key(m)
    &&& maker.side == opposite(order.side)
    &&& within(order.side, limit_of(order), maker.price)
    &&& of_group(order, maker)
    &&& d == min_of(order.qty - sold(since(before, after)), left_of(maker))
}

/// Matching ends as it should.
proof fn lemma_match_taken(before: Engine, now: Engine, order: Incoming, left: int) -> (md: (u64, int))
    requires
        before.book.wf(),
        now.book.wf(),
        now.stp_mode == before.stp_mode,
        taking(before, now, order, left, 0, 0),
        before.stp_mode != StpMode::CancelOldest ==> none_cancelled(
            now.events,
            before.events.len() as int,
        ),
        !before.book.orders.contains_key(order.id.0),
    ensures
        match_ends(
            before,
            now.match_book(order, left).0,
            order,
            now.match_book(order, left).1,
            now.match_book(order, left).2,
            md.0,
            md.1,
        ),
    decreases left, now.book.orders.dom().len(),
{
    now.lemma_first_maker(order.side, order.reach());
    match now.first_maker(order.side, order.reach()) {
        Some(maker) => {
            if left > 0 {
                let resting = now.book.orders[maker];
                lemma_next_maker(before, now, order, left, maker);
                if resting.unfilled() == 0 {
                    lemma_stale_taken(before, now, order, left, maker);
                    now.lemma_take_out(maker);
                    lemma_match_taken(before, now.take_out(maker), order, left)
                } else if same_group(order.stp_group, resting.stp_group) {
                    match now.stp_mode {
                        StpMode::CancelNewest => (0, 0),
                        StpMode::CancelOldest => {
                            now.lemma_cancel_maker(maker);
                            lemma_cancel_taken(before, now, order, left, maker);
                            lemma_match_taken(before, now.cancel_maker(maker), order, left)
                        },
                        StpMode::CancelBoth => {
                            lemma_cancel_taken(before, now, order, left, maker);
                            let end = now.cancel_maker(maker);
                            assert(end.events[now.events.len() as int] is OrderCancelled);
                            (0, 0)
                        },
                        StpMode::DecrementAndCancel => {
                            let d = lesser(left, resting.unfilled());
                            let end = now.decrement_maker(maker, d);
                            lemma_decrement_taken(before, now, order, left, maker);
                            let n = before.events.len() as int;
                            assert(now.events.subrange(n, now.events.len() as int)
                                =~= since(before, now));
                            lemma_group_not_filled(
                                before,
                                now.events,
                                order,
                                maker,
                                now.events.len() as int,
                            );
                            assert(since(before, end) =~= since(before, now).push(
                                end.events.last(),
                            ));
                            lemma_push(since(before, now), end.events.last(), 0, None);
                            (maker, d)
                        },
                    }
                } else {
                    let qty = lesser(left, resting.matchable());
                    now.lemma_fill(maker, order.id, qty, left - qty);
                    lemma_fill_taken(before, now, order, left, maker);
                    let next = now.fill(maker, order.id, qty, left - qty);
                    assert forall|i: int|
                        before.stp_mode != StpMode::CancelOldest && before.events.len() <= i
                            < next.events.len() implies #[trigger] next.events[i] !is OrderCancelled by {
                        if i < now.events.len() {
                            assert(next.events[i] == now.events[i]);
                        }
                    }
                    lemma_match_taken(before, next, order, left - qty)
                }
            } else {
                (0, 0)
            }
        },
        None => (0, 0),
    }
}

/// An accepted order is matched to its end.
pub proof fn lemma_accepted(before: Engine, order: Incoming) -> (md: (u64, int))
    requires
        before.book.wf(),
        !before.book.orders.contains_key(order.id.0),
    ensures
        ({
            let (end, left, cancel) = before.accepted(order).match_book(order, order.qty as int);
            match_ends(before, end, order, left, cancel, md.0, md.1)
        }),
{
    let now = before.accepted(order);
    let events = since(before, now);
    assert(now.events.take(before.events.len() as int) =~= before.events);
    assert(events =~= seq![acceptance(before, order)]);
    assert(events.drop_last() =~= Seq::empty());
    assert(sold(events) == 0) by {
        reveal_with_fuel(sold, 2);
    }
    assert(last_price(events, before.last_trade) == before.last_trade) by {
        reveal_with_fuel(last_price, 2);
    }
    assert(fair_events(before, now.events, order, now.events.len() as int)) by {
        reveal(fair_events);
    }
    assert(accounted_for(before, now, 0, 0)) by {
        reveal(accounted_for);
        reveal_with_fuel(filled_of, 2);
        reveal_with_fuel(cancelled_of, 2);
    }
    assert(left_alone(before.book, now.book, order)) by {
        reveal(left_alone);
    }
    assert(in_turn(before.book, now.book, None)) by {
        reveal(in_turn);
    }
    lemma_match_taken(before, now, order, order.qty as int)
}

/// No event of matching cancels the incoming order.
pub proof fn lemma_order_not_cancelled(
    before: Engine,
    events: Seq<MatchEvent>,
    order: Incoming,
    i: int,
)
    requires
        fair_events(before, events, order, events.len() as int),
        !before.book.orders.contains_key(order.id.0),
        before.events.len() < i < events.len(),
    ensures
        !cancels(events[i], order.id.0),
        events[i] is Fill || events[i] is OrderCancelled || events[i] is BookUpdate,
{
    reveal(fair_events);
    assert(events[i] == events[i]);
}

/// What is true at the end of matching is true when what is left has been settled.
pub proof fn lemma_ended(
    before: Engine,
    end: Engine,
    after: Engine,
    order: Incoming,
    left: int,
    cancel: bool,
    m: u64,
    d: int,
)
    requires
        before.book.wf(),
        end.book.wf(),
        match_ends(before, end, order, left, cancel, m, d),
        after == end.settle(order, left, cancel),
        !before.book.orders.contains_key(order.id.0),
    ensures
        goes_on_with(before, after, acceptance(before, order)),
        left == order.qty - sold(since(before, after)) - d,
        d > 0 ==> taken_off(before, after, order, m, d),
        fair_events(
            before,
            after.events,
            order,
            if cancels(after.events.last(), order.id.0) {
                after.events.len() - 1
            } else {
                after.events.len() as int
            },
        ),
        accounted_for(before, after, m, d),
        left_alone(before.book, after.book, order),
        in_turn(
            before.book,
            after.book,
            if d > 0 {
                Some(m)
            } else {
                None
            },
        ),
        forall|id: u64| #[trigger]
            after.book.orders.contains_key(id) ==> before.book.orders.contains_key(id) || id
                == order.id.0,
        after.last_trade == last_price(since(before, after), before.last_trade),
        some_cancelled(before, after, order) == some_cancelled(before, end, order),
{
    let n = before.events.len() as int;
    let k = end.events.len() as int;
    let old_events = since(before, end);
    assert(!end.book.orders.contains_key(order.id.0));
    assert(!cancels(end.events.last(), order.id.0)) by {
        if k - 1 > n {
            lemma_order_not_cancelled(before, end.events, order, k - 1);
        } else {
            assert(end.events.last() == end.events[n]);
        }
    }
    if after.events != end.events {
        let x = after.events.last();
        assert(after.events =~= end.events.push(x));
        assert(after.events.take(n) =~= end.events.take(n));
        assert(since(before, after) =~= old_events.push(x));
        lemma_push(old_events, x, 0, before.last_trade);
        lemma_fair_prefix(before, end.events, after.events, order);
        if x is BookUpdate {
            lemma_fair_one(before, end.events, after.events, order, x);
        }
        assert(accounted_for(before, after, m, d)) by {
            reveal(accounted_for);
            assert forall|id: u64| #[trigger] before.book.orders.contains_key(id) implies {
                let resting = before.book.orders[id];
                let events = since(before, after);
                let lost = filled_of(events, id) + cancelled_of(events, id) + if id == m {
                    d
                } else {
                    0
                };
                if after.book.orders.contains_key(id) {
                    &&& cancelled_of(events, id) == 0
                    &&& after.book.orders[id] == (Resting {
                        filled: (resting.filled + lost) as u64,
                        ..resting
                    })
                    &&& left_of(resting) >= lost
                } else {
                    left_of(resting) == lost
                }
            } by {
                lemma_push(old_events, x, id, before.last_trade);
            }
        }
        assert(left_alone(before.book, after.book, order)) by {
            reveal(left_alone);
            assert forall|side: Side, price: u64|
                out_of_reach(order, side, price) && (side, price) != (order.side, order.price)
                implies #[trigger] after.book.queues[(side, price)] == before.book.queues[(
                side,
                price,
            )] by {
                assert(end.book.queues[(side, price)] == before.book.queues[(side, price)]);
            }
        }
        lemma_rest_in_turn(before.book, end.book, after.book, order, m, d);
        assert forall|i: int| n < i < k implies #[trigger] after.events[i] == end.events[i] by {}
        assert(some_cancelled(before, after, order) == some_cancelled(before, end, order)) by {
            if some_cancelled(before, end, order) {
                let i = choose|i: int|
                    n < i < k && (#[trigger] end.events[i]) is OrderCancelled && !cancels(
                        end.events[i],
                        order.id.0,
                    );
                assert(after.events[i] == end.events[i]);
            }
            if some_cancelled(before, after, order) {
                let i = choose|i: int|
                    n < i < after.events.len() && (#[trigger] after.events[i]) is OrderCancelled
                        && !cancels(after.events[i], order.id.0);
                assert(i < k);
                assert(after.events[i] == end.events[i]);
            }
        }
    } else {
        assert(after == end);
    }
}

/// An order at the end of a queue leaves the turn of the others.
proof fn lemma_rest_in_turn(
    before: Book,
    end: Book,
    after: Book,
    order: Incoming,
    m: u64,
    d: int,
)
    requires
        before.wf(),
        !before.orders.contains_key(order.id.0),
        in_turn(
            before,
            end,
            if d > 0 {
                Some(m)
            } else {
                None
            },
        ),
        forall|id: u64|
            id != order.id.0 ==> (#[trigger] after.orders.contains_key(id)
                == end.orders.contains_key(id)) && after.orders[id] == end.orders[id],
        forall|level: (Side, u64)|
            #[trigger] after.queues[level] == end.queues[level] || after.queues[level]
                == end.queues[level].push(order.id.0),
    ensures
        in_turn(
            before,
            after,
            if d > 0 {
                Some(m)
            } else {
                None
            },
        ),
{
    reveal(in_turn);
    let but = if d > 0 {
        Some(m)
    } else {
        None
    };
    assert forall|side: Side, price: u64, a: u64, b: u64|
        {
            &&& but != Some(a)
            &&& but != Some(b)
            &&& before.queues[(side, price)].contains(a)
            &&& before.queues[(side, price)].contains(b)
            &&& after.orders.contains_key(a)
            &&& after.orders.contains_key(b)
            &&& a != b
            &&& !lost_slice(before, after, a)
            &&& stands_before(before.queues[(side, price)], a, b) || lost_slice(before, after, b)
        } implies #[trigger] stands_before(after.queues[(side, price)], a, b) by {
        let here = before.queues[(side, price)];
        assert(before.placed((side, price), here[here.index_of(a)]));
        assert(before.placed((side, price), here[here.index_of(b)]));
        assert(a != order.id.0 && b != order.id.0);
        assert(end.orders.contains_key(a) && end.orders.contains_key(b));
        assert(after.orders.contains_key(a) == end.orders.contains_key(a));
        let queue = end.queues[(side, price)];
        assert(stands_before(queue, a, b));
        let (i, j) = choose|i: int, j: int|
            0 <= i < j < queue.len() && #[trigger] queue[i] == a && #[trigger] queue[j] == b;
        let longer = after.queues[(side, price)];
        assert(longer[i] == a && longer[j] == b);
    }
}

} // verus!
