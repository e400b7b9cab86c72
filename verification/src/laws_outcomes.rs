//! Laws of single orders: when one is refused, how much it trades, when it comes to rest
//! and with how much, and what a cancellation tells.
use crate::engine_model::{lesser, Engine, Incoming};
use crate::laws_best::{clear_side, lemma_no_new_orders};
use crate::laws_commands::{
    law_cancelled_with_what_is_left, law_order_comes_in, law_post_only, refused_for, stopped,
    taken_in,
};
use crate::laws_taking::{accounted_for, fair_events, some_cancelled};
use crate::terms::{
    best_on, cancels, front, in_reach, left_of, lemma_sums_nonnegative, limit_of, of_group, offered,
    opposite, since, sold,
};
use crate::types::{
    OrderId, OrderType, RejectReason, Side, StpMode, TimeInForce, STP_NONE,
};
use vstd::prelude::*;

verus! {

/// Whether no order that an order up to `limit` may trade with is of its group.
pub open spec fn meets_none_of_its_group(state: Engine, order: Incoming, limit: u64) -> bool {
    forall|id: u64| #[trigger]
        state.book.orders.contains_key(id) && in_reach(state.book.orders[id], order.side, limit)
            ==> !of_group(order, state.book.orders[id])
}

/// A limit, market or iceberg order is refused if and only if it asks for nothing, an order
/// with its identifier rests, it is to be filled at once or not at all and less is offered
/// within its limit, or, under `CancelNewest`, the first order that it meets is of its
/// group. A refusal changes nothing in the book. Any other is accepted, and where it meets
/// none of its group it trades all it asks for, or all that is offered within its limit.
pub proof fn law_order_is_refused_or_trades(state: Engine, order: Incoming, limit: u64)
    requires
        state.book.wf(),
        order.order_type == OrderType::Limit || order.order_type == OrderType::Market
            || order.order_type == OrderType::Iceberg,
        order.order_type != OrderType::Market ==> limit == order.price,
        order.order_type == OrderType::Market && order.side == Side::Bid ==> limit == u64::MAX,
        order.order_type == OrderType::Market && order.side == Side::Ask ==> limit == 0,
    ensures
        ({
            let after = state.new_order(order);
            let n = state.events.len() as int;
            let first = after.events[n];
            let met = match order.side {
                Side::Bid => if state.book.best_ask is Some && state.book.best_ask->Some_0
                    <= limit {
                    Some(state.book.queues[(Side::Ask, state.book.best_ask->Some_0)][0])
                } else {
                    None
                },
                Side::Ask => if state.book.best_bid is Some && state.book.best_bid->Some_0
                    >= limit {
                    Some(state.book.queues[(Side::Bid, state.book.best_bid->Some_0)][0])
                } else {
                    None
                },
            };
            let refused = {
                ||| order.qty == 0
                ||| state.book.orders.contains_key(order.id.0)
                ||| order.time_in_force == TimeInForce::FOK && offered(
                    state.book.orders,
                    order.side,
                    limit,
                ) < order.qty
                ||| state.stp_mode == StpMode::CancelNewest && met is Some && order.stp_group
                    is Some && order.stp_group->Some_0 != STP_NONE
                    && state.book.orders[met->Some_0].stp_group == order.stp_group->Some_0
            };
            let other = match order.side {
                Side::Bid => Side::Ask,
                Side::Ask => Side::Bid,
            };
            &&& after.events.len() > n
            &&& refused <==> first is OrderRejected
            &&& !refused <==> first is OrderAccepted
            &&& refused ==> after.book == state.book && after.last_trade == state.last_trade
                && after.events.len() == n + 1
            &&& !refused ==> {
                &&& first->OrderAccepted_id == order.id
                &&& first->OrderAccepted_side == order.side
                &&& first->OrderAccepted_price == order.price
                &&& first->OrderAccepted_qty == order.qty
                &&& first->OrderAccepted_order_type == order.order_type
            }
            &&& !refused && clear_side(state.book, other) && meets_none_of_its_group(
                state,
                order,
                limit,
            ) ==> sold(since(state, after)) == if order.qty <= offered(
                state.book.orders,
                order.side,
                limit,
            ) {
                order.qty as int
            } else {
                offered(state.book.orders, order.side, limit)
            }
        }),
{
    law_order_comes_in(state, order);
}

/// The order that an accepted order would meet next rested before it came in.
proof fn lemma_met(state: Engine, after: Engine, order: Incoming, m: u64, d: int)
    requires
        state.book.wf(),
        after.book.wf(),
        taken_in(state, after, order, m, d),
        !state.book.orders.contains_key(order.id.0),
        after.book.orders.contains_key(order.id.0) ==> after.book.orders[order.id.0].side
            == order.side,
        front(after.book, order.side, limit_of(order)) is Some,
    ensures
        ({
            let x = front(after.book, order.side, limit_of(order))->Some_0;
            &&& state.book.orders.contains_key(x)
            &&& in_reach(state.book.orders[x], order.side, limit_of(order))
            &&& of_group(order, after.book.orders[x]) ==> of_group(order, state.book.orders[x])
        }),
{
    let other = opposite(order.side);
    let x = front(after.book, order.side, limit_of(order))->Some_0;
    let price = best_on(after.book, other)->Some_0;
    assert(after.book.best(other) == Some(price));
    assert(after.book.queue(other, price).len() > 0);
    assert(after.book.placed((other, price), after.book.queues[(other, price)][0]));
    assert(after.book.orders.contains_key(x));
    reveal(accounted_for);
    assert(state.book.orders.contains_key(x));
}

/// What is left of a limit or iceberg order that may rest comes to rest: where it meets
/// none of its group, some of it is left and there is a slot, the book then holds it, with
/// its side, price, group and shown quantity, and with all that it did not trade; no event
/// cancels it. Where it may not rest, or is a market order, what is left is cancelled by
/// the last event, and it does not rest.
pub proof fn law_what_is_left_rests_or_is_cancelled(state: Engine, order: Incoming, limit: u64)
    requires
        state.book.wf(),
        order.order_type == OrderType::Limit || order.order_type == OrderType::Market
            || order.order_type == OrderType::Iceberg,
        order.order_type != OrderType::Market ==> limit == order.price,
        order.order_type == OrderType::Market && order.side == Side::Bid ==> limit == u64::MAX,
        order.order_type == OrderType::Market && order.side == Side::Ask ==> limit == 0,
        !state.book.orders.contains_key(order.id.0),
        meets_none_of_its_group(state, order, limit),
        state.new_order(order).events[state.events.len() as int] is OrderAccepted,
    ensures
        ({
            let after = state.new_order(order);
            let n = state.events.len() as int;
            let left = order.qty - sold(since(state, after));
            &&& 0 <= left <= order.qty
            &&& order.order_type != OrderType::Market && order.time_in_force == TimeInForce::GTC ==> {
                &&& forall|i: int|
                    n <= i < after.events.len() ==> !cancels(
                        #[trigger] after.events[i],
                        order.id.0,
                    )
                &&& left > 0 && after.book.orders.remove(order.id.0).dom().len() < state.free
                    + state.book.orders.dom().len() ==> {
                    let rests = after.book.orders[order.id.0];
                    &&& after.book.orders.contains_key(order.id.0)
                    &&& rests.side == order.side
                    &&& rests.price == order.price
                    &&& left_of(rests) == left
                    &&& rests.quantity == left
                    &&& rests.order_type == order.order_type
                    &&& order.visible_qty is Some ==> rests.visible_quantity
                        == order.visible_qty->Some_0
                    &&& order.visible_qty is None ==> rests.visible_quantity == left
                    &&& order.stp_group is Some ==> rests.stp_group == order.stp_group->Some_0
                    &&& order.stp_group is None ==> rests.stp_group == STP_NONE
                    &&& after.book.queues[(order.side, order.price)].last() == order.id.0
                }
            }
            &&& order.order_type == OrderType::Market || order.time_in_force != TimeInForce::GTC
                ==> {
                &&& !after.book.orders.contains_key(order.id.0)
                &&& left > 0 ==> {
                    &&& after.events.last() is OrderCancelled
                    &&& after.events.last()->OrderCancelled_id == order.id
                    &&& after.events.last()->remaining_qty == left
                }
            }
            &&& left == 0 ==> !after.book.orders.contains_key(order.id.0)
        }),
{
    let after = state.new_order(order);
    law_order_comes_in(state, order);
    state.lemma_new_order(order);
    assert(refused_for(state, order) is None);
    let (m, d) = choose|m: u64, d: int| #[trigger] taken_in(state, after, order, m, d);
    assert(d == 0);
    lemma_sums_nonnegative(since(state, after), 0);
    assert(!some_cancelled(state, after, order)) by {
        reveal(fair_events);
        if some_cancelled(state, after, order) {
            let i = choose|i: int|
                state.events.len() < i < after.events.len() && (#[trigger] after.events[i])
                    is OrderCancelled && !cancels(after.events[i], order.id.0);
            let gone = after.events[i]->OrderCancelled_id.0;
            assert(state.book.orders.contains_key(gone));
        }
    }
    let left = order.qty - sold(since(state, after));
    if stopped(state, after, order, left, d) {
        assert(state.stp_mode == StpMode::CancelNewest);
        lemma_met(state, after, order, m, d);
    }
    if after.book.orders.contains_key(order.id.0) {
        assert(after.book.queues[(order.side, order.price)].last() == order.id.0);
    }
}

/// A post-only order is refused if and only if it would trade at once: a bid where the
/// best ask is at its price or below, an ask where the best bid is at its price or above.
/// Any other is accepted and, where its identifier is new and there is a slot, comes to
/// rest with all of its quantity. It never trades, and no event cancels it.
pub proof fn law_post_only_is_refused_or_rests(state: Engine, order: Incoming)
    requires
        state.book.wf(),
        order.order_type == OrderType::PostOnly,
    ensures
        ({
            let after = state.new_order(order);
            let n = state.events.len() as int;
            let crosses = match order.side {
                Side::Bid => state.book.best_ask is Some && state.book.best_ask->Some_0
                    <= order.price,
                Side::Ask => state.book.best_bid is Some && state.book.best_bid->Some_0
                    >= order.price,
            };
            &&& after.events.len() > n
            &&& crosses <==> after.events[n] is OrderRejected
            &&& crosses ==> {
                &&& after.book == state.book
                &&& after.events.len() == n + 1
                &&& after.events[n]->reason == RejectReason::WouldCrossSpread
                &&& after.events[n]->OrderRejected_id == order.id
            }
            &&& !crosses ==> {
                &&& after.events.len() == n + 2
                &&& after.events[n] is OrderAccepted
                &&& after.events[n + 1] is BookUpdate
                &&& after.events[n]->OrderAccepted_id == order.id
                &&& after.events[n]->OrderAccepted_qty == order.qty
                &&& !state.book.orders.contains_key(order.id.0) && state.free > 0 ==> {
                    let rests = after.book.orders[order.id.0];
                    &&& after.book.orders.contains_key(order.id.0)
                    &&& rests.side == order.side
                    &&& rests.price == order.price
                    &&& left_of(rests) == order.qty
                    &&& after.book.queues[(order.side, order.price)].last() == order.id.0
                    &&& after.events[n + 1]->BookUpdate_qty == after.book.level_qty(
                        order.side,
                        order.price as int,
                    ) as u64
                }
            }
            &&& after.last_trade == state.last_trade
        }),
{
    law_post_only(state, order);
    let after = state.new_order(order);
    let n = state.events.len() as int;
    if after.events.len() == n + 2 {
        assert(after.book.orders.contains_key(order.id.0) && !state.book.orders.contains_key(
            order.id.0,
        ) && state.free > 0 ==> after.book.queues[(order.side, order.price)].last() == order.id.0);
    }
}

/// A cancellation tells what was left of the order just before, and its side then holds
/// less by exactly that; the order rests no more, and all others as before.
pub proof fn law_cancellation_tells_what_was_left(state: Engine, id: OrderId)
    requires
        state.book.wf(),
        state.book.orders.contains_key(id.0),
    ensures
        ({
            let after = state.cancel(id);
            let n = state.events.len() as int;
            let order = state.book.orders[id.0];
            let told = after.events[n];
            &&& after.events.len() == n + 2
            &&& told is OrderCancelled
            &&& told->OrderCancelled_id == id
            &&& told->remaining_qty == order.quantity - order.filled
            &&& after.events[n + 1] is BookUpdate
            &&& after.events[n + 1]->BookUpdate_side == order.side
            &&& after.events[n + 1]->BookUpdate_price == order.price
            &&& after.book.side_qty(order.side) == state.book.side_qty(order.side)
                - told->remaining_qty
            &&& !after.book.orders.contains_key(id.0)
            &&& forall|x: u64|
                x != id.0 ==> #[trigger] after.book.orders.contains_key(x)
                    == state.book.orders.contains_key(x) && after.book.orders[x]
                    == state.book.orders[x]
            &&& after.free == state.free + 1
        }),
{
    law_cancelled_with_what_is_left(state, id);
    state.lemma_take_out(id.0);
}

/// An order that is modified keeps its side and its group and loses its place: where the
/// new price reaches no order of the other side and the new quantity is not zero, the book
/// then holds it as a limit order with the new price and quantity, all of it unfilled, at
/// the end of the queue; all other orders are the same.
pub proof fn law_modified_order_keeps_side_and_group(
    state: Engine,
    id: OrderId,
    new_price: u64,
    new_qty: u64,
)
    requires
        state.book.wf(),
        state.book.orders.contains_key(id.0),
        new_qty > 0,
        match state.book.orders[id.0].side {
            Side::Bid => state.book.best_ask is None || new_price < state.book.best_ask->Some_0,
            Side::Ask => state.book.best_bid is None || new_price > state.book.best_bid->Some_0,
        },
    ensures
        ({
            let after = state.modify(id, new_price, new_qty);
            let n = state.events.len() as int;
            let old_order = state.book.orders[id.0];
            let new_order = after.book.orders[id.0];
            &&& after.events.len() == n + 4
            &&& after.events[n] is OrderModified
            &&& after.events[n]->OrderModified_id == id
            &&& after.events[n]->new_price == new_price
            &&& after.events[n]->new_qty == new_qty
            &&& after.events[n + 1] is BookUpdate
            &&& after.events[n + 1]->BookUpdate_side == old_order.side
            &&& after.events[n + 1]->BookUpdate_price == old_order.price
            &&& after.events[n + 2] is OrderAccepted
            &&& after.events[n + 3] is BookUpdate
            &&& after.events[n + 3]->BookUpdate_side == old_order.side
            &&& after.events[n + 3]->BookUpdate_price == new_price
            &&& after.book.orders.contains_key(id.0)
            &&& new_order.side == old_order.side
            &&& new_order.stp_group == old_order.stp_group
            &&& new_order.price == new_price
            &&& new_order.quantity == new_qty
            &&& new_order.filled == 0
            &&& new_order.order_type == OrderType::Limit
            &&& after.book.queues[(old_order.side, new_price)].last() == id.0
            &&& forall|x: u64|
                x != id.0 ==> #[trigger] after.book.orders.contains_key(x)
                    == state.book.orders.contains_key(x) && (state.book.orders.contains_key(x)
                    ==> after.book.orders[x] == state.book.orders[x])
            &&& after.last_trade == state.last_trade
        }),
{
    let after = state.modify(id, new_price, new_qty);
    let between = state.replacing(id, new_price, new_qty);
    let order = Incoming::replacement(id, state.book.orders[id.0], new_price, new_qty);
    state.lemma_take_out(id.0);
    assert(between.book == state.take_out(id.0).book);
    assert(between.first_maker(order.side, new_price) is None);
    assert(between.accepted(order).match_book(order, new_qty as int) == (
        between.accepted(order),
        new_qty as int,
        false,
    ));
    assert(between.free > 0);
    assert(after == between.accepted(order).settle(order, new_qty as int, false));
}

/// What happens where the first order that an accepted order meets is of its group. Under
/// `CancelNewest` no such order is accepted. Under `CancelOldest` the other is cancelled
/// with all that was left of it. Under `CancelBoth` so is the incoming one, and nothing
/// trades. Under `DecrementAndCancel` both lose what they have in common, nothing trades,
/// and what is then left of the incoming one is cancelled.
pub proof fn law_first_met_is_of_its_group(state: Engine, order: Incoming, x: u64)
    requires
        state.book.wf(),
        order.order_type == OrderType::Limit || order.order_type == OrderType::Market
            || order.order_type == OrderType::Iceberg,
        front(state.book, order.side, limit_of(order)) == Some(x),
        of_group(order, state.book.orders[x]),
        left_of(state.book.orders[x]) > 0,
        state.new_order(order).events[state.events.len() as int] is OrderAccepted,
    ensures
        ({
            let after = state.new_order(order);
            let n = state.events.len() as int;
            let own = left_of(state.book.orders[x]);
            let common = if order.qty <= own {
                order.qty as int
            } else {
                own
            };
            match state.stp_mode {
                StpMode::CancelNewest => false,
                StpMode::CancelOldest => {
                    &&& after.events.len() > n + 2
                    &&& after.events[n + 1] is OrderCancelled
                    &&& after.events[n + 1]->OrderCancelled_id.0 == x
                    &&& after.events[n + 1]->remaining_qty == own
                    &&& !after.book.orders.contains_key(x)
                },
                StpMode::CancelBoth => {
                    &&& after.events.len() == n + 4
                    &&& after.events[n + 1] is OrderCancelled
                    &&& after.events[n + 1]->OrderCancelled_id.0 == x
                    &&& after.events[n + 1]->remaining_qty == own
                    &&& after.events[n + 2] is BookUpdate
                    &&& after.events[n + 3] is OrderCancelled
                    &&& after.events[n + 3]->OrderCancelled_id == order.id
                    &&& after.events[n + 3]->remaining_qty == order.qty
                    &&& !after.book.orders.contains_key(x)
                    &&& !after.book.orders.contains_key(order.id.0)
                    &&& after.last_trade == state.last_trade
                },
                StpMode::DecrementAndCancel => {
                    &&& after.events.len() == n + 3
                    &&& after.events[n + 1] is BookUpdate
                    &&& after.events[n + 2] is OrderCancelled
                    &&& after.events[n + 2]->OrderCancelled_id == order.id
                    &&& after.events[n + 2]->remaining_qty == order.qty - common
                    &&& !after.book.orders.contains_key(order.id.0)
                    &&& common == own ==> !after.book.orders.contains_key(x)
                    &&& common < own ==> after.book.orders.contains_key(x) && left_of(
                        after.book.orders[x],
                    ) == own - common
                    &&& after.last_trade == state.last_trade
                },
            }
        }),
{
    let after = state.new_order(order);
    let accepted = state.accepted(order);
    let n = state.events.len() as int;
    accepted.lemma_first_maker(order.side, limit_of(order));
    assert(accepted.first_maker(order.side, order.reach()) == Some(x));
    assert(state.first_maker(order.side, order.reach()) == Some(x));
    assert(state.refusal(order) is None);
    let (matched, left, cancel) = accepted.match_book(order, order.qty as int);
    if state.stp_mode == StpMode::CancelOldest {
        let next = accepted.cancel_maker(x);
        accepted.lemma_cancel_maker(x);
        next.lemma_match_book(order, order.qty as int);
        matched.lemma_settle(order, left, cancel);
        lemma_no_new_orders(next, order, order.qty as int);
        assert(!next.book.orders.contains_key(x));
        assert(next.events[n + 1] is OrderCancelled);
        assert(matched.events[n + 1] == next.events[n + 1]);
        assert(after.events[n + 1] == matched.events[n + 1]);
        assert(x != order.id.0);
    } else if state.stp_mode == StpMode::CancelBoth {
        accepted.lemma_cancel_maker(x);
        assert(matched == accepted.cancel_maker(x));
    } else if state.stp_mode == StpMode::DecrementAndCancel {
        let overlap = lesser(order.qty as int, left_of(state.book.orders[x]));
        accepted.lemma_decrement_maker(x, overlap);
        assert(matched == accepted.decrement_maker(x, overlap));
    }
}

/// The first trade of an accepted order is with the oldest order at the best opposite
/// price, where it is not of its group, at that order's price, and as large as it can be:
/// all that the order asks for, all that is left of the other or, where that is an iceberg
/// order, what is left of the slice that it shows. The event tells what is left of both.
pub proof fn law_first_trade(state: Engine, order: Incoming, x: u64)
    requires
        state.book.wf(),
        order.order_type == OrderType::Limit || order.order_type == OrderType::Market
            || order.order_type == OrderType::Iceberg,
        front(state.book, order.side, limit_of(order)) == Some(x),
        !of_group(order, state.book.orders[x]),
        left_of(state.book.orders[x]) > 0,
        state.new_order(order).events[state.events.len() as int] is OrderAccepted,
    ensures
        ({
            let after = state.new_order(order);
            let n = state.events.len() as int;
            let maker = state.book.orders[x];
            let peak = maker.visible_quantity as int;
            let slice = peak - maker.filled as int % peak;
            let shows = if maker.order_type == OrderType::Iceberg && peak > 0 && slice < left_of(
                maker,
            ) {
                slice
            } else {
                left_of(maker)
            };
            let qty = if order.qty <= shows {
                order.qty as int
            } else {
                shows
            };
            let trade = after.events[n + 1];
            &&& after.events.len() > n + 2
            &&& trade is Fill
            &&& trade->maker_id.0 == x
            &&& trade->taker_id == order.id
            &&& trade->Fill_price == maker.price
            &&& trade->Fill_qty == qty
            &&& trade->maker_remaining == left_of(maker) - qty
            &&& trade->taker_remaining == order.qty - qty
            &&& after.events[n + 2] is BookUpdate
            &&& after.events[n + 2]->BookUpdate_side == maker.side
            &&& after.events[n + 2]->BookUpdate_price == maker.price
            &&& after.events[n + 2]->BookUpdate_qty == (state.book.level_qty(
                maker.side,
                maker.price as int,
            ) - qty) as u64
        }),
{
    let after = state.new_order(order);
    let accepted = state.accepted(order);
    let n = state.events.len() as int;
    let maker = state.book.orders[x];
    accepted.lemma_first_maker(order.side, limit_of(order));
    assert(accepted.first_maker(order.side, order.reach()) == Some(x));
    assert(state.refusal(order) is None);
    let (matched, left, cancel) = accepted.match_book(order, order.qty as int);
    let qty = lesser(order.qty as int, maker.matchable());
    let next = accepted.fill(x, order.id, qty, order.qty - qty);
    accepted.lemma_fill(x, order.id, qty, order.qty - qty);
    accepted.book.lemma_reduce(x, qty);
    assert(next.events.len() == n + 3);
    next.lemma_match_book(order, order.qty - qty);
    matched.lemma_settle(order, left, cancel);
    assert(matched.events[n + 1] == next.events[n + 1]);
    assert(matched.events[n + 2] == next.events[n + 2]);
    assert(after.events[n + 1] == matched.events[n + 1]);
    assert(after.events[n + 2] == matched.events[n + 2]);
}

/// A stop of no group that triggers acts as a limit order with the side, limit, quantity
/// and time in force that it was sent with. That it triggers is told first. It is refused
/// if and only if it asks for nothing, or is to be filled at once or not at all and less
/// is offered within its limit; then it changes nothing in the book. Any other is
/// accepted. What is left of one that may rest comes to rest, where there is a slot, and
/// what is left of one that may not is cancelled.
pub proof fn law_triggered_stop_acts_as_sent(state: Engine, side: Side)
    requires
        state.book.wf(),
        state.stops(side).len() > 0,
        state.stops(side)[0].1.stp_group is None,
        !state.book.orders.contains_key(state.stops(side)[0].1.id.0),
    ensures
        ({
            let stop = state.stops(side)[0].1;
            let after = state.trigger(side);
            let n = state.events.len() as int;
            let answer = after.events[n + 1];
            let left = stop.qty - sold(after.events.skip(n + 1));
            let refused = stop.qty == 0 || stop.time_in_force == TimeInForce::FOK && offered(
                state.book.orders,
                stop.side,
                stop.limit_price,
            ) < stop.qty;
            &&& after.events.len() > n + 1
            &&& after.events[n] is StopTriggered
            &&& after.events[n]->stop_id == stop.id
            &&& after.events[n]->new_order_id == stop.id
            &&& refused <==> answer is OrderRejected
            &&& refused ==> after.book == state.book && after.events.len() == n + 2
            &&& !refused ==> {
                &&& answer is OrderAccepted
                &&& answer->OrderAccepted_id == stop.id
                &&& answer->OrderAccepted_side == stop.side
                &&& answer->OrderAccepted_price == stop.limit_price
                &&& answer->OrderAccepted_qty == stop.qty
                &&& 0 <= left <= stop.qty
            }
            &&& !refused && stop.time_in_force == TimeInForce::GTC && left > 0
                && after.book.orders.remove(stop.id.0).dom().len() < state.free
                + state.book.orders.dom().len() ==> {
                &&& after.book.orders.contains_key(stop.id.0)
                &&& after.book.orders[stop.id.0].side == stop.side
                &&& after.book.orders[stop.id.0].price == stop.limit_price
                &&& left_of(after.book.orders[stop.id.0]) == left
            }
            &&& stop.time_in_force != TimeInForce::GTC ==> !after.book.orders.contains_key(
                stop.id.0,
            )
            &&& !refused && stop.time_in_force != TimeInForce::GTC && left > 0 ==> {
                &&& after.events.last() is OrderCancelled
                &&& after.events.last()->OrderCancelled_id == stop.id
                &&& after.events.last()->remaining_qty == left
            }
        }),
{
    let stop = state.stops(side)[0].1;
    let after = state.trigger(side);
    let ready = state.triggering(side);
    let order = stop.order();
    let n = state.events.len() as int;
    law_order_is_refused_or_trades(ready, order, stop.limit_price);
    ready.lemma_new_order(order);
    assert(after == ready.new_order(order));
    assert(ready.events.len() == n + 1);
    assert(after.events[n] == ready.events[n]);
    assert(since(ready, after) == after.events.skip(n + 1));
    if after.events[n + 1] is OrderAccepted {
        law_what_is_left_rests_or_is_cancelled(ready, order, stop.limit_price);
    }
}

} // verus!
