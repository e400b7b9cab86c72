//! Laws of whole commands: a command takes its own step, and then the stops that its
//! trades make due come in, one after the other, as the limit orders they were sent as.
use crate::engine_model::{triggers, Engine, Incoming, StopEntry};
use crate::laws_commands::{
    comes_in, law_cancelled_with_what_is_left, law_modified_is_replaced, law_order_comes_in,
    law_post_only, law_stop_limit_waits, posted, refused_for, replaced, slots_of, stopped, taken_in,
    waits, withdrawn,
};
use crate::laws_taking::{fair_events, some_cancelled};
use crate::terms::{
    last_price, left_of, lemma_sums_nonnegative, meta_after, offered, since, sold, stops_on,
};
use crate::types::{Command, MatchEvent, OrderType, Side, TimeInForce};
use vstd::prelude::*;

verus! {

/// Whether a trade at `last` makes a stop at `price` due: the price has risen to that of
/// a buy stop or beyond, or fallen to that of a sell stop or beyond.
pub open spec fn due(side: Side, price: u64, last: u64) -> bool {
    match side {
        Side::Bid => last >= price,
        Side::Ask => last <= price,
    }
}

/// Whether the next stop of `side` is due.
pub open spec fn next_is_due(state: Engine, side: Side, last: u64) -> bool {
    stops_on(state, side).len() > 0 && due(side, stops_on(state, side)[0].0, last)
}

/// The limit order that a stop was sent as.
pub open spec fn sent_as(stop: StopEntry) -> Incoming {
    Incoming {
        id: stop.id,
        side: stop.side,
        price: stop.limit_price,
        qty: stop.qty,
        order_type: OrderType::Limit,
        time_in_force: stop.time_in_force,
        visible_qty: stop.visible_qty,
        stop_price: None,
        stp_group: stop.stp_group,
    }
}

/// The state in which the next stop of `side` no longer waits, and that it has triggered
/// is told.
pub open spec fn released(state: Engine, side: Side) -> Engine {
    let stop = stops_on(state, side)[0].1;
    Engine {
        stop_bids: match side {
            Side::Bid => state.stop_bids.drop_first(),
            Side::Ask => state.stop_bids,
        },
        stop_asks: match side {
            Side::Bid => state.stop_asks,
            Side::Ask => state.stop_asks.drop_first(),
        },
        sequence: state.sequence + 1,
        events: state.events.push(
            MatchEvent::StopTriggered {
                meta: meta_after(state, 1),
                stop_id: stop.id,
                new_order_id: stop.id,
            },
        ),
        ..state
    }
}

/// Whether the next stop of `side` triggers at `last` and comes in as it was sent. Buy
/// stops go first.
pub open spec fn fires(before: Engine, after: Engine, side: Side, last: u64) -> bool {
    &&& next_is_due(before, side, last)
    &&& side == Side::Ask ==> !next_is_due(before, Side::Bid, last)
    &&& comes_in(released(before, side), after, sent_as(stops_on(before, side)[0].1))
}

/// Whether one step of the cascade leads from `before`, where stops trigger at `last`, to
/// `after`, where they trigger at `next`: a stop triggers, or none is due and the last
/// trade was at another price, which then counts.
pub open spec fn goes_off(before: Engine, after: Engine, last: u64, next: u64) -> bool {
    if next_is_due(before, Side::Bid, last) {
        next == last && fires(before, after, Side::Bid, last)
    } else if next_is_due(before, Side::Ask, last) {
        next == last && fires(before, after, Side::Ask, last)
    } else {
        before.last_trade == Some(next) && next != last && after == before
    }
}

/// Whether `n` steps of the cascade lead from `before` to `after`, and there no stop is
/// due at the price of the last trade.
pub open spec fn cascades(before: Engine, after: Engine, last: u64, n: nat) -> bool
    decreases n,
{
    if n == 0 {
        &&& after == before
        &&& before.last_trade == Some(last)
        &&& !next_is_due(before, Side::Bid, last)
        &&& !next_is_due(before, Side::Ask, last)
    } else {
        exists|between: Engine, next: u64| #[trigger]
            goes_off(before, between, last, next) && cascades(between, after, next, (n - 1) as nat)
    }
}

/// The step that a command takes of its own: its order comes in, is posted or waits, or
/// an order is withdrawn or replaced.
pub open spec fn own_step(before: Engine, after: Engine, command: Command) -> bool {
    match command {
        Command::NewOrder {
            id,
            instrument_id,
            side,
            price,
            qty,
            order_type,
            time_in_force,
            visible_qty,
            stop_price,
            stp_group,
        } => {
            let order = Incoming {
                id,
                side,
                price,
                qty,
                order_type,
                time_in_force,
                visible_qty,
                stop_price,
                stp_group,
            };
            match order_type {
                OrderType::PostOnly => posted(before, after, order),
                OrderType::StopLimit => waits(before, after, order),
                _ => comes_in(before, after, order),
            }
        },
        Command::CancelOrder { id } => withdrawn(before, after, id),
        Command::ModifyOrder { id, new_price, new_qty } => replaced(
            before,
            after,
            id,
            new_price,
            new_qty,
        ),
    }
}

/// The state before a command, with no events of its own yet.
pub open spec fn at_rest(state: Engine) -> Engine {
    Engine { events: Seq::empty(), ..state }
}

/// Whether `after` is what a command makes of `before`: it takes its own step and, where
/// there has been a trade, the cascade follows.
pub open spec fn carried_out(before: Engine, after: Engine, command: Command) -> bool {
    exists|between: Engine|
        {
            &&& #[trigger] own_step(at_rest(before), between, command)
            &&& match between.last_trade {
                None => after == between,
                Some(last) => exists|n: nat| #[trigger] cascades(between, after, last, n),
            }
        }
}

/// A stop that triggers comes in as it was sent.
proof fn lemma_fires(state: Engine, side: Side, last: u64)
    requires
        state.book.wf(),
        next_is_due(state, side, last),
        side == Side::Ask ==> !next_is_due(state, Side::Bid, last),
    ensures
        fires(state, state.trigger(side), side, last),
{
    let stop = stops_on(state, side)[0].1;
    assert(state.triggering(side) =~= released(state, side));
    assert(stop.order() == sent_as(stop));
    law_order_comes_in(released(state, side), sent_as(stop));
}

/// What follows when the stops of a side have come in follows from before they did.
proof fn lemma_side_cascades(
    state: Engine,
    side: Side,
    last: u64,
    after: Engine,
    n: nat,
) -> (more: nat)
    requires
        state.book.wf(),
        side == Side::Ask ==> !next_is_due(state, Side::Bid, last),
        cascades(state.drain_side(side, last), after, last, n),
    ensures
        cascades(state, after, last, more),
    decreases state.stops(side).len(),
{
    if next_is_due(state, side, last) {
        assert(triggers(side, state.stops(side)[0].0, last));
        let next = state.trigger(side);
        state.lemma_trigger(side);
        lemma_fires(state, side, last);
        let rest = lemma_side_cascades(next, side, last, after, n);
        assert(goes_off(state, next, last, last));
        (rest + 1) as nat
    } else {
        assert(state.drain_side(side, last) == state);
        n
    }
}

/// Draining a side leaves its next stop not due, and the stops of the other side.
proof fn lemma_side_not_due(state: Engine, side: Side, last: u64)
    requires
        state.book.wf(),
    ensures
        !next_is_due(state.drain_side(side, last), side, last),
        stops_on(state.drain_side(side, last), side.other()) == stops_on(state, side.other()),
    decreases state.stops(side).len(),
{
    if next_is_due(state, side, last) {
        state.lemma_trigger(side);
        lemma_side_not_due(state.trigger(side), side, last);
    }
}

/// Draining the stops is the cascade.
proof fn lemma_cascades(state: Engine, last: u64) -> (n: nat)
    requires
        state.book.wf(),
        state.last_trade == Some(last),
    ensures
        cascades(state, state.drain(), last, n),
    decreases state.stop_bids.len() + state.stop_asks.len(),
{
    let bids = state.drain_side(Side::Bid, last);
    let both = bids.drain_side(Side::Ask, last);
    state.lemma_drain_side(Side::Bid, last);
    bids.lemma_drain_side(Side::Ask, last);
    lemma_side_not_due(state, Side::Bid, last);
    lemma_side_not_due(bids, Side::Ask, last);
    assert(!next_is_due(both, Side::Bid, last));
    let n: nat = if both.last_trade == Some(last) {
        assert(cascades(both, state.drain(), last, 0));
        0
    } else {
        lemma_last_trade_stays(state, Side::Bid, last);
        lemma_last_trade_stays(bids, Side::Ask, last);
        let next = both.last_trade->Some_0;
        let rest = lemma_cascades(both, next);
        assert(goes_off(both, both, last, next));
        (rest + 1) as nat
    };
    let asks = lemma_side_cascades(bids, Side::Ask, last, state.drain(), n);
    lemma_side_cascades(state, Side::Bid, last, state.drain(), asks)
}

/// Where there was a trade, there still was when the stops of a side have come in.
proof fn lemma_last_trade_stays(state: Engine, side: Side, last: u64)
    requires
        state.book.wf(),
        state.last_trade is Some,
    ensures
        state.drain_side(side, last).last_trade is Some,
    decreases state.stops(side).len(),
{
    if next_is_due(state, side, last) {
        let mid = state.triggering(side);
        let order = state.stops(side)[0].1.order();
        state.lemma_trigger(side);
        lemma_trade_stays(mid, order);
        lemma_last_trade_stays(state.trigger(side), side, last);
    }
}

/// Where there was a trade, there still was when an order has come in.
proof fn lemma_trade_stays(state: Engine, order: Incoming)
    requires
        state.book.wf(),
        state.last_trade is Some,
        order.order_type == OrderType::Limit,
    ensures
        state.new_order(order).last_trade is Some,
{
    law_order_comes_in(state, order);
    let after = state.new_order(order);
    if exists|m: u64, d: int| #[trigger] taken_in(state, after, order, m, d) {
        lemma_last_price(since(state, after), state.last_trade);
    }
}

/// A last trade stays one.
proof fn lemma_last_price(events: Seq<MatchEvent>, before: Option<u64>)
    requires
        before is Some,
    ensures
        last_price(events, before) is Some,
    decreases events.len(),
{
    if events.len() > 0 {
        lemma_last_price(events.drop_last(), before);
    }
}

/// Every command is carried out: it takes its own step, and then the stops that are due
/// come in as they were sent, buy stops first, the next to trigger first, until none is
/// due at the price of the last trade.
pub proof fn law_command_is_carried_out(state: Engine, command: Command)
    requires
        state.book.wf(),
    ensures
        carried_out(state, state.process(command), command),
{
    let ready = at_rest(state);
    let between = match command {
        Command::NewOrder {
            id,
            instrument_id,
            side,
            price,
            qty,
            order_type,
            time_in_force,
            visible_qty,
            stop_price,
            stp_group,
        } => {
            let order = Incoming {
                id,
                side,
                price,
                qty,
                order_type,
                time_in_force,
                visible_qty,
                stop_price,
                stp_group,
            };
            ready.lemma_new_order(order);
            match order_type {
                OrderType::PostOnly => law_post_only(ready, order),
                OrderType::StopLimit => law_stop_limit_waits(ready, order),
                _ => law_order_comes_in(ready, order),
            }
            ready.new_order(order)
        },
        Command::CancelOrder { id } => {
            ready.lemma_cancel(id);
            law_cancelled_with_what_is_left(ready, id);
            ready.cancel(id)
        },
        Command::ModifyOrder { id, new_price, new_qty } => {
            ready.lemma_modify(id, new_price, new_qty);
            law_modified_is_replaced(ready, id, new_price, new_qty);
            ready.modify(id, new_price, new_qty)
        },
    };
    assert(own_step(ready, between, command));
    assert(state.process(command) == between.drain());
    if let Some(last) = between.last_trade {
        let n = lemma_cascades(between, last);
        assert(cascades(between, state.process(command), last, n));
    }
}

/// A stop that triggers keeps the time in force that it was sent with: one that may only
/// take what is there at once does not rest, and one that is to be filled at once or not
/// at all, and asks for more than is offered within its limit, changes nothing in the
/// book and trades nothing.
pub proof fn law_triggered_stop_keeps_time_in_force(
    before: Engine,
    after: Engine,
    side: Side,
    last: u64,
)
    requires
        fires(before, after, side, last),
        stops_on(before, side)[0].1.time_in_force != TimeInForce::GTC,
        !before.book.orders.contains_key(stops_on(before, side)[0].1.id.0),
    ensures
        ({
            let stop = stops_on(before, side)[0].1;
            &&& !after.book.orders.contains_key(stop.id.0)
            &&& stop.time_in_force == TimeInForce::FOK && offered(
                before.book.orders,
                stop.side,
                stop.limit_price,
            ) < stop.qty ==> {
                &&& after.book == before.book
                &&& after.last_trade == before.last_trade
                &&& after.events.len() == before.events.len() + 2
                &&& after.events.last() is OrderRejected
            }
        }),
{
}

/// A stop that triggers, may rest and is of no group comes to rest with what it does not
/// trade, where there is a slot.
pub proof fn law_triggered_stop_may_rest(before: Engine, after: Engine, side: Side, last: u64)
    requires
        fires(before, after, side, last),
        stops_on(before, side)[0].1.time_in_force == TimeInForce::GTC,
        stops_on(before, side)[0].1.stp_group is None,
        stops_on(before, side)[0].1.qty > 0,
        !before.book.orders.contains_key(stops_on(before, side)[0].1.id.0),
        after.book.orders.remove(stops_on(before, side)[0].1.id.0).dom().len() < slots_of(before),
    ensures
        ({
            let stop = stops_on(before, side)[0].1;
            let left = stop.qty - sold(since(released(before, side), after));
            left > 0 ==> {
                &&& after.book.orders.contains_key(stop.id.0)
                &&& after.book.orders[stop.id.0].side == stop.side
                &&& after.book.orders[stop.id.0].price == stop.limit_price
                &&& left_of(after.book.orders[stop.id.0]) == left
            }
        }),
{
    let ready = released(before, side);
    let order = sent_as(stops_on(before, side)[0].1);
    if refused_for(ready, order) is None {
        let (m, d) = choose|m: u64, d: int| #[trigger] taken_in(ready, after, order, m, d);
        assert(!some_cancelled(ready, after, order)) by {
            reveal(fair_events);
        }
        lemma_sums_nonnegative(since(ready, after), 0);
        assert(!stopped(ready, after, order, order.qty - sold(since(ready, after)) - d, d));
    }
}

/// Which stop triggers next, once a command has taken its own step: the first buy stop if
/// the last trade was at its price or above, or else the first sell stop if the last trade
/// was at its price or below. The next event tells of it. Where neither is due, or there
/// was no trade, nothing happens.
pub proof fn law_next_stop_to_trigger(state: Engine)
    requires
        state.book.wf(),
    ensures
        ({
            let after = state.drain();
            let n = state.events.len() as int;
            let last = state.last_trade->Some_0;
            if state.last_trade is Some && state.stop_bids.len() > 0 && state.stop_bids[0].0
                <= last {
                &&& after.events.len() > n
                &&& after.events[n] is StopTriggered
                &&& after.events[n]->stop_id == state.stop_bids[0].1.id
                &&& after.events[n]->new_order_id == state.stop_bids[0].1.id
            } else if state.last_trade is Some && state.stop_asks.len() > 0
                && state.stop_asks[0].0 >= last {
                &&& after.events.len() > n
                &&& after.events[n] is StopTriggered
                &&& after.events[n]->stop_id == state.stop_asks[0].1.id
                &&& after.events[n]->new_order_id == state.stop_asks[0].1.id
            } else {
                after == state
            }
        }),
{
    if let Some(last) = state.last_trade {
        let bids = state.drain_side(Side::Bid, last);
        let both = bids.drain_side(Side::Ask, last);
        state.lemma_drain_side(Side::Bid, last);
        bids.lemma_drain_side(Side::Ask, last);
        state.lemma_drain();
        if both.last_trade != Some(last) {
            both.lemma_drain();
        }
        if next_is_due(state, Side::Bid, last) {
            lemma_told_first(state, Side::Bid, last);
        } else if next_is_due(state, Side::Ask, last) {
            assert(bids == state);
            lemma_told_first(state, Side::Ask, last);
        }
    }
}

/// A stop that triggers first is told of first.
proof fn lemma_told_first(state: Engine, side: Side, last: u64)
    requires
        state.book.wf(),
        next_is_due(state, side, last),
    ensures
        ({
            let after = state.drain_side(side, last);
            let n = state.events.len() as int;
            &&& after.events.len() > n
            &&& after.events[n] == released(state, side).events.last()
        }),
{
    let n = state.events.len() as int;
    let ready = released(state, side);
    let next = state.trigger(side);
    assert(state.triggering(side) =~= ready);
    state.lemma_trigger(side);
    ready.lemma_new_order(stops_on(state, side)[0].1.order());
    next.lemma_drain_side(side, last);
    assert(ready.events[n] == ready.events.last());
    assert(next.events[n] == ready.events[n]);
    assert(next.drain_side(side, last).events[n] == next.events[n]);
}

} // verus!
