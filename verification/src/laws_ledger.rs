//! Law of the ledger: what was accepted of an order is what was traded of it, what was
//! cancelled of it, and what still rests of it.
use crate::engine_model::{triggers, Engine, Incoming};
use crate::laws_cascade::{at_rest, released, sent_as};
use crate::laws_commands::{
    law_cancelled_with_what_is_left, law_order_comes_in, law_post_only, law_stop_limit_waits,
    refused_for, rest_of_order, slots_of, stopped, successor, taken_in,
};
use crate::laws_taking::{accounted_for, fair_events};
use crate::terms::{
    cancelled_of, cancels, filled_of, left_of, lemma_push, lemma_sums_nonnegative, since, sold,
    stops_on,
};
use crate::types::{Command, MatchEvent, OrderId, OrderType, Side, StpMode};
use vstd::prelude::*;

verus! {

/// What is left of order `id`, if it rests.
pub open spec fn resting_of(state: Engine, id: u64) -> int {
    if state.book.orders.contains_key(id) {
        left_of(state.book.orders[id])
    } else {
        0
    }
}

/// Quantity of order `id` that one event brings in, trades or cancels: what it brings in
/// counts for it, what it trades or cancels against it. That a stop is accepted brings
/// nothing in yet.
pub open spec fn entry_of(event: MatchEvent, id: u64) -> int {
    match event {
        MatchEvent::OrderAccepted { id: new, qty, order_type, .. } => if new.0 == id && order_type
            != OrderType::StopLimit {
            qty as int
        } else {
            0
        },
        MatchEvent::Fill { maker_id, taker_id, qty, .. } => -(if maker_id.0 == id {
            qty as int
        } else {
            0
        }) - (if taker_id.0 == id {
            qty as int
        } else {
            0
        }),
        MatchEvent::OrderCancelled { id: gone, remaining_qty, .. } => if gone.0 == id {
            -(remaining_qty as int)
        } else {
            0
        },
        _ => 0,
    }
}

/// The sum of the entries of events for order `id`.
pub open spec fn ledger_of(events: Seq<MatchEvent>, id: u64) -> int
    decreases events.len(),
{
    if events.len() == 0 {
        0
    } else {
        ledger_of(events.drop_last(), id) + entry_of(events.last(), id)
    }
}

/// One more event adds its entry.
proof fn lemma_ledger_push(events: Seq<MatchEvent>, event: MatchEvent, id: u64)
    ensures
        ledger_of(events.push(event), id) == ledger_of(events, id) + entry_of(event, id),
{
    assert(events.push(event).drop_last() =~= events);
}

/// More events add their entries.
proof fn lemma_ledger_add(a: Seq<MatchEvent>, b: Seq<MatchEvent>, id: u64)
    ensures
        ledger_of(a + b, id) == ledger_of(a, id) + ledger_of(b, id),
    decreases b.len(),
{
    if b.len() == 0 {
        assert(a + b =~= a);
    } else {
        lemma_ledger_add(a, b.drop_last(), id);
        assert((a + b).drop_last() =~= a + b.drop_last());
    }
}

/// What the ledger leaves over: what still rests of order `id`, less what came in of it
/// and has not left.
spec fn over(state: Engine, id: u64) -> int {
    resting_of(state, id) - ledger_of(state.events, id)
}

/// The entries of an order's events up to the `k`th.
proof fn lemma_entries(
    before: Engine,
    events: Seq<MatchEvent>,
    order: Incoming,
    to: int,
    k: int,
    id: u64,
)
    requires
        fair_events(before, events, order, to),
        before.events.len() < k <= to <= events.len(),
        events[before.events.len() as int] matches MatchEvent::OrderAccepted {
            id: new,
            qty,
            order_type,
            ..
        } && new == order.id && qty == order.qty && order_type == order.order_type,
        order.order_type != OrderType::StopLimit,
        !before.book.orders.contains_key(order.id.0),
    ensures
        ({
            let part = events.subrange(before.events.len() as int, k);
            if id == order.id.0 {
                &&& ledger_of(part, id) == order.qty - sold(part)
                &&& cancelled_of(part, id) == 0
            } else {
                &&& ledger_of(part, id) == -filled_of(part, id) - cancelled_of(part, id)
                &&& !before.book.orders.contains_key(id) ==> filled_of(part, id) == 0
                    && cancelled_of(part, id) == 0
            }
        }),
    decreases k,
{
    let n = before.events.len() as int;
    let part = events.subrange(n, k);
    let less = events.subrange(n, k - 1);
    let event = events[k - 1];
    assert(part =~= less.push(event));
    lemma_ledger_push(less, event, id);
    lemma_push(less, event, id, None);
    if k == n + 1 {
        assert(less =~= Seq::empty());
        assert(ledger_of(less, id) == 0);
        assert(sold(less) == 0);
        assert(filled_of(less, id) == 0);
        assert(cancelled_of(less, id) == 0);
    } else {
        lemma_entries(before, events, order, to, k - 1, id);
        reveal(fair_events);
        assert(n < k - 1 < to);
        assert(event == events[k - 1]);
    }
}

/// An order that comes in leaves every ledger balanced, where it would have a slot and no
/// quantity is taken away without a trade.
proof fn lemma_comes_in_balanced(before: Engine, order: Incoming, id: u64)
    requires
        before.book.wf(),
        before.free > 0,
        before.stp_mode != StpMode::DecrementAndCancel,
        order.order_type == OrderType::Limit || order.order_type == OrderType::Market
            || order.order_type == OrderType::Iceberg,
    ensures
        over(before.new_order(order), id) == over(before, id),
{
    let after = before.new_order(order);
    law_order_comes_in(before, order);
    before.lemma_new_order(order);
    if refused_for(before, order) is Some {
        lemma_ledger_push(before.events, after.events.last(), id);
    } else {
        let (m, d) = choose|m: u64, d: int| #[trigger] taken_in(before, after, order, m, d);
        let n = before.events.len() as int;
        let events = since(before, after);
        let left = order.qty - sold(events) - d;
        let k = after.events.len() as int;
        let own = cancels(after.events.last(), order.id.0);
        let to = if own {
            k - 1
        } else {
            k
        };
        assert(d == 0);
        assert(after.events =~= before.events + events);
        assert(events =~= after.events.subrange(n, k));
        lemma_ledger_add(before.events, events, id);
        assert(to > n) by {
            assert(after.events[n] is OrderAccepted);
            assert(after.events.last() == after.events[k - 1]);
        }
        lemma_entries(before, after.events, order, to, to, id);
        if own {
            let part = after.events.subrange(n, to);
            assert(events =~= part.push(after.events.last()));
            lemma_ledger_push(part, after.events.last(), id);
            lemma_push(part, after.events.last(), id, None);
        }
        lemma_sums_nonnegative(events, id);
        if id == order.id.0 {
            let others = after.book.orders.remove(id);
            assert(others.dom().subset_of(before.book.orders.dom())) by {
                assert forall|x: u64| #[trigger] others.dom().contains(x) implies
                    before.book.orders.dom().contains(x) by {
                    assert(after.book.orders.contains_key(x));
                }
            }
            vstd::set_lib::lemma_len_subset(others.dom(), before.book.orders.dom());
            assert(others.dom().len() < slots_of(before));
            assert(rest_of_order(before, after, order, left, d));
            if left == 0 && !stopped(before, after, order, left, d) {
                assert(!own) by {
                    assert(after.events.last() == after.events[k - 1]);
                }
            }
        } else {
            assert(accounted_for(before, after, m, d));
            reveal(accounted_for);
            if before.book.orders.contains_key(id) {
                let lost = filled_of(events, id) + cancelled_of(events, id);
                assert(lost >= 0);
            }
        }
    }
}

/// A stop that triggers leaves every ledger balanced.
proof fn lemma_trigger_balanced(state: Engine, side: Side, id: u64)
    requires
        state.book.wf(),
        state.free > 0,
        state.stp_mode != StpMode::DecrementAndCancel,
        stops_on(state, side).len() > 0,
    ensures
        over(state.trigger(side), id) == over(state, id),
{
    let ready = released(state, side);
    let order = sent_as(stops_on(state, side)[0].1);
    assert(state.triggering(side) =~= ready);
    lemma_ledger_push(state.events, ready.events.last(), id);
    lemma_comes_in_balanced(ready, order, id);
}

/// At most one slot is used by each step that adds at most one order.
proof fn lemma_slot_left(state: Engine, side: Side)
    requires
        state.book.wf(),
        stops_on(state, side).len() > 0,
    ensures
        state.trigger(side).free + 1 >= state.free,
{
    let ready = released(state, side);
    let order = sent_as(stops_on(state, side)[0].1);
    assert(state.triggering(side) =~= ready);
    lemma_one_slot(ready, order);
}

/// An order that comes in uses at most one slot.
proof fn lemma_one_slot(before: Engine, order: Incoming)
    requires
        before.book.wf(),
        order.order_type == OrderType::Limit || order.order_type == OrderType::Market
            || order.order_type == OrderType::Iceberg,
    ensures
        before.new_order(order).free + 1 >= before.free,
{
    let after = before.new_order(order);
    law_order_comes_in(before, order);
    before.lemma_new_order(order);
    if refused_for(before, order) is None {
        let (m, d) = choose|m: u64, d: int| #[trigger] taken_in(before, after, order, m, d);
        let most = before.book.orders.dom().insert(order.id.0);
        assert(after.book.orders.dom().subset_of(most)) by {
            assert forall|x: u64| #[trigger] after.book.orders.dom().contains(x) implies
                most.contains(x) by {
                assert(after.book.orders.contains_key(x));
            }
        }
        vstd::set_lib::lemma_len_subset(after.book.orders.dom(), most);
    }
}

proof fn lemma_side_balanced(state: Engine, side: Side, last: u64, id: u64)
    requires
        state.book.wf(),
        state.free >= state.stop_bids.len() + state.stop_asks.len(),
        state.stp_mode != StpMode::DecrementAndCancel,
    ensures
        over(state.drain_side(side, last), id) == over(state, id),
        ({
            let after = state.drain_side(side, last);
            after.free >= after.stop_bids.len() + after.stop_asks.len()
        }),
    decreases state.stops(side).len(),
{
    if state.stops(side).len() > 0 && triggers(side, state.stops(side)[0].0, last) {
        state.lemma_trigger(side);
        lemma_slot_left(state, side);
        lemma_trigger_balanced(state, side, id);
        lemma_side_balanced(state.trigger(side), side, last, id);
    }
}

proof fn lemma_drain_balanced(state: Engine, id: u64)
    requires
        state.book.wf(),
        state.free >= state.stop_bids.len() + state.stop_asks.len(),
        state.stp_mode != StpMode::DecrementAndCancel,
    ensures
        over(state.drain(), id) == over(state, id),
    decreases state.stop_bids.len() + state.stop_asks.len(),
{
    if let Some(last) = state.last_trade {
        let bids = state.drain_side(Side::Bid, last);
        let both = bids.drain_side(Side::Ask, last);
        state.lemma_drain_side(Side::Bid, last);
        bids.lemma_drain_side(Side::Ask, last);
        lemma_side_balanced(state, Side::Bid, last, id);
        lemma_side_balanced(bids, Side::Ask, last, id);
        if both.last_trade != Some(last) {
            lemma_drain_balanced(both, id);
        }
    }
}

/// Whether the stops can come in after a step as before it: each would have a slot.
spec fn kept_ready(before: Engine, after: Engine) -> bool {
    &&& after.book.wf()
    &&& after.free >= after.stop_bids.len() + after.stop_asks.len()
    &&& after.stp_mode == before.stp_mode
}

/// Whether a command leaves some of order `id` aside without an event that says how much:
/// it replaces the order, or it posts an order with the identifier of one that rests.
pub open spec fn sets_aside(state: Engine, command: Command, id: u64) -> bool {
    match command {
        Command::NewOrder { id: new, order_type, .. } => new.0 == id && order_type
            == OrderType::PostOnly && state.book.orders.contains_key(id),
        Command::CancelOrder { .. } => false,
        Command::ModifyOrder { id: changed, .. } => changed.0 == id,
    }
}

/// The ledger of every order balances over every command: what rested of it before and
/// what came in of it is what was traded of it, what was cancelled of it and what rests
/// of it afterwards. So over an order's life what was traded and what was cancelled add
/// up to what was accepted. Said where there is a slot for every order that may come to
/// rest, and in modes that take no quantity away without a trade.
pub proof fn law_every_ledger_balances(state: Engine, command: Command, id: u64)
    requires
        state.book.wf(),
        state.free > state.stop_bids.len() + state.stop_asks.len(),
        state.stp_mode != StpMode::DecrementAndCancel,
        !sets_aside(state, command, id),
    ensures
        resting_of(state.process(command), id) == resting_of(state, id) + ledger_of(
            state.process(command).events,
            id,
        ),
{
    let ready = at_rest(state);
    assert(ledger_of(ready.events, id) == 0);
    match command {
        Command::NewOrder {
            id: new,
            instrument_id,
            side,
            price,
            qty,
            order_type,
            time_in_force,
            visible_qty,
            stop_price,
            stp_group,
        } => {
            let order = Incoming {
                id: new,
                side,
                price,
                qty,
                order_type,
                time_in_force,
                visible_qty,
                stop_price,
                stp_group,
            };
            lemma_new_order_balanced(ready, order, id);
            lemma_drain_balanced(ready.new_order(order), id);
        },
        Command::CancelOrder { id: gone } => {
            lemma_cancel_balanced(ready, gone, id);
            lemma_drain_balanced(ready.cancel(gone), id);
        },
        Command::ModifyOrder { id: changed, new_price, new_qty } => {
            lemma_modify_balanced(ready, changed, new_price, new_qty, id);
            lemma_drain_balanced(ready.modify(changed, new_price, new_qty), id);
        },
    }
}

/// A new order leaves every ledger balanced.
proof fn lemma_new_order_balanced(before: Engine, order: Incoming, id: u64)
    requires
        before.book.wf(),
        before.free > before.stop_bids.len() + before.stop_asks.len(),
        before.stp_mode != StpMode::DecrementAndCancel,
        order.order_type == OrderType::PostOnly ==> order.id.0 != id
            || !before.book.orders.contains_key(id),
    ensures
        over(before.new_order(order), id) == over(before, id),
        kept_ready(before, before.new_order(order)),
{
    let after = before.new_order(order);
    before.lemma_new_order(order);
    match order.order_type {
        OrderType::PostOnly => lemma_posted_balanced(before, order, id),
        OrderType::StopLimit => {
            law_stop_limit_waits(before, order);
            lemma_ledger_push(before.events, after.events.last(), id);
        },
        _ => {
            lemma_comes_in_balanced(before, order, id);
            lemma_one_slot(before, order);
        },
    }
}

/// A cancellation leaves every ledger balanced.
proof fn lemma_cancel_balanced(before: Engine, gone: OrderId, id: u64)
    requires
        before.book.wf(),
        before.free > before.stop_bids.len() + before.stop_asks.len(),
    ensures
        over(before.cancel(gone), id) == over(before, id),
        kept_ready(before, before.cancel(gone)),
{
    let after = before.cancel(gone);
    let n = before.events.len() as int;
    before.lemma_cancel(gone);
    law_cancelled_with_what_is_left(before, gone);
    if before.book.orders.contains_key(gone.0) {
        before.book.lemma_take_out(gone.0);
        let first = after.events[n];
        let second = after.events[n + 1];
        assert(before.events.push(first).push(second) =~= after.events);
        lemma_ledger_push(before.events, first, id);
        lemma_ledger_push(before.events.push(first), second, id);
    } else {
        lemma_ledger_push(before.events, after.events.last(), id);
    }
}

/// A replacement leaves every other ledger balanced.
proof fn lemma_modify_balanced(
    before: Engine,
    changed: OrderId,
    new_price: u64,
    new_qty: u64,
    id: u64,
)
    requires
        before.book.wf(),
        before.free > before.stop_bids.len() + before.stop_asks.len(),
        before.stp_mode != StpMode::DecrementAndCancel,
        changed.0 != id,
    ensures
        over(before.modify(changed, new_price, new_qty), id) == over(before, id),
        kept_ready(before, before.modify(changed, new_price, new_qty)),
{
    let after = before.modify(changed, new_price, new_qty);
    let n = before.events.len() as int;
    before.lemma_modify(changed, new_price, new_qty);
    if before.book.orders.contains_key(changed.0) {
        let between = before.replacing(changed, new_price, new_qty);
        let order = successor(changed, before.book.orders[changed.0], new_price, new_qty);
        before.lemma_take_out(changed.0);
        let first = between.events[n];
        let second = between.events[n + 1];
        assert(before.events.push(first).push(second) =~= between.events);
        lemma_ledger_push(before.events, first, id);
        lemma_ledger_push(before.events.push(first), second, id);
        lemma_comes_in_balanced(between, order, id);
        lemma_one_slot(between, order);
        assert(after == between.new_order(order));
    } else {
        lemma_ledger_push(before.events, after.events.last(), id);
    }
}

/// A post-only order leaves every ledger balanced.
proof fn lemma_posted_balanced(before: Engine, order: Incoming, id: u64)
    requires
        before.book.wf(),
        before.free > 0,
        order.order_type == OrderType::PostOnly,
        order.id.0 != id || !before.book.orders.contains_key(id),
    ensures
        over(before.new_order(order), id) == over(before, id),
        before.new_order(order).free + 1 >= before.free,
{
    let after = before.new_order(order);
    let n = before.events.len() as int;
    law_post_only(before, order);
    before.lemma_new_order(order);
    if after.events.len() == n + 1 {
        lemma_ledger_push(before.events, after.events.last(), id);
    } else {
        let first = after.events[n];
        let second = after.events[n + 1];
        assert(before.events.push(first).push(second) =~= after.events);
        lemma_ledger_push(before.events, first, id);
        lemma_ledger_push(before.events.push(first), second, id);
        if id != order.id.0 {
            assert(after.book.orders.remove(order.id.0).contains_key(id)
                == before.book.orders.contains_key(id));
        }
    }
}

} // verus!
