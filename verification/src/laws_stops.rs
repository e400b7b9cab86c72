//! Laws of the waiting stops: in which order they trigger, and that each triggers once.
use crate::engine_model::{
    lemma_stop_position, stop_position, stops_sorted, triggers, Engine, Incoming, StopEntry,
};
use crate::laws_answers::lemma_new_order_answered;
use crate::laws_orders::{lemma_drained, no_stop_due, queues_sorted};
use crate::types::{Command, MatchEvent, OrderType, Side};
use vstd::prelude::*;

verus! {

/// Whether a stop at `a` triggers earlier than one at `b`.
pub open spec fn earlier(side: Side, a: u64, b: u64) -> bool {
    match side {
        Side::Bid => a < b,
        Side::Ask => a > b,
    }
}

/// A stop that comes to wait goes behind all that trigger earlier and behind all that
/// wait for the same price, and before all that trigger later; the others stay as they
/// are. Since stops leave from the front, those that wait for one price trigger first in
/// first out.
pub proof fn law_stops_are_first_in_first_out(
    side: Side,
    stops: Seq<(u64, StopEntry)>,
    price: u64,
    entry: StopEntry,
)
    requires
        stops_sorted(side, stops),
    ensures
        ({
            let at = stop_position(side, stops, price);
            let after = stops.insert(at, (price, entry));
            &&& 0 <= at <= stops.len()
            &&& after[at] == (price, entry)
            &&& after.remove(at) == stops
            &&& forall|i: int| 0 <= i < at ==> !earlier(side, price, (#[trigger] after[i]).0)
            &&& forall|i: int|
                at < i < after.len() ==> earlier(side, price, (#[trigger] after[i]).0)
        }),
{
    let at = stop_position(side, stops, price);
    let after = stops.insert(at, (price, entry));
    lemma_stop_position(side, stops, price);
    assert(after.remove(at) =~= stops);
    assert forall|i: int| 0 <= i < at implies !earlier(side, price, (#[trigger] after[i]).0) by {
        assert(after[i] == stops[i]);
    }
    assert forall|i: int| at < i < after.len() implies earlier(
        side,
        price,
        (#[trigger] after[i]).0,
    ) by {
        assert(after[i] == stops[i - 1]);
        if at < i - 1 {
            assert(match side {
                Side::Bid => stops[at].0 <= stops[i - 1].0,
                Side::Ask => stops[at].0 >= stops[i - 1].0,
            });
        }
    }
}

/// Whether an event says that stop `id` has triggered and comes in under the same
/// identifier.
pub open spec fn tells_of(event: MatchEvent, id: u64) -> bool {
    event matches MatchEvent::StopTriggered { stop_id, new_order_id, .. } && stop_id.0 == id
        && new_order_id.0 == id
}

/// Number of events that say that stop `id` has triggered.
pub open spec fn told(events: Seq<MatchEvent>, id: u64) -> int
    decreases events.len(),
{
    if events.len() == 0 {
        0
    } else {
        told(events.drop_last(), id) + if tells_of(events.last(), id) {
            1int
        } else {
            0
        }
    }
}

/// Number of waiting stops with identifier `id`.
pub open spec fn waiting(stops: Seq<(u64, StopEntry)>, id: u64) -> int
    decreases stops.len(),
{
    if stops.len() == 0 {
        0
    } else {
        waiting(stops.drop_first(), id) + if stops[0].1.id.0 == id {
            1int
        } else {
            0
        }
    }
}

/// Number of stops with identifier `id` that wait on either side.
pub open spec fn waiting_in(state: Engine, id: u64) -> int {
    waiting(state.stop_bids, id) + waiting(state.stop_asks, id)
}

/// Whether every triggered stop comes in under its own identifier.
pub open spec fn own_identifiers(events: Seq<MatchEvent>) -> bool {
    forall|i: int|
        0 <= i < events.len() ==> (
        #[trigger] events[i] matches MatchEvent::StopTriggered { stop_id, new_order_id, .. }
            ==> stop_id == new_order_id)
}

/// Number of stops with identifier `id` that a command brings: one where it is a
/// stop-limit order with this identifier that is not rejected.
pub open spec fn stops_brought(command: Command, id: u64) -> int {
    match command {
        Command::NewOrder { id: new, qty, order_type, stop_price, .. } => if new.0 == id && qty > 0
            && order_type == OrderType::StopLimit && stop_price is Some {
            1
        } else {
            0
        },
        _ => 0,
    }
}

proof fn lemma_waiting_insert(stops: Seq<(u64, StopEntry)>, at: int, stop: (u64, StopEntry), id: u64)
    requires
        0 <= at <= stops.len(),
    ensures
        waiting(stops.insert(at, stop), id) == waiting(stops, id) + if stop.1.id.0 == id {
            1int
        } else {
            0
        },
    decreases stops.len(),
{
    let after = stops.insert(at, stop);
    if at == 0 {
        assert(after.drop_first() =~= stops);
    } else {
        lemma_waiting_insert(stops.drop_first(), at - 1, stop, id);
        assert(after.drop_first() =~= stops.drop_first().insert(at - 1, stop));
    }
}

/// Events of which none is a triggered stop tell of none.
proof fn lemma_none_told(before: Seq<MatchEvent>, after: Seq<MatchEvent>, id: u64)
    requires
        before.len() <= after.len(),
        forall|i: int| 0 <= i < before.len() ==> #[trigger] after[i] == before[i],
        forall|i: int| before.len() <= i < after.len() ==> #[trigger] after[i] !is StopTriggered,
    ensures
        told(after, id) == told(before, id),
        own_identifiers(before) ==> own_identifiers(after),
    decreases after.len(),
{
    if before.len() == after.len() {
        assert(after =~= before);
    } else {
        let rest = after.drop_last();
        assert(after.last() == after[after.len() - 1]);
        lemma_none_told(before, rest, id);
        if own_identifiers(before) {
            assert forall|i: int| 0 <= i < after.len() implies (
            #[trigger] after[i] matches MatchEvent::StopTriggered { stop_id, new_order_id, .. }
                ==> stop_id == new_order_id) by {
                if i < before.len() {
                    assert(after[i] == before[i]);
                }
            }
        }
    }
}

/// Whether, between two states, stops that left the queues were told of, each once.
spec fn balanced(before: Engine, after: Engine, id: u64) -> bool {
    &&& waiting_in(after, id) + told(after.events, id) == waiting_in(before, id) + told(
        before.events,
        id,
    )
    &&& own_identifiers(before.events) ==> own_identifiers(after.events)
}

/// An incoming order that is no stop-limit order leaves the stops alone and tells of
/// none.
proof fn lemma_new_order_balanced(state: Engine, order: Incoming, id: u64)
    requires
        state.book.wf(),
        order.order_type != OrderType::StopLimit,
    ensures
        balanced(state, state.new_order(order), id),
{
    let after = state.new_order(order);
    state.lemma_new_order(order);
    lemma_new_order_answered(state, order);
    lemma_none_told(state.events, after.events, id);
}

proof fn lemma_trigger_balanced(state: Engine, side: Side, id: u64)
    requires
        state.book.wf(),
        state.stops(side).len() > 0,
    ensures
        balanced(state, state.trigger(side), id),
{
    let mid = state.triggering(side);
    assert(mid.events.drop_last() =~= state.events);
    assert(balanced(state, mid, id)) by {
        if own_identifiers(state.events) {
            assert forall|i: int| 0 <= i < mid.events.len() implies (
            #[trigger] mid.events[i] matches MatchEvent::StopTriggered { stop_id, new_order_id, .. }
                ==> stop_id == new_order_id) by {
                if i < state.events.len() {
                    assert(mid.events[i] == state.events[i]);
                }
            }
        }
    }
    lemma_new_order_balanced(mid, state.stops(side)[0].1.order(), id);
}

proof fn lemma_drain_side_balanced(state: Engine, side: Side, last: u64, id: u64)
    requires
        state.book.wf(),
    ensures
        balanced(state, state.drain_side(side, last), id),
    decreases state.stops(side).len(),
{
    if state.stops(side).len() > 0 && triggers(side, state.stops(side)[0].0, last) {
        state.lemma_trigger(side);
        lemma_trigger_balanced(state, side, id);
        lemma_drain_side_balanced(state.trigger(side), side, last, id);
    }
}

proof fn lemma_drain_balanced(state: Engine, id: u64)
    requires
        state.book.wf(),
    ensures
        balanced(state, state.drain(), id),
    decreases state.stop_bids.len() + state.stop_asks.len(),
{
    match state.last_trade {
        None => {},
        Some(last) => {
            let bids = state.drain_side(Side::Bid, last);
            let both = bids.drain_side(Side::Ask, last);
            state.lemma_drain_side(Side::Bid, last);
            bids.lemma_drain_side(Side::Ask, last);
            lemma_drain_side_balanced(state, Side::Bid, last, id);
            lemma_drain_side_balanced(bids, Side::Ask, last, id);
            if both.last_trade != Some(last) {
                lemma_drain_balanced(both, id);
            }
        },
    }
}

/// A stop-limit order that is not rejected waits.
proof fn lemma_stop_limit_balanced(state: Engine, order: Incoming, id: u64)
    requires
        state.book.wf(),
        order.order_type == OrderType::StopLimit,
    ensures
        waiting_in(state.new_order(order), id) == waiting_in(state, id) + (if order.id.0 == id
            && order.qty > 0 && order.stop_price is Some {
            1int
        } else {
            0
        }),
        told(state.new_order(order).events, id) == told(state.events, id),
        own_identifiers(state.events) ==> own_identifiers(state.new_order(order).events),
{
    let after = state.new_order(order);
    state.lemma_new_order(order);
    lemma_new_order_answered(state, order);
    lemma_none_told(state.events, after.events, id);
    if order.qty > 0 && order.stop_price is Some {
        let stops = state.stops(order.side);
        let price = order.stop_price->Some_0;
        lemma_stop_position(order.side, stops, price);
        lemma_waiting_insert(
            stops,
            stop_position(order.side, stops, price),
            (price, order.stop()),
            id,
        );
    }
}

/// Each stop that leaves its queue is told of exactly once, under its identifier, which
/// the order that it becomes bears too: what waited, and what the command brings to
/// wait, is what still waits and what the command's events tell of.
pub proof fn law_each_stop_triggers_once(state: Engine, command: Command, id: u64)
    requires
        state.book.wf(),
    ensures
        waiting_in(state, id) + stops_brought(command, id) == waiting_in(
            state.process(command),
            id,
        ) + told(state.process(command).events, id),
        own_identifiers(state.process(command).events),
{
    let ready = Engine { events: Seq::empty(), ..state };
    match command {
        Command::NewOrder {
            id: new,
            instrument_id,
            side,
            price,
            qty,
            order_type,
            time_in_force,
            visible_qty,
            stop_price,
            stp_group,
        } => {
            let order = Incoming {
                id: new,
                side,
                price,
                qty,
                order_type,
                time_in_force,
                visible_qty,
                stop_price,
                stp_group,
            };
            ready.lemma_new_order(order);
            if order_type == OrderType::StopLimit {
                lemma_stop_limit_balanced(ready, order, id);
            } else {
                lemma_new_order_balanced(ready, order, id);
            }
            lemma_drain_balanced(ready.new_order(order), id);
        },
        Command::CancelOrder { id: gone } => {
            let after = ready.cancel(gone);
            ready.lemma_cancel(gone);
            lemma_none_told(ready.events, after.events, id);
            lemma_drain_balanced(after, id);
        },
        Command::ModifyOrder { id: changed, new_price, new_qty } => {
            let after = ready.modify(changed, new_price, new_qty);
            ready.lemma_modify(changed, new_price, new_qty);
            if ready.book.orders.contains_key(changed.0) {
                let mid = ready.replacing(changed, new_price, new_qty);
                let order = Incoming::replacement(
                    changed,
                    ready.book.orders[changed.0],
                    new_price,
                    new_qty,
                );
                ready.lemma_take_out(changed.0);
                lemma_none_told(ready.events, mid.events, id);
                lemma_new_order_balanced(mid, order, id);
            } else {
                lemma_none_told(ready.events, after.events, id);
            }
            lemma_drain_balanced(after, id);
        },
    }
}

/// Whether `after` is what draining the stops makes of `before`: no waiting stop is due
/// at the last trade price, where the stops were in order; every stop that left was told
/// of exactly once, under its own identifier; and without a trade nothing changed.
pub open spec fn drained(before: Engine, after: Engine) -> bool {
    &&& queues_sorted(before) ==> no_stop_due(after) && queues_sorted(after)
    &&& forall|id: u64| #[trigger]
        waiting_in(after, id) + told(after.events, id) == waiting_in(before, id) + told(
            before.events,
            id,
        )
    &&& own_identifiers(before.events) ==> own_identifiers(after.events)
    &&& before.last_trade is None ==> after == before
}

/// Draining the stops: no waiting stop is due afterwards, every stop that left was told
/// of exactly once, and without a trade nothing changes.
pub proof fn law_drained(state: Engine)
    requires
        state.book.wf(),
    ensures
        drained(state, state.drain()),
{
    let after = state.drain();
    if queues_sorted(state) {
        lemma_drained(state);
    }
    lemma_drain_balanced(state, 0);
    assert forall|id: u64| #[trigger]
        waiting_in(after, id) + told(after.events, id) == waiting_in(state, id) + told(
            state.events,
            id,
        ) by {
        lemma_drain_balanced(state, id);
    }
}

/// As long as there was no trade, no stop triggers.
pub proof fn law_no_trade_no_trigger(state: Engine)
    requires
        state.book.wf(),
        state.last_trade is None,
    ensures
        state.drain() == state,
{
}

} // verus!
