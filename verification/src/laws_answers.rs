//! Law of the answers: a cancellation names an order that was accepted.
use crate::book_model::Book;
use crate::engine_model::{
    lemma_stop_position, lesser, same_group, stop_position, triggers, Engine, Incoming, StopEntry,
};
use crate::laws_best::lemma_no_new_orders;
use crate::types::{Command, MatchEvent, OrderId, OrderType, Side, StpMode};
use vstd::prelude::*;

verus! {

/// Whether an event is one that matching causes: a trade, a new level quantity, or the
/// cancellation of an order of `book`.
pub open spec fn caused_by_matching(book: Book, event: MatchEvent) -> bool {
    match event {
        MatchEvent::Fill { .. } => true,
        MatchEvent::BookUpdate { .. } => true,
        MatchEvent::OrderCancelled { id, .. } => book.orders.contains_key(id.0),
        _ => false,
    }
}

/// Whether matching on `book` causes all events from `from` on.
#[verifier::opaque]
spec fn all_caused(book: Book, events: Seq<MatchEvent>, from: int) -> bool {
    forall|i: int| from <= i < events.len() ==> caused_by_matching(book, #[trigger] events[i])
}

/// Matching causes trades, new level quantities and cancellations of resting orders,
/// and no other events.
proof fn lemma_match_causes(state: Engine, taker: Incoming, left: int)
    requires
        state.book.wf(),
        left >= 0,
    ensures
        all_caused(
            state.book,
            state.match_book(taker, left).0.events,
            state.events.len() as int,
        ),
    decreases left, state.book.orders.dom().len(),
{
    state.lemma_first_maker(taker.side, taker.reach());
    match state.first_maker(taker.side, taker.reach()) {
        Some(maker) if left > 0 => {
            let order = state.book.orders[maker];
            if order.unfilled() == 0 {
                state.lemma_take_out(maker);
                lemma_match_causes(state.take_out(maker), taker, left);
                lemma_causes_on(state, state.take_out(maker), taker, left);
            } else if same_group(taker.stp_group, order.stp_group) {
                state.lemma_cancel_maker(maker);
                lemma_one_causes(state, maker, taker.id, 0, 0);
                if state.stp_mode == StpMode::CancelOldest {
                    lemma_match_causes(state.cancel_maker(maker), taker, left);
                    lemma_causes_on(state, state.cancel_maker(maker), taker, left);
                } else if state.stp_mode == StpMode::DecrementAndCancel {
                    lemma_one_causes(
                        state,
                        maker,
                        taker.id,
                        lesser(left, order.unfilled()),
                        0,
                    );
                } else if state.stp_mode == StpMode::CancelNewest {
                    reveal(all_caused);
                }
            } else {
                let qty = lesser(left, order.matchable());
                let next = state.fill(maker, taker.id, qty, left - qty);
                state.lemma_fill(maker, taker.id, qty, left - qty);
                lemma_one_causes(state, maker, taker.id, qty, left - qty);
                lemma_match_causes(next, taker, left - qty);
                lemma_causes_on(state, next, taker, left - qty);
            }
        },
        _ => {
            reveal(all_caused);
        },
    }
}

/// What one maker causes.
proof fn lemma_one_causes(state: Engine, maker: u64, taker: OrderId, qty: int, left: int)
    requires
        state.book.orders.contains_key(maker),
    ensures
        all_caused(state.book, state.cancel_maker(maker).events, state.events.len() as int),
        all_caused(state.book, state.decrement_maker(maker, qty).events, state.events.len() as int),
        all_caused(
            state.book,
            state.fill(maker, taker, qty, left).events,
            state.events.len() as int,
        ),
{
    reveal(all_caused);
}

/// What the rest of the matching causes, and what came before it, all of it causes.
proof fn lemma_causes_on(state: Engine, next: Engine, taker: Incoming, left: int)
    requires
        next.book.wf(),
        left >= 0,
        next.events.len() >= state.events.len(),
        forall|id: u64| #[trigger]
            next.book.orders.contains_key(id) ==> state.book.orders.contains_key(id),
        next.events == state.events || all_caused(
            state.book,
            next.events,
            state.events.len() as int,
        ),
        all_caused(next.book, next.match_book(taker, left).0.events, next.events.len() as int),
    ensures
        all_caused(state.book, next.match_book(taker, left).0.events, state.events.len() as int),
{
    reveal(all_caused);
    let end = next.match_book(taker, left).0;
    next.lemma_match_book(taker, left);
    assert forall|i: int| state.events.len() <= i < end.events.len() implies caused_by_matching(
        state.book,
        #[trigger] end.events[i],
    ) by {
        if i < next.events.len() {
            assert(end.events[i] == next.events[i]);
        } else {
            assert(caused_by_matching(next.book, end.events[i]));
        }
    }
}

/// Whether an event accepts order `id`.
pub open spec fn accepts(event: MatchEvent, id: u64) -> bool {
    event matches MatchEvent::OrderAccepted { id: accepted, .. } && accepted.0 == id
}

/// What an incoming order causes, from the first of its events on: no stop triggers, and
/// what is cancelled or rests or waits did so before, or is the order, which is then
/// accepted first.
pub open spec fn answered(state: Engine, after: Engine, id: u64) -> bool {
    let from = state.events.len() as int;
    &&& forall|i: int|
        from <= i < after.events.len() ==> {
            let event = #[trigger] after.events[i];
            &&& event !is StopTriggered
            &&& event matches MatchEvent::OrderCancelled { id: gone, .. }
                ==> state.book.orders.contains_key(gone.0) || (gone.0 == id && from < i && accepts(
                after.events[from],
                id,
            ))
        }
    &&& forall|x: u64| #[trigger]
        after.book.orders.contains_key(x) ==> state.book.orders.contains_key(x) || (x == id && from
            < after.events.len() && accepts(after.events[from], id))
    &&& forall|side: Side, stop: (u64, StopEntry)| #[trigger]
        after.stops(side).contains(stop) ==> state.stops(side).contains(stop) || (stop.1.id.0 == id
            && from < after.events.len() && accepts(after.events[from], id))
}

/// What an order that is matched as it comes in causes.
proof fn lemma_taker_answered(state: Engine, order: Incoming)
    requires
        state.book.wf(),
        order.order_type != OrderType::PostOnly,
        order.order_type != OrderType::StopLimit,
        state.refusal(order) is None,
    ensures
        answered(state, state.new_order(order), order.id.0),
{
    reveal(all_caused);
    let after = state.new_order(order);
    let from = state.events.len() as int;
    let a = state.accepted(order);
    let (b, left, cancel) = a.match_book(order, order.qty as int);
    state.lemma_new_order(order);
    a.lemma_match_book(order, order.qty as int);
    lemma_match_causes(a, order, order.qty as int);
    lemma_no_new_orders(a, order, order.qty as int);
    b.lemma_settle(order, left, cancel);
    assert(after.events[from] == b.events[from]);
    assert(b.events[from] == a.events[from]);
    assert(accepts(after.events[from], order.id.0));
    assert forall|i: int| from <= i < after.events.len() implies {
        let event = #[trigger] after.events[i];
        &&& event !is StopTriggered
        &&& event matches MatchEvent::OrderCancelled { id: gone, .. }
            ==> state.book.orders.contains_key(gone.0) || (gone == order.id && from < i)
    } by {
        if i < b.events.len() {
            assert(after.events[i] == b.events[i]);
            if i > from {
                assert(caused_by_matching(a.book, b.events[i]));
            }
        }
    }
    assert forall|side: Side| #[trigger] after.stops(side) == state.stops(side) by {}
}

/// What an incoming order causes.
pub proof fn lemma_new_order_answered(state: Engine, order: Incoming)
    requires
        state.book.wf(),
    ensures
        answered(state, state.new_order(order), order.id.0),
{
    let after = state.new_order(order);
    match order.order_type {
        OrderType::StopLimit => {
            if order.qty != 0 && order.stop_price is Some {
                let price = order.stop_price->Some_0;
                let stops = state.stops(order.side);
                let at = stop_position(order.side, stops, price);
                lemma_stop_position(order.side, stops, price);
                assert forall|side: Side, stop: (u64, StopEntry)| #[trigger]
                    after.stops(side).contains(stop) implies state.stops(side).contains(stop)
                    || stop.1.id == order.id by {
                    let i = after.stops(side).index_of(stop);
                    if side != order.side || i < at {
                        assert(state.stops(side)[i] == stop);
                    } else if i > at {
                        assert(state.stops(side)[i - 1] == stop);
                    }
                }
            }
        },
        OrderType::PostOnly => {},
        _ => {
            if state.refusal(order) is None {
                lemma_taker_answered(state, order);
            }
        },
    }
}

/// Whether `id` is one of `known` or is accepted by one of the first `n` events.
pub open spec fn knows(known: Set<u64>, events: Seq<MatchEvent>, n: int, id: u64) -> bool {
    known.contains(id) || exists|j: int| 0 <= j < n && accepts(#[trigger] events[j], id)
}

/// Whether every order that rests or waits is known.
pub open spec fn covered(state: Engine, known: Set<u64>, events: Seq<MatchEvent>) -> bool {
    &&& forall|id: u64| #[trigger]
        state.book.orders.contains_key(id) ==> knows(known, events, events.len() as int, id)
    &&& forall|side: Side, stop: (u64, StopEntry)| #[trigger]
        state.stops(side).contains(stop) ==> knows(
            known,
            events,
            events.len() as int,
            stop.1.id.0,
        )
}

/// Whether every cancellation names an order that was known before.
pub open spec fn cancels_known(known: Set<u64>, events: Seq<MatchEvent>) -> bool {
    forall|i: int|
        0 <= i < events.len() ==> (#[trigger] events[i] matches MatchEvent::OrderCancelled { id, .. }
            ==> knows(known, events, i, id.0))
}

/// What is known stays so when events are added.
proof fn lemma_knows_on(
    known: Set<u64>,
    before: Seq<MatchEvent>,
    after: Seq<MatchEvent>,
    n: int,
    m: int,
    id: u64,
)
    requires
        knows(known, before, n, id),
        n <= m,
        n <= before.len() <= after.len(),
        forall|i: int| 0 <= i < before.len() ==> #[trigger] after[i] == before[i],
    ensures
        knows(known, after, m, id),
{
    if !known.contains(id) {
        let j = choose|j: int| 0 <= j < n && accepts(#[trigger] before[j], id);
        assert(after[j] == before[j]);
        assert(accepts(after[j], id));
    }
}

/// An incoming order keeps every order known, and cancels only what is known.
proof fn lemma_new_order_known(state: Engine, order: Incoming, known: Set<u64>)
    requires
        state.book.wf(),
        covered(state, known, state.events),
        cancels_known(known, state.events),
    ensures
        covered(state.new_order(order), known, state.new_order(order).events),
        cancels_known(known, state.new_order(order).events),
{
    let after = state.new_order(order);
    let from = state.events.len() as int;
    let end = after.events.len() as int;
    state.lemma_new_order(order);
    lemma_new_order_answered(state, order);
    assert forall|id: u64| #[trigger] after.book.orders.contains_key(id) implies knows(
        known,
        after.events,
        end,
        id,
    ) by {
        if state.book.orders.contains_key(id) {
            lemma_knows_on(known, state.events, after.events, from, end, id);
        } else {
            assert(accepts(after.events[from], id));
        }
    }
    assert forall|side: Side, stop: (u64, StopEntry)| #[trigger]
        after.stops(side).contains(stop) implies knows(known, after.events, end, stop.1.id.0) by {
        if state.stops(side).contains(stop) {
            lemma_knows_on(known, state.events, after.events, from, end, stop.1.id.0);
        } else {
            assert(accepts(after.events[from], stop.1.id.0));
        }
    }
    assert forall|i: int| 0 <= i < end implies (
    #[trigger] after.events[i] matches MatchEvent::OrderCancelled { id, .. } ==> knows(
        known,
        after.events,
        i,
        id.0,
    )) by {
        match after.events[i] {
            MatchEvent::OrderCancelled { id, .. } => {
                if i < from {
                    assert(after.events[i] == state.events[i]);
                    lemma_knows_on(known, state.events, after.events, i, i, id.0);
                } else if state.book.orders.contains_key(id.0) {
                    lemma_knows_on(known, state.events, after.events, from, i, id.0);
                } else {
                    assert(accepts(after.events[from], id.0));
                }
            },
            _ => {},
        }
    }
}

/// An event that cancels nothing, with no more orders and stops than before, keeps all
/// known.
proof fn lemma_event_known(state: Engine, after: Engine, event: MatchEvent, known: Set<u64>)
    requires
        covered(state, known, state.events),
        cancels_known(known, state.events),
        after.events == state.events.push(event),
        event matches MatchEvent::OrderCancelled { id, .. } ==> knows(
            known,
            state.events,
            state.events.len() as int,
            id.0,
        ),
        forall|id: u64| #[trigger]
            after.book.orders.contains_key(id) ==> state.book.orders.contains_key(id),
        forall|side: Side, stop: (u64, StopEntry)| #[trigger]
            after.stops(side).contains(stop) ==> state.stops(side).contains(stop),
    ensures
        covered(after, known, after.events),
        cancels_known(known, after.events),
{
    let from = state.events.len() as int;
    let end = after.events.len() as int;
    assert forall|id: u64| #[trigger] after.book.orders.contains_key(id) implies knows(
        known,
        after.events,
        end,
        id,
    ) by {
        lemma_knows_on(known, state.events, after.events, from, end, id);
    }
    assert forall|side: Side, stop: (u64, StopEntry)| #[trigger]
        after.stops(side).contains(stop) implies knows(known, after.events, end, stop.1.id.0) by {
        lemma_knows_on(known, state.events, after.events, from, end, stop.1.id.0);
    }
    assert forall|i: int| 0 <= i < end implies (
    #[trigger] after.events[i] matches MatchEvent::OrderCancelled { id, .. } ==> knows(
        known,
        after.events,
        i,
        id.0,
    )) by {
        match after.events[i] {
            MatchEvent::OrderCancelled { id, .. } => {
                if i < from {
                    assert(after.events[i] == state.events[i]);
                }
                lemma_knows_on(known, state.events, after.events, i, i, id.0);
            },
            _ => {},
        }
    }
}

proof fn lemma_trigger_known(state: Engine, side: Side, known: Set<u64>)
    requires
        state.book.wf(),
        state.stops(side).len() > 0,
        covered(state, known, state.events),
        cancels_known(known, state.events),
    ensures
        covered(state.trigger(side), known, state.trigger(side).events),
        cancels_known(known, state.trigger(side).events),
{
    let mid = state.triggering(side);
    let first = state.stops(side)[0];
    assert forall|s: Side, stop: (u64, StopEntry)| #[trigger]
        mid.stops(s).contains(stop) implies state.stops(s).contains(stop) by {
        let i = mid.stops(s).index_of(stop);
        if s == side {
            assert(state.stops(s)[i + 1] == stop);
        } else {
            assert(s == side.other());
            assert(state.stops(s)[i] == stop);
        }
    }
    assert(state.stops(side).contains(first));
    lemma_event_known(state, mid, mid.events.last(), known);
    lemma_new_order_known(mid, first.1.order(), known);
}

proof fn lemma_drain_side_known(state: Engine, side: Side, last: u64, known: Set<u64>)
    requires
        state.book.wf(),
        covered(state, known, state.events),
        cancels_known(known, state.events),
    ensures
        covered(state.drain_side(side, last), known, state.drain_side(side, last).events),
        cancels_known(known, state.drain_side(side, last).events),
    decreases state.stops(side).len(),
{
    if state.stops(side).len() > 0 && triggers(side, state.stops(side)[0].0, last) {
        state.lemma_trigger(side);
        lemma_trigger_known(state, side, known);
        lemma_drain_side_known(state.trigger(side), side, last, known);
    }
}

proof fn lemma_drain_known(state: Engine, known: Set<u64>)
    requires
        state.book.wf(),
        covered(state, known, state.events),
        cancels_known(known, state.events),
    ensures
        covered(state.drain(), known, state.drain().events),
        cancels_known(known, state.drain().events),
    decreases state.stop_bids.len() + state.stop_asks.len(),
{
    match state.last_trade {
        None => {},
        Some(last) => {
            let bids = state.drain_side(Side::Bid, last);
            let both = bids.drain_side(Side::Ask, last);
            state.lemma_drain_side(Side::Bid, last);
            bids.lemma_drain_side(Side::Ask, last);
            lemma_drain_side_known(state, Side::Bid, last, known);
            lemma_drain_side_known(bids, Side::Ask, last, known);
            if both.last_trade != Some(last) {
                lemma_drain_known(both, known);
            }
        },
    }
}

/// A cancelled order was known, and the others stay so.
proof fn lemma_cancel_known(state: Engine, id: OrderId, known: Set<u64>)
    requires
        state.book.wf(),
        covered(state, known, state.events),
        cancels_known(known, state.events),
    ensures
        covered(state.cancel(id), known, state.cancel(id).events),
        cancels_known(known, state.cancel(id).events),
{
    if state.book.orders.contains_key(id.0) {
        let order = state.book.orders[id.0];
        let out = state.take_out(id.0).cancelled(id, order.unfilled());
        let after = state.cancel(id);
        lemma_event_known(state, out, out.events.last(), known);
        lemma_event_known(out, after, after.events.last(), known);
    } else {
        let after = state.cancel(id);
        lemma_event_known(state, after, after.events.last(), known);
    }
}

/// A modified order was known, and the others stay so.
proof fn lemma_modify_known(
    state: Engine,
    id: OrderId,
    new_price: u64,
    new_qty: u64,
    known: Set<u64>,
)
    requires
        state.book.wf(),
        covered(state, known, state.events),
        cancels_known(known, state.events),
    ensures
        covered(
            state.modify(id, new_price, new_qty),
            known,
            state.modify(id, new_price, new_qty).events,
        ),
        cancels_known(known, state.modify(id, new_price, new_qty).events),
{
    if state.book.orders.contains_key(id.0) {
        let order = state.book.orders[id.0];
        let out = state.take_out(id.0);
        let a = out.emit(
            MatchEvent::OrderModified { meta: out.next_meta(), id, new_price, new_qty },
        );
        let b = state.replacing(id, new_price, new_qty);
        state.lemma_take_out(id.0);
        lemma_event_known(state, a, a.events.last(), known);
        lemma_event_known(a, b, b.events.last(), known);
        lemma_new_order_known(b, Incoming::replacement(id, order, new_price, new_qty), known);
    } else {
        lemma_cancel_known(state, id, known);
    }
}

/// Every cancellation names an order that was accepted before it: one of those that were
/// accepted by earlier commands, or by an earlier event of the same command. What rests
/// and waits afterwards is known in the same way.
pub proof fn law_only_accepted_orders_are_cancelled(
    state: Engine,
    command: Command,
    known: Set<u64>,
)
    requires
        state.book.wf(),
        covered(state, known, Seq::empty()),
    ensures
        cancels_known(known, state.process(command).events),
        covered(state.process(command), known, state.process(command).events),
{
    let ready = Engine { events: Seq::empty(), ..state };
    assert forall|side: Side, stop: (u64, StopEntry)| #[trigger]
        ready.stops(side).contains(stop) implies knows(known, ready.events, 0, stop.1.id.0) by {
        assert(state.stops(side).contains(stop));
    }
    match command {
        Command::NewOrder {
            id,
            instrument_id,
            side,
            price,
            qty,
            order_type,
            time_in_force,
            visible_qty,
            stop_price,
            stp_group,
        } => {
            let order = Incoming {
                id,
                side,
                price,
                qty,
                order_type,
                time_in_force,
                visible_qty,
                stop_price,
                stp_group,
            };
            ready.lemma_new_order(order);
            lemma_new_order_known(ready, order, known);
            lemma_drain_known(ready.new_order(order), known);
        },
        Command::CancelOrder { id } => {
            ready.lemma_cancel(id);
            lemma_cancel_known(ready, id, known);
            lemma_drain_known(ready.cancel(id), known);
        },
        Command::ModifyOrder { id, new_price, new_qty } => {
            ready.lemma_modify(id, new_price, new_qty);
            lemma_modify_known(ready, id, new_price, new_qty, known);
            lemma_drain_known(ready.modify(id, new_price, new_qty), known);
        },
    }
}

/// In a new engine no order needs to be known.
pub proof fn law_nothing_is_known_at_start(base: u64, ticks: u32, capacity: nat, stp_mode: StpMode)
    ensures
        covered(Engine::start(base, ticks, capacity, stp_mode), Set::empty(), Seq::empty()),
{
}

} // verus!
