//! Law of modification: a modified order is a cancelled order and a new one.
use crate::book_model::Resting;
use crate::engine_model::{lesser, same_group, triggers, Engine, Incoming};
use crate::laws_orders::{lemma_nothing_due, no_stop_due, same_market};
use crate::types::{
    Command, EventMeta, MatchEvent, OrderId, OrderType, RejectReason, Side, StpMode, TimeInForce,
};
use vstd::prelude::*;

verus! {

/// An event without its number.
pub open spec fn unnumbered(event: MatchEvent) -> MatchEvent {
    let meta = EventMeta { sequence: 0, timestamp_ns: 0 };
    match event {
        MatchEvent::OrderAccepted { id, side, price, qty, order_type, .. } => {
            MatchEvent::OrderAccepted { meta, id, side, price, qty, order_type }
        },
        MatchEvent::OrderRejected { id, reason, .. } => {
            MatchEvent::OrderRejected { meta, id, reason }
        },
        MatchEvent::Fill {
            maker_id,
            taker_id,
            price,
            qty,
            maker_remaining,
            taker_remaining,
            ..
        } => MatchEvent::Fill {
            meta,
            maker_id,
            taker_id,
            price,
            qty,
            maker_remaining,
            taker_remaining,
        },
        MatchEvent::OrderCancelled { id, remaining_qty, .. } => {
            MatchEvent::OrderCancelled { meta, id, remaining_qty }
        },
        MatchEvent::OrderModified { id, new_price, new_qty, .. } => {
            MatchEvent::OrderModified { meta, id, new_price, new_qty }
        },
        MatchEvent::BookUpdate { side, price, qty, .. } => {
            MatchEvent::BookUpdate { meta, side, price, qty }
        },
        MatchEvent::StopTriggered { stop_id, new_order_id, .. } => {
            MatchEvent::StopTriggered { meta, stop_id, new_order_id }
        },
    }
}

/// The events from the `from`th on, without their numbers.
pub open spec fn answers(events: Seq<MatchEvent>, from: int) -> Seq<MatchEvent> {
    events.skip(from).map_values(|event: MatchEvent| unnumbered(event))
}

/// Whether two states are the same but for their events and event numbers, and the
/// events from the `m`th of one and from the `n`th of the other on are the same but for
/// their numbers.
#[verifier::opaque]
pub open spec fn alike(a: Engine, m: int, b: Engine, n: int) -> bool {
    &&& same_market(a, b)
    &&& 0 <= m <= a.events.len()
    &&& 0 <= n <= b.events.len()
    &&& answers(a.events, m) == answers(b.events, n)
}

/// What two states that are alike have in common.
proof fn lemma_alike(a: Engine, m: int, b: Engine, n: int)
    requires
        alike(a, m, b, n),
    ensures
        a.book == b.book,
        a.free == b.free,
        a.stop_bids == b.stop_bids,
        a.stop_asks == b.stop_asks,
        a.last_trade == b.last_trade,
        a.stp_mode == b.stp_mode,
        a.bounded == b.bounded,
{
    reveal(alike);
}

/// The same event more leaves states alike.
proof fn lemma_emit_alike(a: Engine, m: int, b: Engine, n: int, x: MatchEvent, y: MatchEvent)
    requires
        alike(a, m, b, n),
        unnumbered(x) == unnumbered(y),
    ensures
        alike(a.emit(x), m, b.emit(y), n),
{
    reveal(alike);
    assert(a.emit(x).events.skip(m) =~= a.events.skip(m).push(x));
    assert(b.emit(y).events.skip(n) =~= b.events.skip(n).push(y));
    assert(answers(a.emit(x).events, m) =~= answers(a.events, m).push(unnumbered(x)));
    assert(answers(b.emit(y).events, n) =~= answers(b.events, n).push(unnumbered(y)));
}

/// The same change of the market leaves states alike.
proof fn lemma_change_alike(a: Engine, m: int, b: Engine, n: int, x: Engine, y: Engine)
    requires
        alike(a, m, b, n),
        x.events == a.events,
        y.events == b.events,
        same_market(x, y),
    ensures
        alike(x, m, y, n),
{
    reveal(alike);
}

proof fn lemma_update_alike(a: Engine, m: int, b: Engine, n: int, side: Side, price: u64)
    requires
        alike(a, m, b, n),
    ensures
        alike(a.book_update(side, price), m, b.book_update(side, price), n),
{
    lemma_alike(a, m, b, n);
    lemma_emit_alike(
        a,
        m,
        b,
        n,
        a.book_update(side, price).events.last(),
        b.book_update(side, price).events.last(),
    );
}

proof fn lemma_cancelled_alike(a: Engine, m: int, b: Engine, n: int, id: OrderId, qty: int)
    requires
        alike(a, m, b, n),
    ensures
        alike(a.cancelled(id, qty), m, b.cancelled(id, qty), n),
{
    lemma_emit_alike(
        a,
        m,
        b,
        n,
        a.cancelled(id, qty).events.last(),
        b.cancelled(id, qty).events.last(),
    );
}

proof fn lemma_take_out_alike(a: Engine, m: int, b: Engine, n: int, id: u64)
    requires
        alike(a, m, b, n),
    ensures
        alike(a.take_out(id), m, b.take_out(id), n),
{
    lemma_alike(a, m, b, n);
    lemma_change_alike(a, m, b, n, a.take_out(id), b.take_out(id));
}

proof fn lemma_rest_alike(a: Engine, m: int, b: Engine, n: int, id: OrderId, order: Resting)
    requires
        alike(a, m, b, n),
    ensures
        alike(a.rest(id, order), m, b.rest(id, order), n),
{
    lemma_alike(a, m, b, n);
    lemma_change_alike(a, m, b, n, a.rest(id, order), b.rest(id, order));
}

proof fn lemma_cancel_maker_alike(a: Engine, m: int, b: Engine, n: int, maker: u64)
    requires
        alike(a, m, b, n),
    ensures
        alike(a.cancel_maker(maker), m, b.cancel_maker(maker), n),
{
    lemma_alike(a, m, b, n);
    let order = a.book.orders[maker];
    let (a1, b1) = (a.take_out(maker), b.take_out(maker));
    lemma_take_out_alike(a, m, b, n, maker);
    lemma_cancelled_alike(a1, m, b1, n, OrderId(maker), order.unfilled());
    lemma_update_alike(
        a1.cancelled(OrderId(maker), order.unfilled()),
        m,
        b1.cancelled(OrderId(maker), order.unfilled()),
        n,
        order.side,
        order.price,
    );
}

proof fn lemma_decrement_alike(a: Engine, m: int, b: Engine, n: int, maker: u64, overlap: int)
    requires
        alike(a, m, b, n),
    ensures
        alike(a.decrement_maker(maker, overlap), m, b.decrement_maker(maker, overlap), n),
{
    lemma_alike(a, m, b, n);
    let order = a.book.orders[maker];
    if overlap == order.unfilled() {
        lemma_take_out_alike(a, m, b, n, maker);
        lemma_update_alike(a.take_out(maker), m, b.take_out(maker), n, order.side, order.price);
    } else {
        let x = Engine { book: a.book.reduce(maker, overlap), ..a };
        let y = Engine { book: b.book.reduce(maker, overlap), ..b };
        lemma_change_alike(a, m, b, n, x, y);
        lemma_update_alike(x, m, y, n, order.side, order.price);
    }
}

proof fn lemma_fill_alike(
    a: Engine,
    m: int,
    b: Engine,
    n: int,
    maker: u64,
    taker: OrderId,
    qty: int,
    left: int,
)
    requires
        alike(a, m, b, n),
    ensures
        alike(a.fill(maker, taker, qty, left), m, b.fill(maker, taker, qty, left), n),
{
    lemma_alike(a, m, b, n);
    let order = a.book.orders[maker];
    let a1 = Engine { book: a.book.reduce(maker, qty), ..a };
    let b1 = Engine { book: b.book.reduce(maker, qty), ..b };
    lemma_change_alike(a, m, b, n, a1, b1);
    let x = MatchEvent::Fill {
        meta: a.next_meta(),
        maker_id: OrderId(maker),
        taker_id: taker,
        price: order.price,
        qty: qty as u64,
        maker_remaining: (order.unfilled() - qty) as u64,
        taker_remaining: left as u64,
    };
    let y = MatchEvent::Fill {
        meta: b.next_meta(),
        maker_id: OrderId(maker),
        taker_id: taker,
        price: order.price,
        qty: qty as u64,
        maker_remaining: (order.unfilled() - qty) as u64,
        taker_remaining: left as u64,
    };
    lemma_emit_alike(a1, m, b1, n, x, y);
    let (a2, b2) = (a1.emit(x), b1.emit(y));
    lemma_alike(a2, m, b2, n);
    let a3 = Engine { last_trade: Some(order.price), ..a2 };
    let b3 = Engine { last_trade: Some(order.price), ..b2 };
    lemma_change_alike(a2, m, b2, n, a3, b3);
    lemma_update_alike(a3, m, b3, n, order.side, order.price);
    let a4 = a3.book_update(order.side, order.price);
    let b4 = b3.book_update(order.side, order.price);
    lemma_alike(a4, m, b4, n);
    if qty == order.unfilled() {
        lemma_take_out_alike(a4, m, b4, n, maker);
    } else if qty == order.matchable() {
        lemma_change_alike(a4, m, b4, n, a4.requeue(maker), b4.requeue(maker));
    }
}

proof fn lemma_match_alike(a: Engine, m: int, b: Engine, n: int, taker: Incoming, left: int)
    requires
        alike(a, m, b, n),
        a.book.wf(),
        left >= 0,
    ensures
        alike(a.match_book(taker, left).0, m, b.match_book(taker, left).0, n),
        a.match_book(taker, left).1 == b.match_book(taker, left).1,
        a.match_book(taker, left).2 == b.match_book(taker, left).2,
    decreases left, a.book.orders.dom().len(),
{
    lemma_alike(a, m, b, n);
    a.lemma_first_maker(taker.side, taker.reach());
    match a.first_maker(taker.side, taker.reach()) {
        Some(maker) if left > 0 => {
            let order = a.book.orders[maker];
            if order.unfilled() == 0 {
                a.lemma_take_out(maker);
                lemma_take_out_alike(a, m, b, n, maker);
                lemma_match_alike(a.take_out(maker), m, b.take_out(maker), n, taker, left);
            } else if same_group(taker.stp_group, order.stp_group) {
                a.lemma_cancel_maker(maker);
                lemma_cancel_maker_alike(a, m, b, n, maker);
                lemma_decrement_alike(a, m, b, n, maker, lesser(left, order.unfilled()));
                if a.stp_mode == StpMode::CancelOldest {
                    lemma_match_alike(
                        a.cancel_maker(maker),
                        m,
                        b.cancel_maker(maker),
                        n,
                        taker,
                        left,
                    );
                }
            } else {
                let qty = lesser(left, order.matchable());
                a.lemma_fill(maker, taker.id, qty, left - qty);
                lemma_fill_alike(a, m, b, n, maker, taker.id, qty, left - qty);
                lemma_match_alike(
                    a.fill(maker, taker.id, qty, left - qty),
                    m,
                    b.fill(maker, taker.id, qty, left - qty),
                    n,
                    taker,
                    left - qty,
                );
            }
        },
        _ => {},
    }
}

proof fn lemma_settle_alike(
    a: Engine,
    m: int,
    b: Engine,
    n: int,
    order: Incoming,
    left: int,
    cancel: bool,
)
    requires
        alike(a, m, b, n),
    ensures
        alike(a.settle(order, left, cancel), m, b.settle(order, left, cancel), n),
{
    lemma_cancelled_alike(a, m, b, n, order.id, left);
    lemma_rest_alike(a, m, b, n, order.id, order.remainder(left as u64));
    lemma_update_alike(
        a.rest(order.id, order.remainder(left as u64)),
        m,
        b.rest(order.id, order.remainder(left as u64)),
        n,
        order.side,
        order.price,
    );
}

/// What an incoming order does to the market, and how it is answered, does not depend on
/// the events so far, nor on the clock.
pub proof fn law_clock_does_not_matter(a: Engine, m: int, b: Engine, n: int, order: Incoming)
    requires
        alike(a, m, b, n),
        a.book.wf(),
    ensures
        alike(a.new_order(order), m, b.new_order(order), n),
{
    lemma_alike(a, m, b, n);
    let (a1, b1) = (a.accepted(order), b.accepted(order));
    lemma_emit_alike(a, m, b, n, a1.events.last(), b1.events.last());
    lemma_alike(a1, m, b1, n);
    match order.order_type {
        OrderType::PostOnly => {
            if a.first_maker(order.side, order.price) is Some {
                lemma_emit_alike(
                    a,
                    m,
                    b,
                    n,
                    a.new_order(order).events.last(),
                    b.new_order(order).events.last(),
                );
            } else {
                let resting = order.remainder(order.qty);
                lemma_rest_alike(a1, m, b1, n, order.id, resting);
                lemma_update_alike(
                    a1.rest(order.id, resting),
                    m,
                    b1.rest(order.id, resting),
                    n,
                    order.side,
                    order.price,
                );
            }
        },
        OrderType::StopLimit => {
            if order.qty != 0 && order.stop_price is Some {
                lemma_change_alike(a1, m, b1, n, a.new_order(order), b.new_order(order));
            } else {
                lemma_emit_alike(
                    a,
                    m,
                    b,
                    n,
                    a.new_order(order).events.last(),
                    b.new_order(order).events.last(),
                );
            }
        },
        _ => {
            assert(a.refusal(order) == b.refusal(order));
            match a.refusal(order) {
                Some(reason) => {
                    lemma_emit_alike(
                        a,
                        m,
                        b,
                        n,
                        a.rejected(order.id, reason).events.last(),
                        b.rejected(order.id, reason).events.last(),
                    );
                },
                None => {
                    lemma_match_alike(a1, m, b1, n, order, order.qty as int);
                    let (a2, left, cancel) = a1.match_book(order, order.qty as int);
                    let b2 = b1.match_book(order, order.qty as int).0;
                    lemma_settle_alike(a2, m, b2, n, order, left, cancel);
                },
            }
        },
    }
}

proof fn lemma_trigger_alike(a: Engine, m: int, b: Engine, n: int, side: Side)
    requires
        alike(a, m, b, n),
        a.book.wf(),
        a.stops(side).len() > 0,
    ensures
        alike(a.trigger(side), m, b.trigger(side), n),
{
    lemma_alike(a, m, b, n);
    let (a1, b1) = (a.pop_stop(side), b.pop_stop(side));
    lemma_change_alike(a, m, b, n, a1, b1);
    lemma_emit_alike(
        a1,
        m,
        b1,
        n,
        a.triggering(side).events.last(),
        b.triggering(side).events.last(),
    );
    law_clock_does_not_matter(
        a.triggering(side),
        m,
        b.triggering(side),
        n,
        a.stops(side)[0].1.order(),
    );
}

proof fn lemma_drain_side_alike(a: Engine, m: int, b: Engine, n: int, side: Side, last: u64)
    requires
        alike(a, m, b, n),
        a.book.wf(),
    ensures
        alike(a.drain_side(side, last), m, b.drain_side(side, last), n),
    decreases a.stops(side).len(),
{
    lemma_alike(a, m, b, n);
    assert(a.stops(side) == b.stops(side));
    if a.stops(side).len() > 0 && triggers(side, a.stops(side)[0].0, last) {
        a.lemma_trigger(side);
        b.lemma_trigger(side);
        lemma_trigger_alike(a, m, b, n, side);
        lemma_drain_side_alike(a.trigger(side), m, b.trigger(side), n, side, last);
        assert(a.drain_side(side, last) == a.trigger(side).drain_side(side, last));
        assert(b.drain_side(side, last) == b.trigger(side).drain_side(side, last));
    } else {
        assert(a.drain_side(side, last) == a);
        assert(b.drain_side(side, last) == b);
    }
}

proof fn lemma_drain_alike(a: Engine, m: int, b: Engine, n: int)
    requires
        alike(a, m, b, n),
        a.book.wf(),
    ensures
        alike(a.drain(), m, b.drain(), n),
    decreases a.stop_bids.len() + a.stop_asks.len(),
{
    lemma_alike(a, m, b, n);
    match a.last_trade {
        None => {},
        Some(last) => {
            let a1 = a.drain_side(Side::Bid, last);
            let b1 = b.drain_side(Side::Bid, last);
            let a2 = a1.drain_side(Side::Ask, last);
            let b2 = b1.drain_side(Side::Ask, last);
            a.lemma_drain_side(Side::Bid, last);
            a1.lemma_drain_side(Side::Ask, last);
            lemma_drain_side_alike(a, m, b, n, Side::Bid, last);
            lemma_drain_side_alike(a1, m, b1, n, Side::Ask, last);
            lemma_alike(a2, m, b2, n);
            if a2.last_trade != Some(last) {
                lemma_drain_alike(a2, m, b2, n);
            }
        },
    }
}

/// To modify a resting order is to cancel it and to send its replacement: the market is
/// the same afterwards, with the same orders in the same queues, and behind the two
/// events of the one and of the other the answers are the same. The first event is the
/// modification. An order that does not rest is answered with one rejection, and nothing
/// else changes.
pub proof fn law_modify_is_cancel_and_new(state: Engine, id: OrderId, new_price: u64, new_qty: u64)
    requires
        state.book.wf(),
    ensures
        modified_as_replaced(state, state.modify(id, new_price, new_qty), id, new_price, new_qty),
{
    if state.book.orders.contains_key(id.0) {
        let order = state.book.orders[id.0];
        let incoming = Incoming::replacement(id, order, new_price, new_qty);
        let a = state.replacing(id, new_price, new_qty);
        let b = state.cancel(id);
        let n = state.events.len() as int + 2;
        state.lemma_take_out(id.0);
        assert(alike(a, n, b, n)) by {
            reveal(alike);
            assert(a.events.skip(n) =~= Seq::empty());
            assert(b.events.skip(n) =~= Seq::empty());
            assert(answers(a.events, n) =~= answers(b.events, n));
        }
        law_clock_does_not_matter(a, n, b, n, incoming);
        a.lemma_new_order(incoming);
        assert(a.new_order(incoming).events[n - 2] == a.events[n - 2]);
    }
}

/// Whether `after` is what modifying order `id` makes of `before`, in terms of
/// cancelling it and sending its replacement.
pub open spec fn modified_as_replaced(
    before: Engine,
    after: Engine,
    id: OrderId,
    new_price: u64,
    new_qty: u64,
) -> bool {
    let n = before.events.len() as int;
    if before.book.orders.contains_key(id.0) {
        let order = before.book.orders[id.0];
        &&& alike(
            after,
            n + 2,
            before.cancel(id).new_order(Incoming::replacement(id, order, new_price, new_qty)),
            n + 2,
        )
        &&& after.events[n] matches MatchEvent::OrderModified {
            id: changed,
            new_price: price,
            new_qty: qty,
            ..
        } && changed == id && price == new_price && qty == new_qty
    } else {
        after == before.rejected(id, RejectReason::OrderNotFound)
    }
}

/// The command that brings the replacement of a modified order as a new order.
pub open spec fn replacement_command(
    instrument_id: u32,
    id: OrderId,
    order: Resting,
    new_price: u64,
    new_qty: u64,
) -> Command {
    Command::NewOrder {
        id,
        instrument_id,
        side: order.side,
        price: new_price,
        qty: new_qty,
        order_type: OrderType::Limit,
        time_in_force: TimeInForce::GTC,
        visible_qty: None,
        stop_price: None,
        stp_group: Incoming::replacement(id, order, new_price, new_qty).stp_group,
    }
}

/// To modify a resting order is to cancel it and to send its replacement: the commands
/// lead to the same market, with the same orders in the same queues, and, behind the
/// modification and the new quantity of the old level, to the same events as the new
/// order, stops that it triggers included.
pub proof fn law_modify_command(
    state: Engine,
    instrument_id: u32,
    id: OrderId,
    new_price: u64,
    new_qty: u64,
)
    requires
        state.book.wf(),
        no_stop_due(state),
        state.book.orders.contains_key(id.0),
    ensures
        ({
            let order = state.book.orders[id.0];
            let modified = state.process(Command::ModifyOrder { id, new_price, new_qty });
            let replaced = state.process(Command::CancelOrder { id }).process(
                replacement_command(instrument_id, id, order, new_price, new_qty),
            );
            &&& same_market(modified, replaced)
            &&& modified.events.len() >= 2
            &&& modified.events[0] matches MatchEvent::OrderModified {
                id: changed,
                new_price: price,
                new_qty: qty,
                ..
            } && changed == id && price == new_price && qty == new_qty
            &&& modified.events[1] matches MatchEvent::BookUpdate { side, price, .. } && side
                == order.side && price == order.price
            &&& answers(modified.events, 2) == answers(replaced.events, 0)
        }),
{
    let order = state.book.orders[id.0];
    let ready = Engine { events: Seq::empty(), ..state };
    let a = ready.replacing(id, new_price, new_qty);
    let b = Engine { events: Seq::empty(), ..ready.cancel(id) };
    let incoming = Incoming::replacement(id, order, new_price, new_qty);
    lemma_modify_command(state, id, new_price, new_qty);
    lemma_cancel_command(state, id);
    lemma_replacement_command(
        state.process(Command::CancelOrder { id }),
        instrument_id,
        id,
        order,
        new_price,
        new_qty,
    );
    lemma_replacing_alike(ready, id, new_price, new_qty);
    lemma_drained_alike(a, 2, b, 0, incoming);
    lemma_alike_ends(a.new_order(incoming).drain(), 2, b.new_order(incoming).drain(), 0);
    lemma_first_answers(a, incoming);
    let modified = state.process(Command::ModifyOrder { id, new_price, new_qty });
    assert(modified.events[0] == a.events[0]);
    assert(modified.events[1] == a.events[1]);
}

/// The events so far stay the first ones.
proof fn lemma_first_answers(state: Engine, order: Incoming)
    requires
        state.book.wf(),
    ensures
        ({
            let end = state.new_order(order).drain();
            &&& state.events.len() <= end.events.len()
            &&& forall|i: int|
                0 <= i < state.events.len() ==> #[trigger] end.events[i] == state.events[i]
        }),
{
    let mid = state.new_order(order);
    state.lemma_new_order(order);
    mid.lemma_drain();
    state.lemma_leads(mid, mid.drain());
}

/// Cancelling an order triggers no stop.
proof fn lemma_cancel_command(state: Engine, id: OrderId)
    requires
        state.book.wf(),
        no_stop_due(state),
    ensures
        state.process(Command::CancelOrder { id }) == (Engine {
            events: Seq::empty(),
            ..state
        }).cancel(id),
{
    let ready = Engine { events: Seq::empty(), ..state };
    let gone = ready.cancel(id);
    ready.lemma_cancel(id);
    assert(no_stop_due(gone)) by {
        if let Some(last) = gone.last_trade {
            assert forall|side: Side, i: int| 0 <= i < gone.stops(side).len() implies !triggers(
                side,
                (#[trigger] gone.stops(side)[i]).0,
                last,
            ) by {
                assert(gone.stops(side)[i] == state.stops(side)[i]);
            }
        }
    }
    lemma_nothing_due(gone);
}

/// What the command that brings a replacement does.
proof fn lemma_replacement_command(
    state: Engine,
    instrument_id: u32,
    id: OrderId,
    order: Resting,
    new_price: u64,
    new_qty: u64,
)
    ensures
        state.process(replacement_command(instrument_id, id, order, new_price, new_qty)) == (Engine {
            events: Seq::empty(),
            ..state
        }).new_order(Incoming::replacement(id, order, new_price, new_qty)).drain(),
{
}

/// What the command that modifies an order does.
proof fn lemma_modify_command(state: Engine, id: OrderId, new_price: u64, new_qty: u64)
    requires
        state.book.orders.contains_key(id.0),
    ensures
        state.process(Command::ModifyOrder { id, new_price, new_qty }) == (Engine {
            events: Seq::empty(),
            ..state
        }).replacing(id, new_price, new_qty).new_order(
            Incoming::replacement(id, state.book.orders[id.0], new_price, new_qty),
        ).drain(),
{
}

/// What is alike before a new order and the stops that it triggers is alike after them.
proof fn lemma_drained_alike(a: Engine, m: int, b: Engine, n: int, order: Incoming)
    requires
        alike(a, m, b, n),
        a.book.wf(),
    ensures
        alike(a.new_order(order).drain(), m, b.new_order(order).drain(), n),
{
    law_clock_does_not_matter(a, m, b, n, order);
    a.lemma_new_order(order);
    lemma_drain_alike(a.new_order(order), m, b.new_order(order), n);
}

/// What two ends that are alike have in common.
proof fn lemma_alike_ends(a: Engine, m: int, b: Engine, n: int)
    requires
        alike(a, m, b, n),
    ensures
        same_market(a, b),
        answers(a.events, m) == answers(b.events, n),
{
    reveal(alike);
}

/// An order that is cancelled and one that is being replaced leave the same market.
proof fn lemma_replacing_alike(state: Engine, id: OrderId, new_price: u64, new_qty: u64)
    requires
        state.book.wf(),
        state.book.orders.contains_key(id.0),
        state.events.len() == 0,
    ensures
        alike(
            state.replacing(id, new_price, new_qty),
            2,
            Engine { events: Seq::empty(), ..state.cancel(id) },
            0,
        ),
        state.replacing(id, new_price, new_qty).book.wf(),
        ({
            let order = state.book.orders[id.0];
            let events = state.replacing(id, new_price, new_qty).events;
            &&& events.len() == 2
            &&& events[0] matches MatchEvent::OrderModified {
                id: changed,
                new_price: price,
                new_qty: qty,
                ..
            } && changed == id && price == new_price && qty == new_qty
            &&& events[1] matches MatchEvent::BookUpdate { side, price, .. } && side == order.side
                && price == order.price
        }),
{
    reveal(alike);
    state.lemma_take_out(id.0);
    let a = state.replacing(id, new_price, new_qty);
    let b = Engine { events: Seq::empty(), ..state.cancel(id) };
    assert(answers(a.events, 2) =~= answers(b.events, 0));
}

} // verus!
