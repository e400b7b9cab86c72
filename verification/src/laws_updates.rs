//! Law of the level updates: every level that a command changes is published, with the
//! quantity that it ends up with.
use crate::book_model::{Book, Resting};
use crate::engine_model::{lesser, same_group, triggers, Engine, Incoming};
use crate::types::{Command, MatchEvent, OrderId, OrderType, Side, StpMode};
use vstd::prelude::*;

verus! {

/// The quantity that the last update among `events` gives for the level at `price`, if
/// there is one.
pub open spec fn last_update(events: Seq<MatchEvent>, side: Side, price: u64) -> Option<u64>
    decreases events.len(),
{
    if events.len() == 0 {
        None
    } else {
        match events.last() {
            MatchEvent::BookUpdate { side: s, price: p, qty, .. } if s == side && p == price => {
                Some(qty)
            },
            _ => last_update(events.drop_last(), side, price),
        }
    }
}

/// Whether what `events` say of a level is what it holds in `after`: the last update
/// gives its quantity, and without an update it holds what it held in `before`.
pub open spec fn told_of_level(
    before: Book,
    after: Book,
    events: Seq<MatchEvent>,
    side: Side,
    price: u64,
) -> bool {
    match last_update(events, side, price) {
        Some(qty) => qty == after.level_qty(side, price as int) as u64,
        None => after.level_qty(side, price as int) == before.level_qty(side, price as int),
    }
}

/// Whether the events of `state` tell of all levels but the one that is left out.
#[verifier::opaque]
spec fn current(before: Book, state: Engine, but: Option<(Side, u64)>) -> bool {
    forall|side: Side, price: u64|
        but != Some((side, price)) ==> #[trigger] told_of_level(
            before,
            state.book,
            state.events,
            side,
            price,
        )
}

/// An event that is no update leaves what is told of the levels as it is.
proof fn lemma_emit_current(
    before: Book,
    state: Engine,
    event: MatchEvent,
    but: Option<(Side, u64)>,
)
    requires
        current(before, state, but),
        event !is BookUpdate,
    ensures
        current(before, state.emit(event), but),
{
    reveal(current);
    let after = state.emit(event);
    assert(after.events.drop_last() =~= state.events);
    assert forall|side: Side, price: u64| but != Some((side, price)) implies #[trigger] told_of_level(
        before,
        after.book,
        after.events,
        side,
        price,
    ) by {
        assert(told_of_level(before, state.book, state.events, side, price));
    }
}

/// An update tells of its level.
proof fn lemma_update_current(before: Book, state: Engine, side: Side, price: u64)
    requires
        current(before, state, Some((side, price))),
    ensures
        current(before, state.book_update(side, price), None),
{
    reveal(current);
    let after = state.book_update(side, price);
    assert(after.events.drop_last() =~= state.events);
    assert forall|s: Side, p: u64| #[trigger] told_of_level(
        before,
        after.book,
        after.events,
        s,
        p,
    ) by {
        if (s, p) != (side, price) {
            assert(told_of_level(before, state.book, state.events, s, p));
        }
    }
}

/// A change at one level leaves what is told of the others as it is.
proof fn lemma_change_current(before: Book, state: Engine, after: Engine, side: Side, price: u64)
    requires
        current(before, state, None) || current(before, state, Some((side, price))),
        after.events == state.events,
        forall|s: Side, p: int| #[trigger]
            after.book.level_qty(s, p) == state.book.level_qty(s, p) || (s == side && p == price),
    ensures
        current(before, after, Some((side, price))),
{
    reveal(current);
    assert forall|s: Side, p: u64| Some((side, price)) != Some((s, p)) implies #[trigger] told_of_level(
        before,
        after.book,
        after.events,
        s,
        p,
    ) by {
        assert(told_of_level(before, state.book, state.events, s, p));
        assert(after.book.level_qty(s, p as int) == state.book.level_qty(s, p as int));
    }
}

/// Where no level changes, what is told of them stays true.
proof fn lemma_same_current(before: Book, state: Engine, after: Engine)
    requires
        current(before, state, None),
        after.events == state.events,
        forall|s: Side, p: int| #[trigger]
            after.book.level_qty(s, p) == state.book.level_qty(s, p),
    ensures
        current(before, after, None),
{
    reveal(current);
    assert forall|s: Side, p: u64| #[trigger] told_of_level(
        before,
        after.book,
        after.events,
        s,
        p,
    ) by {
        assert(told_of_level(before, state.book, state.events, s, p));
    }
}

proof fn lemma_cancel_maker_current(before: Book, state: Engine, maker: u64)
    requires
        state.book.wf(),
        state.book.orders.contains_key(maker),
        current(before, state, None),
    ensures
        current(before, state.cancel_maker(maker), None),
{
    let order = state.book.orders[maker];
    let out = state.take_out(maker);
    let told = out.cancelled(OrderId(maker), order.unfilled());
    state.book.lemma_take_out(maker);
    lemma_change_current(before, state, out, order.side, order.price);
    lemma_emit_current(before, out, told.events.last(), Some((order.side, order.price)));
    lemma_update_current(before, told, order.side, order.price);
}

proof fn lemma_decrement_current(before: Book, state: Engine, maker: u64, overlap: int)
    requires
        state.book.wf(),
        state.book.orders.contains_key(maker),
        0 <= overlap <= state.book.orders[maker].unfilled(),
        current(before, state, None),
    ensures
        current(before, state.decrement_maker(maker, overlap), None),
{
    let order = state.book.orders[maker];
    let less = if overlap == order.unfilled() {
        state.take_out(maker)
    } else {
        Engine { book: state.book.reduce(maker, overlap), ..state }
    };
    state.book.lemma_take_out(maker);
    state.book.lemma_reduce(maker, overlap);
    lemma_change_current(before, state, less, order.side, order.price);
    lemma_update_current(before, less, order.side, order.price);
}

/// A maker of which nothing is left may leave, or change its place, without an update.
proof fn lemma_fill_current(
    before: Book,
    state: Engine,
    maker: u64,
    taker: OrderId,
    qty: int,
    left: int,
)
    requires
        state.book.wf(),
        state.book.orders.contains_key(maker),
        0 <= qty <= state.book.orders[maker].unfilled(),
        current(before, state, None),
    ensures
        current(before, state.fill(maker, taker, qty, left), None),
{
    let order = state.book.orders[maker];
    let a = Engine { book: state.book.reduce(maker, qty), ..state };
    let event = MatchEvent::Fill {
        meta: state.next_meta(),
        maker_id: OrderId(maker),
        taker_id: taker,
        price: order.price,
        qty: qty as u64,
        maker_remaining: (order.unfilled() - qty) as u64,
        taker_remaining: left as u64,
    };
    let b = a.emit(event);
    let c = Engine { last_trade: Some(order.price), ..b };
    let d = c.book_update(order.side, order.price);
    state.book.lemma_reduce(maker, qty);
    lemma_change_current(before, state, a, order.side, order.price);
    lemma_emit_current(before, a, event, Some((order.side, order.price)));
    lemma_change_current(before, b, c, order.side, order.price);
    lemma_update_current(before, c, order.side, order.price);
    if qty == order.unfilled() {
        d.book.lemma_take_out(maker);
        lemma_same_current(before, d, d.take_out(maker));
    } else if qty == order.matchable() {
        d.book.lemma_requeue(maker);
        lemma_same_current(before, d, d.requeue(maker));
    }
}

proof fn lemma_match_current(before: Book, state: Engine, taker: Incoming, left: int)
    requires
        state.book.wf(),
        left >= 0,
        current(before, state, None),
    ensures
        current(before, state.match_book(taker, left).0, None),
    decreases left, state.book.orders.dom().len(),
{
    state.lemma_first_maker(taker.side, taker.reach());
    match state.first_maker(taker.side, taker.reach()) {
        Some(maker) if left > 0 => {
            let order = state.book.orders[maker];
            if order.unfilled() == 0 {
                state.lemma_take_out(maker);
                state.book.lemma_take_out(maker);
                lemma_same_current(before, state, state.take_out(maker));
                lemma_match_current(before, state.take_out(maker), taker, left);
            } else if same_group(taker.stp_group, order.stp_group) {
                state.lemma_cancel_maker(maker);
                lemma_cancel_maker_current(before, state, maker);
                if state.stp_mode == StpMode::CancelOldest {
                    lemma_match_current(before, state.cancel_maker(maker), taker, left);
                } else if state.stp_mode == StpMode::DecrementAndCancel {
                    lemma_decrement_current(before, state, maker, lesser(left, order.unfilled()));
                }
            } else {
                let qty = lesser(left, order.matchable());
                state.lemma_fill(maker, taker.id, qty, left - qty);
                lemma_fill_current(before, state, maker, taker.id, qty, left - qty);
                lemma_match_current(
                    before,
                    state.fill(maker, taker.id, qty, left - qty),
                    taker,
                    left - qty,
                );
            }
        },
        _ => {},
    }
}

/// An order that comes to rest is published with its level.
proof fn lemma_rest_current(before: Book, state: Engine, id: OrderId, order: Resting)
    requires
        state.book.wf(),
        order.filled <= order.quantity,
        current(before, state, None),
    ensures
        current(before, state.rest(id, order).book_update(order.side, order.price), None),
{
    if !state.book.orders.contains_key(id.0) {
        state.book.lemma_rest(id.0, order);
    }
    lemma_change_current(before, state, state.rest(id, order), order.side, order.price);
    lemma_update_current(before, state.rest(id, order), order.side, order.price);
}

proof fn lemma_new_order_current(before: Book, state: Engine, order: Incoming)
    requires
        state.book.wf(),
        current(before, state, None),
    ensures
        current(before, state.new_order(order), None),
{
    let after = state.new_order(order);
    let accepted = state.accepted(order);
    lemma_emit_current(before, state, accepted.events.last(), None);
    match order.order_type {
        OrderType::PostOnly => {
            if state.first_maker(order.side, order.price) is Some {
                lemma_emit_current(before, state, after.events.last(), None);
            } else {
                lemma_rest_current(before, accepted, order.id, order.remainder(order.qty));
            }
        },
        OrderType::StopLimit => {
            if order.qty != 0 && order.stop_price is Some {
                lemma_same_current(before, accepted, after);
            } else {
                lemma_emit_current(before, state, after.events.last(), None);
            }
        },
        _ => {
            if state.refusal(order) is None {
                let (end, left, cancel) = accepted.match_book(order, order.qty as int);
                accepted.lemma_match_book(order, order.qty as int);
                lemma_match_current(before, accepted, order, order.qty as int);
                if !cancel && left == 0 {
                } else if !cancel && after != end.cancelled(order.id, left) {
                    lemma_rest_current(before, end, order.id, order.remainder(left as u64));
                } else {
                    lemma_emit_current(
                        before,
                        end,
                        end.cancelled(order.id, left).events.last(),
                        None,
                    );
                }
            } else {
                lemma_emit_current(before, state, after.events.last(), None);
            }
        },
    }
}

proof fn lemma_drain_side_current(before: Book, state: Engine, side: Side, last: u64)
    requires
        state.book.wf(),
        current(before, state, None),
    ensures
        current(before, state.drain_side(side, last), None),
    decreases state.stops(side).len(),
{
    if state.stops(side).len() > 0 && triggers(side, state.stops(side)[0].0, last) {
        let popped = state.pop_stop(side);
        let mid = state.triggering(side);
        state.lemma_trigger(side);
        lemma_same_current(before, state, popped);
        lemma_emit_current(before, popped, mid.events.last(), None);
        lemma_new_order_current(before, mid, state.stops(side)[0].1.order());
        lemma_drain_side_current(before, state.trigger(side), side, last);
    }
}

proof fn lemma_drain_current(before: Book, state: Engine)
    requires
        state.book.wf(),
        current(before, state, None),
    ensures
        current(before, state.drain(), None),
    decreases state.stop_bids.len() + state.stop_asks.len(),
{
    match state.last_trade {
        None => {},
        Some(last) => {
            let bids = state.drain_side(Side::Bid, last);
            let both = bids.drain_side(Side::Ask, last);
            state.lemma_drain_side(Side::Bid, last);
            bids.lemma_drain_side(Side::Ask, last);
            lemma_drain_side_current(before, state, Side::Bid, last);
            lemma_drain_side_current(before, bids, Side::Ask, last);
            if both.last_trade != Some(last) {
                lemma_drain_current(before, both);
            }
        },
    }
}

proof fn lemma_modify_current(
    before: Book,
    state: Engine,
    id: OrderId,
    new_price: u64,
    new_qty: u64,
)
    requires
        state.book.wf(),
        current(before, state, None),
    ensures
        current(before, state.modify(id, new_price, new_qty), None),
{
    if state.book.orders.contains_key(id.0) {
        let order = state.book.orders[id.0];
        let out = state.take_out(id.0);
        let event = MatchEvent::OrderModified { meta: out.next_meta(), id, new_price, new_qty };
        state.lemma_take_out(id.0);
        state.book.lemma_take_out(id.0);
        lemma_change_current(before, state, out, order.side, order.price);
        lemma_emit_current(before, out, event, Some((order.side, order.price)));
        lemma_update_current(before, out.emit(event), order.side, order.price);
        lemma_new_order_current(
            before,
            state.replacing(id, new_price, new_qty),
            Incoming::replacement(id, order, new_price, new_qty),
        );
    } else {
        lemma_emit_current(
            before,
            state,
            state.modify(id, new_price, new_qty).events.last(),
            None,
        );
    }
}

/// Every level whose quantity a command changes is published by an update, and the last
/// update of a level gives the quantity that it holds afterwards.
pub proof fn law_changed_levels_are_published(
    state: Engine,
    command: Command,
    side: Side,
    price: u64,
)
    requires
        state.book.wf(),
    ensures
        ({
            let after = state.process(command);
            let update = last_update(after.events, side, price);
            &&& after.book.level_qty(side, price as int) != state.book.level_qty(side, price as int)
                ==> update is Some
            &&& update matches Some(qty) ==> qty == after.book.level_qty(side, price as int) as u64
        }),
{
    let ready = Engine { events: Seq::empty(), ..state };
    let before = state.book;
    assert(current(before, ready, None)) by {
        reveal(current);
    }
    match command {
        Command::NewOrder {
            id,
            instrument_id,
            side: on,
            price: at,
            qty,
            order_type,
            time_in_force,
            visible_qty,
            stop_price,
            stp_group,
        } => {
            let order = Incoming {
                id,
                side: on,
                price: at,
                qty,
                order_type,
                time_in_force,
                visible_qty,
                stop_price,
                stp_group,
            };
            ready.lemma_new_order(order);
            lemma_new_order_current(before, ready, order);
            lemma_drain_current(before, ready.new_order(order));
        },
        Command::CancelOrder { id } => {
            let after = ready.cancel(id);
            ready.lemma_cancel(id);
            if before.orders.contains_key(id.0) {
                lemma_cancel_maker_current(before, ready, id.0);
            } else {
                lemma_emit_current(before, ready, after.events.last(), None);
            }
            lemma_drain_current(before, after);
        },
        Command::ModifyOrder { id, new_price, new_qty } => {
            ready.lemma_modify(id, new_price, new_qty);
            lemma_modify_current(before, ready, id, new_price, new_qty);
            lemma_drain_current(before, ready.modify(id, new_price, new_qty));
        },
    }
    reveal(current);
    let after = state.process(command);
    assert(told_of_level(before, after.book, after.events, side, price));
}

} // verus!
