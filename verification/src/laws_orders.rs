//! Laws of the order types and of cancel and modify.
use crate::arena::Arena;
use crate::book::{level_of, OrderBook};
use crate::book_model::{Book, Resting};
use crate::engine_model::{
    lemma_stop_position, lesser, meta_of, same_group, stop_position, stops_sorted, triggers, Engine, Incoming,
    StopEntry,
};
use crate::laws_best::{clear_side, lemma_next_is_best};
use crate::laws_matching::{law_matching, lemma_traded_push, no_own_maker, shrunk, traded};
use crate::levels::{lemma_best_exists, next_best};
use crate::types::{Command, OrderId, OrderType, RejectReason, Side, StpMode, TimeInForce};
use vstd::arithmetic::div_mod::{
    lemma_fundamental_div_mod, lemma_fundamental_div_mod_converse, lemma_mod_bound,
};
use vstd::prelude::*;

verus! {

/// Whether an order is matched as it comes in.
pub open spec fn takes(order: Incoming) -> bool {
    order.order_type == OrderType::Limit || order.order_type == OrderType::Market
        || order.order_type == OrderType::Iceberg
}

/// What trades and what is left over of an incoming order add up to what was asked for,
/// in every mode but `DecrementAndCancel`, and there too where the order meets none of
/// its own group. The other side loses what is gone of the order, but for makers of its
/// own group that `CancelOldest` and `CancelBoth` cancel; so, where the order meets none
/// of its own group, exactly what trades.
pub proof fn law_quantity_is_conserved(state: Engine, order: Incoming)
    requires
        state.book.wf(),
        takes(order),
        state.refusal(order) is None,
    ensures
        ({
            let after = state.new_order(order);
            let left = state.accepted(order).match_book(order, order.qty as int).1;
            let sold = traded(after.events) - traded(state.events);
            let lost = state.book.side_qty(order.side.other()) - after.book.side_qty(
                order.side.other(),
            );
            let alone = no_own_maker(state.book, order);
            &&& 0 <= left <= order.qty
            &&& 0 <= sold <= order.qty - left
            &&& sold <= lost
            &&& state.stp_mode != StpMode::DecrementAndCancel || alone ==> sold + left == order.qty
            &&& state.stp_mode == StpMode::CancelNewest || state.stp_mode
                == StpMode::DecrementAndCancel || alone ==> lost + left == order.qty
        }),
{
    let accepted = state.accepted(order);
    let (end, left, cancel) = accepted.match_book(order, order.qty as int);
    law_matching(accepted, order, order.qty as int);
    accepted.lemma_match_book(order, order.qty as int);
    lemma_traded_push(state.events, accepted.events.last());
    lemma_settle_trades_nothing(end, order, left, cancel);
}

/// What is left of an order trades nothing, and rests on its own side if at all.
proof fn lemma_settle_trades_nothing(state: Engine, order: Incoming, left: int, cancel: bool)
    requires
        state.book.wf(),
    ensures
        traded(state.settle(order, left, cancel).events) == traded(state.events),
        state.settle(order, left, cancel).book.side_qty(order.side.other())
            == state.book.side_qty(order.side.other()),
{
    let after = state.settle(order, left, cancel);
    let rested = state.rest(order.id, order.remainder(left as u64));
    if after.events.len() > state.events.len() {
        assert(after.events =~= state.events.push(after.events.last()));
        lemma_traded_push(state.events, after.events.last());
    }
    if !state.book.orders.contains_key(order.id.0) {
        state.book.lemma_rest(order.id.0, order.remainder(left as u64));
    }
}

/// A post-only order never trades: it is rejected, or no order but itself changes.
pub proof fn law_post_only_never_trades(state: Engine, order: Incoming)
    requires
        state.book.wf(),
        order.order_type == OrderType::PostOnly,
    ensures
        traded(state.new_order(order).events) == traded(state.events),
        state.new_order(order).last_trade == state.last_trade,
        state.new_order(order).book.orders.remove(order.id.0) == state.book.orders.remove(order.id.0),
        state.book.orders.contains_key(order.id.0) ==> state.new_order(order).book == state.book,
{
    let after = state.new_order(order);
    if state.first_maker(order.side, order.price) is Some {
        lemma_traded_push(state.events, after.events.last());
    } else {
        let a = state.accepted(order);
        let b = a.rest(order.id, order.remainder(order.qty));
        lemma_traded_push(state.events, a.events.last());
        lemma_traded_push(b.events, after.events.last());
    }
    assert(after.book.orders.remove(order.id.0) =~= state.book.orders.remove(order.id.0));
}

/// Market, immediate-or-cancel and fill-or-kill orders never rest: afterwards no
/// order rests that did not rest before.
pub proof fn law_takers_never_rest(state: Engine, order: Incoming)
    requires
        state.book.wf(),
        takes(order),
        order.order_type == OrderType::Market || order.time_in_force != TimeInForce::GTC,
    ensures
        shrunk(state.book, state.new_order(order).book),
{
    if state.refusal(order) is None {
        law_matching(state.accepted(order), order, order.qty as int);
    }
}

/// A rejected order leaves one event and nothing else.
pub proof fn law_rejection_changes_nothing(state: Engine, order: Incoming)
    requires
        takes(order),
        state.refusal(order) is Some,
    ensures
        state.new_order(order) == state.rejected(order.id, state.refusal(order)->Some_0),
        state.new_order(order).book == state.book,
        state.same_stops(state.new_order(order)),
        state.new_order(order).last_trade == state.last_trade,
{
}

/// Under `CancelNewest`, an order that would first meet a maker of its own
/// self-trade-prevention group is rejected.
pub proof fn law_cancel_newest(state: Engine, order: Incoming)
    requires
        takes(order),
        state.stp_mode == StpMode::CancelNewest,
        order.qty > 0,
        !state.book.orders.contains_key(order.id.0),
        order.time_in_force == TimeInForce::FOK ==> state.book.depth(
            order.side.other(),
            order.reach(),
        ) >= order.qty,
        state.first_maker(order.side, order.reach()) matches Some(maker) && same_group(
            order.stp_group,
            state.book.orders[maker].stp_group,
        ),
    ensures
        state.new_order(order) == state.rejected(
            order.id,
            RejectReason::SelfTradePreventionTriggered,
        ),
{
}

/// An iceberg order shows one slice at a time: no more than the slice can be taken at
/// once, what is taken of a slice is missing from it, and when it is used up the next
/// one shows, as large as what is left allows.
pub proof fn law_iceberg_shows_a_slice(order: Resting, qty: int)
    requires
        order.order_type == OrderType::Iceberg,
        order.visible_quantity > 0,
        order.filled <= order.quantity,
        0 < qty <= order.matchable(),
    ensures
        order.matchable() <= order.visible_quantity,
        order.reduced(qty).matchable() == (if qty < order.matchable() {
            order.matchable() - qty
        } else {
            lesser(order.visible_quantity as int, order.unfilled() - qty)
        }),
{
    let peak = order.visible_quantity as int;
    let filled = order.filled as int;
    let turn = filled / peak;
    let used = filled % peak;
    lemma_fundamental_div_mod(filled, peak);
    assert(0 <= used < peak) by {
        lemma_mod_bound(filled, peak);
    }
    if used + qty < peak {
        lemma_fundamental_div_mod_converse(filled + qty, peak, turn, used + qty);
    } else if used + qty == peak {
        assert(filled + qty == (turn + 1) * peak) by (nonlinear_arith)
            requires
                filled == peak * turn + used,
                used + qty == peak,
        ;
        lemma_fundamental_div_mod_converse(filled + qty, peak, turn + 1, 0);
    }
}

/// An order that has shown a slice and lost all of it goes to the end of its queue: the
/// first maker does so when a fill takes all that one match may take of it and leaves
/// some of it.
pub proof fn law_next_slice_waits(
    state: Engine,
    side: Side,
    price: u64,
    maker: u64,
    taker: OrderId,
    left: int,
)
    requires
        state.book.wf(),
        state.first_maker(side, price) == Some(maker),
        0 < state.book.orders[maker].matchable() < state.book.orders[maker].unfilled(),
    ensures
        ({
            let order = state.book.orders[maker];
            let after = state.fill(maker, taker, order.matchable(), left);
            let queue = state.book.queue(order.side, order.price);
            &&& order.order_type == OrderType::Iceberg
            &&& after.book.orders[maker] == order.reduced(order.matchable())
            &&& after.book.queue(order.side, order.price) == queue.drop_first().push(maker)
            &&& after.book.best(order.side) == Some(order.price)
        }),
{
    state.lemma_first_maker(side, price);
    let order = state.book.orders[maker];
    let queue = state.book.queue(order.side, order.price);
    state.book.lemma_position(maker);
    assert(state.book.queues[(order.side, order.price)].no_duplicates());
    assert(queue.index_of(maker) == 0);
    assert(queue.remove(0) =~= queue.drop_first());
}

/// Under `CancelNewest`, what is left of an order that meets a maker of its own
/// self-trade-prevention group after it has traded is cancelled, and the maker stays.
pub proof fn law_cancel_newest_after_trades(state: Engine, taker: Incoming, left: int)
    requires
        state.book.wf(),
        left > 0,
        state.stp_mode == StpMode::CancelNewest,
        state.first_maker(taker.side, taker.reach()) matches Some(maker) && same_group(
            taker.stp_group,
            state.book.orders[maker].stp_group,
        ) && state.book.orders[maker].unfilled() > 0,
    ensures
        state.match_book(taker, left) == (state, left, true),
        state.settle(taker, left, true) == state.cancelled(taker.id, left),
        state.settle(taker, left, true).book == state.book,
{
}

/// Whether no waiting stop is due.
pub open spec fn no_stop_due(state: Engine) -> bool {
    state.last_trade matches Some(last) ==> forall|side: Side, i: int|
        0 <= i < state.stops(side).len() ==> !triggers(side, (#[trigger] state.stops(side)[i]).0, last)
}

/// Whether the stops of both sides are in the order in which they trigger.
pub open spec fn queues_sorted(state: Engine) -> bool {
    forall|side: Side| #[trigger] stops_sorted(side, state.stops(side))
}

/// Cancelling or modifying an order that does not rest is answered with one
/// rejection, and changes nothing else.
pub proof fn law_unknown_order(state: Engine, id: OrderId, new_price: u64, new_qty: u64)
    requires
        state.book.wf(),
        no_stop_due(state),
        !state.book.orders.contains_key(id.0),
    ensures
        ({
            let ready = Engine { events: Seq::empty(), ..state };
            let answer = ready.rejected(id, RejectReason::OrderNotFound);
            &&& state.process(Command::CancelOrder { id }) == answer
            &&& state.process(Command::ModifyOrder { id, new_price, new_qty }) == answer
            &&& answer.book == state.book
            &&& answer.same_stops(state)
        }),
{
    let ready = Engine { events: Seq::empty(), ..state };
    let answer = ready.rejected(id, RejectReason::OrderNotFound);
    assert(no_stop_due(answer)) by {
        if let Some(last) = state.last_trade {
            assert forall|side: Side, i: int| 0 <= i < answer.stops(side).len() implies !triggers(
                side,
                (#[trigger] answer.stops(side)[i]).0,
                last,
            ) by {
                assert(answer.stops(side)[i] == state.stops(side)[i]);
            }
        }
    }
    lemma_nothing_due(answer);
}

/// Where no stop is due, draining the stops changes nothing.
pub proof fn lemma_nothing_due(state: Engine)
    requires
        state.book.wf(),
        no_stop_due(state),
    ensures
        state.drain() == state,
{
    match state.last_trade {
        None => {},
        Some(last) => {
            if state.stop_bids.len() > 0 {
                assert(!triggers(Side::Bid, state.stops(Side::Bid)[0].0, last));
            }
            if state.stop_asks.len() > 0 {
                assert(!triggers(Side::Ask, state.stops(Side::Ask)[0].0, last));
            }
            assert(state.drain_side(Side::Bid, last) == state);
            assert(state.drain_side(Side::Ask, last) == state);
        },
    }
}

/// Draining a side leaves its first stop not due.
proof fn lemma_side_drained(state: Engine, side: Side, last: u64)
    requires
        state.book.wf(),
    ensures
        ({
            let after = state.drain_side(side, last);
            &&& after.stops(side).len() > 0 ==> !triggers(side, after.stops(side)[0].0, last)
            &&& stops_sorted(side, state.stops(side)) ==> stops_sorted(side, after.stops(side))
        }),
    decreases state.stops(side).len(),
{
    if state.stops(side).len() > 0 && triggers(side, state.stops(side)[0].0, last) {
        let next = state.trigger(side);
        state.lemma_trigger(side);
        if stops_sorted(side, state.stops(side)) {
            assert forall|i: int, j: int| 0 <= i < j < next.stops(side).len() implies match side {
                Side::Bid => (#[trigger] next.stops(side)[i]).0 <= (#[trigger] next.stops(side)[j]).0,
                Side::Ask => next.stops(side)[i].0 >= next.stops(side)[j].0,
            } by {
                assert(next.stops(side)[i] == state.stops(side)[i + 1]);
                assert(next.stops(side)[j] == state.stops(side)[j + 1]);
            }
        }
        lemma_side_drained(next, side, last);
    }
}

/// Where the first of sorted stops is not due, none is.
proof fn lemma_first_decides(side: Side, stops: Seq<(u64, StopEntry)>, last: u64)
    requires
        stops_sorted(side, stops),
        stops.len() > 0 ==> !triggers(side, stops[0].0, last),
    ensures
        forall|i: int| 0 <= i < stops.len() ==> !triggers(side, (#[trigger] stops[i]).0, last),
{
    assert forall|i: int| 0 <= i < stops.len() implies !triggers(
        side,
        (#[trigger] stops[i]).0,
        last,
    ) by {
        if i > 0 {
            assert(match side {
                Side::Bid => stops[0].0 <= stops[i].0,
                Side::Ask => stops[0].0 >= stops[i].0,
            });
        }
    }
}

/// After the stops are drained none that waits is due.
pub proof fn lemma_drained(state: Engine)
    requires
        state.book.wf(),
        queues_sorted(state),
    ensures
        no_stop_due(state.drain()),
        queues_sorted(state.drain()),
    decreases state.stop_bids.len() + state.stop_asks.len(),
{
    match state.last_trade {
        None => {},
        Some(last) => {
            let bids = state.drain_side(Side::Bid, last);
            let both = bids.drain_side(Side::Ask, last);
            state.lemma_drain_side(Side::Bid, last);
            bids.lemma_drain_side(Side::Ask, last);
            lemma_side_drained(state, Side::Bid, last);
            lemma_side_drained(bids, Side::Ask, last);
            assert(stops_sorted(Side::Bid, state.stops(Side::Bid)));
            assert(stops_sorted(Side::Ask, state.stops(Side::Ask)));
            assert(stops_sorted(Side::Bid, both.stops(Side::Bid)));
            assert(stops_sorted(Side::Ask, both.stops(Side::Ask)));
            assert(queues_sorted(both));
            lemma_first_decides(Side::Bid, both.stops(Side::Bid), last);
            lemma_first_decides(Side::Ask, both.stops(Side::Ask), last);
            if both.last_trade != Some(last) {
                lemma_drained(both);
            }
        },
    }
}

/// A new stop keeps the queue sorted.
proof fn lemma_stop_inserted(side: Side, stops: Seq<(u64, StopEntry)>, price: u64, entry: StopEntry)
    requires
        stops_sorted(side, stops),
    ensures
        stops_sorted(side, stops.insert(stop_position(side, stops, price), (price, entry))),
{
    let at = stop_position(side, stops, price);
    let after = stops.insert(at, (price, entry));
    lemma_stop_position(side, stops, price);
    assert forall|i: int, j: int| 0 <= i < j < after.len() implies match side {
        Side::Bid => (#[trigger] after[i]).0 <= (#[trigger] after[j]).0,
        Side::Ask => after[i].0 >= after[j].0,
    } by {
        let a = if i < at {
            i
        } else {
            i - 1
        };
        let b = if j < at {
            j
        } else {
            j - 1
        };
        if i != at {
            assert(after[i] == stops[a]);
        }
        if j != at {
            assert(after[j] == stops[b]);
        }
        if i == at && at < b {
            assert(match side {
                Side::Bid => stops[at].0 <= stops[b].0,
                Side::Ask => stops[at].0 >= stops[b].0,
            });
        }
    }
}

/// After every command no waiting stop is due at the last trade price, and the stops
/// wait in the order in which they trigger.
pub proof fn law_no_stop_is_missed(state: Engine, command: Command)
    requires
        state.book.wf(),
        queues_sorted(state),
    ensures
        queues_sorted(state.process(command)),
        no_stop_due(state.process(command)),
{
    let ready = Engine { events: Seq::empty(), ..state };
    assert(stops_sorted(Side::Bid, state.stops(Side::Bid)));
    assert(stops_sorted(Side::Ask, state.stops(Side::Ask)));
    assert(stops_sorted(Side::Bid, ready.stops(Side::Bid)));
    assert(stops_sorted(Side::Ask, ready.stops(Side::Ask)));
    match command {
        Command::NewOrder {
            id,
            instrument_id,
            side,
            price,
            qty,
            order_type,
            time_in_force,
            visible_qty,
            stop_price,
            stp_group,
        } => {
            let order = Incoming {
                id,
                side,
                price,
                qty,
                order_type,
                time_in_force,
                visible_qty,
                stop_price,
                stp_group,
            };
            let after = ready.new_order(order);
            ready.lemma_new_order(order);
            if order_type == OrderType::StopLimit && qty != 0 && stop_price is Some {
                lemma_stop_inserted(side, ready.stops(side), stop_price->Some_0, order.stop());
            }
            assert(stops_sorted(Side::Bid, after.stops(Side::Bid)));
            assert(stops_sorted(Side::Ask, after.stops(Side::Ask)));
            assert(queues_sorted(after));
            lemma_drained(after);
        },
        Command::CancelOrder { id } => {
            let after = ready.cancel(id);
            ready.lemma_cancel(id);
            assert(stops_sorted(Side::Bid, after.stops(Side::Bid)));
            assert(stops_sorted(Side::Ask, after.stops(Side::Ask)));
            assert(queues_sorted(after));
            lemma_drained(after);
        },
        Command::ModifyOrder { id, new_price, new_qty } => {
            let after = ready.modify(id, new_price, new_qty);
            ready.lemma_modify(id, new_price, new_qty);
            assert(stops_sorted(Side::Bid, after.stops(Side::Bid)));
            assert(stops_sorted(Side::Ask, after.stops(Side::Ask)));
            assert(queues_sorted(after));
            lemma_drained(after);
        },
    }
}

/// A command causes at least one event, and its events carry consecutive numbers, from
/// the one after the last event on; the logical clock shows the same numbers.
pub proof fn law_events_are_numbered(state: Engine, command: Command)
    requires
        state.book.wf(),
    ensures
        ({
            let after = state.process(command);
            &&& after.book.wf()
            &&& after.events.len() > 0
            &&& after.sequence == state.sequence + after.events.len()
            &&& forall|i: int|
                0 <= i < after.events.len() ==> meta_of(#[trigger] after.events[i]) == state.meta_at(i)
        }),
{
    lemma_process(state, command);
    lemma_answered(state, command);
}

/// An incoming order causes an event.
proof fn lemma_order_answered(state: Engine, order: Incoming)
    requires
        state.book.wf(),
    ensures
        state.new_order(order).events.len() > state.events.len(),
{
    if takes(order) && state.refusal(order) is None {
        let accepted = state.accepted(order);
        let (end, left, cancel) = accepted.match_book(order, order.qty as int);
        accepted.lemma_match_book(order, order.qty as int);
        end.lemma_settle(order, left, cancel);
    }
}

/// A command causes an event.
proof fn lemma_answered(state: Engine, command: Command)
    requires
        state.book.wf(),
    ensures
        state.process(command).events.len() > 0,
{
    let ready = Engine { events: Seq::empty(), ..state };
    match command {
        Command::NewOrder {
            id,
            instrument_id,
            side,
            price,
            qty,
            order_type,
            time_in_force,
            visible_qty,
            stop_price,
            stp_group,
        } => {
            let order = Incoming {
                id,
                side,
                price,
                qty,
                order_type,
                time_in_force,
                visible_qty,
                stop_price,
                stp_group,
            };
            ready.lemma_new_order(order);
            lemma_order_answered(ready, order);
            ready.new_order(order).lemma_drain();
        },
        Command::CancelOrder { id } => {
            ready.lemma_cancel(id);
            ready.cancel(id).lemma_drain();
        },
        Command::ModifyOrder { id, new_price, new_qty } => {
            let after = ready.modify(id, new_price, new_qty);
            ready.lemma_modify(id, new_price, new_qty);
            if ready.book.orders.contains_key(id.0) {
                let order = ready.book.orders[id.0];
                ready.lemma_take_out(id.0);
                lemma_order_answered(
                    ready.replacing(id, new_price, new_qty),
                    Incoming::replacement(id, order, new_price, new_qty),
                );
            }
            after.lemma_drain();
        },
    }
}

/// Processing a command leads on from the state without the events of the last one.
pub proof fn lemma_process(state: Engine, command: Command)
    requires
        state.book.wf(),
    ensures
        (Engine { events: Seq::empty(), ..state }).leads_to(state.process(command)),
{
    let ready = Engine { events: Seq::empty(), ..state };
    match command {
        Command::NewOrder {
            id,
            instrument_id,
            side,
            price,
            qty,
            order_type,
            time_in_force,
            visible_qty,
            stop_price,
            stp_group,
        } => {
            let order = Incoming {
                id,
                side,
                price,
                qty,
                order_type,
                time_in_force,
                visible_qty,
                stop_price,
                stp_group,
            };
            ready.lemma_new_order(order);
            ready.new_order(order).lemma_drain();
            ready.lemma_leads(ready.new_order(order), state.process(command));
        },
        Command::CancelOrder { id } => {
            ready.lemma_cancel(id);
            ready.cancel(id).lemma_drain();
            ready.lemma_leads(ready.cancel(id), state.process(command));
        },
        Command::ModifyOrder { id, new_price, new_qty } => {
            ready.lemma_modify(id, new_price, new_qty);
            ready.modify(id, new_price, new_qty).lemma_drain();
            ready.lemma_leads(ready.modify(id, new_price, new_qty), state.process(command));
        },
    }
}

/// Whether two states differ in their events and event numbers at most.
pub open spec fn same_market(a: Engine, b: Engine) -> bool {
    a == (Engine { sequence: a.sequence, events: a.events, ..b })
}

/// What is left when an order is taken out right after it came to rest: the orders and
/// the queues of before, and as best price the next best where the order's level has
/// emptied and was the best.
proof fn lemma_rest_and_take_out(book: Book, id: u64, order: Resting)
    requires
        book.wf(),
        !book.orders.contains_key(id),
        order.filled <= order.quantity,
    ensures
        ({
            let there = book.rest(id, order);
            let back = there.take_out(id);
            let queue = book.queue(order.side, order.price);
            &&& back == book.with_best(order.side, back.best(order.side))
            &&& back.best(order.side) == (if queue.len() == 0 && there.best(order.side) == Some(
                order.price,
            ) {
                next_best(order.side, book.prices(order.side), book.base, book.ticks)
            } else {
                there.best(order.side)
            })
        }),
{
    let there = book.rest(id, order);
    let back = there.take_out(id);
    let side = order.side;
    let level = (side, order.price);
    let queue = book.queues[level];
    book.lemma_rest(id, order);
    there.lemma_position(id);
    assert(!queue.contains(id)) by {
        if queue.contains(id) {
            let i = choose|i: int| 0 <= i < queue.len() && queue[i] == id;
            assert(book.placed(level, queue[i]));
        }
    }
    assert(there.queues[level] == queue.push(id));
    let k = there.position(id);
    assert(k == queue.len()) by {
        if k < queue.len() {
            assert(queue[k] == id);
        }
    }
    assert(queue.push(id).remove(k) =~= queue);
    assert(back.orders =~= book.orders);
    assert(back.queues =~= book.queues);
    let rest = Book { orders: back.orders, queues: back.queues, ..there };
    assert(rest.prices(side) =~= book.prices(side));
    assert(back =~= book.with_best(side, back.best(side)));
}

/// Taking an order out right after it came to rest gives the book back, wherever the
/// order rested, as long as its side is clear without it.
pub proof fn law_rest_and_take_out(book: Book, id: u64, order: Resting)
    requires
        book.wf(),
        clear_side(book, order.side),
        !book.orders.contains_key(id),
        order.filled <= order.quantity,
    ensures
        book.rest(id, order).take_out(id) == book,
{
    reveal(clear_side);
    let side = order.side;
    lemma_rest_and_take_out(book, id, order);
    lemma_next_is_best(book, side);
    if book.queue(side, order.price).len() > 0 {
        assert(book.prices(side).contains(order.price));
        lemma_best_exists(side, book.prices(side), order.price);
    }
    assert(book.rest(id, order).take_out(id).best(side) == book.best(side));
    assert(book.rest(id, order).take_out(id) =~= book);
}

/// Taking an order out of an order book right after putting it in gives back where each
/// order is, every level, the best prices and the depth, and frees the slot that the
/// order took.
pub proof fn law_insert_and_remove(
    book: OrderBook,
    arena: Arena,
    there: OrderBook,
    there_arena: Arena,
    back: OrderBook,
    back_arena: Arena,
    id: u64,
    order: Resting,
)
    requires
        book.wf(arena),
        clear_side(book.model(arena), order.side),
        !book.slots().contains_key(id),
        arena.free_slots().len() > 0,
        order.filled <= order.quantity,
        there.wf(there_arena),
        there.model(there_arena) == book.model(arena).rest(id, order),
        there.slots() == book.slots().insert(id, arena.free_slots()[0]),
        there_arena.free_slots() == arena.free_slots().drop_first(),
        back.wf(back_arena),
        back.model(back_arena) == there.model(there_arena).take_out(id),
        back.slots() == there.slots().remove(id),
        back_arena.free_slots() == seq![there.slots()[id]] + there_arena.free_slots(),
    ensures
        back.model(back_arena) == book.model(arena),
        back.slots() == book.slots(),
        back_arena.free_slots() == arena.free_slots(),
        forall|side: Side, price: u64| #[trigger]
            back.level(side, price) == book.level(side, price),
        forall|side: Side, price: u64| #[trigger]
            back.model(back_arena).depth(side, price) == book.model(arena).depth(side, price),
{
    book.lemma_wf(arena);
    back.lemma_wf(back_arena);
    assert(book.slots().contains_key(id) <==> book.model(arena).orders.contains_key(id));
    law_rest_and_take_out(book.model(arena), id, order);
    assert(back.slots() =~= book.slots());
    assert(back_arena.free_slots() =~= arena.free_slots());
    assert forall|side: Side, price: u64| #[trigger]
        back.level(side, price) == book.level(side, price) by {
        assert(book.level(side, price) == level_of(
            book.model(arena).queue(side, price),
            book.slots(),
            book.model(arena).level_qty(side, price as int),
        ));
    }
}

} // verus!
