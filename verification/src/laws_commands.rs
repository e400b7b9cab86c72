//! Laws of the commands: what each command does, in terms of the orders and stops before
//! and after it and of the events that it causes.
use crate::book_model::{without, Book, Resting};
use crate::engine_model::{lemma_stop_position, stop_position, Engine, Incoming, StopEntry};
use crate::laws_best::{
    clear_side, law_depth_can_be_had, lemma_best_price, lemma_match_orderly, lemma_no_new_orders,
    lemma_rest_clear, lemma_take_out_clear,
};
use crate::laws_matching::no_own_maker;
use crate::laws_priority::{ahead, law_price_time_priority, none_passed, passes_over};
use crate::laws_taking::{
    acceptance, accounted_for, fair_events, in_turn, left_alone, lemma_accepted, lemma_ended,
    lemma_order_not_cancelled, match_ends, some_cancelled, taken_off,
};
use crate::levels::{in_window, lemma_best_exists, next_best};
use crate::terms::{
    best_on, beats, cancels, front, goes_on_with, in_reach, last_price, law_depth_is_what_is_offered,
    left_of, limit_of, may_rest, meta_after, min_of, of_group, offered, opposite, shown, since, sold,
    stands_before, stops_on, with_rejection, within,
};
use crate::types::{
    MatchEvent, OrderId, OrderType, RejectReason, Side, StpMode, TimeInForce, STP_NONE,
};
use vstd::prelude::*;

verus! {

/// Why a limit, market or iceberg order is refused, if it is: it asks for nothing; an
/// order with its identifier rests; it is to be filled at once or not at all, and less is
/// offered within its limit; or, under `CancelNewest`, the order that it meets first is of
/// its group.
pub open spec fn refused_for(before: Engine, order: Incoming) -> Option<RejectReason> {
    if order.qty == 0 {
        Some(RejectReason::InvalidQuantity)
    } else if before.book.orders.contains_key(order.id.0) {
        Some(RejectReason::DuplicateOrderId)
    } else if order.time_in_force == TimeInForce::FOK && offered(
        before.book.orders,
        order.side,
        limit_of(order),
    ) < order.qty {
        Some(RejectReason::InsufficientLiquidity)
    } else if before.stp_mode == StpMode::CancelNewest && (front(
        before.book,
        order.side,
        limit_of(order),
    ) matches Some(x) && of_group(order, before.book.orders[x])) {
        Some(RejectReason::SelfTradePreventionTriggered)
    } else {
        None
    }
}

/// Whether the order meets one of its group and goes no further on that account: the next
/// one it would meet is, under `CancelNewest`; one was cancelled with it, under
/// `CancelBoth`; one was decremented with it, under `DecrementAndCancel`.
pub open spec fn stopped(before: Engine, after: Engine, order: Incoming, left: int, d: int) -> bool {
    match before.stp_mode {
        StpMode::CancelNewest => left > 0 && (front(
            after.book,
            order.side,
            limit_of(order),
        ) matches Some(x) && of_group(order, after.book.orders[x])),
        StpMode::CancelOldest => false,
        StpMode::CancelBoth => some_cancelled(before, after, order),
        StpMode::DecrementAndCancel => d > 0,
    }
}

/// The order as it rests, with `qty` of it.
pub open spec fn rests_as(order: Incoming, qty: int) -> Resting {
    Resting {
        side: order.side,
        price: order.price,
        quantity: qty as u64,
        filled: 0,
        order_type: order.order_type,
        visible_quantity: if order.visible_qty is Some {
            order.visible_qty->Some_0
        } else {
            qty as u64
        },
        stp_group: if order.stp_group is Some {
            order.stp_group->Some_0
        } else {
            STP_NONE
        },
        time_in_force: TimeInForce::GTC,
        timestamp: 0,
    }
}

/// Whether `after` has the order at the end of its queue, with `qty` of it, and as best
/// price of its side its own where that was beaten by none.
pub open spec fn has_come_to_rest(before: Book, after: Book, order: Incoming, qty: int) -> bool {
    let level = (order.side, order.price);
    &&& after.orders.contains_key(order.id.0)
    &&& after.orders[order.id.0] == rests_as(order, qty)
    &&& after.queues[level] == before.queues[level].push(order.id.0)
    &&& best_on(after, order.side) == (match best_on(before, order.side) {
        Some(best) => if beats(order.side, order.price, best) {
            Some(order.price)
        } else {
            Some(best)
        },
        None => Some(order.price),
    })
}

/// Whether the order does not rest, and its side is as it was.
pub open spec fn does_not_rest(before: Book, after: Book, order: Incoming) -> bool {
    let level = (order.side, order.price);
    &&& !after.orders.contains_key(order.id.0)
    &&& after.queues[level] == before.queues[level]
    &&& best_on(after, order.side) == best_on(before, order.side)
}

/// Number of slots.
pub open spec fn slots_of(state: Engine) -> nat {
    state.free + state.book.orders.dom().len()
}

/// Whether no event cancels the order.
pub open spec fn never_cancelled(before: Engine, after: Engine, order: Incoming) -> bool {
    forall|i: int|
        before.events.len() <= i < after.events.len() ==> !cancels(
            #[trigger] after.events[i],
            order.id.0,
        )
}

/// Whether the last event, and no other, cancels the order, with `left` of it.
pub open spec fn cancelled_at_last(
    before: Engine,
    after: Engine,
    order: Incoming,
    left: int,
) -> bool {
    &&& after.events.last() matches MatchEvent::OrderCancelled { id, remaining_qty, .. } && id
        == order.id && remaining_qty == left
    &&& forall|i: int|
        before.events.len() <= i < after.events.len() - 1 ==> !cancels(
            #[trigger] after.events[i],
            order.id.0,
        )
}

/// What becomes of the `left` that is left of the order. Where it met one of its group
/// and was stopped, and where it may not rest, that is cancelled. Where it may rest,
/// nothing that it could trade with is left, and it comes to rest with all that is left
/// of it, at the end of its queue, if there is a slot.
pub open spec fn rest_of_order(
    before: Engine,
    after: Engine,
    order: Incoming,
    left: int,
    d: int,
) -> bool {
    if stopped(before, after, order, left, d) {
        &&& cancelled_at_last(before, after, order, left)
        &&& does_not_rest(before.book, after.book, order)
    } else if left == 0 {
        &&& never_cancelled(before, after, order)
        &&& does_not_rest(before.book, after.book, order)
    } else {
        &&& front(after.book, order.side, limit_of(order)) is None
        &&& if may_rest(order) {
            &&& never_cancelled(before, after, order)
            &&& after.events.last() matches MatchEvent::BookUpdate { side, price, .. } && side
                == order.side && price == order.price
            &&& if after.book.orders.remove(order.id.0).dom().len() < slots_of(before) {
                has_come_to_rest(before.book, after.book, order, left)
            } else {
                does_not_rest(before.book, after.book, order)
            }
        } else {
            &&& cancelled_at_last(before, after, order, left)
            &&& does_not_rest(before.book, after.book, order)
        }
    }
}

/// Whether order `x` was to be served before order `m`: on the same side at a better
/// price, or at the same price and before it in the queue.
pub open spec fn served_first(book: Book, x: u64, m: u64) -> bool {
    let (a, b) = (book.orders[x], book.orders[m]);
    &&& book.orders.contains_key(x)
    &&& book.orders.contains_key(m)
    &&& a.side == b.side
    &&& beats(a.side, a.price, b.price) || (a.price == b.price && stands_before(
        book.queues[(a.side, a.price)],
        x,
        m,
    ))
}

/// Whether better and older orders are served first, and all that is offered can be had:
/// no order trades while one that was to be served before it keeps some of what it
/// offered at once; and an order that meets none of its group trades as much as it asks
/// for or as is offered within its limit. Said of books whose best prices are the best
/// there are.
pub open spec fn served_in_order(before: Engine, after: Engine, order: Incoming) -> bool {
    clear_side(before.book, opposite(order.side)) ==> {
        &&& clear_side(after.book, opposite(order.side))
        &&& forall|i: int, x: u64|
            before.events.len() <= i < after.events.len() && (
            after.events[i] matches MatchEvent::Fill { maker_id, .. } && #[trigger] served_first(
                before.book,
                x,
                after.events[i]->Fill_maker_id.0,
            )) ==> !after.book.orders.contains_key(x) || after.book.orders[x].filled
                - before.book.orders[x].filled >= shown(before.book.orders[x], 0)
        &&& (forall|id: u64| #[trigger]
            before.book.orders.contains_key(id) && in_reach(
                before.book.orders[id],
                order.side,
                limit_of(order),
            ) ==> !of_group(order, before.book.orders[id])) ==> sold(since(before, after)) == min_of(
            order.qty as int,
            offered(before.book.orders, order.side, limit_of(order)),
        )
    }
}

/// Whether the parts of the state that no order touches are the same: the stops, the
/// mode, the window and the number of slots.
pub open spec fn frame_kept(before: Engine, after: Engine) -> bool {
    &&& after.stop_bids == before.stop_bids
    &&& after.stop_asks == before.stop_asks
    &&& after.stp_mode == before.stp_mode
    &&& after.book.base == before.book.base
    &&& after.book.ticks == before.book.ticks
    &&& slots_of(after) == slots_of(before)
}

/// Whether an accepted order was taken in, with `d` of it and of order `m` taken away
/// without a trade.
pub open spec fn taken_in(before: Engine, after: Engine, order: Incoming, m: u64, d: int) -> bool {
    let left = order.qty - sold(since(before, after)) - d;
    &&& goes_on_with(before, after, acceptance(before, order))
    &&& 0 <= d
    &&& 0 <= left
    &&& d > 0 ==> taken_off(before, after, order, m, d)
    &&& fair_events(
        before,
        after.events,
        order,
        if cancels(after.events.last(), order.id.0) {
            after.events.len() - 1
        } else {
            after.events.len() as int
        },
    )
    &&& accounted_for(before, after, m, d)
    &&& left_alone(before.book, after.book, order)
    &&& in_turn(
        before.book,
        after.book,
        if d > 0 {
            Some(m)
        } else {
            None
        },
    )
    &&& forall|id: u64| #[trigger]
        after.book.orders.contains_key(id) ==> before.book.orders.contains_key(id) || id == order.id.0
    &&& after.last_trade == last_price(since(before, after), before.last_trade)
    &&& frame_kept(before, after)
    &&& rest_of_order(before, after, order, left, d)
    &&& served_in_order(before, after, order)
}

/// What an incoming limit, market or iceberg order does. It is refused for one of four
/// reasons, which leaves a rejection and nothing else, or it is accepted and taken in.
pub open spec fn comes_in(before: Engine, after: Engine, order: Incoming) -> bool {
    match refused_for(before, order) {
        Some(reason) => after == with_rejection(before, order.id.0, reason),
        None => exists|m: u64, d: int| #[trigger] taken_in(before, after, order, m, d),
    }
}

/// The model's words and the law's say the same of what an order meets first.
proof fn lemma_words(state: Engine, order: Incoming)
    requires
        state.book.wf(),
    ensures
        order.reach() == limit_of(order),
        order.side.other() == opposite(order.side),
        state.first_maker(order.side, order.reach()) == front(
            state.book,
            order.side,
            limit_of(order),
        ),
        state.book.depth(order.side.other(), order.reach()) == offered(
            state.book.orders,
            order.side,
            limit_of(order),
        ),
{
    law_depth_is_what_is_offered(state.book, order.side, limit_of(order));
}

/// What priority says, in plain words.
proof fn lemma_served_in_order(before: Engine, order: Incoming)
    requires
        before.book.wf(),
        clear_side(before.book, opposite(order.side)),
    ensures
        ({
            let accepted = before.accepted(order);
            let (end, left, cancel) = accepted.match_book(order, order.qty as int);
            let n = before.events.len() as int;
            &&& clear_side(end.book, opposite(order.side))
            &&& forall|i: int, x: u64|
                n < i < end.events.len() && (end.events[i] matches MatchEvent::Fill { maker_id, .. }
                    && #[trigger] served_first(before.book, x, end.events[i]->Fill_maker_id.0))
                    ==> !end.book.orders.contains_key(x) || end.book.orders[x].filled
                    - before.book.orders[x].filled >= shown(before.book.orders[x], 0)
            &&& (forall|id: u64| #[trigger]
                before.book.orders.contains_key(id) && in_reach(
                    before.book.orders[id],
                    order.side,
                    limit_of(order),
                ) ==> !of_group(order, before.book.orders[id])) ==> order.qty - left == min_of(
                order.qty as int,
                offered(before.book.orders, order.side, limit_of(order)),
            )
        }),
{
    let accepted = before.accepted(order);
    let (end, left, cancel) = accepted.match_book(order, order.qty as int);
    let n = before.events.len() as int;
    lemma_words(before, order);
    lemma_match_orderly(accepted, order, order.qty as int);
    law_price_time_priority(accepted, order, order.qty as int);
    lemma_no_new_orders(accepted, order, order.qty as int);
    reveal(none_passed);
    assert forall|i: int, x: u64|
        n < i < end.events.len() && (end.events[i] matches MatchEvent::Fill { maker_id, .. }
            && #[trigger] served_first(before.book, x, end.events[i]->Fill_maker_id.0)) implies
        !end.book.orders.contains_key(x) || end.book.orders[x].filled
        - before.book.orders[x].filled >= shown(before.book.orders[x], 0) by {
        assert(!passes_over(accepted.book, end.book, end.events[i], x));
        let m = end.events[i]->Fill_maker_id.0;
        assert(ahead(accepted.book, x, m));
    }
    if forall|id: u64| #[trigger]
        before.book.orders.contains_key(id) && in_reach(
            before.book.orders[id],
            order.side,
            limit_of(order),
        ) ==> !of_group(order, before.book.orders[id]) {
        assert(no_own_maker(accepted.book, order));
        law_depth_can_be_had(accepted, order, order.qty as int);
    }
}

/// What is left of an order is settled.
proof fn lemma_rest_of_order(
    before: Engine,
    end: Engine,
    after: Engine,
    order: Incoming,
    left: int,
    cancel: bool,
    m: u64,
    d: int,
)
    requires
        before.book.wf(),
        end.book.wf(),
        match_ends(before, end, order, left, cancel, m, d),
        after == end.settle(order, left, cancel),
        !before.book.orders.contains_key(order.id.0),
        order.order_type == OrderType::Limit || order.order_type == OrderType::Market
            || order.order_type == OrderType::Iceberg,
        slots_of(end) == slots_of(before),
        some_cancelled(before, after, order) == some_cancelled(before, end, order),
        left <= order.qty,
    ensures
        rest_of_order(before, after, order, left, d),
{
    let n = before.events.len() as int;
    let k = end.events.len() as int;
    let at_front = front(end.book, order.side, limit_of(order));
    assert(!end.book.orders.contains_key(order.id.0));
    assert forall|i: int| n <= i < k implies !cancels(#[trigger] end.events[i], order.id.0) by {
        if i > n {
            lemma_order_not_cancelled(before, end.events, order, i);
        }
    }
    assert forall|i: int| n <= i < k implies !cancels(#[trigger] after.events[i], order.id.0) by {
        assert(after.events[i] == end.events[i]);
    }
    assert(front(after.book, order.side, limit_of(order)) == at_front);
    if let Some(x) = at_front {
        end.lemma_first_maker(order.side, limit_of(order));
        assert(end.first_maker(order.side, limit_of(order)) == at_front);
        assert(end.book.orders.contains_key(x));
    }
    assert(stopped(before, after, order, left, d) == cancel) by {
        match before.stp_mode {
            StpMode::CancelBoth => {
                if !cancel && some_cancelled(before, end, order) {
                    let i = choose|i: int|
                        n < i < k && (#[trigger] end.events[i]) is OrderCancelled && !cancels(
                            end.events[i],
                            order.id.0,
                        );
                    assert(end.events[i] !is OrderCancelled);
                }
            },
            StpMode::CancelNewest => {
                if let Some(x) = at_front {
                    assert(end.book.orders.contains_key(x));
                    assert(after.book.orders[x] == end.book.orders[x]);
                }
            },
            _ => {},
        }
    }
    if !cancel && left > 0 && may_rest(order) {
        assert(after.book.orders.remove(order.id.0) =~= end.book.orders);
        if end.free > 0 {
            assert(order.remainder(left as u64) == rests_as(order, left));
        }
    }
}

/// Orders leave the stops, the mode, the window and the slots as they are.
proof fn lemma_frame(before: Engine, order: Incoming)
    requires
        before.book.wf(),
        order.order_type != OrderType::StopLimit,
    ensures
        frame_kept(before, before.new_order(order)),
{
    before.lemma_new_order(order);
}

/// Orders are served in order.
proof fn lemma_order_served(
    before: Engine,
    end: Engine,
    after: Engine,
    order: Incoming,
    left: int,
    cancel: bool,
    m: u64,
    d: int,
)
    requires
        before.book.wf(),
        !before.book.orders.contains_key(order.id.0),
        (end, left, cancel) == before.accepted(order).match_book(order, order.qty as int),
        match_ends(before, end, order, left, cancel, m, d),
        after == end.settle(order, left, cancel),
        left == order.qty - sold(since(before, after)) - d,
        d > 0 ==> taken_off(before, after, order, m, d),
    ensures
        served_in_order(before, after, order),
{
    let n = before.events.len() as int;
    let other = opposite(order.side);
    if clear_side(before.book, other) {
        lemma_served_in_order(before, order);
        let accepted = before.accepted(order);
        accepted.lemma_match_book(order, order.qty as int);
        assert(!end.book.orders.contains_key(order.id.0));
        assert(clear_side(after.book, other)) by {
            if after.book != end.book {
                lemma_rest_clear(end.book, order.id.0, order.remainder(left as u64), other);
            }
        }
        assert forall|i: int, x: u64|
            n <= i < after.events.len() && (
            after.events[i] matches MatchEvent::Fill { maker_id, .. } && #[trigger] served_first(
                before.book,
                x,
                after.events[i]->Fill_maker_id.0,
            )) implies !after.book.orders.contains_key(x) || after.book.orders[x].filled
            - before.book.orders[x].filled >= shown(before.book.orders[x], 0) by {
            assert(i < end.events.len());
            assert(after.events[i] == end.events[i]);
            assert(i != n);
            assert(served_first(before.book, x, end.events[i]->Fill_maker_id.0));
            assert(x != order.id.0);
        }
    }
}

/// An incoming limit, market or iceberg order is refused or taken in, whatever the book.
pub proof fn law_order_comes_in(before: Engine, order: Incoming)
    requires
        before.book.wf(),
        order.order_type == OrderType::Limit || order.order_type == OrderType::Market
            || order.order_type == OrderType::Iceberg,
    ensures
        comes_in(before, before.new_order(order), order),
{
    let after = before.new_order(order);
    lemma_words(before, order);
    assert(before.refusal(order) == refused_for(before, order));
    match refused_for(before, order) {
        Some(reason) => {
            assert(after =~= with_rejection(before, order.id.0, reason));
        },
        None => {
            let accepted = before.accepted(order);
            let (end, left, cancel) = accepted.match_book(order, order.qty as int);
            let (m, d) = lemma_accepted(before, order);
            accepted.lemma_match_book(order, order.qty as int);
            before.lemma_new_order(order);
            lemma_ended(before, end, after, order, left, cancel, m, d);
            lemma_rest_of_order(before, end, after, order, left, cancel, m, d);
            lemma_frame(before, order);
            lemma_order_served(before, end, after, order, left, cancel, m, d);
            assert(taken_in(before, after, order, m, d));
        },
    }
}

/// Whether a post-only order would trade: the best opposite price is one that it may pay
/// or get.
pub open spec fn would_cross(before: Engine, order: Incoming) -> bool {
    best_on(before.book, opposite(order.side)) matches Some(best) && within(
        order.side,
        order.price,
        best,
    )
}

/// What a post-only order does. Where it would trade it is refused, which leaves a
/// rejection and nothing else. Where it would not, it is accepted and its level is
/// published; if no order with its identifier rests and there is a slot, it comes to rest
/// with all of its quantity, and if not, the book stays as it is.
pub open spec fn posted(before: Engine, after: Engine, order: Incoming) -> bool {
    if would_cross(before, order) {
        after == with_rejection(before, order.id.0, RejectReason::WouldCrossSpread)
    } else {
        &&& after.events == before.events.push(acceptance(before, order)).push(
            MatchEvent::BookUpdate {
                meta: meta_after(before, 2),
                side: order.side,
                price: order.price,
                qty: after.book.level_qty(order.side, order.price as int) as u64,
            },
        )
        &&& after.sequence == before.sequence + 2
        &&& after.last_trade == before.last_trade
        &&& frame_kept(before, after)
        &&& if before.book.orders.contains_key(order.id.0) || before.free == 0 {
            after.book == before.book
        } else {
            &&& has_come_to_rest(before.book, after.book, order, order.qty as int)
            &&& after.book.orders.remove(order.id.0) == before.book.orders
            &&& best_on(after.book, opposite(order.side)) == best_on(
                before.book,
                opposite(order.side),
            )
            &&& forall|side: Side, price: u64|
                (side, price) != (order.side, order.price) ==> #[trigger] after.book.queues[(
                    side,
                    price,
                )] == before.book.queues[(side, price)]
        }
    }
}

/// A post-only order is refused or comes to rest, whatever the book.
pub proof fn law_post_only(before: Engine, order: Incoming)
    requires
        before.book.wf(),
        order.order_type == OrderType::PostOnly,
    ensures
        posted(before, before.new_order(order), order),
{
    let after = before.new_order(order);
    lemma_frame(before, order);
    if would_cross(before, order) {
        assert(after =~= with_rejection(before, order.id.0, RejectReason::WouldCrossSpread));
    } else {
        let accepted = before.accepted(order);
        let rested = accepted.rest(order.id, order.remainder(order.qty));
        assert(after.book == rested.book);
        if !before.book.orders.contains_key(order.id.0) && before.free > 0 {
            assert(order.remainder(order.qty) == rests_as(order, order.qty as int));
            assert(after.book.orders.remove(order.id.0) =~= before.book.orders);
        }
    }
}

/// Whether `after` is `before` with one stop more, which waits at `at`: no stop before it
/// triggers later than it, and the one behind it does.
pub open spec fn comes_to_wait(
    before: Seq<(u64, StopEntry)>,
    after: Seq<(u64, StopEntry)>,
    at: int,
    price: u64,
    entry: StopEntry,
) -> bool {
    &&& 0 <= at <= before.len()
    &&& after == before.insert(at, (price, entry))
    &&& match entry.side {
        Side::Bid => {
            &&& forall|i: int| 0 <= i < at ==> (#[trigger] before[i]).0 <= price
            &&& at < before.len() ==> before[at].0 > price
        },
        Side::Ask => {
            &&& forall|i: int| 0 <= i < at ==> (#[trigger] before[i]).0 >= price
            &&& at < before.len() ==> before[at].0 < price
        },
    }
}

/// What a stop-limit order does. One that asks for nothing, or names no stop price, is
/// refused. Any other is accepted and waits on its side, with the side, limit, quantity,
/// time in force, shown quantity and group that it was sent with; nothing else changes.
pub open spec fn waits(before: Engine, after: Engine, order: Incoming) -> bool {
    if order.qty == 0 {
        after == with_rejection(before, order.id.0, RejectReason::InvalidQuantity)
    } else if order.stop_price is None {
        after == with_rejection(before, order.id.0, RejectReason::InvalidPrice)
    } else {
        &&& after.events == before.events.push(acceptance(before, order))
        &&& after.sequence == before.sequence + 1
        &&& after.book == before.book
        &&& after.free == before.free
        &&& after.last_trade == before.last_trade
        &&& after.stp_mode == before.stp_mode
        &&& after.bounded == before.bounded
        &&& stops_on(after, opposite(order.side)) == stops_on(before, opposite(order.side))
        &&& exists|at: int| #[trigger]
            comes_to_wait(
                stops_on(before, order.side),
                stops_on(after, order.side),
                at,
                order.stop_price->Some_0,
                StopEntry {
                    id: order.id,
                    side: order.side,
                    limit_price: order.price,
                    qty: order.qty,
                    time_in_force: order.time_in_force,
                    visible_qty: order.visible_qty,
                    stp_group: order.stp_group,
                },
            )
    }
}

/// A stop-limit order is refused or waits, whatever the book.
pub proof fn law_stop_limit_waits(before: Engine, order: Incoming)
    requires
        before.book.wf(),
        order.order_type == OrderType::StopLimit,
    ensures
        waits(before, before.new_order(order), order),
{
    let after = before.new_order(order);
    if order.qty == 0 {
        assert(after =~= with_rejection(before, order.id.0, RejectReason::InvalidQuantity));
    } else if order.stop_price is None {
        assert(after =~= with_rejection(before, order.id.0, RejectReason::InvalidPrice));
    } else {
        let price = order.stop_price->Some_0;
        let stops = stops_on(before, order.side);
        let at = stop_position(order.side, stops, price);
        lemma_stop_position(order.side, stops, price);
        assert(comes_to_wait(
            stops,
            stops_on(after, order.side),
            at,
            price,
            StopEntry {
                id: order.id,
                side: order.side,
                limit_price: order.price,
                qty: order.qty,
                time_in_force: order.time_in_force,
                visible_qty: order.visible_qty,
                stp_group: order.stp_group,
            },
        ));
    }
}

/// Whether `after` is `before` without order `id`: the others keep their places, the side
/// has less by what was left of the order, and a best price at which orders still rest
/// stays the best.
pub open spec fn is_gone(before: Book, after: Book, id: u64) -> bool {
    let order = before.orders[id];
    let level = (order.side, order.price);
    &&& after.orders == before.orders.remove(id)
    &&& exists|k: int|
        0 <= k < before.queues[level].len() && #[trigger] before.queues[level][k] == id
            && after.queues[level] == before.queues[level].remove(k)
    &&& forall|side: Side, price: u64|
        (side, price) != level ==> #[trigger] after.queues[(side, price)] == before.queues[(
            side,
            price,
        )]
    &&& best_on(after, opposite(order.side)) == best_on(before, opposite(order.side))
    &&& best_on(before, order.side) != Some(order.price) || after.queues[level].len() > 0
        ==> best_on(after, order.side) == best_on(before, order.side)
    &&& clear_side(before, order.side) ==> clear_side(after, order.side)
    &&& after.side_qty(order.side) == before.side_qty(order.side) - left_of(order)
    &&& after.side_qty(opposite(order.side)) == before.side_qty(opposite(order.side))
}

/// Whether the only events between two states are one that tells what became of order
/// `id` and one that publishes its level, and between them the order has left the book
/// and nothing else has changed.
pub open spec fn leaves(before: Engine, after: Engine, id: u64, event: MatchEvent) -> bool {
    let order = before.book.orders[id];
    &&& after.events == before.events.push(event).push(
        MatchEvent::BookUpdate {
            meta: meta_after(before, 2),
            side: order.side,
            price: order.price,
            qty: after.book.level_qty(order.side, order.price as int) as u64,
        },
    )
    &&& after.sequence == before.sequence + 2
    &&& after.last_trade == before.last_trade
    &&& frame_kept(before, after)
    &&& is_gone(before.book, after.book, id)
}

/// An order that is taken out is gone.
proof fn lemma_is_gone(before: Engine, id: u64)
    requires
        before.book.wf(),
        before.book.orders.contains_key(id),
    ensures
        is_gone(before.book, before.take_out(id).book, id),
        frame_kept(before, before.take_out(id)),
{
    let book = before.book;
    let after = book.take_out(id);
    let order = book.orders[id];
    let level = (order.side, order.price);
    let k = book.position(id);
    book.lemma_position(id);
    book.lemma_take_out(id);
    before.lemma_take_out(id);
    assert(book.queues[level][k] == id);
    assert(after.queues[level] == book.queues[level].remove(k));
    if clear_side(book, order.side) {
        lemma_take_out_clear(book, id, order.side);
    }
}

/// What cancelling order `id` does. Where it rests, its cancellation is told with what
/// was left of it, its level is published, and it is gone; where it does not, that is
/// told and nothing else changes.
pub open spec fn withdrawn(before: Engine, after: Engine, id: OrderId) -> bool {
    if before.book.orders.contains_key(id.0) {
        leaves(
            before,
            after,
            id.0,
            MatchEvent::OrderCancelled {
                meta: meta_after(before, 1),
                id,
                remaining_qty: left_of(before.book.orders[id.0]) as u64,
            },
        )
    } else {
        after == with_rejection(before, id.0, RejectReason::OrderNotFound)
    }
}

/// An order is cancelled with what was left of it, whatever the book.
pub proof fn law_cancelled_with_what_is_left(before: Engine, id: OrderId)
    requires
        before.book.wf(),
    ensures
        withdrawn(before, before.cancel(id), id),
{
    let after = before.cancel(id);
    if before.book.orders.contains_key(id.0) {
        lemma_is_gone(before, id.0);
        assert(after.book == before.take_out(id.0).book);
    } else {
        assert(after =~= with_rejection(before, id.0, RejectReason::OrderNotFound));
    }
}

/// The limit order that takes the place of a resting one, on its side and in its group.
pub open spec fn successor(id: OrderId, order: Resting, price: u64, qty: u64) -> Incoming {
    Incoming {
        id,
        side: order.side,
        price,
        qty,
        order_type: OrderType::Limit,
        time_in_force: TimeInForce::GTC,
        visible_qty: None,
        stop_price: None,
        stp_group: if order.stp_group == STP_NONE {
            None
        } else {
            Some(order.stp_group)
        },
    }
}

/// What replacing order `id` does. Where it rests, the change is told, its level is
/// published, it is gone, and a limit order with the new price and quantity comes in on
/// its side and in its group, to rest until cancelled; where it does not, that is told
/// and nothing else changes.
pub open spec fn replaced(
    before: Engine,
    after: Engine,
    id: OrderId,
    new_price: u64,
    new_qty: u64,
) -> bool {
    if before.book.orders.contains_key(id.0) {
        exists|between: Engine|
            {
                &&& leaves(
                    before,
                    between,
                    id.0,
                    MatchEvent::OrderModified {
                        meta: meta_after(before, 1),
                        id,
                        new_price,
                        new_qty,
                    },
                )
                &&& #[trigger] comes_in(
                    between,
                    after,
                    successor(id, before.book.orders[id.0], new_price, new_qty),
                )
            }
    } else {
        after == with_rejection(before, id.0, RejectReason::OrderNotFound)
    }
}

/// A modified order is replaced, whatever the book.
pub proof fn law_modified_is_replaced(before: Engine, id: OrderId, new_price: u64, new_qty: u64)
    requires
        before.book.wf(),
    ensures
        replaced(before, before.modify(id, new_price, new_qty), id, new_price, new_qty),
{
    let after = before.modify(id, new_price, new_qty);
    if before.book.orders.contains_key(id.0) {
        let between = before.replacing(id, new_price, new_qty);
        let order = successor(id, before.book.orders[id.0], new_price, new_qty);
        lemma_is_gone(before, id.0);
        before.lemma_take_out(id.0);
        assert(between.book == before.take_out(id.0).book);
        law_order_comes_in(between, order);
    } else {
        assert(after =~= with_rejection(before, id.0, RejectReason::OrderNotFound));
    }
}

/// On a side whose best price cannot be passed over, no order rests at a price that beats
/// the best.
pub proof fn law_best_is_best(book: Book, id: u64)
    requires
        book.wf(),
        book.orders.contains_key(id),
        clear_side(book, book.orders[id].side),
    ensures
        best_on(book, book.orders[id].side) is Some,
        !beats(
            book.orders[id].side,
            book.orders[id].price,
            best_on(book, book.orders[id].side)->Some_0,
        ),
{
    let order = book.orders[id];
    assert(book.queues[(order.side, order.price)].contains(id));
    lemma_best_price(book, order.side, order.price);
}

/// Whether an order rests on `side` within the dense window.
pub open spec fn rests_in_window(book: Book, side: Side, id: u64) -> bool {
    &&& book.orders.contains_key(id)
    &&& book.orders[id].side == side
    &&& book.base <= book.orders[id].price < book.base + book.ticks
}

/// The price that takes over when the only order at the best price leaves: where orders of
/// the side rest within the dense window, one of theirs, which none of theirs beats; where
/// none does, one that none of the side beats; and none where no order of the side is left.
pub proof fn law_next_best_price(book: Book, id: u64, other: u64)
    requires
        book.wf(),
        book.orders.contains_key(id),
        best_on(book, book.orders[id].side) == Some(book.orders[id].price),
        book.queues[(book.orders[id].side, book.orders[id].price)].len() == 1,
        other != id,
        book.orders.contains_key(other),
        book.orders[other].side == book.orders[id].side,
    ensures
        ({
            let side = book.orders[id].side;
            let after = book.take_out(id);
            let price = book.orders[other].price;
            let best = best_on(after, side)->Some_0;
            &&& best_on(after, side) is Some
            &&& after.queues[(side, best)].len() > 0
            &&& rests_in_window(book, side, other) ==> book.base <= best < book.base + book.ticks
                && !beats(side, price, best)
            &&& !(book.base <= best < book.base + book.ticks) ==> !beats(side, price, best)
        }),
{
    let side = book.orders[id].side;
    let level = (side, book.orders[id].price);
    let after = book.take_out(id);
    let price = book.orders[other].price;
    let rest = Book {
        orders: book.orders.remove(id),
        queues: book.queues.insert(level, without(book.queues[level], id)),
        ..book
    };
    book.lemma_take_out(id);
    book.lemma_position(id);
    assert(after.queues == rest.queues);
    assert(after.queues[level].len() == 0);
    assert(after.orders.contains_key(other));
    assert(after.queues[(side, price)].contains(other));
    assert(rest.queue(side, price).len() > 0);
    assert(rest.prices(side).contains(price));
    assert(after.best(side) == next_best(side, rest.prices(side), book.base, book.ticks));
    lemma_takes_over(side, rest.prices(side), book.base, book.ticks, price);
    let best = best_on(after, side)->Some_0;
    assert(rest.prices(side).contains(best));
    assert(rest.queue(side, best).len() > 0);
}

/// The price that takes over is in the window where some are, and none of those it is
/// chosen from beats it.
proof fn lemma_takes_over(side: Side, prices: Set<u64>, base: u64, ticks: u32, price: u64)
    requires
        prices.contains(price),
    ensures
        next_best(side, prices, base, ticks) matches Some(best) && prices.contains(best) && (base
            <= price < base + ticks ==> base <= best < base + ticks && !beats(side, price, best))
            && (!(base <= best < base + ticks) ==> !beats(side, price, best)),
{
    let dense = prices.filter(|p: u64| in_window(base, ticks, p as int));
    lemma_best_exists(side, prices, price);
    if exists|p: u64| dense.contains(p) {
        lemma_best_exists(side, dense, choose|p: u64| dense.contains(p));
    } else {
        assert(!dense.contains(price));
    }
    if base <= price < base + ticks {
        assert(dense.contains(price));
    }
}

} // verus!
