//! Laws of the best prices: they are the best there are, they never cross, and all
//! the quantity that they promise can be had.
use crate::book_model::{lemma_qty_nonnegative, without, Book, Resting};
use crate::engine_model::{
    lemma_stop_position, lesser, same_group, stop_position, triggers, Engine, Incoming,
};
use crate::laws_matching::{law_matching, no_own_maker};
use crate::levels::{best_of, better, in_window, lemma_best, lemma_best_exists, next_best};
use crate::policy::acceptable;
use crate::sparse_index::price_limit;
use crate::sums::{lemma_sum_nonnegative, lemma_sum_point, lemma_sum_zero};
use crate::types::{
    Command, MatchEvent, OrderId, OrderType, RejectReason, Side, StpMode, TimeInForce,
};
use vstd::prelude::*;

verus! {

/// Whether an order on `side` at `price` may rest without ever being passed over by
/// the search for the next best price: no bid above the dense window and no ask
/// below it.
pub open spec fn in_sight(book: Book, side: Side, price: u64) -> bool {
    match side {
        Side::Bid => price < book.base + book.ticks,
        Side::Ask => price >= book.base,
    }
}

/// Whether the best bid is below the best ask.
pub open spec fn uncrossed(book: Book) -> bool {
    (book.best_bid matches Some(bid) && book.best_ask matches Some(ask)) ==> book.best_bid->Some_0
        < book.best_ask->Some_0
}

/// Whether all orders of `side` are in sight.
pub open spec fn all_in_sight(book: Book, side: Side) -> bool {
    forall|price: u64| #[trigger] book.queue(side, price).len() > 0 ==> in_sight(book, side, price)
}

/// Whether no order of `side` is in the dense window.
pub open spec fn none_in_window(book: Book, side: Side) -> bool {
    forall|price: u64| #[trigger]
        book.queue(side, price).len() > 0 ==> !in_window(book.base, book.ticks, price as int)
}

/// Whether the best price of `side` is the best at which orders rest there, and the
/// search for the next best price cannot pass one over: all orders are in sight, or none
/// is in the dense window.
#[verifier::opaque]
pub open spec fn clear_side(book: Book, side: Side) -> bool {
    &&& book.best(side) == best_of(side, book.prices(side))
    &&& all_in_sight(book, side) || none_in_window(book, side)
}

/// Whether an order may come to rest on `side` at `price` without one of that side being
/// passed over.
pub open spec fn joins(book: Book, side: Side, price: u64) -> bool {
    ||| all_in_sight(book, side) && in_sight(book, side, price)
    ||| none_in_window(book, side) && !in_window(book.base, book.ticks, price as int)
}

/// Whether both sides are clear and do not cross.
pub open spec fn orderly(book: Book) -> bool {
    &&& clear_side(book, Side::Bid)
    &&& clear_side(book, Side::Ask)
    &&& uncrossed(book)
}

/// On a clear side no order rests at a better price than the best.
pub proof fn lemma_best_price(book: Book, side: Side, price: u64)
    requires
        clear_side(book, side),
        book.queue(side, price).len() > 0,
    ensures
        book.best(side) matches Some(best) && book.queue(side, best).len() > 0 && !better(
            side,
            price,
            best,
        ),
{
    reveal(clear_side);
    assert(book.prices(side).contains(price));
    lemma_best_exists(side, book.prices(side), price);
}

/// Where no order can be passed over, the next best price is the best of all.
pub proof fn lemma_next_is_best(book: Book, side: Side)
    requires
        all_in_sight(book, side) || none_in_window(book, side),
    ensures
        next_best(side, book.prices(side), book.base, book.ticks) == best_of(
            side,
            book.prices(side),
        ),
{
    let prices = book.prices(side);
    let dense = prices.filter(|p: u64| in_window(book.base, book.ticks, p as int));
    if exists|p: u64| dense.contains(p) {
        let p = choose|p: u64| dense.contains(p);
        assert(book.queue(side, p).len() > 0);
        lemma_best_exists(side, dense, p);
        let best = best_of(side, dense)->Some_0;
        assert forall|q: u64| #[trigger] prices.contains(q) implies !better(side, q, best) by {
            assert(book.queue(side, q).len() > 0);
            if in_window(book.base, book.ticks, q as int) {
                assert(dense.contains(q));
            }
        }
        lemma_best(side, prices, best);
    }
}

/// A resting order leaves the other side clear, and its own where it joins it.
pub proof fn lemma_rest_clear(book: Book, id: u64, order: Resting, side: Side)
    requires
        book.wf(),
        clear_side(book, side),
        side == order.side ==> joins(book, side, order.price),
    ensures
        clear_side(book.rest(id, order), side),
{
    reveal(clear_side);
    let after = book.rest(id, order);
    let price = order.price;
    if side == order.side {
        assert forall|p: u64| #[trigger] after.queue(side, p).len() > 0 && p != price implies book.queue(
            side,
            p,
        ).len() > 0 by {}
        assert(all_in_sight(book, side) && in_sight(book, side, price) ==> all_in_sight(after, side));
        assert(none_in_window(book, side) && !in_window(book.base, book.ticks, price as int)
            ==> none_in_window(after, side));
        assert(after.prices(side) =~= book.prices(side).insert(price));
        match book.best(side) {
            Some(best) => {
                assert(book.queue(side, best).len() > 0);
                lemma_best_exists(side, book.prices(side), best);
                if better(side, price, best) {
                    lemma_best(side, after.prices(side), price);
                } else {
                    lemma_best(side, after.prices(side), best);
                }
            },
            None => {
                assert forall|q: u64| #[trigger] after.prices(side).contains(q) implies q == price by {
                    if q != price {
                        assert(book.queue(side, q).len() > 0);
                    }
                }
                lemma_best(side, after.prices(side), price);
            },
        }
    } else {
        assert(after.prices(side) =~= book.prices(side));
        assert forall|p: u64| #[trigger] after.queue(side, p) == book.queue(side, p) by {}
        assert(all_in_sight(book, side) ==> all_in_sight(after, side)) by {
            if all_in_sight(book, side) {
                assert forall|p: u64| #[trigger] after.queue(side, p).len() > 0 implies in_sight(
                    after,
                    side,
                    p,
                ) by {
                    assert(book.queue(side, p).len() > 0);
                }
            }
        }
        assert(none_in_window(book, side) ==> none_in_window(after, side)) by {
            if none_in_window(book, side) {
                assert forall|p: u64| #[trigger] after.queue(side, p).len() > 0 implies !in_window(
                    after.base,
                    after.ticks,
                    p as int,
                ) by {
                    assert(book.queue(side, p).len() > 0);
                }
            }
        }
    }
}

/// A resting order that joins its side and does not cross keeps the book orderly.
proof fn lemma_rest_orderly(book: Book, id: u64, order: Resting)
    requires
        book.wf(),
        orderly(book),
        joins(book, order.side, order.price),
        book.best(order.side.other()) matches Some(best) ==> !acceptable(
            order.side,
            order.price,
            best,
        ),
    ensures
        orderly(book.rest(id, order)),
{
    lemma_rest_clear(book, id, order, Side::Bid);
    lemma_rest_clear(book, id, order, Side::Ask);
}

/// Where orders rest after one has left.
proof fn lemma_prices_left(book: Book, id: u64)
    requires
        book.wf(),
        book.orders.contains_key(id),
    ensures
        ({
            let order = book.orders[id];
            let after = book.take_out(id);
            &&& after.base == book.base
            &&& after.ticks == book.ticks
            &&& after.prices(order.side.other()) == book.prices(order.side.other())
            &&& after.best(order.side.other()) == book.best(order.side.other())
            &&& book.prices(order.side).contains(order.price)
            &&& forall|s: Side, p: u64| #[trigger]
                after.queue(s, p).len() > 0 ==> book.queue(s, p).len() > 0
            &&& forall|p: u64|
                p != order.price ==> #[trigger] after.queue(order.side, p) == book.queue(order.side, p)
            &&& after.best(order.side) == (if after.queue(order.side, order.price).len() == 0
                && book.best(order.side) == Some(order.price) {
                next_best(order.side, after.prices(order.side), book.base, book.ticks)
            } else {
                book.best(order.side)
            })
        }),
{
    let order = book.orders[id];
    let side = order.side;
    let level = (side, order.price);
    let after = book.take_out(id);
    book.lemma_position(id);
    assert(after.prices(side.other()) =~= book.prices(side.other()));
    let rest = Book {
        orders: book.orders.remove(id),
        queues: book.queues.insert(level, without(book.queues[level], id)),
        ..book
    };
    assert(rest.prices(side) =~= after.prices(side));
    assert(book.queue(side, order.price).len() > 0);
}

/// An order that leaves keeps a side clear.
pub proof fn lemma_take_out_clear(book: Book, id: u64, side: Side)
    requires
        book.wf(),
        clear_side(book, side),
        book.orders.contains_key(id),
    ensures
        clear_side(book.take_out(id), side),
        book.take_out(id).best(side) matches Some(now) ==> (book.best(side) matches Some(best)
            && !better(side, now, best)),
{
    reveal(clear_side);
    let order = book.orders[id];
    let price = order.price;
    let after = book.take_out(id);
    lemma_prices_left(book, id);
    assert(all_in_sight(book, side) ==> all_in_sight(after, side)) by {
        if all_in_sight(book, side) {
            assert forall|p: u64| #[trigger] after.queue(side, p).len() > 0 implies in_sight(
                after,
                side,
                p,
            ) by {
                assert(book.queue(side, p).len() > 0);
            }
        }
    }
    assert(none_in_window(book, side) ==> none_in_window(after, side)) by {
        if none_in_window(book, side) {
            assert forall|p: u64| #[trigger] after.queue(side, p).len() > 0 implies !in_window(
                after.base,
                after.ticks,
                p as int,
            ) by {
                assert(book.queue(side, p).len() > 0);
            }
        }
    }
    if side == order.side {
        assert(book.queue(side, price).len() > 0);
        lemma_best_price(book, side, price);
        let best = book.best(side)->Some_0;
        if after.queue(side, price).len() == 0 && best == price {
            lemma_next_is_best(after, side);
        } else {
            assert(after.queue(side, best).len() > 0);
            assert(after.prices(side).contains(best));
            assert forall|q: u64| #[trigger] after.prices(side).contains(q) implies !better(
                side,
                q,
                best,
            ) by {
                assert(after.queue(side, q).len() > 0);
                lemma_best_price(book, side, q);
            }
            lemma_best(side, after.prices(side), best);
        }
    } else {
        assert(side == order.side.other());
    }
    match after.best(side) {
        Some(now) => {
            lemma_best_of(side, after.prices(side));
            assert(after.queue(side, now).len() > 0);
            lemma_best_price(book, side, now);
        },
        None => {},
    }
}

/// An order that leaves keeps the book orderly.
pub proof fn lemma_take_out_orderly(book: Book, id: u64)
    requires
        book.wf(),
        orderly(book),
        book.orders.contains_key(id),
    ensures
        orderly(book.take_out(id)),
{
    lemma_take_out_clear(book, id, Side::Bid);
    lemma_take_out_clear(book, id, Side::Ask);
}

/// The best of prices is one of them.
proof fn lemma_best_of(side: Side, prices: Set<u64>)
    ensures
        best_of(side, prices) matches Some(p) ==> prices.contains(p),
{
    if exists|p: u64| prices.contains(p) {
        lemma_best_exists(side, prices, choose|p: u64| prices.contains(p));
    }
}

/// A book with as many orders at each price of a side, and the same best price, is as
/// clear there.
proof fn lemma_same_prices(book: Book, after: Book, side: Side)
    requires
        clear_side(book, side),
        after.best(side) == book.best(side),
        after.base == book.base,
        after.ticks == book.ticks,
        forall|p: u64| #[trigger] after.queue(side, p).len() == book.queue(side, p).len(),
    ensures
        clear_side(after, side),
{
    reveal(clear_side);
    assert forall|p: u64| after.prices(side).contains(p) == book.prices(side).contains(p) by {
        assert(after.queue(side, p).len() == book.queue(side, p).len());
    }
    assert(after.prices(side) =~= book.prices(side));
    if all_in_sight(book, side) {
        assert forall|p: u64| #[trigger] after.queue(side, p).len() > 0 implies in_sight(
            after,
            side,
            p,
        ) by {
            assert(book.queue(side, p).len() > 0);
        }
        assert(all_in_sight(after, side));
    } else {
        assert forall|p: u64| #[trigger] after.queue(side, p).len() > 0 implies !in_window(
            after.base,
            after.ticks,
            p as int,
        ) by {
            assert(book.queue(side, p).len() > 0);
        }
        assert(none_in_window(after, side));
    }
}

/// A partly filled order keeps a side clear.
pub proof fn lemma_reduce_clear(book: Book, id: u64, delta: int, side: Side)
    requires
        clear_side(book, side),
    ensures
        clear_side(book.reduce(id, delta), side),
{
    let after = book.reduce(id, delta);
    assert forall|p: u64| #[trigger] after.queue(side, p).len() == book.queue(side, p).len() by {}
    lemma_same_prices(book, after, side);
}

/// An order that goes to the end of its queue keeps a side clear.
pub proof fn lemma_requeue_clear(book: Book, id: u64, side: Side)
    requires
        book.wf(),
        clear_side(book, side),
        book.orders.contains_key(id),
    ensures
        clear_side(book.requeue(id), side),
{
    book.lemma_requeue(id);
    lemma_same_prices(book, book.requeue(id), side);
}

/// A fill keeps a side clear, and brings it no better best price.
pub proof fn lemma_fill_clear(
    state: Engine,
    maker: u64,
    taker: OrderId,
    qty: int,
    left: int,
    side: Side,
)
    requires
        state.book.wf(),
        state.book.orders.contains_key(maker),
        0 <= qty <= state.book.orders[maker].unfilled(),
        clear_side(state.book, side),
    ensures
        clear_side(state.fill(maker, taker, qty, left).book, side),
        state.fill(maker, taker, qty, left).book.best(side) matches Some(now) ==> (
        state.book.best(side) matches Some(best) && !better(side, now, best)),
{
    let reduced = state.book.reduce(maker, qty);
    state.book.lemma_reduce(maker, qty);
    lemma_reduce_clear(state.book, maker, qty, side);
    lemma_take_out_clear(reduced, maker, side);
    lemma_requeue_clear(reduced, maker, side);
    assert(reduced.best(side) == state.book.best(side));
    assert(reduced.requeue(maker).best(side) == state.book.best(side));
}

/// Whether a side of `after` is clear where it was in `before`, and then has no better
/// best price than before.
pub open spec fn no_worse(before: Book, after: Book, side: Side) -> bool {
    clear_side(before, side) ==> clear_side(after, side) && (after.best(side) matches Some(now) ==> (
    before.best(side) matches Some(best) && !better(side, now, best)))
}

/// Matching keeps a clear side clear and an orderly book orderly, and ends only where
/// the taker has what it wants, is cancelled, or meets no maker that it accepts.
pub proof fn lemma_match_orderly(state: Engine, taker: Incoming, left: int)
    requires
        state.book.wf(),
        left >= 0,
    ensures
        no_worse(state.book, state.match_book(taker, left).0.book, Side::Bid),
        no_worse(state.book, state.match_book(taker, left).0.book, Side::Ask),
        orderly(state.book) ==> orderly(state.match_book(taker, left).0.book),
        ({
            let (end, rest, cancel) = state.match_book(taker, left);
            ||| cancel
            ||| rest == 0
            ||| end.first_maker(taker.side, taker.reach()) is None
        }),
    decreases left, state.book.orders.dom().len(),
{
    state.lemma_first_maker(taker.side, taker.reach());
    match state.first_maker(taker.side, taker.reach()) {
        Some(maker) if left > 0 => {
            let order = state.book.orders[maker];
            if order.unfilled() == 0 {
                state.lemma_take_out(maker);
                lemma_out_no_worse(state.book, maker);
                lemma_match_orderly(state.take_out(maker), taker, left);
            } else if same_group(taker.stp_group, order.stp_group) {
                state.lemma_cancel_maker(maker);
                lemma_out_no_worse(state.book, maker);
                if state.stp_mode == StpMode::CancelOldest {
                    lemma_match_orderly(state.cancel_maker(maker), taker, left);
                } else if state.stp_mode == StpMode::DecrementAndCancel {
                    let overlap = lesser(left, order.unfilled());
                    lemma_reduce_no_worse(state.book, maker, overlap);
                }
            } else {
                let qty = lesser(left, order.matchable());
                let next = state.fill(maker, taker.id, qty, left - qty);
                state.lemma_fill(maker, taker.id, qty, left - qty);
                if clear_side(state.book, Side::Bid) {
                    lemma_fill_clear(state, maker, taker.id, qty, left - qty, Side::Bid);
                }
                if clear_side(state.book, Side::Ask) {
                    lemma_fill_clear(state, maker, taker.id, qty, left - qty, Side::Ask);
                }
                lemma_match_orderly(next, taker, left - qty);
            }
        },
        _ => {},
    }
}

proof fn lemma_out_no_worse(book: Book, id: u64)
    requires
        book.wf(),
        book.orders.contains_key(id),
    ensures
        no_worse(book, book.take_out(id), Side::Bid),
        no_worse(book, book.take_out(id), Side::Ask),
{
    if clear_side(book, Side::Bid) {
        lemma_take_out_clear(book, id, Side::Bid);
    }
    if clear_side(book, Side::Ask) {
        lemma_take_out_clear(book, id, Side::Ask);
    }
}

proof fn lemma_reduce_no_worse(book: Book, id: u64, delta: int)
    ensures
        no_worse(book, book.reduce(id, delta), Side::Bid),
        no_worse(book, book.reduce(id, delta), Side::Ask),
{
    let after = book.reduce(id, delta);
    assert(after.best(Side::Bid) == book.best(Side::Bid));
    assert(after.best(Side::Ask) == book.best(Side::Ask));
    if clear_side(book, Side::Bid) {
        lemma_reduce_clear(book, id, delta, Side::Bid);
    }
    if clear_side(book, Side::Ask) {
        lemma_reduce_clear(book, id, delta, Side::Ask);
    }
}

/// Whether an incoming order comes to rest.
pub open spec fn comes_to_rest(state: Engine, order: Incoming) -> bool {
    !state.book.orders.contains_key(order.id.0) && state.new_order(order).book.orders.contains_key(
        order.id.0,
    )
}

/// Whether an incoming order that comes to rest does so where it joins its side.
pub open spec fn suits(state: Engine, order: Incoming) -> bool {
    comes_to_rest(state, order) ==> joins(state.book, order.side, order.price)
}

/// Whether the stops of `side` that a trade at `last` triggers suit when they come in.
pub open spec fn side_suits(state: Engine, side: Side, last: u64) -> bool
    decreases state.stops(side).len(),
    when state.book.wf()
{
    state.stops(side).len() > 0 && triggers(side, state.stops(side)[0].0, last) ==> {
        proof {
            state.lemma_trigger(side);
        }
        &&& suits(state.triggering(side), state.stops(side)[0].1.order())
        &&& side_suits(state.trigger(side), side, last)
    }
}

/// Whether the stops that the last trade triggers suit when they come in.
pub open spec fn stops_suit(state: Engine) -> bool
    decreases state.stop_bids.len() + state.stop_asks.len(),
    when state.book.wf()
{
    match state.last_trade {
        None => true,
        Some(last) => {
            let bids = state.drain_side(Side::Bid, last);
            let both = bids.drain_side(Side::Ask, last);
            proof {
                state.lemma_drain_side(Side::Bid, last);
                bids.lemma_drain_side(Side::Ask, last);
            }
            &&& side_suits(state, Side::Bid, last)
            &&& side_suits(bids, Side::Ask, last)
            &&& both.last_trade != Some(last) ==> stops_suit(both)
        },
    }
}

/// Whether every order that comes in while a command is processed suits.
pub open spec fn command_suits(state: Engine, command: Command) -> bool {
    let ready = Engine { events: Seq::empty(), ..state };
    match command {
        Command::NewOrder {
            id,
            instrument_id,
            side,
            price,
            qty,
            order_type,
            time_in_force,
            visible_qty,
            stop_price,
            stp_group,
        } => {
            let order = Incoming {
                id,
                side,
                price,
                qty,
                order_type,
                time_in_force,
                visible_qty,
                stop_price,
                stp_group,
            };
            suits(ready, order) && stops_suit(ready.new_order(order))
        },
        Command::CancelOrder { id } => stops_suit(ready.cancel(id)),
        Command::ModifyOrder { id, new_price, new_qty } => {
            &&& state.book.orders.contains_key(id.0) ==> suits(
                ready.replacing(id, new_price, new_qty),
                Incoming::replacement(id, state.book.orders[id.0], new_price, new_qty),
            )
            &&& stops_suit(ready.modify(id, new_price, new_qty))
        },
    }
}

/// Whether `price` keeps to where the orders of `side` are to rest in a book with a
/// window of `ticks` from `base`: in sight of the window, where they are to stay `near`
/// it, and outside of it, where they are not.
pub open spec fn kept(base: u64, ticks: u32, side: Side, near: bool, price: u64) -> bool {
    if near {
        match side {
            Side::Bid => price < base + ticks,
            Side::Ask => price >= base,
        }
    } else {
        !in_window(base, ticks, price as int)
    }
}

/// Whether all resting orders keep to where those of their side are to rest.
pub open spec fn all_kept(book: Book, near: spec_fn(Side) -> bool) -> bool {
    forall|id: u64| #[trigger]
        book.orders.contains_key(id) ==> kept(
            book.base,
            book.ticks,
            book.orders[id].side,
            near(book.orders[id].side),
            book.orders[id].price,
        )
}

/// Whether an order suits in every state where the others keep to their places: where
/// it may rest, it keeps to its place too.
pub open spec fn harmless(state: Engine, near: spec_fn(Side) -> bool, order: Incoming) -> bool {
    let at_its_place = kept(
        state.book.base,
        state.book.ticks,
        order.side,
        near(order.side),
        order.price,
    );
    match order.order_type {
        OrderType::PostOnly => at_its_place,
        OrderType::Limit | OrderType::Iceberg => order.time_in_force == TimeInForce::GTC
            ==> at_its_place,
        _ => true,
    }
}

/// Where the orders keep to their places, one that does too joins its side.
proof fn lemma_kept_joins(book: Book, near: spec_fn(Side) -> bool, side: Side, price: u64)
    requires
        book.wf(),
        all_kept(book, near),
        kept(book.base, book.ticks, side, near(side), price),
    ensures
        joins(book, side, price),
{
    assert forall|p: u64| #[trigger] book.queue(side, p).len() > 0 implies kept(
        book.base,
        book.ticks,
        side,
        near(side),
        p,
    ) by {
        assert(book.placed((side, p), book.queues[(side, p)][0]));
    }
    if near(side) {
        assert(all_in_sight(book, side));
    } else {
        assert(none_in_window(book, side));
    }
}

/// What is harmless suits.
proof fn lemma_harmless_suits(state: Engine, near: spec_fn(Side) -> bool, order: Incoming)
    requires
        state.book.wf(),
        all_kept(state.book, near),
        harmless(state, near, order),
    ensures
        suits(state, order),
{
    if comes_to_rest(state, order) {
        lemma_rests_kept(state, near, order);
        lemma_kept_joins(state.book, near, order.side, order.price);
    }
}

/// A harmless order that comes to rest does so at its place.
proof fn lemma_rests_kept(state: Engine, near: spec_fn(Side) -> bool, order: Incoming)
    requires
        state.book.wf(),
        harmless(state, near, order),
        comes_to_rest(state, order),
    ensures
        kept(state.book.base, state.book.ticks, order.side, near(order.side), order.price),
{
    match order.order_type {
        OrderType::PostOnly => {},
        OrderType::StopLimit => {},
        _ => {
            let a = state.accepted(order);
            a.lemma_match_book(order, order.qty as int);
            lemma_no_new_orders(a, order, order.qty as int);
        },
    }
}

/// A harmless order leaves all orders at their places.
proof fn lemma_new_order_kept(state: Engine, near: spec_fn(Side) -> bool, order: Incoming)
    requires
        state.book.wf(),
        all_kept(state.book, near),
        harmless(state, near, order),
    ensures
        all_kept(state.new_order(order).book, near),
{
    let after = state.new_order(order);
    state.lemma_new_order(order);
    if comes_to_rest(state, order) {
        lemma_rests_kept(state, near, order);
    }
    match order.order_type {
        OrderType::PostOnly => {},
        OrderType::StopLimit => {},
        _ => {
            if state.refusal(order) is None {
                let a = state.accepted(order);
                let (b, left, cancel) = a.match_book(order, order.qty as int);
                law_matching(a, order, order.qty as int);
                assert forall|id: u64| #[trigger] after.book.orders.contains_key(id) implies kept(
                    after.book.base,
                    after.book.ticks,
                    after.book.orders[id].side,
                    near(after.book.orders[id].side),
                    after.book.orders[id].price,
                ) by {
                    if b.book.orders.contains_key(id) {
                        assert(a.book.orders.contains_key(id));
                        assert(state.book.orders.contains_key(id));
                    } else {
                        assert(id == order.id.0);
                    }
                }
            }
        },
    }
}

/// Matching brings no order into the book.
pub proof fn lemma_no_new_orders(state: Engine, taker: Incoming, left: int)
    requires
        state.book.wf(),
        left >= 0,
    ensures
        forall|id: u64| #[trigger]
            state.match_book(taker, left).0.book.orders.contains_key(id)
                ==> state.book.orders.contains_key(id),
    decreases left, state.book.orders.dom().len(),
{
    state.lemma_first_maker(taker.side, taker.reach());
    match state.first_maker(taker.side, taker.reach()) {
        Some(maker) if left > 0 => {
            let order = state.book.orders[maker];
            state.lemma_take_out(maker);
            state.lemma_cancel_maker(maker);
            if order.unfilled() == 0 {
                lemma_no_new_orders(state.take_out(maker), taker, left);
            } else if same_group(taker.stp_group, order.stp_group) {
                if state.stp_mode == StpMode::CancelOldest {
                    lemma_no_new_orders(state.cancel_maker(maker), taker, left);
                }
            } else {
                let qty = lesser(left, order.matchable());
                let next = state.fill(maker, taker.id, qty, left - qty);
                state.lemma_fill(maker, taker.id, qty, left - qty);
                lemma_no_new_orders(next, taker, left - qty);
            }
        },
        _ => {},
    }
}

/// Whether the book is orderly, every order is at its place, and every waiting stop will
/// come to rest at its place, if at all.
pub open spec fn steady(state: Engine, near: spec_fn(Side) -> bool) -> bool {
    &&& state.book.wf()
    &&& orderly(state.book)
    &&& all_kept(state.book, near)
    &&& forall|side: Side, i: int|
        0 <= i < state.stops(side).len() ==> harmless(
            state,
            near,
            (#[trigger] state.stops(side)[i]).1.order(),
        )
}

/// Whether a command leaves every order at its place.
pub open spec fn orderly_command(
    state: Engine,
    near: spec_fn(Side) -> bool,
    command: Command,
) -> bool {
    match command {
        Command::NewOrder {
            id,
            instrument_id,
            side,
            price,
            qty,
            order_type,
            time_in_force,
            visible_qty,
            stop_price,
            stp_group,
        } => {
            let order = Incoming {
                id,
                side,
                price,
                qty,
                order_type,
                time_in_force,
                visible_qty,
                stop_price,
                stp_group,
            };
            harmless(state, near, order) && (order_type == OrderType::StopLimit ==> harmless(
                state,
                near,
                order.stop().order(),
            ))
        },
        Command::CancelOrder { id } => true,
        Command::ModifyOrder { id, new_price, new_qty } => state.book.orders.contains_key(id.0)
            ==> kept(
            state.book.base,
            state.book.ticks,
            state.book.orders[id.0].side,
            near(state.book.orders[id.0].side),
            new_price,
        ),
    }
}

/// An incoming order that suits leaves the book orderly.
proof fn lemma_new_order_orderly(state: Engine, order: Incoming)
    requires
        state.book.wf(),
        orderly(state.book),
        suits(state, order),
    ensures
        orderly(state.new_order(order).book),
{
    match order.order_type {
        OrderType::PostOnly => {
            if state.first_maker(order.side, order.price) is None && !state.book.orders.contains_key(
                order.id.0,
            ) && state.free > 0 {
                assert(comes_to_rest(state, order));
                lemma_rest_orderly(state.book, order.id.0, order.remainder(order.qty));
            }
        },
        OrderType::StopLimit => {},
        _ => {
            if state.refusal(order) is None {
                let a = state.accepted(order);
                lemma_match_orderly(a, order, order.qty as int);
                a.lemma_match_book(order, order.qty as int);
                let (b, left, cancel) = a.match_book(order, order.qty as int);
                if !cancel && left > 0 && order.order_type != OrderType::Market
                    && order.time_in_force == TimeInForce::GTC {
                    if !b.book.orders.contains_key(order.id.0) && b.free > 0 {
                        assert(comes_to_rest(state, order));
                        lemma_own_side(a, order, order.qty as int);
                        assert(joins(b.book, order.side, order.price));
                        lemma_rest_orderly(b.book, order.id.0, order.remainder(left as u64));
                    }
                }
            }
        },
    }
}

/// Matching leaves the taker's own side as it is.
proof fn lemma_own_side(state: Engine, taker: Incoming, left: int)
    requires
        state.book.wf(),
        left >= 0,
    ensures
        ({
            let end = state.match_book(taker, left).0.book;
            &&& end.base == state.book.base
            &&& end.ticks == state.book.ticks
            &&& forall|p: u64| #[trigger]
                end.queue(taker.side, p) == state.book.queue(taker.side, p)
        }),
    decreases left, state.book.orders.dom().len(),
{
    state.lemma_first_maker(taker.side, taker.reach());
    match state.first_maker(taker.side, taker.reach()) {
        Some(maker) if left > 0 => {
            let order = state.book.orders[maker];
            if order.unfilled() == 0 {
                state.lemma_take_out(maker);
                lemma_own_side(state.take_out(maker), taker, left);
            } else if same_group(taker.stp_group, order.stp_group) {
                state.lemma_cancel_maker(maker);
                if state.stp_mode == StpMode::CancelOldest {
                    lemma_own_side(state.cancel_maker(maker), taker, left);
                }
            } else {
                let qty = lesser(left, order.matchable());
                state.lemma_fill(maker, taker.id, qty, left - qty);
                lemma_own_side(
                    state.fill(maker, taker.id, qty, left - qty),
                    taker,
                    left - qty,
                );
            }
        },
        _ => {},
    }
}

proof fn lemma_drain_side_orderly(state: Engine, side: Side, last: u64)
    requires
        state.book.wf(),
        orderly(state.book),
        side_suits(state, side, last),
    ensures
        orderly(state.drain_side(side, last).book),
    decreases state.stops(side).len(),
{
    if state.stops(side).len() > 0 && triggers(side, state.stops(side)[0].0, last) {
        state.lemma_trigger(side);
        lemma_new_order_orderly(state.triggering(side), state.stops(side)[0].1.order());
        lemma_drain_side_orderly(state.trigger(side), side, last);
    }
}

proof fn lemma_drain_orderly(state: Engine)
    requires
        state.book.wf(),
        orderly(state.book),
        stops_suit(state),
    ensures
        orderly(state.drain().book),
    decreases state.stop_bids.len() + state.stop_asks.len(),
{
    match state.last_trade {
        None => {},
        Some(last) => {
            let bids = state.drain_side(Side::Bid, last);
            let both = bids.drain_side(Side::Ask, last);
            state.lemma_drain_side(Side::Bid, last);
            bids.lemma_drain_side(Side::Ask, last);
            lemma_drain_side_orderly(state, Side::Bid, last);
            lemma_drain_side_orderly(bids, Side::Ask, last);
            if both.last_trade != Some(last) {
                lemma_drain_orderly(both);
            }
        },
    }
}

/// The best bid stays below the best ask, and best prices stay the best at which
/// orders rest, through every command. Left out are the commands that bring an order
/// to rest where the search for the next best price can pass an order over: where some
/// order of that side is in the window and one is beyond it.
pub proof fn law_best_prices_never_cross(state: Engine, command: Command)
    requires
        state.book.wf(),
        orderly(state.book),
        command_suits(state, command),
    ensures
        orderly(state.process(command).book),
        uncrossed(state.process(command).book),
{
    let ready = Engine { events: Seq::empty(), ..state };
    match command {
        Command::NewOrder {
            id,
            instrument_id,
            side,
            price,
            qty,
            order_type,
            time_in_force,
            visible_qty,
            stop_price,
            stp_group,
        } => {
            let order = Incoming {
                id,
                side,
                price,
                qty,
                order_type,
                time_in_force,
                visible_qty,
                stop_price,
                stp_group,
            };
            lemma_new_order_orderly(ready, order);
            ready.lemma_new_order(order);
            lemma_drain_orderly(ready.new_order(order));
        },
        Command::CancelOrder { id } => {
            ready.lemma_cancel(id);
            if state.book.orders.contains_key(id.0) {
                lemma_take_out_orderly(ready.book, id.0);
            }
            lemma_drain_orderly(ready.cancel(id));
        },
        Command::ModifyOrder { id, new_price, new_qty } => {
            ready.lemma_modify(id, new_price, new_qty);
            if state.book.orders.contains_key(id.0) {
                let order = state.book.orders[id.0];
                lemma_take_out_orderly(ready.book, id.0);
                ready.lemma_take_out(id.0);
                lemma_new_order_orderly(
                    ready.replacing(id, new_price, new_qty),
                    Incoming::replacement(id, order, new_price, new_qty),
                );
            }
            lemma_drain_orderly(ready.modify(id, new_price, new_qty));
        },
    }
}

/// What is harmless in one state is harmless in any that follows it.
proof fn lemma_harmless_on(
    before: Engine,
    after: Engine,
    near: spec_fn(Side) -> bool,
    order: Incoming,
)
    requires
        before.leads_to(after),
        harmless(before, near, order),
    ensures
        harmless(after, near, order),
{
}

/// A triggered stop leaves the state steady.
proof fn lemma_trigger_steady(state: Engine, near: spec_fn(Side) -> bool, side: Side)
    requires
        steady(state, near),
        state.stops(side).len() > 0,
    ensures
        steady(state.trigger(side), near),
{
    let stop = state.stops(side)[0].1;
    let out = state.pop_stop(side);
    let mid = out.emit(
        MatchEvent::StopTriggered {
            meta: out.next_meta(),
            stop_id: stop.id,
            new_order_id: stop.id,
        },
    );
    let after = state.trigger(side);
    state.lemma_trigger(side);
    assert(harmless(state, near, stop.order()));
    lemma_harmless_suits(mid, near, stop.order());
    lemma_new_order_orderly(mid, stop.order());
    lemma_new_order_kept(mid, near, stop.order());
    assert forall|s: Side, i: int| 0 <= i < after.stops(s).len() implies harmless(
        after,
        near,
        (#[trigger] after.stops(s)[i]).1.order(),
    ) by {
        if s == side {
            assert(after.stops(s)[i] == state.stops(s)[i + 1]);
            lemma_harmless_on(state, after, near, state.stops(s)[i + 1].1.order());
        } else {
            assert(s == side.other());
            lemma_harmless_on(state, after, near, state.stops(s)[i].1.order());
        }
    }
}

proof fn lemma_drain_side_steady(
    state: Engine,
    near: spec_fn(Side) -> bool,
    side: Side,
    last: u64,
)
    requires
        steady(state, near),
    ensures
        steady(state.drain_side(side, last), near),
    decreases state.stops(side).len(),
{
    if state.stops(side).len() > 0 && triggers(side, state.stops(side)[0].0, last) {
        lemma_trigger_steady(state, near, side);
        state.lemma_trigger(side);
        lemma_drain_side_steady(state.trigger(side), near, side, last);
    }
}

proof fn lemma_drain_steady(state: Engine, near: spec_fn(Side) -> bool)
    requires
        steady(state, near),
    ensures
        steady(state.drain(), near),
    decreases state.stop_bids.len() + state.stop_asks.len(),
{
    match state.last_trade {
        None => {},
        Some(last) => {
            let bids = state.drain_side(Side::Bid, last);
            let both = bids.drain_side(Side::Ask, last);
            state.lemma_drain_side(Side::Bid, last);
            bids.lemma_drain_side(Side::Ask, last);
            lemma_drain_side_steady(state, near, Side::Bid, last);
            lemma_drain_side_steady(bids, near, Side::Ask, last);
            if both.last_trade != Some(last) {
                lemma_drain_steady(both, near);
            }
        },
    }
}

/// A state with the same stops that follows a steady one with an orderly book is
/// steady.
proof fn lemma_same_stops_steady(before: Engine, after: Engine, near: spec_fn(Side) -> bool)
    requires
        steady(before, near),
        before.leads_to(after),
        before.same_stops(after),
        orderly(after.book),
        all_kept(after.book, near),
    ensures
        steady(after, near),
{
    assert forall|s: Side, i: int| 0 <= i < after.stops(s).len() implies harmless(
        after,
        near,
        (#[trigger] after.stops(s)[i]).1.order(),
    ) by {
        assert(after.stops(s)[i] == before.stops(s)[i]);
        lemma_harmless_on(before, after, near, before.stops(s)[i].1.order());
    }
}

/// A steady engine stays steady through every command whose order is harmless, so
/// that its best prices never cross.
pub proof fn law_steady_stays_steady(
    state: Engine,
    near: spec_fn(Side) -> bool,
    command: Command,
)
    requires
        steady(state, near),
        orderly_command(state, near, command),
    ensures
        steady(state.process(command), near),
        uncrossed(state.process(command).book),
{
    let ready = Engine { events: Seq::empty(), ..state };
    assert forall|s: Side, i: int| 0 <= i < ready.stops(s).len() implies harmless(
        ready,
        near,
        (#[trigger] ready.stops(s)[i]).1.order(),
    ) by {
        assert(harmless(state, near, state.stops(s)[i].1.order()));
    }
    match command {
        Command::NewOrder {
            id,
            instrument_id,
            side,
            price,
            qty,
            order_type,
            time_in_force,
            visible_qty,
            stop_price,
            stp_group,
        } => {
            let order = Incoming {
                id,
                side,
                price,
                qty,
                order_type,
                time_in_force,
                visible_qty,
                stop_price,
                stp_group,
            };
            let after = ready.new_order(order);
            lemma_harmless_suits(ready, near, order);
            lemma_new_order_orderly(ready, order);
            lemma_new_order_kept(ready, near, order);
            ready.lemma_new_order(order);
            if order_type == OrderType::StopLimit {
                lemma_stop_limit_steady(ready, near, order);
            } else {
                lemma_same_stops_steady(ready, after, near);
            }
            lemma_drain_steady(after, near);
        },
        Command::CancelOrder { id } => {
            let after = ready.cancel(id);
            ready.lemma_cancel(id);
            if state.book.orders.contains_key(id.0) {
                lemma_take_out_orderly(ready.book, id.0);
            }
            lemma_same_stops_steady(ready, after, near);
            lemma_drain_steady(after, near);
        },
        Command::ModifyOrder { id, new_price, new_qty } => {
            let after = ready.modify(id, new_price, new_qty);
            ready.lemma_modify(id, new_price, new_qty);
            if state.book.orders.contains_key(id.0) {
                let order = state.book.orders[id.0];
                let a = ready.take_out(id.0);
                let event = MatchEvent::OrderModified { meta: a.next_meta(), id, new_price, new_qty };
                let c = a.emit(event).book_update(order.side, order.price);
                lemma_take_out_orderly(ready.book, id.0);
                ready.lemma_take_out(id.0);
                lemma_harmless_suits(
                    c,
                    near,
                    Incoming::replacement(id, order, new_price, new_qty),
                );
                lemma_new_order_orderly(
                    c,
                    Incoming::replacement(id, order, new_price, new_qty),
                );
                lemma_new_order_kept(
                    c,
                    near,
                    Incoming::replacement(id, order, new_price, new_qty),
                );
            }
            lemma_same_stops_steady(ready, after, near);
            lemma_drain_steady(after, near);
        },
    }
}

/// A waiting stop-limit order leaves the state steady.
proof fn lemma_stop_limit_steady(state: Engine, near: spec_fn(Side) -> bool, order: Incoming)
    requires
        steady(state, near),
        order.order_type == OrderType::StopLimit,
        harmless(state, near, order.stop().order()),
    ensures
        steady(state.new_order(order), near),
{
    let after = state.new_order(order);
    state.lemma_new_order(order);
    lemma_stop_position(
        order.side,
        state.stops(order.side),
        order.stop_price.unwrap_or(0),
    );
    assert forall|s: Side, i: int| 0 <= i < after.stops(s).len() implies harmless(
        after,
        near,
        (#[trigger] after.stops(s)[i]).1.order(),
    ) by {
        if order.qty == 0 || order.stop_price is None || s != order.side {
            assert(after.stops(s)[i] == state.stops(s)[i]);
        } else {
            let at = stop_position(s, state.stops(s), order.stop_price->Some_0);
            if i < at {
                assert(after.stops(s)[i] == state.stops(s)[i]);
            } else if i > at {
                assert(after.stops(s)[i] == state.stops(s)[i - 1]);
            } else {
                assert(after.stops(s)[i].1 == order.stop());
            }
        }
    }
}

/// A new engine is steady, wherever the orders of each side are to rest.
pub proof fn law_start_is_steady(
    base: u64,
    ticks: u32,
    capacity: nat,
    stp_mode: StpMode,
    near: spec_fn(Side) -> bool,
)
    ensures
        steady(Engine::start(base, ticks, capacity, stp_mode), near),
{
    reveal(clear_side);
    let book = Book::empty(base, ticks);
    assert(book.wf());
    assert forall|side: Side, p: u64| #[trigger] book.queue(side, p).len() == 0 by {}
    assert forall|side: Side| #[trigger] book.best(side) == best_of(side, book.prices(side)) by {
        assert forall|p: u64| !book.prices(side).contains(p) by {
            assert(book.queue(side, p).len() == 0);
        }
    }
    assert(all_in_sight(book, Side::Bid));
    assert(all_in_sight(book, Side::Ask));
    assert(book.best(Side::Bid) is None);
    assert(book.best(Side::Ask) is None);
}

/// No level holds a negative quantity, and one without orders holds none.
proof fn lemma_level_qty(book: Book, side: Side, price: int)
    requires
        book.wf(),
    ensures
        book.level_qty(side, price) >= 0,
        0 <= price < price_limit() && book.queue(side, price as u64).len() == 0 ==> book.level_qty(
            side,
            price,
        ) == 0,
{
    if 0 <= price < price_limit() {
        let level = (side, price as u64);
        let queue = book.queues[level];
        assert forall|i: int| 0 <= i < queue.len() implies book.orders[#[trigger] queue[i]].filled
            <= book.orders[queue[i]].quantity by {
            assert(book.placed(level, book.queues[level][i]));
        }
        lemma_qty_nonnegative(book.orders, queue);
    }
}

/// What a change at one price does to the depth.
proof fn lemma_depth_change(before: Book, after: Book, side: Side, reach: u64, price: u64, delta: int)
    requires
        forall|p: int| #[trigger]
            after.level_qty(side, p) == before.level_qty(side, p) - (if p == price {
                delta
            } else {
                0
            }),
    ensures
        after.depth(side, reach) == before.depth(side, reach) - (if acceptable(
            side.other(),
            reach,
            price,
        ) {
            delta
        } else {
            0
        }),
{
    let f = |p: int| before.level_qty(side, p);
    let g = |p: int| after.level_qty(side, p);
    assert forall|p: int| p != price implies #[trigger] f(p) == g(p) by {
        assert(after.level_qty(side, p) == before.level_qty(side, p));
    }
    assert(g(price as int) == after.level_qty(side, price as int));
    match side {
        Side::Bid => {
            lemma_sum_point(f, g, reach as int, price_limit(), price as int);
        },
        Side::Ask => {
            lemma_sum_point(f, g, 0, reach + 1, price as int);
        },
    }
}

/// Where the first maker is none, a clear side has no depth in reach.
proof fn lemma_no_depth(state: Engine, side: Side, reach: u64)
    requires
        state.book.wf(),
        clear_side(state.book, side.other()),
        state.first_maker(side, reach) is None,
    ensures
        state.book.depth(side.other(), reach) == 0,
{
    let book = state.book;
    let other = side.other();
    let f = |p: int| book.level_qty(other, p);
    assert forall|p: int|
        0 <= p < price_limit() && acceptable(side, reach, p as u64) implies #[trigger] f(p) == 0 by {
        lemma_level_qty(book, other, p);
        if book.queue(other, p as u64).len() > 0 {
            lemma_best_price(book, other, p as u64);
        }
    }
    match other {
        Side::Bid => {
            lemma_sum_zero(f, reach as int, price_limit());
        },
        Side::Ask => {
            lemma_sum_zero(f, 0, reach + 1);
        },
    }
}

/// What taking a maker with nothing left out of the book does to the depth: nothing.
proof fn lemma_stale_maker(state: Engine, side: Side, reach: u64, maker: u64)
    requires
        state.book.wf(),
        clear_side(state.book, side.other()),
        state.first_maker(side, reach) == Some(maker),
        state.book.orders[maker].unfilled() == 0,
    ensures
        clear_side(state.take_out(maker).book, side.other()),
        state.take_out(maker).book.depth(side.other(), reach) == state.book.depth(
            side.other(),
            reach,
        ),
{
    state.lemma_first_maker(side, reach);
    state.book.lemma_take_out(maker);
    lemma_take_out_clear(state.book, maker, side.other());
    lemma_depth_change(
        state.book,
        state.book.take_out(maker),
        side.other(),
        reach,
        state.book.orders[maker].price,
        0,
    );
}

/// What a fill does to the depth: it takes away what trades.
proof fn lemma_fill_depth(
    state: Engine,
    side: Side,
    reach: u64,
    maker: u64,
    taker: OrderId,
    qty: int,
    left: int,
)
    requires
        state.book.wf(),
        clear_side(state.book, side.other()),
        state.first_maker(side, reach) == Some(maker),
        0 < qty <= state.book.orders[maker].unfilled(),
    ensures
        clear_side(state.fill(maker, taker, qty, left).book, side.other()),
        state.fill(maker, taker, qty, left).book.depth(side.other(), reach) == state.book.depth(
            side.other(),
            reach,
        ) - qty,
{
    let order = state.book.orders[maker];
    let other = side.other();
    let reduced = state.book.reduce(maker, qty);
    let next = state.fill(maker, taker, qty, left).book;
    state.lemma_first_maker(side, reach);
    state.book.lemma_reduce(maker, qty);
    lemma_fill_clear(state, maker, taker, qty, left, other);
    reduced.lemma_take_out(maker);
    reduced.lemma_requeue(maker);
    assert forall|p: int| #[trigger] next.level_qty(other, p) == state.book.level_qty(other, p) - (if p
        == order.price {
        qty
    } else {
        0
    }) by {
        assert(reduced.level_qty(other, p) == state.book.level_qty(other, p) - (if p == order.price {
            qty
        } else {
            0
        }));
    }
    lemma_depth_change(state.book, next, other, reach, order.price, qty);
}

/// No depth is negative.
proof fn lemma_depth_nonnegative(book: Book, side: Side, reach: u64)
    requires
        book.wf(),
    ensures
        book.depth(side, reach) >= 0,
{
    let f = |p: int| book.level_qty(side, p);
    assert forall|p: int| #[trigger] f(p) >= 0 by {
        lemma_level_qty(book, side, p);
    }
    match side {
        Side::Bid => lemma_sum_nonnegative(f, reach as int, price_limit()),
        Side::Ask => lemma_sum_nonnegative(f, 0, reach + 1),
    }
}

/// Where the other side is clear, a taker that has no order of its own group in its reach gets
/// all the quantity that the other side holds there, up to what it wants.
#[verifier::rlimit(20)]
pub proof fn law_depth_can_be_had(state: Engine, taker: Incoming, left: int)
    requires
        state.book.wf(),
        clear_side(state.book, taker.side.other()),
        no_own_maker(state.book, taker),
        left >= 0,
    ensures
        !state.match_book(taker, left).2,
        state.match_book(taker, left).1 == left - lesser(
            left,
            state.book.depth(taker.side.other(), taker.reach()),
        ),
        state.book.depth(taker.side.other(), taker.reach()) >= 0,
    decreases left, state.book.orders.dom().len(),
{
    let reach = taker.reach();
    lemma_depth_nonnegative(state.book, taker.side.other(), reach);
    state.lemma_first_maker(taker.side, reach);
    match state.first_maker(taker.side, reach) {
        Some(maker) if left > 0 => {
            let order = state.book.orders[maker];
            if order.unfilled() == 0 {
                state.lemma_take_out(maker);
                lemma_stale_maker(state, taker.side, reach, maker);
                law_depth_can_be_had(state.take_out(maker), taker, left);
            } else {
                let qty = lesser(left, order.matchable());
                state.lemma_fill(maker, taker.id, qty, left - qty);
                lemma_fill_depth(state, taker.side, reach, maker, taker.id, qty, left - qty);
                law_depth_can_be_had(
                    state.fill(maker, taker.id, qty, left - qty),
                    taker,
                    left - qty,
                );
            }
        },
        None => {
            lemma_no_depth(state, taker.side, reach);
        },
        _ => {},
    }
}

/// A fill-or-kill order that has no order of its own group in its reach is, where the
/// other side is clear, filled whole or rejected: it is rejected for want of liquidity if
/// and only if the other side holds less than it wants in its reach.
pub proof fn law_fill_or_kill(state: Engine, order: Incoming)
    requires
        state.book.wf(),
        clear_side(state.book, order.side.other()),
        no_own_maker(state.book, order),
        order.time_in_force == TimeInForce::FOK,
        order.order_type == OrderType::Limit || order.order_type == OrderType::Market
            || order.order_type == OrderType::Iceberg,
        order.qty > 0,
        !state.book.orders.contains_key(order.id.0),
    ensures
        state.book.depth(order.side.other(), order.reach()) < order.qty ==> state.new_order(order)
            == state.rejected(order.id, RejectReason::InsufficientLiquidity),
        state.book.depth(order.side.other(), order.reach()) >= order.qty ==> {
            let (matched, left, cancel) = state.accepted(order).match_book(order, order.qty as int);
            &&& left == 0
            &&& !cancel
            &&& state.new_order(order) == matched
        },
{
    if state.book.depth(order.side.other(), order.reach()) >= order.qty {
        law_depth_can_be_had(state.accepted(order), order, order.qty as int);
    }
}

} // verus!
