//! Law of price-time priority: better prices first, and at one price older orders
//! first.
use crate::book_model::{without, Book, Resting};
use crate::engine_model::{lesser, same_group, Engine, Incoming};
use crate::laws_best::{
    clear_side, lemma_best_price, lemma_fill_clear, lemma_no_new_orders, lemma_take_out_clear,
};
use crate::laws_matching::{fair, law_matching};
use crate::laws_orders::law_iceberg_shows_a_slice;
use crate::levels::better;
use crate::types::{MatchEvent, OrderType, Side, StpMode};
use vstd::prelude::*;

verus! {

/// Whether `a` stands before `b` in a queue.
pub open spec fn queued_before(queue: Seq<u64>, a: u64, b: u64) -> bool {
    exists|i: int, j: int|
        0 <= i < j < queue.len() && #[trigger] queue[i] == a && #[trigger] queue[j] == b
}

/// Whether order `a` has priority over order `b`: it rests on the same side at a
/// better price, or at the same price and before it in the queue.
pub open spec fn ahead(book: Book, a: u64, b: u64) -> bool {
    let (x, y) = (book.orders[a], book.orders[b]);
    &&& book.orders.contains_key(a)
    &&& book.orders.contains_key(b)
    &&& x.side == y.side
    &&& better(x.side, x.price, y.price) || (x.price == y.price && queued_before(
        book.queue(x.side, x.price),
        a,
        b,
    ))
}

/// Whether order `id` rests in `before` and in `after`, and has not lost in between all
/// that one match could take of it: for an order that shows its quantity slice by
/// slice, the slice that it showed; for any other, all that was left of it.
pub open spec fn keeps_slice(before: Book, after: Book, id: u64) -> bool {
    &&& before.orders.contains_key(id)
    &&& after.orders.contains_key(id)
    &&& after.orders[id].filled - before.orders[id].filled < before.orders[id].matchable()
}

/// Whether an event is a trade with a maker while order `id`, which had priority over
/// the maker in `before`, still has in `after` some of what it offered.
pub open spec fn passes_over(before: Book, after: Book, event: MatchEvent, id: u64) -> bool {
    event matches MatchEvent::Fill { maker_id, .. } && ahead(before, id, maker_id.0)
        && keeps_slice(before, after, id)
}

/// What one match may take of an order of which less than that has been taken.
proof fn lemma_rest_of_slice(order: Resting, qty: int)
    requires
        order.filled <= order.quantity,
        0 <= qty < order.matchable(),
    ensures
        order.reduced(qty).matchable() == order.matchable() - qty,
{
    if order.order_type == OrderType::Iceberg && order.visible_quantity > 0 && qty > 0 {
        law_iceberg_shows_a_slice(order, qty);
    }
}

/// No order has priority over the first maker.
proof fn lemma_first_maker_first(state: Engine, side: Side, price: u64, id: u64)
    requires
        state.book.wf(),
        clear_side(state.book, side.other()),
    ensures
        state.first_maker(side, price) matches Some(maker) ==> !ahead(state.book, id, maker),
{
    state.lemma_first_maker(side, price);
    match state.first_maker(side, price) {
        Some(maker) => {
            let book = state.book;
            if ahead(book, id, maker) {
                let order = book.orders[id];
                let queue = book.queue(order.side, order.price);
                assert(queue.contains(id));
                lemma_best_price(book, order.side, order.price);
                assert(book.queues[(order.side, order.price)].no_duplicates());
                let (i, j) = choose|i: int, j: int|
                    0 <= i < j < queue.len() && #[trigger] queue[i] == id && #[trigger] queue[j]
                        == maker;
                assert(queue[0] == maker && queue[j] == maker);
            }
        },
        None => {},
    }
}

/// Priority between two orders stays where a third leaves.
proof fn lemma_ahead_take_out(book: Book, out: u64, a: u64, b: u64)
    requires
        book.wf(),
        book.orders.contains_key(out),
        a != out,
        b != out,
        ahead(book, a, b),
    ensures
        ahead(book.take_out(out), a, b),
{
    let (x, gone) = (book.orders[a], book.orders[out]);
    let after = book.take_out(out);
    let level = (gone.side, gone.price);
    let queue = book.queue(x.side, x.price);
    if x.price == book.orders[b].price && (x.side, x.price) == level {
        let (i, j) = choose|i: int, j: int|
            0 <= i < j < queue.len() && #[trigger] queue[i] == a && #[trigger] queue[j] == b;
        let k = queue.index_of(out);
        book.lemma_position(out);
        let rest = without(queue, out);
        assert(after.queue(x.side, x.price) == rest);
        let p = if i < k {
            i
        } else {
            i - 1
        };
        let q = if j < k {
            j
        } else {
            j - 1
        };
        assert(queue[i] != out && queue[j] != out);
        assert(rest[p] == a && rest[q] == b);
    } else if (x.side, x.price) != level {
        assert(after.queue(x.side, x.price) == queue);
    }
}

/// Priority between two orders stays where one is partly filled.
proof fn lemma_ahead_reduce(book: Book, id: u64, delta: int, a: u64, b: u64)
    requires
        book.orders.contains_key(id),
        ahead(book, a, b),
    ensures
        ahead(book.reduce(id, delta), a, b),
{
    let x = book.orders[a];
    assert(book.reduce(id, delta).queue(x.side, x.price) == book.queue(x.side, x.price));
}

/// Whether no event in a range passes an order over.
#[verifier::opaque]
pub open spec fn none_passed(
    before: Book,
    after: Book,
    events: Seq<MatchEvent>,
    from: int,
    to: int,
) -> bool {
    forall|i: int, id: u64|
        from <= i < to ==> !#[trigger] passes_over(before, after, events[i], id)
}

/// Whether the orders of `before` that still have in `after` some of what they offered
/// keep their priority there, and offer the rest of it.
#[verifier::opaque]
spec fn keeps_priority(before: Book, after: Book) -> bool {
    &&& forall|a: u64, b: u64| #[trigger]
        ahead(before, a, b) && keeps_slice(before, after, a) && after.orders.contains_key(b)
            ==> ahead(after, a, b)
    &&& forall|a: u64| #[trigger]
        keeps_slice(before, after, a) ==> after.orders[a].matchable() == before.orders[a].matchable()
            - (after.orders[a].filled - before.orders[a].filled)
    &&& forall|a: u64| #[trigger]
        after.orders.contains_key(a) ==> before.orders.contains_key(a) && before.orders[a].filled
            <= after.orders[a].filled
}

/// Priority between two orders stays where a third goes to the end of its queue.
proof fn lemma_ahead_requeue(book: Book, moved: u64, a: u64, b: u64)
    requires
        book.wf(),
        book.orders.contains_key(moved),
        a != moved,
        b != moved,
        ahead(book, a, b),
    ensures
        ahead(book.requeue(moved), a, b),
{
    let x = book.orders[a];
    let gone = book.orders[moved];
    let after = book.requeue(moved);
    let queue = book.queue(x.side, x.price);
    if x.price == book.orders[b].price && x.side == gone.side && x.price == gone.price {
        let (i, j) = choose|i: int, j: int|
            0 <= i < j < queue.len() && #[trigger] queue[i] == a && #[trigger] queue[j] == b;
        let k = queue.index_of(moved);
        book.lemma_position(moved);
        let rest = without(queue, moved).push(moved);
        assert(after.queue(x.side, x.price) == rest);
        let p = if i < k {
            i
        } else {
            i - 1
        };
        let q = if j < k {
            j
        } else {
            j - 1
        };
        assert(queue[i] != moved && queue[j] != moved);
        assert(rest[p] == a && rest[q] == b);
    } else if (x.side, x.price) != (gone.side, gone.price) {
        assert(after.queue(x.side, x.price) == queue);
    }
}

/// What holds of the rest of the matching holds of all of it.
proof fn lemma_step(state: Engine, next: Engine, taker: Incoming, left: int, end: Engine)
    requires
        next.book.wf(),
        left >= 0,
        end == next.match_book(taker, left).0,
        state.events.len() <= next.events.len(),
        none_passed(
            state.book,
            end.book,
            next.events,
            state.events.len() as int,
            next.events.len() as int,
        ),
        none_passed(
            next.book,
            end.book,
            end.events,
            next.events.len() as int,
            end.events.len() as int,
        ),
        keeps_priority(state.book, next.book),
    ensures
        none_passed(
            state.book,
            end.book,
            end.events,
            state.events.len() as int,
            end.events.len() as int,
        ),
{
    reveal(none_passed);
    reveal(keeps_priority);
    next.lemma_match_book(taker, left);
    law_matching(next, taker, left);
    lemma_no_new_orders(next, taker, left);
    assert forall|i: int, id: u64| state.events.len() <= i < end.events.len() implies !#[trigger] passes_over(
        state.book,
        end.book,
        end.events[i],
        id,
    ) by {
        if i < next.events.len() {
            assert(end.events[i] == next.events[i]);
            assert(!passes_over(state.book, end.book, next.events[i], id));
        } else if passes_over(state.book, end.book, end.events[i], id) {
            assert(fair(next.book, taker, end.events[i]));
            match end.events[i] {
                MatchEvent::Fill { maker_id, .. } => {
                    assert(end.book.orders.contains_key(id));
                    assert(next.book.orders.contains_key(id));
                    assert(ahead(state.book, id, maker_id.0));
                    assert(keeps_slice(state.book, next.book, id));
                    assert(ahead(next.book, id, maker_id.0));
                    assert(keeps_slice(next.book, end.book, id));
                },
                _ => {},
            }
            assert(passes_over(next.book, end.book, end.events[i], id));
        }
    }
}

/// A maker that leaves without a trade passes no order over.
proof fn lemma_out_step(state: Engine, next: Engine, maker: u64, side: Side, after: Book)
    requires
        state.book.wf(),
        clear_side(state.book, side),
        state.book.orders.contains_key(maker),
        next == state.take_out(maker) || next == state.cancel_maker(maker),
    ensures
        clear_side(next.book, side),
        keeps_priority(state.book, next.book),
        none_passed(
            state.book,
            after,
            next.events,
            state.events.len() as int,
            next.events.len() as int,
        ),
{
    reveal(none_passed);
    reveal(keeps_priority);
    let book = state.book;
    state.lemma_cancel_maker(maker);
    lemma_take_out_clear(book, maker, side);
    assert forall|a: u64, b: u64| #[trigger] ahead(book, a, b) && keeps_slice(book, next.book, a)
        && next.book.orders.contains_key(b) implies ahead(next.book, a, b) by {
        lemma_ahead_take_out(book, maker, a, b);
    }
}

/// A trade with the first maker passes no order over.
proof fn lemma_fill_step(
    state: Engine,
    taker: Incoming,
    maker: u64,
    qty: int,
    left: int,
    after: Book,
)
    requires
        state.book.wf(),
        clear_side(state.book, taker.side.other()),
        state.first_maker(taker.side, taker.reach()) == Some(maker),
        0 <= qty <= state.book.orders[maker].matchable(),
    ensures
        ({
            let next = state.fill(maker, taker.id, qty, left);
            &&& clear_side(next.book, taker.side.other())
            &&& keeps_priority(state.book, next.book)
            &&& none_passed(
                state.book,
                after,
                next.events,
                state.events.len() as int,
                next.events.len() as int,
            )
        }),
{
    reveal(none_passed);
    reveal(keeps_priority);
    let book = state.book;
    let less = book.reduce(maker, qty);
    let next = state.fill(maker, taker.id, qty, left);
    state.lemma_first_maker(taker.side, taker.reach());
    book.lemma_reduce(maker, qty);
    lemma_fill_clear(state, maker, taker.id, qty, left, taker.side.other());
    if qty < book.orders[maker].matchable() {
        lemma_rest_of_slice(book.orders[maker], qty);
    }
    assert forall|a: u64, b: u64| #[trigger] ahead(book, a, b) && keeps_slice(book, next.book, a)
        && next.book.orders.contains_key(b) implies ahead(next.book, a, b) by {
        lemma_ahead_reduce(book, maker, qty, a, b);
        lemma_first_maker_first(state, taker.side, taker.reach(), a);
        if qty == book.orders[maker].unfilled() {
            lemma_ahead_take_out(less, maker, a, b);
        } else if qty == book.orders[maker].matchable() {
            lemma_ahead_requeue(less, maker, a, b);
        }
    }
    assert forall|i: int, id: u64| state.events.len() <= i < next.events.len() implies !#[trigger] passes_over(
        book,
        after,
        next.events[i],
        id,
    ) by {
        lemma_first_maker_first(state, taker.side, taker.reach(), id);
    }
}

/// No order is passed over: where the other side is clear, a taker trades with an order
/// only when every order that had priority over that one has left the book, or has lost the slice
/// of its quantity that it showed.
pub proof fn law_price_time_priority(state: Engine, taker: Incoming, left: int)
    requires
        state.book.wf(),
        clear_side(state.book, taker.side.other()),
        left >= 0,
    ensures
        ({
            let end = state.match_book(taker, left).0;
            none_passed(
                state.book,
                end.book,
                end.events,
                state.events.len() as int,
                end.events.len() as int,
            )
        }),
    decreases left, state.book.orders.dom().len(),
{
    let end = state.match_book(taker, left).0;
    state.lemma_first_maker(taker.side, taker.reach());
    match state.first_maker(taker.side, taker.reach()) {
        Some(maker) if left > 0 => {
            let order = state.book.orders[maker];
            state.lemma_take_out(maker);
            state.lemma_cancel_maker(maker);
            if order.unfilled() == 0 {
                let next = state.take_out(maker);
                lemma_out_step(state, next, maker, taker.side.other(), end.book);
                law_price_time_priority(next, taker, left);
                lemma_step(state, next, taker, left, end);
            } else if same_group(taker.stp_group, order.stp_group) {
                let next = state.cancel_maker(maker);
                lemma_out_step(state, next, maker, taker.side.other(), end.book);
                match state.stp_mode {
                    StpMode::CancelNewest => {
                        reveal(none_passed);
                    },
                    StpMode::CancelOldest => {
                        law_price_time_priority(next, taker, left);
                        lemma_step(state, next, taker, left, end);
                    },
                    StpMode::CancelBoth => {},
                    StpMode::DecrementAndCancel => {
                        reveal(none_passed);
                    },
                }
            } else {
                let qty = lesser(left, order.matchable());
                let next = state.fill(maker, taker.id, qty, left - qty);
                state.lemma_fill(maker, taker.id, qty, left - qty);
                lemma_fill_step(state, taker, maker, qty, left - qty, end.book);
                law_price_time_priority(next, taker, left - qty);
                lemma_step(state, next, taker, left - qty, end);
            }
        },
        _ => {
            reveal(none_passed);
        },
    }
}

} // verus!
