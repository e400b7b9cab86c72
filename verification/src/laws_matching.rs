//! Laws of matching: who trades with whom, at which price and how much.
use crate::book_model::{Book, Resting};
use crate::engine_model::{lesser, same_group, Engine, Incoming};
use crate::policy::acceptable;
use crate::types::{MatchEvent, OrderId, StpMode};
use vstd::prelude::*;

verus! {

/// Quantity that an event trades.
pub open spec fn traded_by(event: MatchEvent) -> int {
    match event {
        MatchEvent::Fill { qty, .. } => qty as int,
        _ => 0,
    }
}

/// Quantity that events trade.
pub open spec fn traded(events: Seq<MatchEvent>) -> int
    decreases events.len(),
{
    if events.len() == 0 {
        0
    } else {
        traded(events.drop_last()) + traded_by(events.last())
    }
}

/// An event trades what it trades, after whatever came before.
pub proof fn lemma_traded_push(events: Seq<MatchEvent>, event: MatchEvent)
    ensures
        traded(events.push(event)) == traded(events) + traded_by(event),
{
    assert(events.push(event).drop_last() =~= events);
}

/// Every order of `after` rests in `before` already, is the same but for what is
/// filled of it, and no less of it is filled.
pub open spec fn shrunk(before: Book, after: Book) -> bool {
    forall|id: u64| #[trigger]
        after.orders.contains_key(id) ==> {
            &&& before.orders.contains_key(id)
            &&& before.orders[id].filled <= after.orders[id].filled
            &&& after.orders[id] == (Resting {
                filled: after.orders[id].filled,
                ..before.orders[id]
            })
        }
}

/// Whether a fill is fair to both orders: the maker rests on the other side, at the
/// fill price, which the taker accepts; the two may trade with each other; and
/// something trades.
pub open spec fn fair(book: Book, taker: Incoming, event: MatchEvent) -> bool {
    event matches MatchEvent::Fill { maker_id, taker_id, price, qty, .. } ==> {
        let maker = book.orders[maker_id.0];
        &&& book.orders.contains_key(maker_id.0)
        &&& taker_id == taker.id
        &&& maker.side == taker.side.other()
        &&& maker.price == price
        &&& acceptable(taker.side, taker.reach(), price)
        &&& !same_group(taker.stp_group, maker.stp_group)
        &&& 0 < qty <= maker.unfilled()
    }
}

/// Whether no order in the reach of a taker is of its own group.
pub open spec fn no_own_maker(book: Book, taker: Incoming) -> bool {
    forall|id: u64| #[trigger]
        book.orders.contains_key(id) && book.orders[id].side == taker.side.other() && acceptable(
            taker.side,
            taker.reach(),
            book.orders[id].price,
        ) ==> !same_group(taker.stp_group, book.orders[id].stp_group)
}

/// What holds between the state before and after some matching of `taker`, which
/// took `taken` off the taker: orders only shrink, fills are fair, and what trades
/// is taken off the taker and off the makers. Only `DecrementAndCancel` takes more off
/// the taker than trades, and only `CancelOldest` and `CancelBoth` take more off the
/// makers than off the taker, and that only where the taker meets an order of its own
/// group.
pub open spec fn matched(before: Engine, after: Engine, taker: Incoming, taken: int) -> bool {
    &&& shrunk(before.book, after.book)
    &&& before.events.len() <= after.events.len()
    &&& forall|i: int|
        before.events.len() <= i < after.events.len() ==> fair(
            before.book,
            taker,
            #[trigger] after.events[i],
        )
    &&& after.book.side_qty(taker.side) == before.book.side_qty(taker.side)
    &&& 0 <= traded(after.events) - traded(before.events) <= taken
    &&& traded(after.events) - traded(before.events) <= before.book.side_qty(taker.side.other())
        - after.book.side_qty(taker.side.other())
    &&& after.stp_mode == before.stp_mode
    &&& before.stp_mode != StpMode::DecrementAndCancel || no_own_maker(before.book, taker)
        ==> traded(after.events) - traded(before.events) == taken
    &&& before.stp_mode == StpMode::CancelNewest || before.stp_mode == StpMode::DecrementAndCancel
        || no_own_maker(before.book, taker) ==> before.book.side_qty(taker.side.other())
        - after.book.side_qty(taker.side.other()) == taken
}

/// What one step of matching does.
proof fn lemma_one_maker(state: Engine, taker: Incoming, maker: u64)
    requires
        state.book.wf(),
        state.first_maker(taker.side, taker.reach()) == Some(maker),
    ensures
        state.book.orders[maker].unfilled() == 0 ==> matched(
            state,
            state.take_out(maker),
            taker,
            0,
        ),
        same_group(taker.stp_group, state.book.orders[maker].stp_group) ==> {
            &&& state.stp_mode == StpMode::CancelOldest || state.stp_mode == StpMode::CancelBoth
                ==> matched(state, state.cancel_maker(maker), taker, 0)
            &&& state.stp_mode == StpMode::DecrementAndCancel ==> forall|overlap: int|
                0 <= overlap <= state.book.orders[maker].unfilled() ==> matched(
                    state,
                    #[trigger] state.decrement_maker(maker, overlap),
                    taker,
                    overlap,
                )
        },
        !same_group(taker.stp_group, state.book.orders[maker].stp_group) ==> forall|
            qty: int,
            left: int,
        |
            0 < qty <= state.book.orders[maker].unfilled() ==> matched(
                state,
                #[trigger] state.fill(maker, taker.id, qty, left),
                taker,
                qty,
            ),
{
    let order = state.book.orders[maker];
    state.lemma_first_maker(taker.side, taker.reach());
    state.book.lemma_take_out(maker);
    let out = state.take_out(maker);
    assert(shrunk(state.book, out.book));
    if same_group(taker.stp_group, order.stp_group) {
        let a = out.cancelled(OrderId(maker), order.unfilled());
        let b = a.book_update(order.side, order.price);
        lemma_traded_push(out.events, a.events.last());
        lemma_traded_push(a.events, b.events.last());
        assert forall|overlap: int|
            0 <= overlap <= order.unfilled() && state.stp_mode == StpMode::DecrementAndCancel
            implies matched(
            state,
            #[trigger] state.decrement_maker(maker, overlap),
            taker,
            overlap,
        ) by {
            let c = if overlap == order.unfilled() {
                out
            } else {
                Engine { book: state.book.reduce(maker, overlap), ..state }
            };
            state.book.lemma_reduce(maker, overlap);
            let d = c.book_update(order.side, order.price);
            lemma_traded_push(c.events, d.events.last());
        }
    } else {
        assert forall|qty: int, left: int| 0 < qty <= order.unfilled() implies matched(
            state,
            #[trigger] state.fill(maker, taker.id, qty, left),
            taker,
            qty,
        ) by {
            let after = state.fill(maker, taker.id, qty, left);
            let n = state.events.len() as int;
            state.book.lemma_reduce(maker, qty);
            let reduced = state.book.reduce(maker, qty);
            reduced.lemma_take_out(maker);
            reduced.lemma_requeue(maker);
            assert(after.events =~= state.events.push(after.events[n]).push(
                after.events[n + 1],
            ));
            lemma_traded_push(state.events, after.events[n]);
            lemma_traded_push(state.events.push(after.events[n]), after.events[n + 1]);
        }
    }
}

/// Two stretches of matching make one.
proof fn lemma_matched(a: Engine, b: Engine, c: Engine, taker: Incoming, first: int, second: int)
    requires
        matched(a, b, taker, first),
        matched(b, c, taker, second),
        forall|i: int| 0 <= i < b.events.len() ==> #[trigger] c.events[i] == b.events[i],
    ensures
        matched(a, c, taker, first + second),
{
    assert forall|i: int| a.events.len() <= i < c.events.len() implies fair(
        a.book,
        taker,
        #[trigger] c.events[i],
    ) by {
        if i < b.events.len() {
            assert(c.events[i] == b.events[i]);
        } else {
            assert(fair(b.book, taker, c.events[i]));
            match c.events[i] {
                MatchEvent::Fill { maker_id, .. } => {
                    assert(b.book.orders.contains_key(maker_id.0));
                },
                _ => {},
            }
        }
    }
    if no_own_maker(a.book, taker) {
        assert forall|id: u64| #[trigger] b.book.orders.contains_key(id) && b.book.orders[id].side
            == taker.side.other() && acceptable(
            taker.side,
            taker.reach(),
            b.book.orders[id].price,
        ) implies !same_group(taker.stp_group, b.book.orders[id].stp_group) by {
            assert(a.book.orders.contains_key(id));
        }
    }
    assert forall|id: u64| #[trigger] c.book.orders.contains_key(id) implies {
        &&& a.book.orders.contains_key(id)
        &&& a.book.orders[id].filled <= c.book.orders[id].filled
        &&& c.book.orders[id] == (Resting { filled: c.book.orders[id].filled, ..a.book.orders[id] })
    } by {
        assert(b.book.orders.contains_key(id));
    }
}

/// Whether every fill since `before` is between `taker` and an order that rested then
/// and is not of the taker's self-trade-prevention group.
pub open spec fn no_fill_within_group(before: Engine, after: Engine, taker: Incoming) -> bool {
    forall|i: int|
        before.events.len() <= i < after.events.len() ==> (
        #[trigger] after.events[i] matches MatchEvent::Fill { maker_id, taker_id, .. } ==> {
            &&& before.book.orders.contains_key(maker_id.0)
            &&& taker_id == taker.id
            &&& !same_group(taker.stp_group, before.book.orders[maker_id.0].stp_group)
        })
}

/// No fill is between the taker and an order of its own self-trade-prevention group,
/// whatever the mode.
pub proof fn law_no_fill_within_group(state: Engine, taker: Incoming, left: int)
    requires
        state.book.wf(),
        left >= 0,
    ensures
        no_fill_within_group(state, state.match_book(taker, left).0, taker),
{
    let after = state.match_book(taker, left).0;
    law_matching(state, taker, left);
    assert forall|i: int| state.events.len() <= i < after.events.len() implies (
    #[trigger] after.events[i] matches MatchEvent::Fill { maker_id, taker_id, .. } ==> {
        &&& state.book.orders.contains_key(maker_id.0)
        &&& taker_id == taker.id
        &&& !same_group(taker.stp_group, state.book.orders[maker_id.0].stp_group)
    }) by {
        assert(fair(state.book, taker, after.events[i]));
    }
}

/// Matching: orders only shrink; every fill is between the taker and an order on the
/// other side, at that order's price, which the taker accepts, and never between two
/// orders of one self-trade-prevention group; and what trades is taken off the taker
/// and off the makers. Nothing else is taken off the taker, but for what
/// `DecrementAndCancel` takes off it; and nothing else off the makers, but for makers of
/// its own group that are cancelled.
pub proof fn law_matching(state: Engine, taker: Incoming, left: int)
    requires
        state.book.wf(),
        left >= 0,
    ensures
        matched(
            state,
            state.match_book(taker, left).0,
            taker,
            left - state.match_book(taker, left).1,
        ),
    decreases left, state.book.orders.dom().len(),
{
    state.lemma_first_maker(taker.side, taker.reach());
    match state.first_maker(taker.side, taker.reach()) {
        Some(maker) if left > 0 => {
            let order = state.book.orders[maker];
            let (end, rest, _) = state.match_book(taker, left);
            lemma_one_maker(state, taker, maker);
            if order.unfilled() == 0 {
                let next = state.take_out(maker);
                state.lemma_take_out(maker);
                law_matching(next, taker, left);
                next.lemma_match_book(taker, left);
                lemma_matched(state, next, end, taker, 0, left - rest);
            } else if same_group(taker.stp_group, order.stp_group) {
                if state.stp_mode == StpMode::CancelOldest {
                    let next = state.cancel_maker(maker);
                    state.lemma_cancel_maker(maker);
                    law_matching(next, taker, left);
                    next.lemma_match_book(taker, left);
                    lemma_matched(state, next, end, taker, 0, left - rest);
                } else if state.stp_mode == StpMode::DecrementAndCancel {
                    let overlap = lesser(left, order.unfilled());
                    assert(end == state.decrement_maker(maker, overlap));
                }
            } else {
                let qty = lesser(left, order.matchable());
                let next = state.fill(maker, taker.id, qty, left - qty);
                state.lemma_fill(maker, taker.id, qty, left - qty);
                law_matching(next, taker, left - qty);
                next.lemma_match_book(taker, left - qty);
                lemma_matched(state, next, end, taker, qty, left - qty - rest);
            }
        },
        _ => {},
    }
}

} // verus!
