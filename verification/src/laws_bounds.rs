//! Laws of numbers in range: what rests and what waits on a side grows only by what
//! commands bring, and a command causes a limited number of events.
use crate::book_model::{
    lemma_slices_reduced, lemma_total_slices, lemma_total_slices_bounds, total_slices, Book, Resting,
};
use crate::engine_model::{
    lemma_stop_position, lesser, same_group, stop_position, triggers, Engine, Incoming, StopEntry,
};
use crate::laws_matching::law_matching;
use crate::sparse_index::price_limit;
use crate::sums::lemma_sum_zero;
use crate::types::{
    lemma_slices, slices_of, Command, MatchEvent, OrderId, OrderType, Side, StpMode, TimeInForce,
};
use vstd::arithmetic::div_mod::{lemma_div_is_ordered, lemma_fundamental_div_mod_converse};
use vstd::prelude::*;

verus! {

/// Quantity of waiting stops.
pub open spec fn stop_qty(stops: Seq<(u64, StopEntry)>) -> int
    decreases stops.len(),
{
    if stops.len() == 0 {
        0
    } else {
        stops[0].1.qty + stop_qty(stops.drop_first())
    }
}

/// Quantity that rests or waits on `side`.
pub open spec fn outstanding(state: Engine, side: Side) -> int {
    state.book.side_qty(side) + stop_qty(state.stops(side))
}

/// Whether some of an order may come to rest or wait: not of a market order, nor of one
/// that is cancelled or killed where it is not filled at once.
pub open spec fn may_stay(order_type: OrderType, time_in_force: TimeInForce) -> bool {
    match order_type {
        OrderType::PostOnly | OrderType::StopLimit => true,
        OrderType::Limit | OrderType::Iceberg => time_in_force == TimeInForce::GTC,
        OrderType::Market => false,
    }
}

/// Quantity that a command brings to `side`: that of a new order on that side that may
/// stay there, or that of a replacement beyond what was left of the order that it
/// replaces.
pub open spec fn brings(state: Engine, command: Command, side: Side) -> int {
    match command {
        Command::NewOrder { side: on, qty, order_type, time_in_force, .. } => if on == side
            && may_stay(order_type, time_in_force) {
            qty as int
        } else {
            0
        },
        Command::CancelOrder { id } => 0,
        Command::ModifyOrder { id, new_price, new_qty } => if state.book.orders.contains_key(id.0)
            && state.book.orders[id.0].side == side {
            new_qty - state.book.orders[id.0].unfilled()
        } else {
            0
        },
    }
}

/// Quantity that an incoming order may bring to its side.
spec fn stays(order: Incoming) -> int {
    if may_stay(order.order_type, order.time_in_force) {
        order.qty as int
    } else {
        0
    }
}

proof fn lemma_stop_qty_insert(stops: Seq<(u64, StopEntry)>, at: int, stop: (u64, StopEntry))
    requires
        0 <= at <= stops.len(),
    ensures
        stop_qty(stops.insert(at, stop)) == stop_qty(stops) + stop.1.qty,
    decreases stops.len(),
{
    let after = stops.insert(at, stop);
    if at == 0 {
        assert(after.drop_first() =~= stops);
    } else {
        lemma_stop_qty_insert(stops.drop_first(), at - 1, stop);
        assert(after.drop_first() =~= stops.drop_first().insert(at - 1, stop));
    }
}

proof fn lemma_stop_qty_nonnegative(stops: Seq<(u64, StopEntry)>)
    ensures
        stop_qty(stops) >= 0,
    decreases stops.len(),
{
    if stops.len() > 0 {
        lemma_stop_qty_nonnegative(stops.drop_first());
    }
}

/// The last of the stops hold no more than all of them.
pub proof fn lemma_stop_qty_skip(stops: Seq<(u64, StopEntry)>, n: int)
    requires
        0 <= n <= stops.len(),
    ensures
        0 <= stop_qty(stops.skip(n)) <= stop_qty(stops),
    decreases n,
{
    lemma_stop_qty_nonnegative(stops.skip(n));
    if n == 0 {
        assert(stops.skip(0) =~= stops);
    } else {
        lemma_stop_qty_skip(stops.drop_first(), n - 1);
        assert(stops.drop_first().skip(n - 1) =~= stops.skip(n));
    }
}

/// What rests after an order came in: at most the order more on its side, if it may
/// stay there, and no more on the other. The state stays in range where the sum on its side does.
proof fn lemma_new_order_qty(state: Engine, order: Incoming)
    requires
        state.book.wf(),
        order.order_type != OrderType::StopLimit,
    ensures
        state.new_order(order).book.side_qty(order.side) <= state.book.side_qty(order.side)
            + stays(order),
        state.new_order(order).book.side_qty(order.side.other()) <= state.book.side_qty(
            order.side.other(),
        ),
        state.bounded && state.book.side_qty(order.side) + stays(order) <= u64::MAX
            ==> state.new_order(order).bounded,
{
    let accepted = state.accepted(order);
    match order.order_type {
        OrderType::PostOnly => {
            if !state.book.orders.contains_key(order.id.0) {
                state.book.lemma_rest(order.id.0, order.remainder(order.qty));
            }
        },
        _ => {
            if state.refusal(order) is None {
                law_matching(accepted, order, order.qty as int);
                accepted.lemma_match_book(order, order.qty as int);
                lemma_match_bounded(accepted, order, order.qty as int);
                let (end, left, cancel) = accepted.match_book(order, order.qty as int);
                if !end.book.orders.contains_key(order.id.0) {
                    end.book.lemma_rest(order.id.0, order.remainder(left as u64));
                }
            }
        },
    }
}

/// Matching does not bring the state out of range.
proof fn lemma_match_bounded(state: Engine, taker: Incoming, left: int)
    requires
        state.book.wf(),
        left >= 0,
    ensures
        state.match_book(taker, left).0.bounded == state.bounded,
    decreases left, state.book.orders.dom().len(),
{
    state.lemma_first_maker(taker.side, taker.reach());
    match state.first_maker(taker.side, taker.reach()) {
        Some(maker) if left > 0 => {
            let order = state.book.orders[maker];
            state.lemma_take_out(maker);
            state.lemma_cancel_maker(maker);
            if order.unfilled() == 0 {
                lemma_match_bounded(state.take_out(maker), taker, left);
            } else if same_group(taker.stp_group, order.stp_group) {
                if state.stp_mode == StpMode::CancelOldest {
                    lemma_match_bounded(state.cancel_maker(maker), taker, left);
                }
            } else {
                let qty = lesser(left, order.matchable());
                state.lemma_fill(maker, taker.id, qty, left - qty);
                lemma_match_bounded(
                    state.fill(maker, taker.id, qty, left - qty),
                    taker,
                    left - qty,
                );
            }
        },
        _ => {},
    }
}

/// Whether the state is in range, and so is what rests or waits on each side.
pub open spec fn roomy(state: Engine) -> bool {
    &&& state.bounded
    &&& forall|side: Side| #[trigger] outstanding(state, side) <= u64::MAX
}

/// A triggered stop moves its quantity from waiting to resting, at most.
proof fn lemma_trigger_qty(state: Engine, side: Side)
    requires
        state.book.wf(),
        state.stops(side).len() > 0,
        state.stops(side)[0].1.side == side,
    ensures
        outstanding(state.trigger(side), side) <= outstanding(state, side),
        outstanding(state.trigger(side), side.other()) <= outstanding(state, side.other()),
        state.bounded && outstanding(state, side) <= u64::MAX ==> state.trigger(side).bounded,
{
    let stop = state.stops(side)[0].1;
    let out = state.pop_stop(side);
    let mid = out.emit(
        MatchEvent::StopTriggered {
            meta: out.next_meta(),
            stop_id: stop.id,
            new_order_id: stop.id,
        },
    );
    state.lemma_trigger(side);
    lemma_new_order_qty(mid, stop.order());
    lemma_stop_qty_nonnegative(state.stops(side).drop_first());
}

/// Whether the stops wait on their own sides.
pub open spec fn own_sides(state: Engine) -> bool {
    forall|side: Side, i: int|
        0 <= i < state.stops(side).len() ==> (#[trigger] state.stops(side)[i]).1.side == side
}

proof fn lemma_drain_side_qty(state: Engine, side: Side, last: u64)
    requires
        state.book.wf(),
        own_sides(state),
        roomy(state),
    ensures
        own_sides(state.drain_side(side, last)),
        roomy(state.drain_side(side, last)),
        forall|s: Side| #[trigger]
            outstanding(state.drain_side(side, last), s) <= outstanding(state, s),
    decreases state.stops(side).len(),
{
    if state.stops(side).len() > 0 && triggers(side, state.stops(side)[0].0, last) {
        let next = state.trigger(side);
        state.lemma_trigger(side);
        assert(outstanding(state, side) <= u64::MAX);
        lemma_trigger_qty(state, side);
        assert forall|s: Side| #[trigger] outstanding(next, s) <= outstanding(state, s) by {
            if s != side {
                assert(s == side.other());
            }
        }
        assert(roomy(next)) by {
            assert forall|s: Side| #[trigger] outstanding(next, s) <= u64::MAX by {
                assert(outstanding(state, s) <= u64::MAX);
            }
        }
        assert forall|s: Side, i: int| 0 <= i < next.stops(s).len() implies (#[trigger] next.stops(
            s,
        )[i]).1.side == s by {
            if s == side {
                assert(next.stops(s)[i] == state.stops(s)[i + 1]);
            } else {
                assert(s == side.other());
                assert(next.stops(s)[i] == state.stops(s)[i]);
            }
        }
        lemma_drain_side_qty(next, side, last);
        assert forall|s: Side| #[trigger] outstanding(state.drain_side(side, last), s)
            <= outstanding(state, s) by {
            assert(outstanding(next.drain_side(side, last), s) <= outstanding(next, s));
        }
    }
}

proof fn lemma_drain_qty(state: Engine)
    requires
        state.book.wf(),
        own_sides(state),
        roomy(state),
    ensures
        own_sides(state.drain()),
        roomy(state.drain()),
        forall|s: Side| #[trigger] outstanding(state.drain(), s) <= outstanding(state, s),
    decreases state.stop_bids.len() + state.stop_asks.len(),
{
    match state.last_trade {
        None => {},
        Some(last) => {
            let bids = state.drain_side(Side::Bid, last);
            let both = bids.drain_side(Side::Ask, last);
            state.lemma_drain_side(Side::Bid, last);
            bids.lemma_drain_side(Side::Ask, last);
            lemma_drain_side_qty(state, Side::Bid, last);
            lemma_drain_side_qty(bids, Side::Ask, last);
            assert forall|s: Side| #[trigger] outstanding(both, s) <= outstanding(state, s) by {
                assert(outstanding(bids, s) <= outstanding(state, s));
            }
            if both.last_trade != Some(last) {
                lemma_drain_qty(both);
                assert forall|s: Side| #[trigger] outstanding(state.drain(), s) <= outstanding(
                    state,
                    s,
                ) by {
                    assert(outstanding(both.drain(), s) <= outstanding(both, s));
                }
            }
        },
    }
}

/// What holds of a command before the stops are looked at: the state `after` it is
/// in range, and at most `bid` and `ask` have come to the two sides.
spec fn in_range_after(before: Engine, after: Engine, bid: int, ask: int) -> bool {
    &&& after.book.wf()
    &&& own_sides(after)
    &&& after.bounded
    &&& outstanding(after, Side::Bid) <= outstanding(before, Side::Bid) + bid
    &&& outstanding(after, Side::Ask) <= outstanding(before, Side::Ask) + ask
}

/// Stops that are the same wait on their own sides.
proof fn lemma_same_sides(before: Engine, after: Engine)
    requires
        own_sides(before),
        before.same_stops(after),
    ensures
        own_sides(after),
{
    assert forall|s: Side, i: int| 0 <= i < after.stops(s).len() implies (#[trigger] after.stops(
        s,
    )[i]).1.side == s by {
        assert(after.stops(s)[i] == before.stops(s)[i]);
    }
}

/// An incoming order leaves the stops on their own sides.
proof fn lemma_new_order_sides(state: Engine, order: Incoming)
    requires
        state.book.wf(),
        own_sides(state),
    ensures
        own_sides(state.new_order(order)),
{
    let after = state.new_order(order);
    let side = order.side;
    state.lemma_new_order(order);
    if order.order_type == OrderType::StopLimit && order.qty != 0 && order.stop_price is Some {
        let stops = state.stops(side);
        let price = order.stop_price->Some_0;
        let at = stop_position(side, stops, price);
        lemma_stop_position(side, stops, price);
        assert forall|s: Side, i: int| 0 <= i < after.stops(s).len() implies (#[trigger] after.stops(
            s,
        )[i]).1.side == s by {
            if s != side || i < at {
                assert(after.stops(s)[i] == state.stops(s)[i]);
            } else if i > at {
                assert(after.stops(s)[i] == state.stops(s)[i - 1]);
            }
        }
    } else {
        lemma_same_sides(state, after);
    }
}

/// Triggered stops leave the others on their own sides.
proof fn lemma_drain_side_sides(state: Engine, side: Side, last: u64)
    requires
        state.book.wf(),
        own_sides(state),
    ensures
        own_sides(state.drain_side(side, last)),
    decreases state.stops(side).len(),
{
    if state.stops(side).len() > 0 && triggers(side, state.stops(side)[0].0, last) {
        let next = state.trigger(side);
        state.lemma_trigger(side);
        assert forall|s: Side, i: int| 0 <= i < next.stops(s).len() implies (#[trigger] next.stops(
            s,
        )[i]).1.side == s by {
            if s == side {
                assert(next.stops(s)[i] == state.stops(s)[i + 1]);
            } else {
                assert(s == side.other());
                assert(next.stops(s)[i] == state.stops(s)[i]);
            }
        }
        lemma_drain_side_sides(next, side, last);
    }
}

proof fn lemma_drain_sides(state: Engine)
    requires
        state.book.wf(),
        own_sides(state),
    ensures
        own_sides(state.drain()),
    decreases state.stop_bids.len() + state.stop_asks.len(),
{
    match state.last_trade {
        None => {},
        Some(last) => {
            let bids = state.drain_side(Side::Bid, last);
            let both = bids.drain_side(Side::Ask, last);
            state.lemma_drain_side(Side::Bid, last);
            bids.lemma_drain_side(Side::Ask, last);
            lemma_drain_side_sides(state, Side::Bid, last);
            lemma_drain_side_sides(bids, Side::Ask, last);
            if both.last_trade != Some(last) {
                lemma_drain_sides(both);
            }
        },
    }
}

/// Commands leave the stops on their own sides.
pub proof fn law_stops_keep_their_sides(state: Engine, command: Command)
    requires
        state.book.wf(),
        own_sides(state),
    ensures
        own_sides(state.process(command)),
{
    let ready = Engine { events: Seq::empty(), ..state };
    lemma_same_sides(state, ready);
    match command {
        Command::NewOrder {
            id,
            instrument_id,
            side,
            price,
            qty,
            order_type,
            time_in_force,
            visible_qty,
            stop_price,
            stp_group,
        } => {
            let order = Incoming {
                id,
                side,
                price,
                qty,
                order_type,
                time_in_force,
                visible_qty,
                stop_price,
                stp_group,
            };
            ready.lemma_new_order(order);
            lemma_new_order_sides(ready, order);
            lemma_drain_sides(ready.new_order(order));
        },
        Command::CancelOrder { id } => {
            ready.lemma_cancel(id);
            lemma_same_sides(ready, ready.cancel(id));
            lemma_drain_sides(ready.cancel(id));
        },
        Command::ModifyOrder { id, new_price, new_qty } => {
            let after = ready.modify(id, new_price, new_qty);
            ready.lemma_modify(id, new_price, new_qty);
            lemma_same_sides(ready, after);
            lemma_drain_sides(after);
        },
    }
}

proof fn lemma_stop_limit_range(state: Engine, order: Incoming)
    requires
        state.book.wf(),
        own_sides(state),
        state.bounded,
        order.order_type == OrderType::StopLimit,
    ensures
        order.side == Side::Bid ==> in_range_after(
            state,
            state.new_order(order),
            stays(order),
            0,
        ),
        order.side == Side::Ask ==> in_range_after(
            state,
            state.new_order(order),
            0,
            stays(order),
        ),
{
    let side = order.side;
    state.lemma_new_order(order);
    lemma_new_order_sides(state, order);
    if order.qty != 0 && order.stop_price is Some {
        let stops = state.stops(side);
        let price = order.stop_price->Some_0;
        let at = stop_position(side, stops, price);
        lemma_stop_position(side, stops, price);
        lemma_stop_qty_insert(stops, at, (price, order.stop()));
    }
}

proof fn lemma_new_order_range(state: Engine, order: Incoming)
    requires
        state.book.wf(),
        own_sides(state),
        state.bounded,
        outstanding(state, order.side) + stays(order) <= u64::MAX,
    ensures
        order.side == Side::Bid ==> in_range_after(
            state,
            state.new_order(order),
            stays(order),
            0,
        ),
        order.side == Side::Ask ==> in_range_after(
            state,
            state.new_order(order),
            0,
            stays(order),
        ),
{
    if order.order_type == OrderType::StopLimit {
        lemma_stop_limit_range(state, order);
    } else {
        state.lemma_new_order(order);
        lemma_stop_qty_nonnegative(state.stops(order.side));
        lemma_new_order_qty(state, order);
        lemma_same_sides(state, state.new_order(order));
    }
}

proof fn lemma_cancel_range(state: Engine, id: OrderId)
    requires
        state.book.wf(),
        own_sides(state),
        state.bounded,
    ensures
        in_range_after(state, state.cancel(id), 0, 0),
{
    state.lemma_cancel(id);
    lemma_same_sides(state, state.cancel(id));
    if state.book.orders.contains_key(id.0) {
        state.book.lemma_take_out(id.0);
    }
}

proof fn lemma_modify_range(state: Engine, id: OrderId, new_price: u64, new_qty: u64)
    requires
        state.book.wf(),
        own_sides(state),
        state.bounded,
        state.book.orders.contains_key(id.0),
        outstanding(state, state.book.orders[id.0].side) - state.book.orders[id.0].unfilled()
            + new_qty <= u64::MAX,
    ensures
        ({
            let order = state.book.orders[id.0];
            let more = new_qty - order.unfilled();
            let after = state.modify(id, new_price, new_qty);
            &&& order.side == Side::Bid ==> in_range_after(state, after, more, 0)
            &&& order.side == Side::Ask ==> in_range_after(state, after, 0, more)
        }),
{
    let order = state.book.orders[id.0];
    let a = state.take_out(id.0);
    let event = MatchEvent::OrderModified { meta: a.next_meta(), id, new_price, new_qty };
    let c = a.emit(event).book_update(order.side, order.price);
    state.book.lemma_take_out(id.0);
    state.lemma_modify(id, new_price, new_qty);
    lemma_same_sides(state, state.modify(id, new_price, new_qty));
    lemma_stop_qty_nonnegative(state.stops(order.side));
    lemma_new_order_qty(c, Incoming::replacement(id, order, new_price, new_qty));
}

/// A command does not bring the engine out of range where, on each side, what rests,
/// what waits and what the command brings fit a `u64` together; and what rests and
/// waits grows by no more than the command brings.
pub proof fn law_stays_in_range(state: Engine, command: Command)
    requires
        state.book.wf(),
        own_sides(state),
        state.bounded,
        forall|side: Side|
            #[trigger] outstanding(state, side) + brings(state, command, side) <= u64::MAX,
    ensures
        own_sides(state.process(command)),
        roomy(state.process(command)),
        forall|side: Side| #[trigger]
            outstanding(state.process(command), side) <= outstanding(state, side) + brings(
                state,
                command,
                side,
            ),
{
    let ready = Engine { events: Seq::empty(), ..state };
    lemma_same_sides(state, ready);
    assert(outstanding(state, Side::Bid) + brings(state, command, Side::Bid) <= u64::MAX);
    assert(outstanding(state, Side::Ask) + brings(state, command, Side::Ask) <= u64::MAX);
    assert(outstanding(state, Side::Bid) == outstanding(ready, Side::Bid));
    assert(outstanding(state, Side::Ask) == outstanding(ready, Side::Ask));
    let after = match command {
        Command::NewOrder {
            id,
            instrument_id,
            side,
            price,
            qty,
            order_type,
            time_in_force,
            visible_qty,
            stop_price,
            stp_group,
        } => {
            let order = Incoming {
                id,
                side,
                price,
                qty,
                order_type,
                time_in_force,
                visible_qty,
                stop_price,
                stp_group,
            };
            lemma_new_order_range(ready, order);
            ready.new_order(order)
        },
        Command::CancelOrder { id } => {
            lemma_cancel_range(ready, id);
            ready.cancel(id)
        },
        Command::ModifyOrder { id, new_price, new_qty } => {
            if state.book.orders.contains_key(id.0) {
                lemma_modify_range(ready, id, new_price, new_qty);
            } else {
                lemma_cancel_range(ready, id);
            }
            ready.modify(id, new_price, new_qty)
        },
    };
    lemma_after_command(state, command, after);
}

/// The stops that follow a command keep it in range.
proof fn lemma_after_command(state: Engine, command: Command, after: Engine)
    requires
        in_range_after(
            state,
            after,
            brings(state, command, Side::Bid),
            brings(state, command, Side::Ask),
        ),
        outstanding(state, Side::Bid) + brings(state, command, Side::Bid) <= u64::MAX,
        outstanding(state, Side::Ask) + brings(state, command, Side::Ask) <= u64::MAX,
    ensures
        own_sides(after.drain()),
        roomy(after.drain()),
        forall|side: Side| #[trigger]
            outstanding(after.drain(), side) <= outstanding(state, side) + brings(
                state,
                command,
                side,
            ),
{
    assert forall|s: Side| #[trigger] outstanding(after, s) <= u64::MAX by {
        assert(s == Side::Bid || s == Side::Ask);
    }
    lemma_drain_qty(after);
    assert forall|s: Side| #[trigger] outstanding(after.drain(), s) <= outstanding(state, s)
        + brings(state, command, s) by {
        assert(outstanding(after.drain(), s) <= outstanding(after, s));
        assert(s == Side::Bid || s == Side::Ask);
    }
}

/// Number of slices that an incoming order may come to rest with.
pub open spec fn slices_brought(order_type: OrderType, visible_qty: Option<u64>, qty: u64) -> int {
    match visible_qty {
        Some(peak) => slices_of(order_type, peak as int, qty as int, 0),
        None => 1,
    }
}

/// Number of slices that a command brings.
pub open spec fn slices_asked(command: Command) -> int {
    match command {
        Command::NewOrder { order_type, visible_qty, qty, .. } => slices_brought(
            order_type,
            visible_qty,
            qty,
        ),
        Command::CancelOrder { .. } => 0,
        Command::ModifyOrder { .. } => 1,
    }
}

/// An upper bound of the sequence that the events to come can reach without a
/// further command: two events for each slice of a resting order, and seven for each
/// waiting stop.
pub open spec fn horizon(state: Engine) -> int {
    state.sequence + 2 * total_slices(state.book.orders) + 7 * (state.stop_bids.len()
        + state.stop_asks.len())
}

/// What a fill does to the slices of the resting orders: one less where all is taken
/// that one match may take, and no more in any case.
proof fn lemma_fill_slices(state: Engine, maker: u64, taker: OrderId, qty: int, left: int)
    requires
        state.book.wf(),
        state.book.orders.contains_key(maker),
        0 < qty <= state.book.orders[maker].matchable() <= state.book.orders[maker].unfilled(),
    ensures
        ({
            let before = total_slices(state.book.orders);
            let after = total_slices(state.fill(maker, taker, qty, left).book.orders);
            &&& after <= before
            &&& qty == state.book.orders[maker].matchable() ==> after <= before - 1
        }),
{
    let orders = state.book.orders;
    let order = orders[maker];
    let reduced = state.book.reduce(maker, qty).orders;
    lemma_total_slices(orders, maker);
    lemma_slices_reduced(order, qty);
    lemma_slices(
        order.order_type,
        order.visible_quantity as int,
        order.quantity as int,
        order.filled as int,
    );
    assert(reduced.dom() =~= orders.dom());
    lemma_total_slices(reduced, maker);
    assert(reduced.remove(maker) =~= orders.remove(maker));
}

/// What taking an order out does to the slices of the resting orders: no more are left,
/// and one less where something was left of the order.
proof fn lemma_take_out_slices(book: Book, id: u64)
    requires
        book.wf(),
        book.orders.contains_key(id),
    ensures
        total_slices(book.take_out(id).orders) <= total_slices(book.orders),
        book.orders[id].unfilled() > 0 ==> total_slices(book.take_out(id).orders) <= total_slices(
            book.orders,
        ) - 1,
{
    let order = book.orders[id];
    lemma_total_slices(book.orders, id);
    lemma_slices(
        order.order_type,
        order.visible_quantity as int,
        order.quantity as int,
        order.filled as int,
    );
    assert(book.take_out(id).orders == book.orders.remove(id));
}

/// What an order that comes to rest does to the slices.
proof fn lemma_rest_slices(state: Engine, id: OrderId, order: Resting)
    requires
        state.book.wf(),
        order.filled <= order.quantity,
    ensures
        total_slices(state.rest(id, order).book.orders) <= total_slices(state.book.orders)
            + order.slices(),
        total_slices(state.rest(id, order).book.orders) >= total_slices(state.book.orders),
{
    lemma_slices(
        order.order_type,
        order.visible_quantity as int,
        order.quantity as int,
        order.filled as int,
    );
    if !state.book.orders.contains_key(id.0) && state.free > 0 {
        let after = state.book.rest(id.0, order).orders;
        assert(after == state.book.orders.insert(id.0, order));
        assert(after.dom() =~= state.book.orders.dom().insert(id.0));
        lemma_total_slices(after, id.0);
        assert(after.remove(id.0) =~= state.book.orders);
    }
}

/// What decrementing a maker does to the slices: no more are left.
proof fn lemma_decrement_slices(state: Engine, maker: u64, overlap: int)
    requires
        state.book.wf(),
        state.book.orders.contains_key(maker),
        0 <= overlap <= state.book.orders[maker].unfilled(),
    ensures
        total_slices(state.decrement_maker(maker, overlap).book.orders) <= total_slices(
            state.book.orders,
        ),
{
    let orders = state.book.orders;
    if overlap == orders[maker].unfilled() {
        lemma_take_out_slices(state.book, maker);
    } else {
        let reduced = state.book.reduce(maker, overlap).orders;
        lemma_total_slices(orders, maker);
        lemma_slices_reduced(orders[maker], overlap);
        assert(reduced.dom() =~= orders.dom());
        lemma_total_slices(reduced, maker);
        assert(reduced.remove(maker) =~= orders.remove(maker));
    }
}

/// Matching causes two events at most for each slice that is used up or cancelled, and
/// two more.
proof fn lemma_match_events(state: Engine, taker: Incoming, left: int)
    requires
        state.book.wf(),
        left >= 0,
    ensures
        ({
            let after = state.match_book(taker, left).0;
            after.sequence + 2 * total_slices(after.book.orders) <= state.sequence + 2
                * total_slices(state.book.orders) + (if left > 0 {
                2int
            } else {
                0
            })
        }),
    decreases left, state.book.orders.dom().len(),
{
    state.lemma_first_maker(taker.side, taker.reach());
    match state.first_maker(taker.side, taker.reach()) {
        Some(maker) if left > 0 => {
            let order = state.book.orders[maker];
            state.lemma_take_out(maker);
            state.lemma_cancel_maker(maker);
            lemma_take_out_slices(state.book, maker);
            if order.unfilled() == 0 {
                lemma_match_events(state.take_out(maker), taker, left);
            } else if same_group(taker.stp_group, order.stp_group) {
                if state.stp_mode == StpMode::CancelOldest {
                    lemma_match_events(state.cancel_maker(maker), taker, left);
                } else if state.stp_mode == StpMode::DecrementAndCancel {
                    lemma_decrement_slices(state, maker, lesser(left, order.unfilled()));
                }
            } else {
                let qty = lesser(left, order.matchable());
                let next = state.fill(maker, taker.id, qty, left - qty);
                state.lemma_fill(maker, taker.id, qty, left - qty);
                lemma_fill_slices(state, maker, taker.id, qty, left - qty);
                lemma_match_events(next, taker, left - qty);
            }
        },
        _ => {},
    }
}

/// What is left of an order comes to rest with no more slices than it brought.
proof fn lemma_remainder_slices(order: Incoming, left: u64)
    requires
        left <= order.qty,
    ensures
        order.remainder(left).slices() <= slices_brought(
            order.order_type,
            order.visible_qty,
            order.qty,
        ),
{
    match order.visible_qty {
        Some(peak) => {
            if peak > 0 {
                lemma_div_is_ordered(left + peak - 1, order.qty + peak - 1, peak as int);
            }
        },
        None => {
            if left > 0 {
                lemma_fundamental_div_mod_converse(left + left - 1, left as int, 1, left - 1);
                lemma_fundamental_div_mod_converse(0, left as int, 0, 0);
            }
        },
    }
}

/// An incoming order causes few events for the slices that it brings.
proof fn lemma_new_order_events(state: Engine, order: Incoming)
    requires
        state.book.wf(),
    ensures
        order.order_type != OrderType::StopLimit ==> horizon(state.new_order(order)) <= horizon(state)
            + 2 * slices_brought(order.order_type, order.visible_qty, order.qty) + 4,
        order.order_type == OrderType::StopLimit ==> horizon(state.new_order(order)) <= horizon(state)
            + 8,
{
    let after = state.new_order(order);
    let accepted = state.accepted(order);
    state.lemma_new_order(order);
    match order.order_type {
        OrderType::PostOnly => {
            lemma_rest_slices(accepted, order.id, order.remainder(order.qty));
        },
        OrderType::StopLimit => {
            if order.qty != 0 && order.stop_price is Some {
                lemma_stop_position(
                    order.side,
                    state.stops(order.side),
                    order.stop_price->Some_0,
                );
            }
        },
        _ => {
            if state.refusal(order) is None {
                accepted.lemma_match_book(order, order.qty as int);
                lemma_match_events(accepted, order, order.qty as int);
                let (end, left, cancel) = accepted.match_book(order, order.qty as int);
                lemma_rest_slices(end, order.id, order.remainder(left as u64));
                lemma_remainder_slices(order, left as u64);
            }
            lemma_slices_brought(order);
        },
    }
}

/// An order brings no negative number of slices.
proof fn lemma_slices_brought(order: Incoming)
    ensures
        slices_brought(order.order_type, order.visible_qty, order.qty) >= 0,
{
    match order.visible_qty {
        Some(peak) => {
            lemma_slices(order.order_type, peak as int, order.qty as int, 0);
        },
        None => {},
    }
}

proof fn lemma_drain_side_events(state: Engine, side: Side, last: u64)
    requires
        state.book.wf(),
    ensures
        horizon(state.drain_side(side, last)) <= horizon(state),
    decreases state.stops(side).len(),
{
    if state.stops(side).len() > 0 && triggers(side, state.stops(side)[0].0, last) {
        let stop = state.stops(side)[0].1;
        let out = state.pop_stop(side);
        let mid = out.emit(
            MatchEvent::StopTriggered {
                meta: out.next_meta(),
                stop_id: stop.id,
                new_order_id: stop.id,
            },
        );
        state.lemma_trigger(side);
        lemma_new_order_events(mid, stop.order());
        lemma_drain_side_events(state.trigger(side), side, last);
    }
}

proof fn lemma_drain_events(state: Engine)
    requires
        state.book.wf(),
    ensures
        horizon(state.drain()) <= horizon(state),
    decreases state.stop_bids.len() + state.stop_asks.len(),
{
    match state.last_trade {
        None => {},
        Some(last) => {
            let bids = state.drain_side(Side::Bid, last);
            let both = bids.drain_side(Side::Ask, last);
            state.lemma_drain_side(Side::Bid, last);
            bids.lemma_drain_side(Side::Ask, last);
            lemma_drain_side_events(state, Side::Bid, last);
            lemma_drain_side_events(bids, Side::Ask, last);
            if both.last_trade != Some(last) {
                lemma_drain_events(both);
            }
        },
    }
}

/// A command causes a limited number of events: two for each slice of a resting order
/// and each that it brings, seven for each stop, and eight.
pub proof fn law_events_are_limited(state: Engine, command: Command)
    requires
        state.book.wf(),
    ensures
        horizon(state.process(command)) <= horizon(state) + 2 * slices_asked(command) + 8,
        state.process(command).sequence <= horizon(state) + 2 * slices_asked(command) + 8,
{
    let ready = Engine { events: Seq::empty(), ..state };
    let after = match command {
        Command::NewOrder {
            id,
            instrument_id,
            side,
            price,
            qty,
            order_type,
            time_in_force,
            visible_qty,
            stop_price,
            stp_group,
        } => {
            let order = Incoming {
                id,
                side,
                price,
                qty,
                order_type,
                time_in_force,
                visible_qty,
                stop_price,
                stp_group,
            };
            ready.lemma_new_order(order);
            lemma_new_order_events(ready, order);
            lemma_slices_brought(order);
            ready.new_order(order)
        },
        Command::CancelOrder { id } => {
            ready.lemma_cancel(id);
            if ready.book.orders.contains_key(id.0) {
                lemma_take_out_slices(ready.book, id.0);
            }
            ready.cancel(id)
        },
        Command::ModifyOrder { id, new_price, new_qty } => {
            ready.lemma_modify(id, new_price, new_qty);
            if ready.book.orders.contains_key(id.0) {
                let order = ready.book.orders[id.0];
                let a = ready.take_out(id.0);
                let event = MatchEvent::OrderModified { meta: a.next_meta(), id, new_price, new_qty };
                let c = a.emit(event).book_update(order.side, order.price);
                ready.lemma_take_out(id.0);
                lemma_take_out_slices(ready.book, id.0);
                lemma_new_order_events(c, Incoming::replacement(id, order, new_price, new_qty));
            }
            ready.modify(id, new_price, new_qty)
        },
    };
    lemma_drain_events(after);
    after.lemma_drain();
    lemma_total_slices_bounds(state.process(command).book.orders);
}

/// Whether a command can be processed without bringing a number out of range, as far
/// as sums tell: quantities on each side, and the sequence where every slice and every
/// stop that there can be causes as many events as it may.
pub open spec fn has_room(state: Engine, command: Command) -> bool {
    &&& outstanding(state, Side::Bid) + brings(state, command, Side::Bid) <= u64::MAX
    &&& outstanding(state, Side::Ask) + brings(state, command, Side::Ask) <= u64::MAX
    &&& horizon(state) + 2 * slices_asked(command) + 8 <= u64::MAX
}

/// Where there is room for a command, the engine can process it.
pub proof fn law_room_is_enough(state: Engine, command: Command)
    requires
        state.book.wf(),
        own_sides(state),
        state.bounded,
        has_room(state, command),
    ensures
        state.process(command).fits(),
{
    law_events_are_limited(state, command);
    assert forall|side: Side| #[trigger] outstanding(state, side) + brings(state, command, side)
        <= u64::MAX by {
        assert(side == Side::Bid || side == Side::Ask);
    }
    law_stays_in_range(state, command);
}

/// A new engine has room for any command, but for one that brings about half as many
/// slices as a `u64` can count.
pub proof fn law_room_at_start(
    base: u64,
    ticks: u32,
    capacity: nat,
    stp_mode: StpMode,
    command: Command,
)
    requires
        2 * slices_asked(command) + 8 <= u64::MAX,
    ensures
        has_room(Engine::start(base, ticks, capacity, stp_mode), command),
        own_sides(Engine::start(base, ticks, capacity, stp_mode)),
{
    let book = Book::empty(base, ticks);
    lemma_sum_zero(|p: int| book.level_qty(Side::Bid, p), 0, price_limit());
    lemma_sum_zero(|p: int| book.level_qty(Side::Ask, p), 0, price_limit());
}

/// When there is room for a command: if and only if what rests and waits on either side,
/// with what may stay there of the command's order, fits a `u64`, and so does the sequence
/// after two events for each slice that rests or comes, seven for each stop and eight more.
/// Orders that may not stay, and cancellations, need no room on a side; a replacement needs
/// none for what was left of the order that it replaces.
pub proof fn law_room_is_what_a_command_needs(state: Engine, command: Command, slices: int)
    requires
        match command {
            Command::NewOrder { order_type, visible_qty, qty, .. } => if order_type
                == OrderType::Iceberg && visible_qty is Some && visible_qty->Some_0 > 0 {
                slices * visible_qty->Some_0 >= qty && (slices - 1) * visible_qty->Some_0 < qty
            } else {
                slices == 1
            },
            Command::CancelOrder { .. } => slices == 0,
            Command::ModifyOrder { .. } => slices == 1,
        },
    ensures
        ({
            let rests = |side: Side| state.book.side_qty(side);
            let added = |side: Side|
                match command {
                    Command::NewOrder { side: on, qty, order_type, time_in_force, .. } => if on
                        == side && order_type != OrderType::Market && (order_type
                        == OrderType::PostOnly || order_type == OrderType::StopLimit
                        || time_in_force == TimeInForce::GTC) {
                        qty as int
                    } else {
                        0
                    },
                    Command::CancelOrder { .. } => 0,
                    Command::ModifyOrder { id, new_qty, .. } => if state.book.orders.contains_key(
                        id.0,
                    ) && state.book.orders[id.0].side == side {
                        new_qty - (state.book.orders[id.0].quantity
                            - state.book.orders[id.0].filled)
                    } else {
                        0
                    },
                };
            has_room(state, command) <==> {
                &&& rests(Side::Bid) + stop_qty(state.stop_bids) + added(Side::Bid) <= u64::MAX
                &&& rests(Side::Ask) + stop_qty(state.stop_asks) + added(Side::Ask) <= u64::MAX
                &&& state.sequence + 2 * (total_slices(state.book.orders) + slices) + 7 * (
                state.stop_bids.len() + state.stop_asks.len()) + 8 <= u64::MAX
            }
        }),
{
    assert(slices_asked(command) == slices) by {
        if let Command::NewOrder { order_type, visible_qty, qty, .. } = command {
            if order_type == OrderType::Iceberg && visible_qty is Some && visible_qty->Some_0 > 0 {
                let peak = visible_qty->Some_0 as int;
                let less = qty + peak - 1 - slices * peak;
                assert(qty + peak - 1 == slices * peak + less);
                assert(0 <= less < peak) by (nonlinear_arith)
                    requires
                        slices * peak >= qty,
                        (slices - 1) * peak < qty,
                        less == qty + peak - 1 - slices * peak,
                        peak > 0,
                ;
                lemma_fundamental_div_mod_converse(qty + peak - 1, peak, slices, less);
                assert(0int / peak == 0) by (nonlinear_arith)
                    requires
                        peak > 0,
                ;
            }
        }
    }
}

} // verus!
