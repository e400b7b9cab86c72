//! Law of self-trade prevention: no two orders of one group ever trade.
use crate::engine_model::{
    lemma_stop_position, stop_position, triggers, Engine, Incoming,
};
use crate::laws_matching::{fair, law_matching};
use crate::types::{Command, MatchEvent, OrderType, Side, STP_NONE};
use vstd::prelude::*;

verus! {

/// Whether an order is of the group that `groups` gives its identifier.
pub open spec fn belongs(order: Incoming, groups: spec_fn(u64) -> u32) -> bool {
    order.stp_group.unwrap_or(STP_NONE) == groups(order.id.0)
}

/// Whether every order that rests or waits is of the group that `groups` gives its
/// identifier.
pub open spec fn grouped(state: Engine, groups: spec_fn(u64) -> u32) -> bool {
    &&& forall|id: u64| #[trigger]
        state.book.orders.contains_key(id) ==> state.book.orders[id].stp_group == groups(id)
    &&& forall|side: Side, i: int|
        0 <= i < state.stops(side).len() ==> belongs(
            (#[trigger] state.stops(side)[i]).1.order(),
            groups,
        )
}

/// Whether an event is no trade between two orders of one group.
pub open spec fn between_groups(event: MatchEvent, groups: spec_fn(u64) -> u32) -> bool {
    event matches MatchEvent::Fill { maker_id, taker_id, .. } ==> groups(maker_id.0) == STP_NONE
        || groups(maker_id.0) != groups(taker_id.0)
}

/// Whether no event from `from` on is a trade between two orders of one group.
pub open spec fn no_self_trade(
    events: Seq<MatchEvent>,
    from: int,
    groups: spec_fn(u64) -> u32,
) -> bool {
    forall|i: int| from <= i < events.len() ==> between_groups(#[trigger] events[i], groups)
}

/// The stops stay grouped where they stay the same.
proof fn lemma_stops_grouped(before: Engine, after: Engine, groups: spec_fn(u64) -> u32)
    requires
        grouped(before, groups),
        before.same_stops(after),
        forall|id: u64| #[trigger]
            after.book.orders.contains_key(id) ==> after.book.orders[id].stp_group == groups(id),
    ensures
        grouped(after, groups),
{
    assert forall|side: Side, i: int| 0 <= i < after.stops(side).len() implies belongs(
        (#[trigger] after.stops(side)[i]).1.order(),
        groups,
    ) by {
        assert(after.stops(side)[i] == before.stops(side)[i]);
    }
}

/// Matching keeps the orders in their groups, and makes no self-trade.
proof fn lemma_match_groups(
    state: Engine,
    taker: Incoming,
    left: int,
    groups: spec_fn(u64) -> u32,
)
    requires
        state.book.wf(),
        left >= 0,
        grouped(state, groups),
        belongs(taker, groups),
    ensures
        grouped(state.match_book(taker, left).0, groups),
        no_self_trade(state.match_book(taker, left).0.events, state.events.len() as int, groups),
{
    let after = state.match_book(taker, left).0;
    law_matching(state, taker, left);
    state.lemma_match_book(taker, left);
    assert forall|i: int| state.events.len() <= i < after.events.len() implies between_groups(
        #[trigger] after.events[i],
        groups,
    ) by {
        assert(fair(state.book, taker, after.events[i]));
        match after.events[i] {
            MatchEvent::Fill { maker_id, .. } => {
                assert(state.book.orders.contains_key(maker_id.0));
            },
            _ => {},
        }
    }
    assert forall|id: u64| #[trigger] after.book.orders.contains_key(id) implies
        after.book.orders[id].stp_group == groups(id) by {
        assert(state.book.orders.contains_key(id));
    }
    lemma_stops_grouped(state, after, groups);
}

/// An incoming order keeps the orders in their groups, and makes no self-trade.
proof fn lemma_new_order_groups(state: Engine, order: Incoming, groups: spec_fn(u64) -> u32)
    requires
        state.book.wf(),
        grouped(state, groups),
        belongs(order, groups),
    ensures
        grouped(state.new_order(order), groups),
        no_self_trade(state.new_order(order).events, state.events.len() as int, groups),
{
    let after = state.new_order(order);
    state.lemma_new_order(order);
    match order.order_type {
        OrderType::PostOnly => {
            lemma_stops_grouped(state, after, groups);
        },
        OrderType::StopLimit => {
            if order.qty != 0 && order.stop_price is Some {
                let stops = state.stops(order.side);
                let at = stop_position(order.side, stops, order.stop_price->Some_0);
                lemma_stop_position(order.side, stops, order.stop_price->Some_0);
                assert forall|s: Side, i: int| 0 <= i < after.stops(s).len() implies belongs(
                    (#[trigger] after.stops(s)[i]).1.order(),
                    groups,
                ) by {
                    if s != order.side || i < at {
                        assert(after.stops(s)[i] == state.stops(s)[i]);
                    } else if i > at {
                        assert(after.stops(s)[i] == state.stops(s)[i - 1]);
                    } else {
                        assert(after.stops(s)[i].1 == order.stop());
                    }
                }
            } else {
                lemma_stops_grouped(state, after, groups);
            }
        },
        _ => {
            if state.refusal(order) is None {
                let a = state.accepted(order);
                lemma_stops_grouped(state, a, groups);
                lemma_match_groups(a, order, order.qty as int, groups);
                a.lemma_match_book(order, order.qty as int);
                let (b, left, cancel) = a.match_book(order, order.qty as int);
                b.lemma_settle(order, left, cancel);
                assert forall|i: int| state.events.len() <= i < after.events.len() implies
                    between_groups(#[trigger] after.events[i], groups) by {
                    if i == state.events.len() {
                        assert(after.events[i] == b.events[i]);
                        assert(b.events[i] == a.events[i]);
                    } else if i < b.events.len() {
                        assert(after.events[i] == b.events[i]);
                    }
                }
                lemma_stops_grouped(state, after, groups);
            } else {
                lemma_stops_grouped(state, after, groups);
            }
        },
    }
}

/// Two stretches without self-trade make one.
proof fn lemma_no_self_trade(
    first: Seq<MatchEvent>,
    all: Seq<MatchEvent>,
    from: int,
    groups: spec_fn(u64) -> u32,
)
    requires
        no_self_trade(first, from, groups),
        no_self_trade(all, first.len() as int, groups),
        first.len() <= all.len(),
        forall|i: int| 0 <= i < first.len() ==> #[trigger] all[i] == first[i],
        from >= 0,
    ensures
        no_self_trade(all, from, groups),
{
    assert forall|i: int| from <= i < all.len() implies between_groups(#[trigger] all[i], groups) by {
        if i < first.len() {
            assert(all[i] == first[i]);
        }
    }
}

proof fn lemma_trigger_groups(state: Engine, side: Side, groups: spec_fn(u64) -> u32)
    requires
        state.book.wf(),
        grouped(state, groups),
        state.stops(side).len() > 0,
    ensures
        grouped(state.trigger(side), groups),
        no_self_trade(state.trigger(side).events, state.events.len() as int, groups),
{
    let mid = state.triggering(side);
    let stop = state.stops(side)[0].1;
    let after = state.trigger(side);
    state.lemma_trigger(side);
    assert(grouped(mid, groups)) by {
        assert forall|s: Side, i: int| 0 <= i < mid.stops(s).len() implies belongs(
            (#[trigger] mid.stops(s)[i]).1.order(),
            groups,
        ) by {
            if s == side {
                assert(mid.stops(s)[i] == state.stops(s)[i + 1]);
            } else {
                assert(s == side.other());
                assert(mid.stops(s)[i] == state.stops(s)[i]);
            }
        }
    }
    lemma_new_order_groups(mid, stop.order(), groups);
    mid.lemma_new_order(stop.order());
    lemma_no_self_trade(mid.events, after.events, state.events.len() as int, groups);
}

proof fn lemma_drain_side_groups(state: Engine, side: Side, last: u64, groups: spec_fn(u64) -> u32)
    requires
        state.book.wf(),
        grouped(state, groups),
    ensures
        grouped(state.drain_side(side, last), groups),
        no_self_trade(state.drain_side(side, last).events, state.events.len() as int, groups),
    decreases state.stops(side).len(),
{
    if state.stops(side).len() > 0 && triggers(side, state.stops(side)[0].0, last) {
        let next = state.trigger(side);
        let after = state.drain_side(side, last);
        state.lemma_trigger(side);
        lemma_trigger_groups(state, side, groups);
        lemma_drain_side_groups(next, side, last, groups);
        next.lemma_drain_side(side, last);
        lemma_no_self_trade(next.events, after.events, state.events.len() as int, groups);
    }
}

proof fn lemma_drain_groups(state: Engine, groups: spec_fn(u64) -> u32)
    requires
        state.book.wf(),
        grouped(state, groups),
    ensures
        grouped(state.drain(), groups),
        no_self_trade(state.drain().events, state.events.len() as int, groups),
    decreases state.stop_bids.len() + state.stop_asks.len(),
{
    match state.last_trade {
        None => {},
        Some(last) => {
            let bids = state.drain_side(Side::Bid, last);
            let both = bids.drain_side(Side::Ask, last);
            let from = state.events.len() as int;
            state.lemma_drain_side(Side::Bid, last);
            bids.lemma_drain_side(Side::Ask, last);
            lemma_drain_side_groups(state, Side::Bid, last, groups);
            lemma_drain_side_groups(bids, Side::Ask, last, groups);
            lemma_no_self_trade(bids.events, both.events, from, groups);
            if both.last_trade != Some(last) {
                lemma_drain_groups(both, groups);
                both.lemma_drain();
                lemma_no_self_trade(both.events, both.drain().events, from, groups);
            }
        },
    }
}

/// Whether the order that a command brings is of the group that `groups` gives its
/// identifier.
pub open spec fn command_belongs(command: Command, groups: spec_fn(u64) -> u32) -> bool {
    match command {
        Command::NewOrder { id, stp_group, .. } => stp_group.unwrap_or(STP_NONE) == groups(id.0),
        Command::CancelOrder { .. } => true,
        Command::ModifyOrder { .. } => true,
    }
}

/// Two orders of one self-trade-prevention group never trade with each other, whatever
/// the mode, and whether they come in with a command, replace a modified order or are
/// stops that the command triggers.
pub proof fn law_no_self_trade(state: Engine, command: Command, groups: spec_fn(u64) -> u32)
    requires
        state.book.wf(),
        grouped(state, groups),
        command_belongs(command, groups),
    ensures
        no_self_trade(state.process(command).events, 0, groups),
        grouped(state.process(command), groups),
{
    let ready = Engine { events: Seq::empty(), ..state };
    lemma_stops_grouped(state, ready, groups);
    match command {
        Command::NewOrder {
            id,
            instrument_id,
            side,
            price,
            qty,
            order_type,
            time_in_force,
            visible_qty,
            stop_price,
            stp_group,
        } => {
            let order = Incoming {
                id,
                side,
                price,
                qty,
                order_type,
                time_in_force,
                visible_qty,
                stop_price,
                stp_group,
            };
            lemma_new_order_groups(ready, order, groups);
            ready.lemma_new_order(order);
            lemma_after_command(ready, ready.new_order(order), groups);
        },
        Command::CancelOrder { id } => {
            let after = ready.cancel(id);
            ready.lemma_cancel(id);
            lemma_stops_grouped(ready, after, groups);
            lemma_after_command(ready, after, groups);
        },
        Command::ModifyOrder { id, new_price, new_qty } => {
            let after = ready.modify(id, new_price, new_qty);
            ready.lemma_modify(id, new_price, new_qty);
            if state.book.orders.contains_key(id.0) {
                let mid = ready.replacing(id, new_price, new_qty);
                let order = Incoming::replacement(id, state.book.orders[id.0], new_price, new_qty);
                ready.lemma_take_out(id.0);
                lemma_stops_grouped(ready, mid, groups);
                lemma_new_order_groups(mid, order, groups);
                mid.lemma_new_order(order);
                lemma_no_self_trade(mid.events, after.events, 0, groups);
            } else {
                lemma_stops_grouped(ready, after, groups);
            }
            lemma_after_command(ready, after, groups);
        },
    }
}

/// The stops that a command triggers make no self-trade either.
proof fn lemma_after_command(ready: Engine, after: Engine, groups: spec_fn(u64) -> u32)
    requires
        ready.leads_to(after),
        ready.events.len() == 0,
        grouped(after, groups),
        no_self_trade(after.events, 0, groups),
    ensures
        grouped(after.drain(), groups),
        no_self_trade(after.drain().events, 0, groups),
{
    lemma_drain_groups(after, groups);
    after.lemma_drain();
    lemma_no_self_trade(after.events, after.drain().events, 0, groups);
}

} // verus!
