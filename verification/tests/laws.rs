use matchx::engine::MatchingEngine;
use matchx::types::{
    Command, EventMeta, InstrumentConfig, MatchEvent, OrderId, OrderType, RejectReason, Side,
    StpMode, TimeInForce,
};

fn engine_with(base_price: u64, max_ticks: u32, stp_mode: StpMode, capacity: u32) -> MatchingEngine {
    MatchingEngine::new(
        InstrumentConfig {
            id: 1,
            tick_size: 1,
            lot_size: 1,
            base_price,
            max_ticks,
            stp_mode,
        },
        capacity,
    )
}

fn engine() -> MatchingEngine {
    engine_with(0, 1000, StpMode::CancelNewest, 64)
}

#[derive(Clone, Copy)]
struct New {
    id: u64,
    side: Side,
    price: u64,
    qty: u64,
    order_type: OrderType,
    time_in_force: TimeInForce,
    visible_qty: Option<u64>,
    stop_price: Option<u64>,
    stp_group: Option<u32>,
}

fn limit(id: u64, side: Side, price: u64, qty: u64) -> New {
    New {
        id,
        side,
        price,
        qty,
        order_type: OrderType::Limit,
        time_in_force: TimeInForce::GTC,
        visible_qty: None,
        stop_price: None,
        stp_group: None,
    }
}

impl New {
    fn command(self) -> Command {
        Command::NewOrder {
            id: OrderId(self.id),
            instrument_id: 1,
            side: self.side,
            price: self.price,
            qty: self.qty,
            order_type: self.order_type,
            time_in_force: self.time_in_force,
            visible_qty: self.visible_qty,
            stop_price: self.stop_price,
            stp_group: self.stp_group,
        }
    }
}

fn send(engine: &mut MatchingEngine, order: New) -> Vec<MatchEvent> {
    let cmd = order.command();
    assert!(engine.has_room(&cmd));
    engine.process(cmd).to_vec()
}

fn cancel(engine: &mut MatchingEngine, id: u64) -> Vec<MatchEvent> {
    engine.process(Command::CancelOrder { id: OrderId(id) }).to_vec()
}

fn fills(events: &[MatchEvent]) -> Vec<(u64, u64, u64, u64)> {
    events
        .iter()
        .filter_map(|e| match e {
            MatchEvent::Fill { maker_id, taker_id, price, qty, .. } => {
                Some((maker_id.0, taker_id.0, *price, *qty))
            }
            _ => None,
        })
        .collect()
}

fn reject(events: &[MatchEvent]) -> Option<RejectReason> {
    match events {
        [MatchEvent::OrderRejected { reason, .. }] => Some(*reason),
        _ => None,
    }
}

#[test]
fn the_events_of_a_trade_are_exact() {
    let mut engine = engine();
    let first = send(&mut engine, limit(1, Side::Ask, 100, 10));
    let meta = |n: u64| EventMeta { sequence: n, timestamp_ns: n };
    assert_eq!(
        first,
        vec![
            MatchEvent::OrderAccepted {
                meta: meta(1),
                id: OrderId(1),
                side: Side::Ask,
                price: 100,
                qty: 10,
                order_type: OrderType::Limit,
            },
            MatchEvent::BookUpdate { meta: meta(2), side: Side::Ask, price: 100, qty: 10 },
        ]
    );
    let second = send(&mut engine, limit(2, Side::Bid, 105, 4));
    assert_eq!(
        second,
        vec![
            MatchEvent::OrderAccepted {
                meta: meta(3),
                id: OrderId(2),
                side: Side::Bid,
                price: 105,
                qty: 4,
                order_type: OrderType::Limit,
            },
            MatchEvent::Fill {
                meta: meta(4),
                maker_id: OrderId(1),
                taker_id: OrderId(2),
                price: 100,
                qty: 4,
                maker_remaining: 6,
                taker_remaining: 0,
            },
            MatchEvent::BookUpdate { meta: meta(5), side: Side::Ask, price: 100, qty: 6 },
        ]
    );
}

#[test]
fn takers_meet_the_best_price_and_then_the_oldest_order() {
    let mut engine = engine();
    send(&mut engine, limit(1, Side::Ask, 101, 5));
    send(&mut engine, limit(2, Side::Ask, 100, 5));
    send(&mut engine, limit(3, Side::Ask, 100, 5));
    let events = send(&mut engine, limit(4, Side::Bid, 101, 12));
    assert_eq!(fills(&events), vec![(2, 4, 100, 5), (3, 4, 100, 5), (1, 4, 101, 2)]);
    assert_eq!(engine.best_ask(), Some(101));
    assert_eq!(engine.best_bid(), None);
}

#[test]
fn best_prices_may_cross_the_window_edge() {
    // Asks below the window, and one in it: when the best goes, the next one is
    // looked for in the window first.
    let mut engine = engine_with(500, 100, StpMode::CancelNewest, 64);
    send(&mut engine, limit(1, Side::Ask, 200, 1));
    send(&mut engine, limit(2, Side::Ask, 300, 1));
    send(&mut engine, limit(3, Side::Ask, 550, 1));
    assert_eq!(engine.best_ask(), Some(200));
    cancel(&mut engine, 1);
    assert_eq!(engine.best_ask(), Some(550));
}

#[test]
fn best_prices_follow_the_orders_in_the_window_and_outside() {
    let mut engine = engine_with(500, 100, StpMode::CancelNewest, 64);
    send(&mut engine, limit(1, Side::Bid, 300, 1));
    assert_eq!(engine.best_bid(), Some(300));
    send(&mut engine, limit(2, Side::Bid, 550, 1));
    assert_eq!(engine.best_bid(), Some(550));
    cancel(&mut engine, 2);
    assert_eq!(engine.best_bid(), Some(300));
    cancel(&mut engine, 1);
    assert_eq!(engine.best_bid(), None);
}

#[test]
fn fill_or_kill_fills_whole_or_not_at_all() {
    let mut engine = engine();
    send(&mut engine, limit(1, Side::Ask, 100, 5));
    send(&mut engine, limit(2, Side::Ask, 101, 5));
    let kill = New { time_in_force: TimeInForce::FOK, ..limit(3, Side::Bid, 100, 6) };
    assert_eq!(
        reject(&send(&mut engine, kill)),
        Some(RejectReason::InsufficientLiquidity)
    );
    let fill = New { time_in_force: TimeInForce::FOK, ..limit(3, Side::Bid, 101, 10) };
    assert_eq!(fills(&send(&mut engine, fill)), vec![(1, 3, 100, 5), (2, 3, 101, 5)]);
    assert_eq!(engine.best_ask(), None);
}

#[test]
fn liquidity_shrinks_with_each_fill() {
    let mut engine = engine();
    send(&mut engine, limit(1, Side::Ask, 100, 10));
    send(&mut engine, limit(2, Side::Bid, 100, 7));
    let kill = New { time_in_force: TimeInForce::FOK, ..limit(3, Side::Bid, 100, 4) };
    assert_eq!(
        reject(&send(&mut engine, kill)),
        Some(RejectReason::InsufficientLiquidity)
    );
}

#[test]
fn every_rejection_has_its_reason() {
    let mut engine = engine();
    assert_eq!(
        reject(&send(&mut engine, limit(1, Side::Bid, 100, 0))),
        Some(RejectReason::InvalidQuantity)
    );
    send(&mut engine, limit(1, Side::Bid, 100, 5));
    assert_eq!(
        reject(&send(&mut engine, limit(1, Side::Ask, 90, 5))),
        Some(RejectReason::DuplicateOrderId)
    );
    assert_eq!(reject(&cancel(&mut engine, 7)), Some(RejectReason::OrderNotFound));
    let modify = Command::ModifyOrder { id: OrderId(7), new_price: 1, new_qty: 1 };
    assert_eq!(
        reject(&engine.process(modify).to_vec()),
        Some(RejectReason::OrderNotFound)
    );
    let post = New { order_type: OrderType::PostOnly, ..limit(2, Side::Ask, 100, 5) };
    assert_eq!(reject(&send(&mut engine, post)), Some(RejectReason::WouldCrossSpread));
    let stop = New { order_type: OrderType::StopLimit, ..limit(2, Side::Ask, 100, 5) };
    assert_eq!(reject(&send(&mut engine, stop)), Some(RejectReason::InvalidPrice));
    let empty = New { qty: 0, stop_price: Some(5), ..stop };
    assert_eq!(reject(&send(&mut engine, empty)), Some(RejectReason::InvalidQuantity));
    let own = New { stp_group: Some(3), ..limit(3, Side::Ask, 120, 5) };
    send(&mut engine, own);
    let other = New { stp_group: Some(3), ..limit(4, Side::Bid, 120, 5) };
    assert_eq!(
        reject(&send(&mut engine, other)),
        Some(RejectReason::SelfTradePreventionTriggered)
    );
    assert_eq!(engine.best_bid(), Some(100));
    assert_eq!(engine.best_ask(), Some(120));
}

#[test]
fn market_and_immediate_orders_do_not_rest() {
    let mut engine = engine();
    send(&mut engine, limit(1, Side::Ask, 100, 3));
    let market = New { order_type: OrderType::Market, ..limit(2, Side::Bid, 0, 10) };
    let events = send(&mut engine, market);
    assert_eq!(fills(&events), vec![(1, 2, 100, 3)]);
    assert!(matches!(
        events.last(),
        Some(MatchEvent::OrderCancelled { id: OrderId(2), remaining_qty: 7, .. })
    ));
    let now = New { time_in_force: TimeInForce::IOC, ..limit(3, Side::Ask, 100, 4) };
    assert!(matches!(
        send(&mut engine, now).last(),
        Some(MatchEvent::OrderCancelled { id: OrderId(3), remaining_qty: 4, .. })
    ));
    assert_eq!(engine.best_bid(), None);
    assert_eq!(engine.best_ask(), None);
}

#[test]
fn cancel_undoes_a_resting_order() {
    let mut engine = engine();
    send(&mut engine, limit(1, Side::Bid, 100, 5));
    send(&mut engine, limit(2, Side::Bid, 101, 5));
    let events = cancel(&mut engine, 2);
    assert!(matches!(
        events[..],
        [
            MatchEvent::OrderCancelled { id: OrderId(2), remaining_qty: 5, .. },
            MatchEvent::BookUpdate { side: Side::Bid, price: 101, qty: 0, .. },
        ]
    ));
    assert_eq!(engine.best_bid(), Some(100));
    assert_eq!(reject(&cancel(&mut engine, 2)), Some(RejectReason::OrderNotFound));
}

#[test]
fn modify_loses_the_place_in_the_queue() {
    let mut engine = engine();
    send(&mut engine, limit(1, Side::Ask, 100, 5));
    send(&mut engine, limit(2, Side::Ask, 100, 5));
    engine.process(Command::ModifyOrder { id: OrderId(1), new_price: 100, new_qty: 5 });
    let events = send(&mut engine, limit(3, Side::Bid, 100, 6));
    assert_eq!(fills(&events), vec![(2, 3, 100, 5), (1, 3, 100, 1)]);
}

#[test]
fn no_stop_that_is_due_keeps_waiting() {
    let mut engine = engine();
    let buy_stop = |id: u64, stop: u64| New {
        order_type: OrderType::StopLimit,
        stop_price: Some(stop),
        ..limit(id, Side::Bid, 50, 1)
    };
    for (id, stop) in [(10, 120), (11, 100), (12, 110), (13, 130)] {
        send(&mut engine, buy_stop(id, stop));
    }
    send(&mut engine, limit(1, Side::Ask, 120, 1));
    let events = send(&mut engine, limit(2, Side::Bid, 120, 1));
    let triggered: Vec<u64> = events
        .iter()
        .filter_map(|e| match e {
            MatchEvent::StopTriggered { stop_id, new_order_id, .. } => {
                assert_eq!(stop_id, new_order_id);
                Some(stop_id.0)
            }
            _ => None,
        })
        .collect();
    assert_eq!(triggered, vec![11, 12, 10]);
    assert_eq!(engine.best_bid(), Some(50));
}

#[test]
fn a_stop_that_is_due_when_it_comes_in_triggers_at_once() {
    let mut engine = engine();
    send(&mut engine, limit(1, Side::Ask, 100, 1));
    send(&mut engine, limit(2, Side::Bid, 100, 1));
    let stop = New {
        order_type: OrderType::StopLimit,
        stop_price: Some(100),
        ..limit(3, Side::Ask, 90, 2)
    };
    let events = send(&mut engine, stop);
    assert!(events
        .iter()
        .any(|e| matches!(e, MatchEvent::StopTriggered { stop_id: OrderId(3), .. })));
    assert_eq!(engine.best_ask(), Some(90));
}

#[test]
fn an_iceberg_shows_one_slice_at_a_time() {
    let mut engine = engine();
    let iceberg = New {
        order_type: OrderType::Iceberg,
        visible_qty: Some(4),
        ..limit(1, Side::Ask, 100, 10)
    };
    send(&mut engine, iceberg);
    let events = send(&mut engine, limit(2, Side::Bid, 100, 9));
    assert_eq!(fills(&events), vec![(1, 2, 100, 4), (1, 2, 100, 4), (1, 2, 100, 1)]);
}

#[test]
fn self_trade_prevention_in_each_mode() {
    let own = |id: u64, side: Side, qty: u64| New {
        stp_group: Some(7),
        ..limit(id, side, 100, qty)
    };
    let run = |mode: StpMode| {
        let mut engine = engine_with(0, 1000, mode, 64);
        send(&mut engine, own(1, Side::Ask, 10));
        send(&mut engine, limit(2, Side::Ask, 100, 10));
        let events = send(&mut engine, own(3, Side::Bid, 4));
        let cancelled: Vec<(u64, u64)> = events
            .iter()
            .filter_map(|e| match e {
                MatchEvent::OrderCancelled { id, remaining_qty, .. } => Some((id.0, *remaining_qty)),
                _ => None,
            })
            .collect();
        (fills(&events), cancelled, reject(&events))
    };
    assert_eq!(
        run(StpMode::CancelNewest),
        (vec![], vec![], Some(RejectReason::SelfTradePreventionTriggered))
    );
    assert_eq!(run(StpMode::CancelOldest), (vec![(2, 3, 100, 4)], vec![(1, 10)], None));
    assert_eq!(run(StpMode::CancelBoth), (vec![], vec![(1, 10), (3, 4)], None));
    assert_eq!(run(StpMode::DecrementAndCancel), (vec![], vec![(3, 0)], None));
}

#[test]
fn an_order_without_a_slot_does_not_rest() {
    let mut engine = engine_with(0, 1000, StpMode::CancelNewest, 1);
    send(&mut engine, limit(1, Side::Bid, 100, 5));
    let events = send(&mut engine, limit(2, Side::Bid, 101, 5));
    assert!(matches!(
        events.last(),
        Some(MatchEvent::BookUpdate { side: Side::Bid, price: 101, qty: 0, .. })
    ));
    assert_eq!(engine.best_bid(), Some(100));
    assert_eq!(reject(&cancel(&mut engine, 2)), Some(RejectReason::OrderNotFound));
}

#[test]
fn a_snapshot_holds_sequence_clock_and_last_price() {
    let mut engine = engine();
    assert_eq!(engine.snapshot(), vec![0; 24]);
    send(&mut engine, limit(1, Side::Ask, 258, 5));
    send(&mut engine, limit(2, Side::Bid, 300, 5));
    let mut expected = Vec::new();
    expected.extend_from_slice(&5u64.to_le_bytes());
    expected.extend_from_slice(&5u64.to_le_bytes());
    expected.extend_from_slice(&258u64.to_le_bytes());
    assert_eq!(engine.snapshot(), expected);
    assert_eq!(engine.current_sequence(), 5);
}

#[test]
fn room_ends_where_a_sum_would_not_fit() {
    let mut engine = engine();
    let huge = limit(1, Side::Bid, 100, u64::MAX / 4).command();
    assert!(engine.has_room(&huge));
    engine.process(huge);
    let more = limit(2, Side::Bid, 101, u64::MAX / 8 * 7).command();
    assert!(!engine.has_room(&more));
    let modify = Command::ModifyOrder {
        id: OrderId(1),
        new_price: 100,
        new_qty: u64::MAX / 4 + 10,
    };
    assert!(engine.has_room(&modify));
    let stop = New {
        order_type: OrderType::StopLimit,
        stop_price: Some(500),
        ..limit(3, Side::Ask, 500, u64::MAX / 4)
    };
    assert!(engine.has_room(&stop.command()));
    engine.process(stop.command());
    let another = New { id: 4, ..stop };
    assert!(engine.has_room(&another.command()));
    let largest = New { id: 4, qty: u64::MAX, ..stop };
    assert!(!engine.has_room(&largest.command()));
    // What never comes to rest takes no room, and events are counted by the makers and
    // the slices, not by the lots.
    let market = New { order_type: OrderType::Market, ..limit(5, Side::Ask, 0, u64::MAX) };
    assert!(engine.has_room(&market.command()));
    let at_once = New { time_in_force: TimeInForce::IOC, ..limit(6, Side::Bid, 100, u64::MAX) };
    assert!(engine.has_room(&at_once.command()));
    let iceberg = |peak: u64| New {
        order_type: OrderType::Iceberg,
        visible_qty: Some(peak),
        ..limit(7, Side::Ask, 200, u64::MAX / 2)
    };
    assert!(engine.has_room(&iceberg(4).command()));
    assert!(!engine.has_room(&iceberg(1).command()));
    engine.process(market.command());
    assert_eq!(engine.best_bid(), None);
    assert!(engine.has_room(&Command::CancelOrder { id: OrderId(1) }));
}

#[test]
fn slices_are_counted_as_they_come_and_go() {
    // An order of `left` slices more has room if and only if they fit.
    let slices_left = |engine: &MatchingEngine, stops: u64| {
        (u64::MAX - 8 - 7 * stops - engine.current_sequence()) / 2
    };
    let probe = |qty: u64| {
        New {
            order_type: OrderType::Iceberg,
            visible_qty: Some(1),
            ..limit(99, Side::Ask, 900, qty)
        }
        .command()
    };
    let mut engine = engine();
    let resting = |engine: &mut MatchingEngine, slices: u64| {
        let free = slices_left(engine, 0) - slices;
        assert!(engine.has_room(&probe(free)));
        assert!(!engine.has_room(&probe(free + 1)));
    };
    resting(&mut engine, 0);
    let iceberg = New {
        order_type: OrderType::Iceberg,
        visible_qty: Some(4),
        ..limit(1, Side::Ask, 100, 10)
    };
    send(&mut engine, iceberg);
    resting(&mut engine, 3);
    send(&mut engine, limit(2, Side::Ask, 100, 10));
    resting(&mut engine, 4);
    send(&mut engine, limit(3, Side::Bid, 100, 3));
    resting(&mut engine, 4);
    send(&mut engine, limit(4, Side::Bid, 100, 1));
    resting(&mut engine, 3);
    cancel(&mut engine, 2);
    resting(&mut engine, 2);
    send(&mut engine, limit(5, Side::Bid, 100, 6));
    resting(&mut engine, 0);
}

#[test]
fn a_triggered_stop_does_not_trade_with_its_own_group() {
    let mut engine = engine_with(0, 1000, StpMode::CancelOldest, 64);
    let own = |id: u64, side: Side, price: u64| New { stp_group: Some(7), ..limit(id, side, price, 5) };
    send(&mut engine, own(1, Side::Ask, 105));
    send(&mut engine, limit(2, Side::Ask, 105, 5));
    let stop = New {
        order_type: OrderType::StopLimit,
        stop_price: Some(100),
        ..own(3, Side::Bid, 105)
    };
    send(&mut engine, stop);
    send(&mut engine, limit(4, Side::Ask, 100, 1));
    let events = send(&mut engine, limit(5, Side::Bid, 100, 1));
    assert_eq!(fills(&events), vec![(4, 5, 100, 1), (2, 3, 105, 5)]);
}

fn triggered(events: &[MatchEvent]) -> Vec<u64> {
    events
        .iter()
        .filter_map(|e| match e {
            MatchEvent::StopTriggered { stop_id, new_order_id, .. } => {
                assert_eq!(stop_id, new_order_id);
                Some(stop_id.0)
            }
            _ => None,
        })
        .collect()
}

fn cancelled(events: &[MatchEvent]) -> Vec<(u64, u64)> {
    events
        .iter()
        .filter_map(|e| match e {
            MatchEvent::OrderCancelled { id, remaining_qty, .. } => Some((id.0, *remaining_qty)),
            _ => None,
        })
        .collect()
}

#[test]
fn a_modified_order_stays_in_its_group() {
    let mut engine = engine();
    let own = |id: u64, side: Side, price: u64| New { stp_group: Some(1), ..limit(id, side, price, 5) };
    send(&mut engine, own(1, Side::Ask, 100));
    send(&mut engine, own(2, Side::Bid, 90));
    let events = engine
        .process(Command::ModifyOrder { id: OrderId(2), new_price: 100, new_qty: 5 })
        .to_vec();
    assert_eq!(fills(&events), vec![]);
    assert!(matches!(
        events.last(),
        Some(MatchEvent::OrderRejected {
            reason: RejectReason::SelfTradePreventionTriggered,
            ..
        })
    ));
    assert_eq!(engine.best_ask(), Some(100));
    assert_eq!(engine.best_bid(), None);
    // A modified order that comes to rest is still of its group.
    send(&mut engine, own(3, Side::Bid, 90));
    engine.process(Command::ModifyOrder { id: OrderId(3), new_price: 95, new_qty: 5 });
    let events = send(&mut engine, own(4, Side::Ask, 95));
    assert_eq!(reject(&events), Some(RejectReason::SelfTradePreventionTriggered));
    let events = send(&mut engine, limit(5, Side::Ask, 95, 5));
    assert_eq!(fills(&events), vec![(3, 5, 95, 5)]);
}

#[test]
fn cancel_newest_after_a_trade_cancels_what_is_left() {
    let mut engine = engine();
    send(&mut engine, limit(1, Side::Ask, 100, 5));
    send(&mut engine, New { stp_group: Some(1), ..limit(2, Side::Ask, 100, 5) });
    let events = send(&mut engine, New { stp_group: Some(1), ..limit(3, Side::Bid, 100, 10) });
    assert_eq!(fills(&events), vec![(1, 3, 100, 5)]);
    assert_eq!(cancelled(&events), vec![(3, 5)]);
    assert_eq!(engine.best_bid(), None);
    assert_eq!(engine.best_ask(), Some(100));
}

#[test]
fn a_new_iceberg_slice_goes_to_the_end_of_the_queue() {
    let mut engine = engine();
    let iceberg = |id: u64, qty: u64, visible: u64| New {
        order_type: OrderType::Iceberg,
        visible_qty: Some(visible),
        ..limit(id, Side::Ask, 100, qty)
    };
    send(&mut engine, iceberg(1, 10, 5));
    send(&mut engine, limit(2, Side::Ask, 100, 5));
    let events = send(&mut engine, limit(3, Side::Bid, 100, 10));
    assert_eq!(fills(&events), vec![(1, 3, 100, 5), (2, 3, 100, 5)]);
    assert_eq!(engine.best_ask(), Some(100));
    let events = send(&mut engine, limit(4, Side::Bid, 100, 9));
    assert_eq!(fills(&events), vec![(1, 4, 100, 5)]);
    assert_eq!(engine.best_ask(), None);
    cancel(&mut engine, 4);
    // A slice that is used up in part keeps its place; the next slices take turns with
    // the rest of the queue.
    send(&mut engine, iceberg(5, 10, 4));
    send(&mut engine, limit(6, Side::Ask, 100, 3));
    assert_eq!(fills(&send(&mut engine, limit(7, Side::Bid, 100, 3))), vec![(5, 7, 100, 3)]);
    assert_eq!(
        fills(&send(&mut engine, limit(8, Side::Bid, 100, 5))),
        vec![(5, 8, 100, 1), (6, 8, 100, 3), (5, 8, 100, 1)]
    );
    assert_eq!(
        fills(&send(&mut engine, limit(9, Side::Bid, 100, 4))),
        vec![(5, 9, 100, 3), (5, 9, 100, 1)]
    );
}

#[test]
fn icebergs_at_one_price_take_turns() {
    let mut engine = engine();
    let iceberg = |id: u64| New {
        order_type: OrderType::Iceberg,
        visible_qty: Some(2),
        ..limit(id, Side::Bid, 100, 4)
    };
    send(&mut engine, iceberg(1));
    send(&mut engine, iceberg(2));
    send(&mut engine, limit(3, Side::Bid, 100, 1));
    let events = send(&mut engine, limit(4, Side::Ask, 100, 9));
    assert_eq!(
        fills(&events),
        vec![(1, 4, 100, 2), (2, 4, 100, 2), (3, 4, 100, 1), (1, 4, 100, 2), (2, 4, 100, 2)]
    );
    assert_eq!(engine.best_bid(), None);
}

#[test]
fn stops_at_one_price_trigger_first_in_first_out() {
    let mut engine = engine();
    let stop = |id: u64, side: Side, at: u64, price: u64| New {
        order_type: OrderType::StopLimit,
        stop_price: Some(at),
        ..limit(id, side, price, 1)
    };
    send(&mut engine, stop(1, Side::Bid, 100, 90));
    send(&mut engine, stop(2, Side::Bid, 100, 90));
    send(&mut engine, stop(3, Side::Bid, 99, 90));
    send(&mut engine, stop(4, Side::Bid, 100, 90));
    send(&mut engine, stop(5, Side::Bid, 101, 90));
    send(&mut engine, limit(10, Side::Ask, 100, 1));
    let events = send(&mut engine, limit(11, Side::Bid, 100, 1));
    assert_eq!(triggered(&events), vec![3, 1, 2, 4]);
    // And so do sell stops; each triggers once.
    send(&mut engine, stop(6, Side::Ask, 80, 120));
    send(&mut engine, stop(7, Side::Ask, 80, 120));
    send(&mut engine, stop(8, Side::Ask, 85, 120));
    send(&mut engine, limit(12, Side::Bid, 95, 5));
    for id in [1, 2, 3, 4, 12] {
        cancel(&mut engine, id);
    }
    send(&mut engine, limit(13, Side::Bid, 80, 2));
    let events = send(&mut engine, limit(14, Side::Ask, 80, 1));
    assert_eq!(triggered(&events), vec![8, 6, 7]);
    let events = send(&mut engine, limit(15, Side::Ask, 80, 1));
    assert_eq!(triggered(&events), vec![]);
}

#[test]
fn without_a_trade_no_stop_triggers() {
    let mut engine = engine();
    let stop = New {
        order_type: OrderType::StopLimit,
        stop_price: Some(1),
        ..limit(1, Side::Bid, 90, 1)
    };
    assert_eq!(triggered(&send(&mut engine, stop)), vec![]);
    assert_eq!(triggered(&send(&mut engine, limit(2, Side::Ask, 100, 1))), vec![]);
    assert_eq!(triggered(&cancel(&mut engine, 2)), vec![]);
}

#[test]
fn modify_is_cancel_and_new() {
    let setup = || {
        let mut engine = engine();
        send(&mut engine, limit(1, Side::Bid, 90, 5));
        send(&mut engine, limit(2, Side::Ask, 100, 3));
        send(&mut engine, limit(3, Side::Ask, 101, 4));
        send(&mut engine, limit(4, Side::Bid, 90, 1));
        let stop = New {
            order_type: OrderType::StopLimit,
            stop_price: Some(100),
            ..limit(5, Side::Bid, 95, 2)
        };
        send(&mut engine, stop);
        engine
    };
    let mut one = setup();
    let modified = one
        .process(Command::ModifyOrder { id: OrderId(1), new_price: 100, new_qty: 8 })
        .to_vec();
    let mut two = setup();
    cancel(&mut two, 1);
    let replaced = send(&mut two, limit(1, Side::Bid, 100, 8));
    assert!(matches!(
        modified[0],
        MatchEvent::OrderModified { id: OrderId(1), new_price: 100, new_qty: 8, .. }
    ));
    assert!(matches!(
        modified[1],
        MatchEvent::BookUpdate { side: Side::Bid, price: 90, qty: 1, .. }
    ));
    assert_eq!(modified.len(), replaced.len() + 2);
    assert_eq!(fills(&modified), vec![(2, 1, 100, 3)]);
    assert_eq!(fills(&modified), fills(&replaced));
    assert_eq!(triggered(&modified), vec![5]);
    assert_eq!(triggered(&modified), triggered(&replaced));
    for engine in [&mut one, &mut two] {
        assert_eq!(engine.best_bid(), Some(100));
        assert_eq!(engine.best_ask(), Some(101));
        let swept = send(engine, limit(9, Side::Ask, 90, 8));
        assert_eq!(fills(&swept), vec![(1, 9, 100, 5), (5, 9, 95, 2), (4, 9, 90, 1)]);
    }
}

#[test]
fn a_cancellation_names_an_accepted_order() {
    let mut engine = engine_with(0, 1000, StpMode::CancelOldest, 64);
    let own = |id: u64, side: Side, qty: u64| New { stp_group: Some(7), ..limit(id, side, 100, qty) };
    let mut accepted: Vec<u64> = Vec::new();
    let ioc = New { time_in_force: TimeInForce::IOC, ..limit(4, Side::Ask, 100, 9) };
    let orders = [own(1, Side::Ask, 5), own(2, Side::Bid, 5), limit(3, Side::Bid, 100, 2), ioc];
    let mut gone = Vec::new();
    for order in orders {
        for event in send(&mut engine, order) {
            match event {
                MatchEvent::OrderAccepted { id, .. } => accepted.push(id.0),
                MatchEvent::OrderCancelled { id, remaining_qty, .. } => {
                    assert!(accepted.contains(&id.0));
                    gone.push((id.0, remaining_qty));
                }
                _ => {}
            }
        }
    }
    assert_eq!(gone, vec![(1, 5), (4, 2)]);
    assert_eq!(reject(&cancel(&mut engine, 99)), Some(RejectReason::OrderNotFound));
}

#[test]
fn a_market_that_has_drifted_away_from_the_window_is_in_order() {
    let mut engine = engine_with(500, 100, StpMode::CancelNewest, 64);
    for (id, price) in [(1, 905), (2, 903), (3, 904)] {
        send(&mut engine, limit(id, Side::Bid, price, 1));
    }
    send(&mut engine, limit(4, Side::Ask, 910, 2));
    send(&mut engine, limit(5, Side::Ask, 908, 2));
    assert_eq!((engine.best_bid(), engine.best_ask()), (Some(905), Some(908)));
    cancel(&mut engine, 1);
    assert_eq!(engine.best_bid(), Some(904));
    let events = send(&mut engine, limit(6, Side::Bid, 910, 3));
    assert_eq!(fills(&events), vec![(5, 6, 908, 2), (4, 6, 910, 1)]);
    assert_eq!((engine.best_bid(), engine.best_ask()), (Some(904), Some(910)));
    let kill = New { time_in_force: TimeInForce::FOK, ..limit(7, Side::Ask, 903, 3) };
    assert_eq!(reject(&send(&mut engine, kill)), Some(RejectReason::InsufficientLiquidity));
    let fill = New { time_in_force: TimeInForce::FOK, ..limit(8, Side::Ask, 903, 2) };
    assert_eq!(fills(&send(&mut engine, fill)), vec![(3, 8, 904, 1), (2, 8, 903, 1)]);
}

#[test]
fn every_changed_level_is_published_with_its_total() {
    let levels = |engine: &mut MatchingEngine, order: New| {
        let mut last: Vec<(u64, u64)> = Vec::new();
        for event in send(engine, order) {
            if let MatchEvent::BookUpdate { side: Side::Ask, price, qty, .. } = event {
                last.retain(|(p, _)| *p != price);
                last.push((price, qty));
            }
        }
        last.sort();
        last
    };
    let mut engine = engine_with(0, 1000, StpMode::CancelOldest, 64);
    assert_eq!(levels(&mut engine, limit(1, Side::Ask, 100, 5)), vec![(100, 5)]);
    assert_eq!(levels(&mut engine, limit(2, Side::Ask, 100, 3)), vec![(100, 8)]);
    let own = New { stp_group: Some(7), ..limit(3, Side::Ask, 101, 4) };
    assert_eq!(levels(&mut engine, own), vec![(101, 4)]);
    assert_eq!(levels(&mut engine, limit(4, Side::Ask, 102, 6)), vec![(102, 6)]);
    let sweep = New { stp_group: Some(7), ..limit(5, Side::Bid, 102, 10) };
    assert_eq!(levels(&mut engine, sweep), vec![(100, 0), (101, 0), (102, 4)]);
}

#[test]
fn what_trades_and_what_is_left_add_up() {
    let own = |id: u64, side: Side, qty: u64| New { stp_group: Some(7), ..limit(id, side, 100, qty) };
    for (mode, sold, left) in [
        (StpMode::CancelNewest, 2, 8),
        (StpMode::CancelOldest, 5, 5),
        (StpMode::CancelBoth, 2, 8),
        (StpMode::DecrementAndCancel, 2, 4),
    ] {
        let mut engine = engine_with(0, 1000, mode, 64);
        send(&mut engine, limit(1, Side::Ask, 100, 2));
        send(&mut engine, own(2, Side::Ask, 4));
        send(&mut engine, limit(3, Side::Ask, 100, 3));
        let taker = New { time_in_force: TimeInForce::IOC, ..own(4, Side::Bid, 10) };
        let events = send(&mut engine, taker);
        assert_eq!(fills(&events).iter().map(|fill| fill.3).sum::<u64>(), sold);
        assert_eq!(cancelled(&events).last(), Some(&(4, left)));
        assert_eq!(sold + left == 10, mode != StpMode::DecrementAndCancel);
    }
}
