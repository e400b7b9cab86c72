use matchx::engine::MatchingEngine;
use matchx::types::{
    Command, InstrumentConfig, MatchEvent, OrderId, OrderType, RejectReason, Side, StpMode,
    TimeInForce,
};

fn test_config() -> InstrumentConfig {
    InstrumentConfig {
        id: 1,
        tick_size: 1,
        lot_size: 1,
        base_price: 0,
        max_ticks: 1000,
        stp_mode: StpMode::CancelNewest,
    }
}

#[test]
fn limit_buy_rests_on_empty_book() {
    let mut engine = MatchingEngine::new(test_config(), 1024);
    let events = engine.process(Command::NewOrder {
        id: OrderId(1),
        instrument_id: 1,
        side: Side::Bid,
        price: 100,
        qty: 10,
        order_type: OrderType::Limit,
        time_in_force: TimeInForce::GTC,
        visible_qty: None,
        stop_price: None,
        stp_group: None,
    });
    assert!(
        events
            .iter()
            .any(|e| matches!(e, MatchEvent::OrderAccepted { id: OrderId(1), .. }))
    );
    assert_eq!(engine.best_bid(), Some(100));
}

#[test]
fn crossing_limit_orders_produce_fill() {
    let mut engine = MatchingEngine::new(test_config(), 1024);
    engine.process(Command::NewOrder {
        id: OrderId(1),
        instrument_id: 1,
        side: Side::Ask,
        price: 100,
        qty: 10,
        order_type: OrderType::Limit,
        time_in_force: TimeInForce::GTC,
        visible_qty: None,
        stop_price: None,
        stp_group: None,
    });
    let events = engine.process(Command::NewOrder {
        id: OrderId(2),
        instrument_id: 1,
        side: Side::Bid,
        price: 100,
        qty: 5,
        order_type: OrderType::Limit,
        time_in_force: TimeInForce::GTC,
        visible_qty: None,
        stop_price: None,
        stp_group: None,
    });
    assert!(events.iter().any(|e| matches!(
        e,
        MatchEvent::Fill {
            maker_id: OrderId(1),
            taker_id: OrderId(2),
            price: 100,
            qty: 5,
            ..
        }
    )));
}

#[test]
fn partial_fill_remainder_rests() {
    let mut engine = MatchingEngine::new(test_config(), 1024);
    engine.process(Command::NewOrder {
        id: OrderId(1),
        instrument_id: 1,
        side: Side::Ask,
        price: 100,
        qty: 5,
        order_type: OrderType::Limit,
        time_in_force: TimeInForce::GTC,
        visible_qty: None,
        stop_price: None,
        stp_group: None,
    });
    let events = engine.process(Command::NewOrder {
        id: OrderId(2),
        instrument_id: 1,
        side: Side::Bid,
        price: 100,
        qty: 10,
        order_type: OrderType::Limit,
        time_in_force: TimeInForce::GTC,
        visible_qty: None,
        stop_price: None,
        stp_group: None,
    });
    assert!(
        events
            .iter()
            .any(|e| matches!(e, MatchEvent::Fill { qty: 5, .. }))
    );
    assert_eq!(engine.best_bid(), Some(100)); // remainder rests
    assert_eq!(engine.best_ask(), None); // ask fully filled
}

#[test]
fn taker_sweeps_multiple_price_levels_in_one_call() {
    let mut engine = MatchingEngine::new(test_config(), 1024);
    engine.process(Command::NewOrder {
        id: OrderId(1),
        instrument_id: 1,
        side: Side::Ask,
        price: 100,
        qty: 5,
        order_type: OrderType::Limit,
        time_in_force: TimeInForce::GTC,
        visible_qty: None,
        stop_price: None,
        stp_group: None,
    });
    engine.process(Command::NewOrder {
        id: OrderId(2),
        instrument_id: 1,
        side: Side::Ask,
        price: 101,
        qty: 5,
        order_type: OrderType::Limit,
        time_in_force: TimeInForce::GTC,
        visible_qty: None,
        stop_price: None,
        stp_group: None,
    });
    let events = engine.process(Command::NewOrder {
        id: OrderId(3),
        instrument_id: 1,
        side: Side::Bid,
        price: 101,
        qty: 10,
        order_type: OrderType::Limit,
        time_in_force: TimeInForce::GTC,
        visible_qty: None,
        stop_price: None,
        stp_group: None,
    });
    let filled: u64 = events
        .iter()
        .filter_map(|e| match e {
            MatchEvent::Fill { qty, .. } => Some(qty),
            _ => None,
        })
        .sum();
    assert_eq!(filled, 10);
    assert_eq!(engine.best_ask(), None);
}

#[test]
fn cancel_existing_order() {
    let mut engine = MatchingEngine::new(test_config(), 1024);
    engine.process(Command::NewOrder {
        id: OrderId(1),
        instrument_id: 1,
        side: Side::Bid,
        price: 100,
        qty: 10,
        order_type: OrderType::Limit,
        time_in_force: TimeInForce::GTC,
        visible_qty: None,
        stop_price: None,
        stp_group: None,
    });
    let events = engine.process(Command::CancelOrder { id: OrderId(1) });
    assert!(events.iter().any(|e| matches!(
        e,
        MatchEvent::OrderCancelled {
            id: OrderId(1),
            remaining_qty: 10,
            ..
        }
    )));
    assert_eq!(engine.best_bid(), None);
}

#[test]
fn market_order_fills_against_book() {
    let mut engine = MatchingEngine::new(test_config(), 1024);
    engine.process(Command::NewOrder {
        id: OrderId(1),
        instrument_id: 1,
        side: Side::Ask,
        price: 100,
        qty: 10,
        order_type: OrderType::Limit,
        time_in_force: TimeInForce::GTC,
        visible_qty: None,
        stop_price: None,
        stp_group: None,
    });
    let events = engine.process(Command::NewOrder {
        id: OrderId(2),
        instrument_id: 1,
        side: Side::Bid,
        price: 0,
        qty: 5,
        order_type: OrderType::Market,
        time_in_force: TimeInForce::IOC,
        visible_qty: None,
        stop_price: None,
        stp_group: None,
    });
    assert!(
        events
            .iter()
            .any(|e| matches!(e, MatchEvent::Fill { qty: 5, .. }))
    );
}

#[test]
fn ioc_cancels_unfilled_remainder() {
    let mut engine = MatchingEngine::new(test_config(), 1024);
    engine.process(Command::NewOrder {
        id: OrderId(1),
        instrument_id: 1,
        side: Side::Ask,
        price: 100,
        qty: 5,
        order_type: OrderType::Limit,
        time_in_force: TimeInForce::GTC,
        visible_qty: None,
        stop_price: None,
        stp_group: None,
    });
    let events = engine.process(Command::NewOrder {
        id: OrderId(2),
        instrument_id: 1,
        side: Side::Bid,
        price: 100,
        qty: 10,
        order_type: OrderType::Limit,
        time_in_force: TimeInForce::IOC,
        visible_qty: None,
        stop_price: None,
        stp_group: None,
    });
    assert!(
        events
            .iter()
            .any(|e| matches!(e, MatchEvent::Fill { qty: 5, .. }))
    );
    assert!(events.iter().any(|e| matches!(
        e,
        MatchEvent::OrderCancelled {
            id: OrderId(2),
            remaining_qty: 5,
            ..
        }
    )));
    assert_eq!(engine.best_bid(), None);
}

#[test]
fn fok_rejects_if_insufficient_liquidity() {
    let mut engine = MatchingEngine::new(test_config(), 1024);
    engine.process(Command::NewOrder {
        id: OrderId(1),
        instrument_id: 1,
        side: Side::Ask,
        price: 100,
        qty: 5,
        order_type: OrderType::Limit,
        time_in_force: TimeInForce::GTC,
        visible_qty: None,
        stop_price: None,
        stp_group: None,
    });
    let events = engine.process(Command::NewOrder {
        id: OrderId(2),
        instrument_id: 1,
        side: Side::Bid,
        price: 100,
        qty: 10,
        order_type: OrderType::Limit,
        time_in_force: TimeInForce::FOK,
        visible_qty: None,
        stop_price: None,
        stp_group: None,
    });
    assert!(events.iter().any(|e| matches!(
        e,
        MatchEvent::OrderRejected {
            id: OrderId(2),
            reason: RejectReason::InsufficientLiquidity,
            ..
        }
    )));
    assert_eq!(engine.best_ask(), Some(100));
}

#[test]
fn fok_fills_when_sufficient_liquidity() {
    let mut engine = MatchingEngine::new(test_config(), 1024);
    engine.process(Command::NewOrder {
        id: OrderId(1),
        instrument_id: 1,
        side: Side::Ask,
        price: 100,
        qty: 10,
        order_type: OrderType::Limit,
        time_in_force: TimeInForce::GTC,
        visible_qty: None,
        stop_price: None,
        stp_group: None,
    });
    let events = engine.process(Command::NewOrder {
        id: OrderId(2),
        instrument_id: 1,
        side: Side::Bid,
        price: 100,
        qty: 10,
        order_type: OrderType::Limit,
        time_in_force: TimeInForce::FOK,
        visible_qty: None,
        stop_price: None,
        stp_group: None,
    });
    assert!(
        events
            .iter()
            .any(|e| matches!(e, MatchEvent::Fill { qty: 10, .. }))
    );
}

#[test]
fn post_only_rejected_when_would_cross() {
    let mut engine = MatchingEngine::new(test_config(), 1024);
    engine.process(Command::NewOrder {
        id: OrderId(1),
        instrument_id: 1,
        side: Side::Ask,
        price: 100,
        qty: 10,
        order_type: OrderType::Limit,
        time_in_force: TimeInForce::GTC,
        visible_qty: None,
        stop_price: None,
        stp_group: None,
    });
    let events = engine.process(Command::NewOrder {
        id: OrderId(2),
        instrument_id: 1,
        side: Side::Bid,
        price: 100,
        qty: 5,
        order_type: OrderType::PostOnly,
        time_in_force: TimeInForce::GTC,
        visible_qty: None,
        stop_price: None,
        stp_group: None,
    });
    assert!(events.iter().any(|e| matches!(
        e,
        MatchEvent::OrderRejected {
            id: OrderId(2),
            reason: RejectReason::WouldCrossSpread,
            ..
        }
    )));
}

#[test]
fn post_only_rests_when_no_cross() {
    let mut engine = MatchingEngine::new(test_config(), 1024);
    engine.process(Command::NewOrder {
        id: OrderId(1),
        instrument_id: 1,
        side: Side::Ask,
        price: 110,
        qty: 10,
        order_type: OrderType::Limit,
        time_in_force: TimeInForce::GTC,
        visible_qty: None,
        stop_price: None,
        stp_group: None,
    });
    let events = engine.process(Command::NewOrder {
        id: OrderId(2),
        instrument_id: 1,
        side: Side::Bid,
        price: 100,
        qty: 5,
        order_type: OrderType::PostOnly,
        time_in_force: TimeInForce::GTC,
        visible_qty: None,
        stop_price: None,
        stp_group: None,
    });
    assert!(
        events
            .iter()
            .any(|e| matches!(e, MatchEvent::OrderAccepted { id: OrderId(2), .. }))
    );
    assert_eq!(engine.best_bid(), Some(100));
}

#[test]
fn stop_limit_buy_triggers_on_last_trade_price() {
    let mut engine = MatchingEngine::new(test_config(), 1024);
    // Stop-limit buy: trigger at or above 105, limit at 110.
    engine.process(Command::NewOrder {
        id: OrderId(1),
        instrument_id: 1,
        side: Side::Bid,
        price: 110,
        qty: 10,
        order_type: OrderType::StopLimit,
        time_in_force: TimeInForce::GTC,
        visible_qty: None,
        stop_price: Some(105),
        stp_group: None,
    });

    // Trade at 104: must NOT trigger the stop.
    engine.process(Command::NewOrder {
        id: OrderId(2),
        instrument_id: 1,
        side: Side::Ask,
        price: 104,
        qty: 5,
        order_type: OrderType::Limit,
        time_in_force: TimeInForce::GTC,
        visible_qty: None,
        stop_price: None,
        stp_group: None,
    });
    engine.process(Command::NewOrder {
        id: OrderId(3),
        instrument_id: 1,
        side: Side::Bid,
        price: 104,
        qty: 5,
        order_type: OrderType::Limit,
        time_in_force: TimeInForce::GTC,
        visible_qty: None,
        stop_price: None,
        stp_group: None,
    });

    // Trade at 105: triggers the stop.
    engine.process(Command::NewOrder {
        id: OrderId(4),
        instrument_id: 1,
        side: Side::Ask,
        price: 105,
        qty: 10,
        order_type: OrderType::Limit,
        time_in_force: TimeInForce::GTC,
        visible_qty: None,
        stop_price: None,
        stp_group: None,
    });
    let events = engine.process(Command::NewOrder {
        id: OrderId(5),
        instrument_id: 1,
        side: Side::Bid,
        price: 105,
        qty: 10,
        order_type: OrderType::Limit,
        time_in_force: TimeInForce::GTC,
        visible_qty: None,
        stop_price: None,
        stp_group: None,
    });
    assert!(
        events
            .iter()
            .any(|e| matches!(e, MatchEvent::StopTriggered { .. }))
    );
}

#[test]
fn stop_limit_sell_triggers_on_price_down() {
    let mut engine = MatchingEngine::new(test_config(), 1024);
    // Stop-limit sell: trigger at or below 95, limit at 90.
    engine.process(Command::NewOrder {
        id: OrderId(1),
        instrument_id: 1,
        side: Side::Ask,
        price: 90,
        qty: 10,
        order_type: OrderType::StopLimit,
        time_in_force: TimeInForce::GTC,
        visible_qty: None,
        stop_price: Some(95),
        stp_group: None,
    });

    // Trade at 96: must NOT trigger.
    engine.process(Command::NewOrder {
        id: OrderId(2),
        instrument_id: 1,
        side: Side::Ask,
        price: 96,
        qty: 5,
        order_type: OrderType::Limit,
        time_in_force: TimeInForce::GTC,
        visible_qty: None,
        stop_price: None,
        stp_group: None,
    });
    engine.process(Command::NewOrder {
        id: OrderId(3),
        instrument_id: 1,
        side: Side::Bid,
        price: 96,
        qty: 5,
        order_type: OrderType::Limit,
        time_in_force: TimeInForce::GTC,
        visible_qty: None,
        stop_price: None,
        stp_group: None,
    });

    // Trade at 95: triggers the stop.
    engine.process(Command::NewOrder {
        id: OrderId(4),
        instrument_id: 1,
        side: Side::Bid,
        price: 95,
        qty: 10,
        order_type: OrderType::Limit,
        time_in_force: TimeInForce::GTC,
        visible_qty: None,
        stop_price: None,
        stp_group: None,
    });
    let events = engine.process(Command::NewOrder {
        id: OrderId(5),
        instrument_id: 1,
        side: Side::Ask,
        price: 95,
        qty: 10,
        order_type: OrderType::Limit,
        time_in_force: TimeInForce::GTC,
        visible_qty: None,
        stop_price: None,
        stp_group: None,
    });
    assert!(
        events
            .iter()
            .any(|e| matches!(e, MatchEvent::StopTriggered { .. }))
    );
}

#[test]
fn iceberg_replenishes_visible_after_fill() {
    let mut engine = MatchingEngine::new(test_config(), 1024);
    // Iceberg sell: 5 visible, 20 total
    engine.process(Command::NewOrder {
        id: OrderId(1),
        instrument_id: 1,
        side: Side::Ask,
        price: 100,
        qty: 20,
        order_type: OrderType::Iceberg,
        time_in_force: TimeInForce::GTC,
        visible_qty: Some(5),
        stop_price: None,
        stp_group: None,
    });
    // Buy 5 — should fill the visible portion
    let events = engine.process(Command::NewOrder {
        id: OrderId(2),
        instrument_id: 1,
        side: Side::Bid,
        price: 100,
        qty: 5,
        order_type: OrderType::Limit,
        time_in_force: TimeInForce::GTC,
        visible_qty: None,
        stop_price: None,
        stp_group: None,
    });
    assert!(
        events
            .iter()
            .any(|e| matches!(e, MatchEvent::Fill { qty: 5, .. }))
    );
    // Iceberg should still be on the book with replenished visible qty
    assert_eq!(engine.best_ask(), Some(100));
}

#[test]
fn iceberg_fully_consumed_when_hidden_exhausted() {
    let mut engine = MatchingEngine::new(test_config(), 1024);
    // Iceberg sell: 5 visible, 10 total
    engine.process(Command::NewOrder {
        id: OrderId(1),
        instrument_id: 1,
        side: Side::Ask,
        price: 100,
        qty: 10,
        order_type: OrderType::Iceberg,
        time_in_force: TimeInForce::GTC,
        visible_qty: Some(5),
        stop_price: None,
        stp_group: None,
    });
    // Buy 10 — should fill entire iceberg
    let events = engine.process(Command::NewOrder {
        id: OrderId(2),
        instrument_id: 1,
        side: Side::Bid,
        price: 100,
        qty: 10,
        order_type: OrderType::Limit,
        time_in_force: TimeInForce::GTC,
        visible_qty: None,
        stop_price: None,
        stp_group: None,
    });
    let filled: u64 = events
        .iter()
        .filter_map(|e| match e {
            MatchEvent::Fill { qty, .. } => Some(qty),
            _ => None,
        })
        .sum();
    assert_eq!(filled, 10);
    assert_eq!(engine.best_ask(), None);
}

fn stp_config(mode: StpMode) -> InstrumentConfig {
    InstrumentConfig {
        id: 1,
        tick_size: 1,
        lot_size: 1,
        base_price: 0,
        max_ticks: 1000,
        stp_mode: mode,
    }
}

#[test]
fn stp_cancel_newest_prevents_self_trade() {
    let mut engine = MatchingEngine::new(stp_config(StpMode::CancelNewest), 1024);
    engine.process(Command::NewOrder {
        id: OrderId(1),
        instrument_id: 1,
        side: Side::Ask,
        price: 100,
        qty: 10,
        order_type: OrderType::Limit,
        time_in_force: TimeInForce::GTC,
        visible_qty: None,
        stop_price: None,
        stp_group: Some(1),
    });
    let events = engine.process(Command::NewOrder {
        id: OrderId(2),
        instrument_id: 1,
        side: Side::Bid,
        price: 100,
        qty: 10,
        order_type: OrderType::Limit,
        time_in_force: TimeInForce::GTC,
        visible_qty: None,
        stop_price: None,
        stp_group: Some(1),
    });
    assert!(events.iter().any(|e| matches!(
        e,
        MatchEvent::OrderRejected {
            id: OrderId(2),
            reason: RejectReason::SelfTradePreventionTriggered,
            ..
        }
    )));
    assert_eq!(engine.best_ask(), Some(100)); // resting maker untouched
}

#[test]
fn stp_cancel_oldest_cancels_resting_order() {
    let mut engine = MatchingEngine::new(stp_config(StpMode::CancelOldest), 1024);
    engine.process(Command::NewOrder {
        id: OrderId(1),
        instrument_id: 1,
        side: Side::Ask,
        price: 100,
        qty: 10,
        order_type: OrderType::Limit,
        time_in_force: TimeInForce::GTC,
        visible_qty: None,
        stop_price: None,
        stp_group: Some(1),
    });
    let events = engine.process(Command::NewOrder {
        id: OrderId(2),
        instrument_id: 1,
        side: Side::Bid,
        price: 100,
        qty: 10,
        order_type: OrderType::Limit,
        time_in_force: TimeInForce::GTC,
        visible_qty: None,
        stop_price: None,
        stp_group: Some(1),
    });
    // Resting (oldest) cancelled
    assert!(
        events
            .iter()
            .any(|e| matches!(e, MatchEvent::OrderCancelled { id: OrderId(1), .. }))
    );
    // Incoming accepted and rests
    assert_eq!(engine.best_bid(), Some(100));
    assert_eq!(engine.best_ask(), None);
}

#[test]
fn stp_cancel_both_cancels_both_orders() {
    let mut engine = MatchingEngine::new(stp_config(StpMode::CancelBoth), 1024);
    engine.process(Command::NewOrder {
        id: OrderId(1),
        instrument_id: 1,
        side: Side::Ask,
        price: 100,
        qty: 10,
        order_type: OrderType::Limit,
        time_in_force: TimeInForce::GTC,
        visible_qty: None,
        stop_price: None,
        stp_group: Some(1),
    });
    let events = engine.process(Command::NewOrder {
        id: OrderId(2),
        instrument_id: 1,
        side: Side::Bid,
        price: 100,
        qty: 10,
        order_type: OrderType::Limit,
        time_in_force: TimeInForce::GTC,
        visible_qty: None,
        stop_price: None,
        stp_group: Some(1),
    });
    assert!(
        events
            .iter()
            .any(|e| matches!(e, MatchEvent::OrderCancelled { id: OrderId(1), .. }))
    );
    assert!(
        events
            .iter()
            .any(|e| matches!(e, MatchEvent::OrderCancelled { id: OrderId(2), .. }))
    );
    assert_eq!(engine.best_ask(), None);
    assert_eq!(engine.best_bid(), None);
}

#[test]
fn stp_decrement_and_cancel_reduces_overlap() {
    let mut engine = MatchingEngine::new(stp_config(StpMode::DecrementAndCancel), 1024);
    // Resting ask: 10 lots
    engine.process(Command::NewOrder {
        id: OrderId(1),
        instrument_id: 1,
        side: Side::Ask,
        price: 100,
        qty: 10,
        order_type: OrderType::Limit,
        time_in_force: TimeInForce::GTC,
        visible_qty: None,
        stop_price: None,
        stp_group: Some(1),
    });
    // Incoming bid: 6 lots — overlap is min(10, 6) = 6, both reduced by 6
    let events: Vec<MatchEvent> = engine
        .process(Command::NewOrder {
            id: OrderId(2),
            instrument_id: 1,
            side: Side::Bid,
            price: 100,
            qty: 6,
            order_type: OrderType::Limit,
            time_in_force: TimeInForce::GTC,
            visible_qty: None,
            stop_price: None,
            stp_group: Some(1),
        })
        .to_vec();
    // Incoming (6 lots) fully consumed by decrement → cancelled
    assert!(
        events
            .iter()
            .any(|e| matches!(e, MatchEvent::OrderCancelled { id: OrderId(2), .. }))
    );
    // Resting reduced from 10 to 4
    assert_eq!(engine.best_ask(), Some(100));
    let ask_qty = events.iter().find_map(|e| match e {
        MatchEvent::BookUpdate {
            side: Side::Ask,
            price: 100,
            qty,
            ..
        } => Some(*qty),
        _ => None,
    });
    assert_eq!(ask_qty, Some(4));
}

#[test]
fn fok_reject_does_not_emit_order_accepted() {
    let mut engine = MatchingEngine::new(test_config(), 1024);
    engine.process(Command::NewOrder {
        id: OrderId(1),
        instrument_id: 1,
        side: Side::Ask,
        price: 100,
        qty: 5,
        order_type: OrderType::Limit,
        time_in_force: TimeInForce::GTC,
        visible_qty: None,
        stop_price: None,
        stp_group: None,
    });
    let events = engine.process(Command::NewOrder {
        id: OrderId(2),
        instrument_id: 1,
        side: Side::Bid,
        price: 100,
        qty: 10,
        order_type: OrderType::Limit,
        time_in_force: TimeInForce::FOK,
        visible_qty: None,
        stop_price: None,
        stp_group: None,
    });
    assert!(
        events
            .iter()
            .any(|e| matches!(e, MatchEvent::OrderRejected { id: OrderId(2), .. }))
    );
    assert!(
        !events
            .iter()
            .any(|e| matches!(e, MatchEvent::OrderAccepted { id: OrderId(2), .. }))
    );
}

#[test]
fn stop_limit_triggers_correctly_after_queue_refactor() {
    let mut engine = MatchingEngine::new(test_config(), 1024);
    // Place resting ask at 100
    engine.process(Command::NewOrder {
        id: OrderId(1),
        instrument_id: 1,
        side: Side::Ask,
        price: 100,
        qty: 5,
        order_type: OrderType::Limit,
        time_in_force: TimeInForce::GTC,
        visible_qty: None,
        stop_price: None,
        stp_group: None,
    });
    // Add a stop-limit buy: stop at 100, limit at 105
    engine.process(Command::NewOrder {
        id: OrderId(2),
        instrument_id: 1,
        side: Side::Bid,
        price: 105,
        qty: 3,
        order_type: OrderType::StopLimit,
        time_in_force: TimeInForce::GTC,
        visible_qty: None,
        stop_price: Some(100),
        stp_group: None,
    });
    // A trade at price 100 triggers the stop
    let events = engine.process(Command::NewOrder {
        id: OrderId(3),
        instrument_id: 1,
        side: Side::Bid,
        price: 100,
        qty: 2,
        order_type: OrderType::Limit,
        time_in_force: TimeInForce::GTC,
        visible_qty: None,
        stop_price: None,
        stp_group: None,
    });
    // The stop should have triggered: StopTriggered event must be present
    let triggered = events.iter().any(|e| {
        matches!(
            e,
            MatchEvent::StopTriggered {
                stop_id: OrderId(2),
                ..
            }
        )
    });
    assert!(
        triggered,
        "expected StopTriggered event for OrderId(2), got: {:?}",
        events
    );
}

#[test]
fn event_buffer_does_not_overflow_on_16_fills() {
    let mut engine = MatchingEngine::new(test_config(), 1024);
    // Place 16 resting asks at same price
    for i in 0u64..16 {
        engine.process(Command::NewOrder {
            id: OrderId(i + 1),
            instrument_id: 1,
            side: Side::Ask,
            price: 5000,
            qty: 1,
            order_type: OrderType::Limit,
            time_in_force: TimeInForce::GTC,
            visible_qty: None,
            stop_price: None,
            stp_group: None,
        });
    }
    // One large bid sweeping all 16
    let events = engine.process(Command::NewOrder {
        id: OrderId(100),
        instrument_id: 1,
        side: Side::Bid,
        price: 5000,
        qty: 16,
        order_type: OrderType::Limit,
        time_in_force: TimeInForce::GTC,
        visible_qty: None,
        stop_price: None,
        stp_group: None,
    });
    // Should have: 1 Accepted + 16 Fills + up to 16 BookUpdates = max ~33 events
    // Our buffer is 64 — well within range
    assert!(
        events.len() >= 17,
        "expected at least 17 events, got {}",
        events.len()
    );
    assert!(
        events.len() <= 64,
        "exceeded buffer capacity: {}",
        events.len()
    );
}

#[test]
fn stop_cascade_triggers_second_stop_when_first_fills_past_threshold() {
    let mut engine = MatchingEngine::new(test_config(), 4096);

    // Place resting ask liquidity at prices 105 and 110.
    engine.process(Command::NewOrder {
        id: OrderId(10),
        instrument_id: 1,
        side: Side::Ask,
        price: 105,
        qty: 10,
        order_type: OrderType::Limit,
        time_in_force: TimeInForce::GTC,
        visible_qty: None,
        stop_price: None,
        stp_group: None,
    });
    engine.process(Command::NewOrder {
        id: OrderId(11),
        instrument_id: 1,
        side: Side::Ask,
        price: 110,
        qty: 10,
        order_type: OrderType::Limit,
        time_in_force: TimeInForce::GTC,
        visible_qty: None,
        stop_price: None,
        stp_group: None,
    });

    // Stop buy A: triggers at 100, limit at 115 (will sweep asks at 105 and 110).
    engine.process(Command::NewOrder {
        id: OrderId(1),
        instrument_id: 1,
        side: Side::Bid,
        price: 115,
        qty: 20,
        order_type: OrderType::StopLimit,
        time_in_force: TimeInForce::GTC,
        visible_qty: None,
        stop_price: Some(100),
        stp_group: None,
    });

    // Stop buy B: triggers at 108 — should cascade after A fills at 105+.
    engine.process(Command::NewOrder {
        id: OrderId(2),
        instrument_id: 1,
        side: Side::Bid,
        price: 120,
        qty: 5,
        order_type: OrderType::StopLimit,
        time_in_force: TimeInForce::GTC,
        visible_qty: None,
        stop_price: Some(108),
        stp_group: None,
    });

    // Place resting ask + buy that will trade at 100 to trigger stop A.
    engine.process(Command::NewOrder {
        id: OrderId(20),
        instrument_id: 1,
        side: Side::Ask,
        price: 100,
        qty: 5,
        order_type: OrderType::Limit,
        time_in_force: TimeInForce::GTC,
        visible_qty: None,
        stop_price: None,
        stp_group: None,
    });
    let events = engine.process(Command::NewOrder {
        id: OrderId(21),
        instrument_id: 1,
        side: Side::Bid,
        price: 100,
        qty: 5,
        order_type: OrderType::Limit,
        time_in_force: TimeInForce::GTC,
        visible_qty: None,
        stop_price: None,
        stp_group: None,
    });

    // Both stops should have triggered.
    let stop_triggers: Vec<_> = events
        .iter()
        .filter(|e| matches!(e, MatchEvent::StopTriggered { .. }))
        .collect();
    assert!(
        stop_triggers.len() >= 2,
        "Expected 2 stop triggers (cascade), got {}. Events: {:?}",
        stop_triggers.len(),
        events
    );
}

#[test]
fn stp_cancel_oldest_cancels_resting_maker() {
    let cfg = InstrumentConfig {
        stp_mode: StpMode::CancelOldest,
        ..test_config()
    };
    let mut engine = MatchingEngine::new(cfg, 1024);

    engine.process(Command::NewOrder {
        id: OrderId(1),
        instrument_id: 1,
        side: Side::Ask,
        price: 100,
        qty: 10,
        order_type: OrderType::Limit,
        time_in_force: TimeInForce::GTC,
        visible_qty: None,
        stop_price: None,
        stp_group: Some(1),
    });

    let events = engine.process(Command::NewOrder {
        id: OrderId(2),
        instrument_id: 1,
        side: Side::Bid,
        price: 100,
        qty: 5,
        order_type: OrderType::Limit,
        time_in_force: TimeInForce::GTC,
        visible_qty: None,
        stop_price: None,
        stp_group: Some(1),
    });

    // Maker (oldest) should be cancelled. No fills.
    assert!(events.iter().any(|e| matches!(
        e,
        MatchEvent::OrderCancelled {
            id: OrderId(1),
            remaining_qty: 10,
            ..
        }
    )));
    assert!(!events.iter().any(|e| matches!(e, MatchEvent::Fill { .. })));
    assert_eq!(engine.best_bid(), Some(100)); // taker rests
}

#[test]
fn stp_cancel_both_cancels_maker_and_taker() {
    let cfg = InstrumentConfig {
        stp_mode: StpMode::CancelBoth,
        ..test_config()
    };
    let mut engine = MatchingEngine::new(cfg, 1024);

    engine.process(Command::NewOrder {
        id: OrderId(1),
        instrument_id: 1,
        side: Side::Ask,
        price: 100,
        qty: 10,
        order_type: OrderType::Limit,
        time_in_force: TimeInForce::GTC,
        visible_qty: None,
        stop_price: None,
        stp_group: Some(1),
    });

    let events = engine.process(Command::NewOrder {
        id: OrderId(2),
        instrument_id: 1,
        side: Side::Bid,
        price: 100,
        qty: 5,
        order_type: OrderType::Limit,
        time_in_force: TimeInForce::GTC,
        visible_qty: None,
        stop_price: None,
        stp_group: Some(1),
    });

    let cancels: Vec<_> = events
        .iter()
        .filter(|e| matches!(e, MatchEvent::OrderCancelled { .. }))
        .collect();
    assert_eq!(cancels.len(), 2, "Expected both maker and taker cancelled");
    assert!(!events.iter().any(|e| matches!(e, MatchEvent::Fill { .. })));
    assert_eq!(engine.best_bid(), None);
    assert_eq!(engine.best_ask(), None);
}

#[test]
fn stp_decrement_and_cancel_reduces_both_sides() {
    let cfg = InstrumentConfig {
        stp_mode: StpMode::DecrementAndCancel,
        ..test_config()
    };
    let mut engine = MatchingEngine::new(cfg, 1024);

    engine.process(Command::NewOrder {
        id: OrderId(1),
        instrument_id: 1,
        side: Side::Ask,
        price: 100,
        qty: 10,
        order_type: OrderType::Limit,
        time_in_force: TimeInForce::GTC,
        visible_qty: None,
        stop_price: None,
        stp_group: Some(1),
    });

    // Incoming bid: 3 qty, same group. overlap = min(3, 10) = 3.
    let events: Vec<MatchEvent> = engine
        .process(Command::NewOrder {
            id: OrderId(2),
            instrument_id: 1,
            side: Side::Bid,
            price: 100,
            qty: 3,
            order_type: OrderType::Limit,
            time_in_force: TimeInForce::GTC,
            visible_qty: None,
            stop_price: None,
            stp_group: Some(1),
        })
        .to_vec();

    // Taker cancelled with remaining 0 (3 - 3 = 0).
    assert!(events.iter().any(|e| matches!(
        e,
        MatchEvent::OrderCancelled {
            id: OrderId(2),
            remaining_qty: 0,
            ..
        }
    )));
    // Maker still on book with reduced qty (10 - 3 = 7).
    assert_eq!(engine.best_ask(), Some(100));
    assert!(!events.iter().any(|e| matches!(e, MatchEvent::Fill { .. })));
}

#[test]
fn modify_order_changes_price_and_qty() {
    let mut engine = MatchingEngine::new(test_config(), 1024);

    engine.process(Command::NewOrder {
        id: OrderId(1),
        instrument_id: 1,
        side: Side::Bid,
        price: 100,
        qty: 10,
        order_type: OrderType::Limit,
        time_in_force: TimeInForce::GTC,
        visible_qty: None,
        stop_price: None,
        stp_group: None,
    });
    assert_eq!(engine.best_bid(), Some(100));

    let events = engine.process(Command::ModifyOrder {
        id: OrderId(1),
        new_price: 105,
        new_qty: 20,
    });

    assert!(events.iter().any(|e| matches!(
        e,
        MatchEvent::OrderModified {
            id: OrderId(1),
            new_price: 105,
            new_qty: 20,
            ..
        }
    )));
    assert_eq!(engine.best_bid(), Some(105));
}

#[test]
fn modify_to_crossing_price_triggers_match() {
    let mut engine = MatchingEngine::new(test_config(), 1024);

    engine.process(Command::NewOrder {
        id: OrderId(1),
        instrument_id: 1,
        side: Side::Ask,
        price: 100,
        qty: 5,
        order_type: OrderType::Limit,
        time_in_force: TimeInForce::GTC,
        visible_qty: None,
        stop_price: None,
        stp_group: None,
    });
    engine.process(Command::NewOrder {
        id: OrderId(2),
        instrument_id: 1,
        side: Side::Bid,
        price: 90,
        qty: 10,
        order_type: OrderType::Limit,
        time_in_force: TimeInForce::GTC,
        visible_qty: None,
        stop_price: None,
        stp_group: None,
    });

    let events = engine.process(Command::ModifyOrder {
        id: OrderId(2),
        new_price: 100,
        new_qty: 10,
    });

    assert!(
        events
            .iter()
            .any(|e| matches!(e, MatchEvent::Fill { qty: 5, .. }))
    );
}

#[test]
fn iceberg_exposes_visible_slice_then_replenishes() {
    let mut engine = MatchingEngine::new(test_config(), 1024);

    // Iceberg ask: 30 total, visible 10 at a time.
    engine.process(Command::NewOrder {
        id: OrderId(1),
        instrument_id: 1,
        side: Side::Ask,
        price: 100,
        qty: 30,
        order_type: OrderType::Iceberg,
        time_in_force: TimeInForce::GTC,
        visible_qty: Some(10),
        stop_price: None,
        stp_group: None,
    });

    // First buy: takes 10 (first visible slice).
    let events1 = engine.process(Command::NewOrder {
        id: OrderId(2),
        instrument_id: 1,
        side: Side::Bid,
        price: 100,
        qty: 10,
        order_type: OrderType::Limit,
        time_in_force: TimeInForce::GTC,
        visible_qty: None,
        stop_price: None,
        stp_group: None,
    });
    assert!(
        events1
            .iter()
            .any(|e| matches!(e, MatchEvent::Fill { qty: 10, .. }))
    );

    // Second buy: takes 10 (second slice -- replenished).
    let events2 = engine.process(Command::NewOrder {
        id: OrderId(3),
        instrument_id: 1,
        side: Side::Bid,
        price: 100,
        qty: 10,
        order_type: OrderType::Limit,
        time_in_force: TimeInForce::GTC,
        visible_qty: None,
        stop_price: None,
        stp_group: None,
    });
    assert!(
        events2
            .iter()
            .any(|e| matches!(e, MatchEvent::Fill { qty: 10, .. }))
    );

    // Third buy: takes last 10.
    let events3 = engine.process(Command::NewOrder {
        id: OrderId(4),
        instrument_id: 1,
        side: Side::Bid,
        price: 100,
        qty: 10,
        order_type: OrderType::Limit,
        time_in_force: TimeInForce::GTC,
        visible_qty: None,
        stop_price: None,
        stp_group: None,
    });
    assert!(
        events3
            .iter()
            .any(|e| matches!(e, MatchEvent::Fill { qty: 10, .. }))
    );

    assert_eq!(engine.best_ask(), None); // fully consumed
}
