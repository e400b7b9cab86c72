use matchx::engine::MatchingEngine;
use matchx::types::{
    Command, InstrumentConfig, MatchEvent, OrderId, OrderType, Side, StpMode, TimeInForce,
};
use std::collections::HashMap;

fn test_config() -> InstrumentConfig {
    InstrumentConfig {
        id: 1,
        tick_size: 1,
        lot_size: 1,
        base_price: 0,
        max_ticks: 1000,
        stp_mode: StpMode::CancelNewest,
    }
}

/// A xorshift generator.
struct Random(u64);

impl Random {
    fn new(seed: u64) -> Self {
        Random(seed.wrapping_mul(0x9E37_79B9_7F4A_7C15) | 1)
    }

    fn next(&mut self) -> u64 {
        self.0 ^= self.0 << 13;
        self.0 ^= self.0 >> 7;
        self.0 ^= self.0 << 17;
        self.0
    }

    fn below(&mut self, lo: u64, hi: u64) -> u64 {
        lo + (self.next() >> 11) % (hi - lo)
    }

    fn side(&mut self) -> Side {
        if self.below(0, 2) == 0 {
            Side::Bid
        } else {
            Side::Ask
        }
    }

    fn tif(&mut self) -> TimeInForce {
        match self.below(0, 3) {
            0 => TimeInForce::GTC,
            1 => TimeInForce::IOC,
            _ => TimeInForce::FOK,
        }
    }

    fn stp_group(&mut self) -> Option<u32> {
        match self.below(0, 2) {
            0 => None,
            _ => Some(self.below(1, 4) as u32),
        }
    }
}

fn limit(id: u64, side: Side, price: u64, qty: u64, stp_group: Option<u32>) -> Command {
    Command::NewOrder {
        id: OrderId(id),
        instrument_id: 1,
        side,
        price,
        qty,
        order_type: OrderType::Limit,
        time_in_force: TimeInForce::GTC,
        visible_qty: None,
        stop_price: None,
        stp_group,
    }
}

#[test]
fn bbo_never_crosses() {
    for seed in 1..=256 {
        let mut random = Random::new(seed);
        let mut engine = MatchingEngine::new(test_config(), 4096);
        for i in 0..random.below(1, 50) {
            let side = random.side();
            let price = random.below(1, 999);
            let qty = random.below(1, 100);
            engine.process(limit(i + 1, side, price, qty, None));

            if let (Some(bid), Some(ask)) = (engine.best_bid(), engine.best_ask()) {
                assert!(
                    bid < ask,
                    "BBO crossed: bid={} >= ask={} after order {}",
                    bid,
                    ask,
                    i
                );
            }
        }
    }
}

#[test]
fn bbo_never_crosses_mixed_order_types() {
    for seed in 1..=256 {
        let mut random = Random::new(seed);
        let mut engine = MatchingEngine::new(test_config(), 4096);
        for i in 0..random.below(1, 40) {
            let order_type = if random.below(0, 2) == 0 {
                OrderType::Limit
            } else {
                OrderType::Market
            };
            engine.process(Command::NewOrder {
                id: OrderId(i + 1),
                instrument_id: 1,
                side: random.side(),
                price: random.below(1, 999),
                qty: random.below(1, 100),
                order_type,
                time_in_force: random.tif(),
                visible_qty: None,
                stop_price: None,
                stp_group: None,
            });

            if let (Some(bid), Some(ask)) = (engine.best_bid(), engine.best_ask()) {
                assert!(
                    bid < ask,
                    "BBO crossed: bid={} >= ask={} after order {}",
                    bid,
                    ask,
                    i
                );
            }
        }
    }
}

#[test]
fn fill_quantity_conserved() {
    for ask_qty in 1..100u64 {
        for bid_qty in 1..100u64 {
            let mut engine = MatchingEngine::new(test_config(), 16);
            engine.process(limit(1, Side::Ask, 100, ask_qty, None));
            let events: Vec<MatchEvent> =
                engine.process(limit(2, Side::Bid, 100, bid_qty, None)).to_vec();

            let total_filled: u64 = events
                .iter()
                .filter_map(|e| match e {
                    MatchEvent::Fill { qty, .. } => Some(*qty),
                    _ => None,
                })
                .sum();

            let expected = ask_qty.min(bid_qty);
            assert_eq!(
                total_filled, expected,
                "Fill quantity mismatch: got {} expected {}",
                total_filled, expected
            );
        }
    }
}

#[test]
fn stp_never_produces_self_trade_fill() {
    for seed in 1..=256 {
        let mut random = Random::new(seed);
        let mut engine = MatchingEngine::new(test_config(), 4096);
        // Track which order IDs belong to which STP group
        let mut order_stp: HashMap<OrderId, u32> = HashMap::new();

        for i in 0..random.below(1, 30) {
            let order_id = OrderId(i + 1);
            let group = random.stp_group();
            if let Some(group) = group {
                order_stp.insert(order_id, group);
            }

            let side = random.side();
            let price = random.below(1, 999);
            let qty = random.below(1, 100);
            let events: Vec<MatchEvent> =
                engine.process(limit(i + 1, side, price, qty, group)).to_vec();

            // Check that no fill occurs between two orders in the same STP group
            for event in &events {
                if let MatchEvent::Fill { maker_id, taker_id, .. } = event {
                    let maker_group = order_stp.get(maker_id);
                    let taker_group = order_stp.get(taker_id);
                    if let (Some(mg), Some(tg)) = (maker_group, taker_group) {
                        assert!(
                            mg != tg,
                            "Self-trade fill between maker {:?} and taker {:?} in STP group {}",
                            maker_id,
                            taker_id,
                            mg
                        );
                    }
                }
            }
        }
    }
}

#[test]
fn deterministic_replay() {
    for seed in 1..=64 {
        let mut random = Random::new(seed);
        let mut commands: Vec<Command> = Vec::new();
        for i in 0..random.below(1, 30) {
            let side = random.side();
            let price = random.below(1, 999);
            let qty = random.below(1, 100);
            commands.push(limit(i + 1, side, price, qty, None));
        }

        let run = |cmds: &[Command]| -> Vec<Vec<MatchEvent>> {
            let mut engine = MatchingEngine::new(test_config(), 4096);
            let mut results = Vec::new();
            for c in cmds {
                results.push(engine.process(*c).to_vec());
            }
            results
        };

        let run1 = run(&commands);
        let run2 = run(&commands);
        assert_eq!(run1, run2, "Non-deterministic: different outputs for same input");
    }
}

/// A random command of any kind.
fn any_command(random: &mut Random, ids: u64) -> Command {
    let id = OrderId(random.below(1, ids));
    match random.below(0, 10) {
        0 => Command::CancelOrder { id },
        1 => Command::ModifyOrder {
            id,
            new_price: random.below(1, 120),
            new_qty: random.below(0, 20),
        },
        _ => Command::NewOrder {
            id,
            instrument_id: 1,
            side: random.side(),
            price: random.below(1, 120),
            qty: random.below(0, 20),
            order_type: match random.below(0, 5) {
                0 => OrderType::Limit,
                1 => OrderType::Market,
                2 => OrderType::PostOnly,
                3 => OrderType::StopLimit,
                _ => OrderType::Iceberg,
            },
            time_in_force: random.tif(),
            visible_qty: if random.below(0, 2) == 0 {
                None
            } else {
                Some(random.below(0, 6))
            },
            stop_price: if random.below(0, 8) == 0 {
                None
            } else {
                Some(random.below(1, 120))
            },
            stp_group: random.stp_group(),
        },
    }
}

#[test]
fn every_event_carries_the_next_number() {
    for mode in [
        StpMode::CancelNewest,
        StpMode::CancelOldest,
        StpMode::CancelBoth,
        StpMode::DecrementAndCancel,
    ] {
        for seed in 1..=64 {
            let mut random = Random::new(seed);
            let config = InstrumentConfig {
                base_price: 40,
                max_ticks: 32,
                stp_mode: mode,
                ..test_config()
            };
            let mut engine = MatchingEngine::new(config, 24);
            let mut last = 0;
            for _ in 0..200 {
                let cmd = any_command(&mut random, 60);
                assert!(engine.has_room(&cmd));
                for event in engine.process(cmd) {
                    let meta = match event {
                        MatchEvent::OrderAccepted { meta, .. } => meta,
                        MatchEvent::OrderRejected { meta, .. } => meta,
                        MatchEvent::Fill { meta, .. } => meta,
                        MatchEvent::OrderCancelled { meta, .. } => meta,
                        MatchEvent::OrderModified { meta, .. } => meta,
                        MatchEvent::BookUpdate { meta, .. } => meta,
                        MatchEvent::StopTriggered { meta, .. } => meta,
                    };
                    last += 1;
                    assert_eq!(meta.sequence, last);
                    assert_eq!(meta.timestamp_ns, last);
                }
                assert_eq!(engine.current_sequence(), last);
            }
        }
    }
}

#[test]
fn fills_take_from_makers_what_takers_get() {
    for seed in 1..=64 {
        let mut random = Random::new(seed);
        let mut engine = MatchingEngine::new(test_config(), 512);
        // What is left of each order that came in.
        let mut left: HashMap<OrderId, u64> = HashMap::new();
        for i in 0..200 {
            let side = random.side();
            let price = random.below(90, 110);
            let qty = random.below(1, 30);
            left.insert(OrderId(i + 1), qty);
            for event in engine.process(limit(i + 1, side, price, qty, None)) {
                if let MatchEvent::Fill {
                    maker_id,
                    taker_id,
                    qty,
                    maker_remaining,
                    taker_remaining,
                    ..
                } = event
                {
                    *left.get_mut(maker_id).unwrap() -= qty;
                    *left.get_mut(taker_id).unwrap() -= qty;
                    assert_eq!(left[maker_id], *maker_remaining);
                    assert_eq!(left[taker_id], *taker_remaining);
                }
            }
        }
    }
}
