use core::hash::{BuildHasher, Hash, Hasher};
use matchx::arena::Arena;
use matchx::book::OrderBook;
use matchx::order_index::DeterministicHasher;
use matchx::types::{InstrumentConfig, OrderId, OrderType, Side, StpMode};

fn config() -> InstrumentConfig {
    InstrumentConfig {
        id: 1,
        tick_size: 1,
        lot_size: 1,
        base_price: 0,
        max_ticks: 1000,
        stp_mode: StpMode::CancelNewest,
    }
}

#[test]
fn insert_bid_updates_best_bid() {
    let mut arena = Arena::new(64);
    let mut book = OrderBook::new(config());

    book.insert_order(OrderId(1), Side::Bid, 500, 10, OrderType::Limit, None, None, &mut arena);
    assert_eq!(book.best_bid(), Some(500));
    assert_eq!(book.best_ask(), None);
}

#[test]
fn insert_ask_updates_best_ask() {
    let mut arena = Arena::new(64);
    let mut book = OrderBook::new(config());

    book.insert_order(OrderId(1), Side::Ask, 600, 10, OrderType::Limit, None, None, &mut arena);
    assert_eq!(book.best_ask(), Some(600));
    assert_eq!(book.best_bid(), None);
}

#[test]
fn multiple_bids_best_is_highest() {
    let mut arena = Arena::new(64);
    let mut book = OrderBook::new(config());

    book.insert_order(OrderId(1), Side::Bid, 500, 10, OrderType::Limit, None, None, &mut arena);
    book.insert_order(OrderId(2), Side::Bid, 510, 5, OrderType::Limit, None, None, &mut arena);
    book.insert_order(OrderId(3), Side::Bid, 490, 20, OrderType::Limit, None, None, &mut arena);
    assert_eq!(book.best_bid(), Some(510));
}

#[test]
fn multiple_asks_best_is_lowest() {
    let mut arena = Arena::new(64);
    let mut book = OrderBook::new(config());

    book.insert_order(OrderId(1), Side::Ask, 600, 10, OrderType::Limit, None, None, &mut arena);
    book.insert_order(OrderId(2), Side::Ask, 590, 5, OrderType::Limit, None, None, &mut arena);
    book.insert_order(OrderId(3), Side::Ask, 610, 20, OrderType::Limit, None, None, &mut arena);
    assert_eq!(book.best_ask(), Some(590));
}

#[test]
fn level_quantity_accumulates() {
    let mut arena = Arena::new(64);
    let mut book = OrderBook::new(config());

    book.insert_order(OrderId(1), Side::Bid, 500, 10, OrderType::Limit, None, None, &mut arena);
    book.insert_order(OrderId(2), Side::Bid, 500, 20, OrderType::Limit, None, None, &mut arena);
    let level = book.get_bid_level(500);
    assert_eq!(level.total_quantity, 30);
    assert_eq!(level.order_count, 2);
}

#[test]
fn cancel_only_order_clears_best() {
    let mut arena = Arena::new(64);
    let mut book = OrderBook::new(config());

    let idx = book.insert_order(OrderId(1), Side::Bid, 500, 10, OrderType::Limit, None, None, &mut arena).unwrap();
    book.remove_order(idx, &mut arena);
    assert_eq!(book.best_bid(), None);
    assert!(book.get_bid_level(500).is_empty());
}

#[test]
fn cancel_best_bid_finds_next_best() {
    let mut arena = Arena::new(64);
    let mut book = OrderBook::new(config());

    book.insert_order(OrderId(1), Side::Bid, 500, 10, OrderType::Limit, None, None, &mut arena);
    let top = book.insert_order(OrderId(2), Side::Bid, 510, 5, OrderType::Limit, None, None, &mut arena).unwrap();
    book.insert_order(OrderId(3), Side::Bid, 490, 20, OrderType::Limit, None, None, &mut arena);

    book.remove_order(top, &mut arena);
    assert_eq!(book.best_bid(), Some(500));
}

#[test]
fn cancel_middle_of_queue_preserves_links() {
    let mut arena = Arena::new(64);
    let mut book = OrderBook::new(config());

    let a = book.insert_order(OrderId(1), Side::Bid, 500, 10, OrderType::Limit, None, None, &mut arena).unwrap();
    let b = book.insert_order(OrderId(2), Side::Bid, 500, 20, OrderType::Limit, None, None, &mut arena).unwrap();
    let c = book.insert_order(OrderId(3), Side::Bid, 500, 30, OrderType::Limit, None, None, &mut arena).unwrap();

    book.remove_order(b, &mut arena);

    let level = book.get_bid_level(500);
    assert_eq!(level.total_quantity, 40); // 10 + 30
    assert_eq!(level.order_count, 2);
    // a -> c
    assert_eq!(arena.get(a).next.link(), Some(c));
    assert_eq!(arena.get(c).prev.link(), Some(a));
}

#[test]
fn recenter_when_bbo_drifts_past_threshold() {
    let mut arena = Arena::new(128);
    let mut config = config();
    config.max_ticks = 100;
    let mut book = OrderBook::new(config);

    // Insert asks far above dense window to force sparse
    book.insert_order(OrderId(1), Side::Ask, 200, 10, OrderType::Limit, None, None, &mut arena);
    assert!(book.is_in_sparse(Side::Ask, 200));

    // Move BBO up by inserting bids near top of dense window
    for i in 0u64..80 {
        book.insert_order(OrderId(100 + i), Side::Bid, 70 + (i % 10), 1, OrderType::Limit, None, None, &mut arena);
    }

    // Trigger recenter — BBO has drifted past 70% of window
    book.maybe_recenter(&mut arena);

    // After recenter, the new dense window should be centered near BBO
    let new_base = book.dense_base_price();
    assert!(new_base > 0, "dense window should have shifted up");
}

#[test]
fn recenter_preserves_order_linkage() {
    let mut arena = Arena::new(128);
    let mut config = config();
    config.max_ticks = 100;
    let mut book = OrderBook::new(config);

    let a = book.insert_order(OrderId(1), Side::Bid, 50, 10, OrderType::Limit, None, None, &mut arena).unwrap();
    let b = book.insert_order(OrderId(2), Side::Bid, 50, 20, OrderType::Limit, None, None, &mut arena).unwrap();

    book.force_recenter(25, &mut arena);

    // Linkage still intact
    assert_eq!(arena.get(a).next.link(), Some(b));
    assert_eq!(arena.get(b).prev.link(), Some(a));
    let level = book.get_bid_level(50);
    assert_eq!(level.total_quantity, 30);
    assert_eq!(level.order_count, 2);
}

#[test]
fn recenter_updates_bitset_and_fenwick() {
    let mut arena = Arena::new(128);
    let mut config = config();
    config.max_ticks = 100;
    let mut book = OrderBook::new(config);

    book.insert_order(OrderId(1), Side::Ask, 60, 10, OrderType::Limit, None, None, &mut arena);
    book.force_recenter(20, &mut arena);

    // Ask at 60 should still be findable as best ask
    assert_eq!(book.best_ask(), Some(60));
    // Fenwick should reflect the quantity
    let avail = book.ask_available_at_or_below(60);
    assert_eq!(avail, 10);
}

#[test]
fn lookup_order_by_id() {
    let mut arena = Arena::new(64);
    let mut book = OrderBook::new(config());

    book.insert_order(OrderId(42), Side::Bid, 500, 10, OrderType::Limit, None, None, &mut arena);
    let idx = book.lookup(OrderId(42)).unwrap();
    assert_eq!(arena.get(idx).id, OrderId(42));
}

#[test]
fn lookup_returns_none_after_cancel() {
    let mut arena = Arena::new(64);
    let mut book = OrderBook::new(config());

    let idx = book.insert_order(OrderId(42), Side::Bid, 500, 10, OrderType::Limit, None, None, &mut arena).unwrap();
    book.remove_order(idx, &mut arena);
    assert!(book.lookup(OrderId(42)).is_none());
}

#[test]
fn duplicate_order_id_is_rejected_and_original_mapping_preserved() {
    let mut arena = Arena::new(64);
    let mut book = OrderBook::new(config());

    let first = book.insert_order(OrderId(42), Side::Bid, 500, 10, OrderType::Limit, None, None, &mut arena).unwrap();
    let duplicate = book.insert_order(OrderId(42), Side::Ask, 600, 5, OrderType::Limit, None, None, &mut arena);
    assert!(duplicate.is_none());
    assert_eq!(book.lookup(OrderId(42)), Some(first));
}

#[test]
fn deterministic_hasher_produces_stable_output() {
    let build = DeterministicHasher::default();
    let mut h = build.build_hasher();
    OrderId(12345).hash(&mut h);
    let result = h.finish();
    assert_eq!(
        result,
        {
            let mut h2 = build.build_hasher();
            OrderId(12345).hash(&mut h2);
            h2.finish()
        },
        "Hasher must produce identical output for identical input"
    );
}

#[test]
fn depth_counts_what_orders_have_left() {
    let mut arena = Arena::new(64);
    let mut book = OrderBook::new(InstrumentConfig { base_price: 500, max_ticks: 100, ..config() });
    let a = book
        .insert_order(OrderId(1), Side::Ask, 520, 10, OrderType::Limit, None, None, &mut arena)
        .unwrap();
    book.insert_order(OrderId(2), Side::Ask, 700, 5, OrderType::Limit, None, None, &mut arena);
    book.insert_order(OrderId(3), Side::Bid, 510, 3, OrderType::Limit, None, None, &mut arena);
    book.insert_order(OrderId(4), Side::Bid, 100, 4, OrderType::Limit, None, None, &mut arena);
    assert_eq!(book.ask_available_at_or_below(519), 0);
    assert_eq!(book.ask_available_at_or_below(520), 10);
    assert_eq!(book.ask_available_at_or_below(u64::MAX), 15);
    assert_eq!(book.bid_available_at_or_above(511), 0);
    assert_eq!(book.bid_available_at_or_above(510), 3);
    assert_eq!(book.bid_available_at_or_above(0), 7);
    book.reduce_order_qty(a, 4, &mut arena);
    assert_eq!(book.ask_available_at_or_below(520), 6);
    assert_eq!(book.get_level_qty(Side::Ask, 520), 6);
    assert_eq!(arena.get(a).filled, 4);
    assert_eq!(book.remove_order(a, &mut arena), (Side::Ask, 520));
    assert_eq!(book.ask_available_at_or_below(u64::MAX), 5);
    assert_eq!(book.best_ask(), Some(700));
    assert!(book.is_in_sparse(Side::Ask, 700));
    assert!(!book.is_in_sparse(Side::Ask, 520));
    assert!(!book.is_in_sparse(Side::Bid, 700));
}

#[test]
fn levels_can_be_changed_in_place() {
    let mut arena = Arena::new(64);
    let mut book = OrderBook::new(config());
    book.insert_order(OrderId(1), Side::Bid, 500, 10, OrderType::Limit, None, None, &mut arena);
    book.insert_order(OrderId(2), Side::Ask, 600, 20, OrderType::Limit, None, None, &mut arena);
    assert_eq!(book.get_bid_level_mut(500).total_quantity, 10);
    book.get_bid_level_mut(500).total_quantity = 11;
    assert_eq!(book.get_bid_level(500).total_quantity, 11);
    assert_eq!(book.get_ask_level(600).total_quantity, 20);
    book.get_ask_level_mut(600).order_count = 3;
    assert_eq!(book.get_ask_level(600).order_count, 3);
    // A level outside the window is made where there is none.
    assert!(!book.is_in_sparse(Side::Bid, 5000));
    assert_eq!(book.get_bid_level_mut(5000).order_count, 0);
    // The levels can still be read.
    assert_eq!(book.get_level_qty(Side::Bid, 500), 11);
    assert_eq!(book.get_level_qty(Side::Ask, 600), 20);
    assert_eq!(book.get_level_qty(Side::Bid, 5000), 0);
    assert!(book.is_in_sparse(Side::Bid, 5000));
    assert!(!book.is_in_sparse(Side::Ask, 5000));
    assert!(!book.is_in_sparse(Side::Bid, 500));
}

#[test]
fn recentering_moves_levels_between_window_and_map() {
    let mut arena = Arena::new(64);
    let mut book = OrderBook::new(InstrumentConfig { max_ticks: 100, ..config() });
    book.insert_order(OrderId(1), Side::Bid, 40, 10, OrderType::Limit, None, None, &mut arena);
    book.insert_order(OrderId(2), Side::Ask, 160, 20, OrderType::Limit, None, None, &mut arena);
    assert!(!book.is_in_sparse(Side::Bid, 40));
    assert!(book.is_in_sparse(Side::Ask, 160));
    book.force_recenter(100, &mut arena);
    assert_eq!(book.dense_base_price(), 100);
    assert!(book.is_in_sparse(Side::Bid, 40));
    assert!(!book.is_in_sparse(Side::Ask, 160));
    assert_eq!(book.best_bid(), Some(40));
    assert_eq!(book.best_ask(), Some(160));
    assert_eq!(book.bid_available_at_or_above(0), 10);
    assert_eq!(book.ask_available_at_or_below(160), 20);
    book.force_recenter(0, &mut arena);
    assert!(!book.is_in_sparse(Side::Bid, 40));
    assert!(book.is_in_sparse(Side::Ask, 160));
}

#[test]
fn the_window_follows_the_best_bid() {
    let mut arena = Arena::new(64);
    let mut book = OrderBook::new(InstrumentConfig { max_ticks: 100, ..config() });
    book.insert_order(OrderId(1), Side::Bid, 69, 10, OrderType::Limit, None, None, &mut arena);
    book.maybe_recenter(&mut arena);
    assert_eq!(book.dense_base_price(), 0);
    book.insert_order(OrderId(2), Side::Bid, 70, 10, OrderType::Limit, None, None, &mut arena);
    book.maybe_recenter(&mut arena);
    assert_eq!(book.dense_base_price(), 20);
}

#[test]
fn a_full_arena_takes_no_order() {
    let mut arena = Arena::new(1);
    let mut book = OrderBook::new(config());
    assert!(book
        .insert_order(OrderId(1), Side::Bid, 500, 10, OrderType::Limit, None, None, &mut arena)
        .is_some());
    assert!(book
        .insert_order(OrderId(2), Side::Bid, 500, 10, OrderType::Limit, None, None, &mut arena)
        .is_none());
    assert_eq!(book.lookup(OrderId(2)), None);
    assert_eq!(book.get_bid_level(500).order_count, 1);
}

#[test]
fn an_order_can_go_to_the_end_of_its_queue() {
    let mut arena = Arena::new(8);
    let mut book = OrderBook::new(config());
    let mut slots = Vec::new();
    for id in 1..=3 {
        let slot = book
            .insert_order(OrderId(id), Side::Bid, 500, 10, OrderType::Limit, None, None, &mut arena)
            .unwrap();
        slots.push(slot);
    }
    let queue = |book: &OrderBook, arena: &Arena| {
        let level = *book.get_bid_level(500);
        assert_eq!(level.order_count, 3);
        assert_eq!(level.total_quantity, 30);
        let mut ids = Vec::new();
        let mut back = Vec::new();
        let mut at = level.head;
        while let Some(idx) = at {
            ids.push(arena.get(idx).id.0);
            at = arena.get(idx).next.link();
        }
        at = level.tail;
        while let Some(idx) = at {
            back.push(arena.get(idx).id.0);
            at = arena.get(idx).prev.link();
        }
        back.reverse();
        assert_eq!(ids, back);
        ids
    };
    book.requeue_order(slots[0], &mut arena);
    assert_eq!(queue(&book, &arena), vec![2, 3, 1]);
    book.requeue_order(slots[2], &mut arena);
    assert_eq!(queue(&book, &arena), vec![2, 1, 3]);
    book.requeue_order(slots[2], &mut arena);
    assert_eq!(queue(&book, &arena), vec![2, 1, 3]);
    book.requeue_order(slots[1], &mut arena);
    assert_eq!(queue(&book, &arena), vec![1, 3, 2]);
    assert_eq!(book.best_bid(), Some(500));
}

#[test]
fn removing_undoes_inserting_wherever_the_order_rests() {
    let mut arena = Arena::new(8);
    let mut book = OrderBook::new(config());
    let slot = book
        .insert_order(OrderId(1), Side::Bid, 500, 10, OrderType::Limit, None, None, &mut arena)
        .unwrap();
    // Above the window, and crossing an ask.
    book.insert_order(OrderId(2), Side::Ask, 600, 4, OrderType::Limit, None, None, &mut arena);
    let level = *book.get_bid_level(500);
    for price in [2000, 700, 500, 3] {
        let idx = book
            .insert_order(OrderId(9), Side::Bid, price, 7, OrderType::Limit, None, None, &mut arena)
            .unwrap();
        assert_eq!(book.best_bid(), Some(price.max(500)));
        assert_eq!(arena.len(), 3);
        assert_eq!(book.remove_order(idx, &mut arena), (Side::Bid, price));
        assert_eq!(book.best_bid(), Some(500));
        assert_eq!(book.best_ask(), Some(600));
        assert_eq!(*book.get_bid_level(500), level);
        assert_eq!(book.bid_available_at_or_above(0), 10);
        assert_eq!(book.lookup(OrderId(9)), None);
        assert_eq!(book.lookup(OrderId(1)), Some(slot));
        assert_eq!(arena.len(), 2);
    }
}
