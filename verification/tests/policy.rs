use matchx::arena::Arena;
use matchx::book::OrderBook;
use matchx::policy::{Fill, MatchPolicy, PriceTimeFifo};
use matchx::types::{ArenaIndex, InstrumentConfig, OrderId, OrderType, Side, StpMode};

fn book_with(asks: &[u64]) -> (OrderBook, Arena) {
    let mut arena = Arena::new(16);
    let mut book = OrderBook::new(InstrumentConfig {
        id: 1,
        tick_size: 1,
        lot_size: 1,
        base_price: 0,
        max_ticks: 1000,
        stp_mode: StpMode::CancelNewest,
    });
    for (i, qty) in asks.iter().enumerate() {
        book.insert_order(
            OrderId(i as u64 + 1),
            Side::Ask,
            100,
            *qty,
            OrderType::Limit,
            None,
            None,
            &mut arena,
        );
    }
    (book, arena)
}

fn walk(asks: &[u64], wanted: u64) -> (Vec<(u64, u64)>, u64) {
    let (book, mut arena) = book_with(asks);
    let head = if asks.is_empty() {
        None
    } else {
        book.get_ask_level(100).head
    };
    let mut remaining = wanted;
    let mut sink: Vec<Fill> = Vec::new();
    PriceTimeFifo.match_order(OrderId(9), &mut remaining, 100, head, &mut arena, &mut sink);
    for fill in &sink {
        assert_eq!(fill.taker_id, OrderId(9));
        assert_eq!(fill.price, 100);
        assert_eq!(arena.get(fill.maker_idx).id, fill.maker_id);
    }
    (sink.iter().map(|f| (f.maker_id.0, f.qty)).collect(), remaining)
}

#[test]
fn a_level_is_walked_oldest_first() {
    assert_eq!(walk(&[5, 3, 4], 7), (vec![(1, 5), (2, 2)], 0));
    assert_eq!(walk(&[5, 3, 4], 20), (vec![(1, 5), (2, 3), (3, 4)], 8));
    assert_eq!(walk(&[5], 5), (vec![(1, 5)], 0));
    assert_eq!(walk(&[5], 0), (vec![], 0));
    assert_eq!(walk(&[], 5), (vec![], 5));
}

#[test]
fn a_walk_reports_the_slot_of_the_maker() {
    let (book, mut arena) = book_with(&[5]);
    let mut remaining = 2;
    let mut sink: Vec<Fill> = Vec::new();
    let head = book.get_ask_level(100).head;
    PriceTimeFifo.match_order(OrderId(2), &mut remaining, 100, head, &mut arena, &mut sink);
    assert_eq!(
        sink,
        vec![Fill {
            maker_idx: ArenaIndex(0),
            maker_id: OrderId(1),
            taker_id: OrderId(2),
            price: 100,
            qty: 2,
        }]
    );
}

#[test]
fn buyers_trade_at_or_below_their_price_and_sellers_at_or_above() {
    let policy = PriceTimeFifo;
    assert!(policy.is_price_acceptable(Side::Bid, 100, 100));
    assert!(policy.is_price_acceptable(Side::Bid, 101, 100));
    assert!(!policy.is_price_acceptable(Side::Bid, 99, 100));
    assert!(policy.is_price_acceptable(Side::Ask, 100, 100));
    assert!(policy.is_price_acceptable(Side::Ask, 99, 100));
    assert!(!policy.is_price_acceptable(Side::Ask, 101, 100));
}
