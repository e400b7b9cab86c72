use matchx::types::{
    ArenaIndex, Order, OrderId, OrderType, Side, TimeInForce, ARENA_NULL, STP_NONE,
};

#[test]
fn side_opposite() {
    assert_eq!(Side::Bid.opposite(), Side::Ask);
    assert_eq!(Side::Ask.opposite(), Side::Bid);
}

#[test]
fn order_remaining_quantity() {
    let order = Order {
        id: OrderId(1),
        side: Side::Bid,
        price: 1000,
        quantity: 100,
        filled: 30,
        order_type: OrderType::Limit,
        time_in_force: TimeInForce::GTC,
        timestamp: 0,
        visible_quantity: 100,
        stp_group: STP_NONE,
        prev: ArenaIndex(ARENA_NULL),
        next: ArenaIndex(ARENA_NULL),
        _pad: 0,
    };
    assert_eq!(order.remaining(), 70);
    assert!(!order.is_filled());
}

#[test]
fn order_is_filled() {
    let order = Order {
        id: OrderId(1),
        side: Side::Bid,
        price: 100,
        quantity: 50,
        filled: 50,
        order_type: OrderType::Limit,
        time_in_force: TimeInForce::GTC,
        timestamp: 0,
        visible_quantity: 50,
        stp_group: STP_NONE,
        prev: ArenaIndex(ARENA_NULL),
        next: ArenaIndex(ARENA_NULL),
        _pad: 0,
    };
    assert_eq!(order.remaining(), 0);
    assert!(order.is_filled());
}

#[test]
fn arena_index_conversion() {
    let idx = ArenaIndex(42);
    assert_eq!(idx.as_usize(), 42);
}

#[test]
fn remaining_saturates_on_invalid_overfill_state() {
    let order = Order {
        id: OrderId(9),
        side: Side::Ask,
        price: 100,
        quantity: 10,
        filled: 15, // invalid state
        order_type: OrderType::Limit,
        time_in_force: TimeInForce::GTC,
        timestamp: 0,
        visible_quantity: 10,
        stp_group: STP_NONE,
        prev: ArenaIndex(ARENA_NULL),
        next: ArenaIndex(ARENA_NULL),
        _pad: 0,
    };
    assert_eq!(order.remaining(), 0);
    assert!(!order.is_valid_state());
}
