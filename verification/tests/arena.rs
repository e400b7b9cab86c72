use matchx::arena::{huge_page_len, Arena, FreeList, HugePageArena, HUGE_PAGE_BYTES};
use matchx::types::{
    ArenaIndex, Order, OrderId, OrderType, Side, TimeInForce, ARENA_NULL, STP_NONE,
};

fn make_order(id: u64) -> Order {
    Order {
        id: OrderId(id),
        side: Side::Bid,
        price: 100,
        quantity: 10,
        filled: 0,
        order_type: OrderType::Limit,
        time_in_force: TimeInForce::GTC,
        timestamp: 0,
        visible_quantity: 10,
        stp_group: STP_NONE,
        prev: ArenaIndex(ARENA_NULL),
        next: ArenaIndex(ARENA_NULL),
        _pad: 0,
    }
}

#[test]
fn alloc_and_get() {
    let mut arena = Arena::new(16);
    let idx = arena.allocate(make_order(1)).unwrap();
    assert_eq!(arena.get(idx).id, OrderId(1));
}

#[test]
fn alloc_reuses_freed_slot() {
    let mut arena = Arena::new(2);
    let a = arena.allocate(make_order(1)).unwrap();
    let b = arena.allocate(make_order(2)).unwrap();
    arena.free(a);
    let c = arena.allocate(make_order(3)).unwrap();
    assert_eq!(c, a);
    assert_eq!(arena.get(c).id, OrderId(3));
    assert_eq!(arena.get(b).id, OrderId(2));
}

#[test]
fn alloc_fails_when_full() {
    let mut arena = Arena::new(1);
    arena.allocate(make_order(1)).unwrap();
    assert!(arena.allocate(make_order(2)).is_none());
}

#[test]
fn len_tracks_live_count() {
    let mut arena = Arena::new(4);
    assert_eq!(arena.len(), 0);
    let a = arena.allocate(make_order(1)).unwrap();
    let b = arena.allocate(make_order(2)).unwrap();
    assert_eq!(arena.len(), 2);
    arena.free(a);
    assert_eq!(arena.len(), 1);
    arena.free(b);
    assert_eq!(arena.len(), 0);
}

#[test]
fn get_mut_modifies_in_place() {
    let mut arena = Arena::new(4);
    let idx = arena.allocate(make_order(1)).unwrap();
    arena.get_mut(idx).filled = 5;
    assert_eq!(arena.get(idx).filled, 5);
}

#[test]
fn slot_size_is_exactly_64_bytes() {
    assert_eq!(core::mem::size_of::<Order>(), 64);
}

#[test]
fn a_freed_slot_is_the_next_to_be_given_out() {
    let mut arena = Arena::new(3);
    let a = arena.allocate(make_order(1)).unwrap();
    let b = arena.allocate(make_order(2)).unwrap();
    assert_eq!((a, b), (ArenaIndex(0), ArenaIndex(1)));
    arena.free(a);
    arena.free(b);
    assert!(arena.is_empty());
    assert_eq!(arena.allocate(make_order(3)), Some(b));
    assert_eq!(arena.allocate(make_order(4)), Some(a));
    assert_eq!(arena.allocate(make_order(5)), Some(ArenaIndex(2)));
    assert_eq!(arena.allocate(make_order(6)), None);
    assert_eq!(arena.get(a).id, OrderId(4));
    assert_eq!(arena.len(), 3);
    assert_eq!(arena.capacity(), 3);
}

#[test]
fn an_arena_without_slots_gives_none_out() {
    let mut arena = Arena::new(0);
    assert_eq!(arena.allocate(make_order(1)), None);
    assert!(arena.is_empty());
}

#[test]
fn huge_pages_are_counted_whole() {
    assert_eq!(huge_page_len(0), 0);
    assert_eq!(huge_page_len(1), HUGE_PAGE_BYTES);
    assert_eq!(huge_page_len(32768), HUGE_PAGE_BYTES);
    assert_eq!(huge_page_len(32769), 2 * HUGE_PAGE_BYTES);
}

#[test]
fn a_huge_page_arena_gives_slots_out_as_an_arena_does() {
    let mut arena = HugePageArena::new(2);
    assert_eq!(arena.mapped_bytes(), 2097152);
    assert!(arena.is_empty());
    let a = arena.allocate(make_order(1)).unwrap();
    let b = arena.allocate(make_order(2)).unwrap();
    assert_eq!(arena.allocate(make_order(3)), None);
    arena.get_mut(b).filled = 4;
    assert_eq!(arena.get(b).remaining(), 6);
    arena.free(a);
    assert_eq!(arena.len(), 1);
    assert_eq!(arena.allocate(make_order(4)), Some(a));
    assert_eq!(arena.get(a).id, OrderId(4));
    assert_eq!(arena.capacity(), 2);
}

#[test]
fn a_free_list_gives_slots_out_in_order_and_takes_them_back() {
    let mut list = FreeList::new(3);
    assert!(list.is_empty());
    assert_eq!((list.take(), list.take(), list.take()), (Some(0), Some(1), Some(2)));
    assert_eq!(list.take(), None);
    list.give_back(1);
    list.give_back(0);
    assert_eq!(list.len(), 1);
    assert_eq!((list.take(), list.take(), list.take()), (Some(0), Some(1), None));
    assert_eq!(list.capacity(), 3);
}
