//! Hybrid order book: a dense tick window near the best prices and an ordered map
//! for the prices far from them.
use crate::arena::Arena;
use crate::book_model::{
    lemma_qty_bounds, lemma_qty_nonnegative, lemma_qty_remove, queue_qty, without, Book, Resting,
};
use crate::levels::{in_window, next_best, sane, Levels};
use crate::order_index::{order_index_contents, OrderIndex};
use crate::sparse_index::price_limit;
use crate::sums::{lemma_sum_monotone, lemma_sum_same, range_sum};
use crate::types::{
    ArenaIndex, InstrumentConfig, Order, OrderId, OrderType, PriceLevel, Side, TimeInForce,
    ARENA_NULL, STP_NONE,
};
use vstd::prelude::*;

verus! {

/// Order book of one instrument. Its orders live in an arena, which other owners
/// may share.
pub struct OrderBook {
    pub instrument_id: u32,
    bids: Levels,
    asks: Levels,
    best_bid_tick: Option<u64>,
    best_ask_tick: Option<u64>,
    index: OrderIndex,
    queues: Ghost<Map<(Side, u64), Seq<u64>>>,
}

/// Raw link to the `i`th order of `queue`, `ARENA_NULL` past its ends.
pub open spec fn link_to(queue: Seq<u64>, slots: Map<u64, u32>, i: int) -> u32 {
    if 0 <= i < queue.len() {
        slots[queue[i]]
    } else {
        ARENA_NULL
    }
}

/// The orders of `queue` are linked in its order.
pub open spec fn linked(queue: Seq<u64>, slots: Map<u64, u32>, arena: Map<u32, Order>) -> bool {
    forall|i: int|
        0 <= i < queue.len() ==> {
            let order = arena[slots[#[trigger] queue[i]]];
            &&& order.prev.0 == link_to(queue, slots, i - 1)
            &&& order.next.0 == link_to(queue, slots, i + 1)
        }
}

/// The level that stands for `queue`, whose orders hold `qty`.
pub open spec fn level_of(queue: Seq<u64>, slots: Map<u64, u32>, qty: int) -> PriceLevel {
    PriceLevel {
        total_quantity: qty as u64,
        order_count: queue.len() as u32,
        head: if queue.len() > 0 {
            Some(ArenaIndex(slots[queue[0]]))
        } else {
            None
        },
        tail: if queue.len() > 0 {
            Some(ArenaIndex(slots[queue.last()]))
        } else {
            None
        },
    }
}

/// The order in slot `s` after the `k`th order of `queue` has left it.
pub open spec fn relinked(
    queue: Seq<u64>,
    slots: Map<u64, u32>,
    arena: Map<u32, Order>,
    k: int,
    s: u32,
) -> Order {
    let order = arena[s];
    Order {
        next: if k > 0 && s == slots[queue[k - 1]] {
            ArenaIndex(link_to(queue, slots, k + 1))
        } else {
            order.next
        },
        prev: if k + 1 < queue.len() && s == slots[queue[k + 1]] {
            ArenaIndex(link_to(queue, slots, k - 1))
        } else {
            order.prev
        },
        ..order
    }
}

/// The order in slot `s` after the `k`th order of `queue`, which was not the last, has
/// gone to the end of it.
pub open spec fn requeued(
    queue: Seq<u64>,
    slots: Map<u64, u32>,
    arena: Map<u32, Order>,
    k: int,
    s: u32,
) -> Order {
    let order = arena[s];
    Order {
        next: if s == slots[queue[k]] {
            ArenaIndex(ARENA_NULL)
        } else if s == slots[queue.last()] {
            ArenaIndex(slots[queue[k]])
        } else if k > 0 && s == slots[queue[k - 1]] {
            ArenaIndex(slots[queue[k + 1]])
        } else {
            order.next
        },
        prev: if s == slots[queue[k]] {
            ArenaIndex(slots[queue.last()])
        } else if s == slots[queue[k + 1]] {
            ArenaIndex(link_to(queue, slots, k - 1))
        } else {
            order.prev
        },
        ..order
    }
}

/// Distinct members of a finite set are no more than it has.
proof fn lemma_distinct(s: Seq<u32>, members: Set<u32>)
    requires
        s.no_duplicates(),
        members.finite(),
        forall|i: int| 0 <= i < s.len() ==> members.contains(#[trigger] s[i]),
    ensures
        s.len() <= members.len(),
{
    s.unique_seq_to_set();
    assert(s.to_set().subset_of(members));
    vstd::set_lib::lemma_len_subset(s.to_set(), members);
}

/// The links of a queue whose `k`th order, which was not the last, has gone to the end.
#[verifier::spinoff_prover]
#[verifier::rlimit(40)]
proof fn lemma_moved_links(
    queue: Seq<u64>,
    slots: Map<u64, u32>,
    pre: Map<u32, Order>,
    post: Map<u32, Order>,
    k: int,
)
    requires
        0 <= k < queue.len() - 1,
        linked(queue, slots, pre),
        forall|a: int, b: int|
            0 <= a < queue.len() && 0 <= b < queue.len() && a != b ==> slots[#[trigger] queue[a]]
                != slots[#[trigger] queue[b]],
        forall|i: int|
            0 <= i < queue.len() ==> post[slots[#[trigger] queue[i]]] == requeued(
                queue,
                slots,
                pre,
                k,
                slots[queue[i]],
            ),
    ensures
        linked(queue.remove(k).push(queue[k]), slots, post),
{
    let after = queue.remove(k).push(queue[k]);
    let last = queue.len() - 1;
    assert(queue.last() == queue[last]);
    assert forall|i: int| 0 <= i < after.len() implies {
        let o = post[slots[#[trigger] after[i]]];
        &&& o.prev.0 == link_to(after, slots, i - 1)
        &&& o.next.0 == link_to(after, slots, i + 1)
    } by {
        let j = if i < k {
            i
        } else if i < last {
            i + 1
        } else {
            k
        };
        assert(after[i] == queue[j]);
        if i > 0 {
            let before = if i - 1 < k {
                i - 1
            } else {
                i
            };
            assert(after[i - 1] == queue[before]);
        }
        if i + 1 < last {
            let behind = if i + 1 < k {
                i + 1
            } else {
                i + 2
            };
            assert(after[i + 1] == queue[behind]);
        }
    }
}

/// No level of a well formed book holds a negative quantity.
proof fn lemma_level_nonnegative(book: Book, side: Side, price: u64)
    requires
        book.wf(),
    ensures
        book.level_qty(side, price as int) >= 0,
{
    let q = book.queue(side, price);
    assert forall|i: int| 0 <= i < q.len() implies book.orders[#[trigger] q[i]].filled
        <= book.orders[q[i]].quantity by {
        assert(book.placed((side, price), book.queues[(side, price)][i]));
    }
    lemma_qty_nonnegative(book.orders, q);
}

impl OrderBook {
    /// The instrument.
    pub closed spec fn instrument(&self) -> u32 {
        self.instrument_id
    }

    /// The arena slot of each resting order.
    pub closed spec fn slots(&self) -> Map<u64, u32> {
        order_index_contents(self.index)
    }

    /// The levels of `side`.
    closed spec fn levels(&self, side: Side) -> Levels {
        match side {
            Side::Bid => self.bids,
            Side::Ask => self.asks,
        }
    }

    /// The level of `side` at `price`.
    pub closed spec fn level(&self, side: Side, price: u64) -> PriceLevel {
        self.levels(side).level(price)
    }

    /// The book that the levels and the orders in `arena` stand for.
    pub closed spec fn model(&self, arena: Arena) -> Book {
        Book {
            orders: Map::new(
                |id: u64| self.slots().contains_key(id),
                |id: u64| arena@[self.slots()[id]].resting(),
            ),
            queues: self.queues@,
            best_bid: self.best_bid_tick,
            best_ask: self.best_ask_tick,
            base: self.bids.window_base(),
            ticks: self.bids.window_ticks(),
        }
    }

    /// Whether a resting order is in `slot`.
    pub open spec fn owns(&self, slot: u32) -> bool {
        exists|id: u64| #[trigger] self.slots().contains_key(id) && self.slots()[id] == slot
    }

    /// Slot, links and level of every order are what the queues say.
    #[verifier::opaque]
    pub closed spec fn wf(&self, arena: Arena) -> bool {
        let book = self.model(arena);
        let slots = self.slots();
        &&& arena.wf()
        &&& self.bids.wf()
        &&& self.asks.wf()
        &&& self.bids.window_base() == self.asks.window_base()
        &&& self.bids.window_ticks() == self.asks.window_ticks()
        &&& book.wf()
        &&& forall|id: u64| #[trigger]
            slots.contains_key(id) ==> arena@.contains_key(slots[id]) && arena@[slots[id]].id.0 == id
        &&& forall|level: (Side, u64)| linked(#[trigger] self.queues@[level], slots, arena@)
        &&& forall|side: Side, price: u64| #[trigger]
            self.level(side, price) == level_of(
                book.queue(side, price),
                slots,
                book.level_qty(side, price as int),
            )
        &&& forall|side: Side, price: u64|
            0 <= #[trigger] book.level_qty(side, price as int) <= u64::MAX && book.queue(
                side,
                price,
            ).len() <= u32::MAX
    }

    /// The levels hold what the model's queues hold.
    proof fn lemma_depth(&self, arena: Arena, side: Side)
        requires
            self.wf(arena),
        ensures
            self.levels(side).total() == self.model(arena).side_qty(side),
            forall|p: int| #[trigger]
                self.levels(side).qty(p) == self.model(arena).level_qty(side, p),
            self.levels(side).prices() == self.model(arena).prices(side),
    {
        reveal(OrderBook::wf);
        let levels = self.levels(side);
        let book = self.model(arena);
        assert forall|p: int| #[trigger] levels.qty(p) == book.level_qty(side, p) by {
            if 0 <= p < price_limit() {
                assert(self.level(side, p as u64) == level_of(
                    book.queue(side, p as u64),
                    self.slots(),
                    book.level_qty(side, p as int),
                ));
                assert(0 <= book.level_qty(side, (p as u64) as int) <= u64::MAX);
            }
        }
        lemma_sum_same(
            |p: int| levels.qty(p),
            |p: int| book.level_qty(side, p),
            0,
            price_limit(),
        );
        assert forall|p: u64| levels.prices().contains(p) == book.prices(side).contains(p) by {
            assert(self.level(side, p) == level_of(
                book.queue(side, p),
                self.slots(),
                book.level_qty(side, p as int),
            ));
            assert(0 <= book.level_qty(side, p as int) <= u64::MAX);
        }
        assert(levels.prices() =~= book.prices(side));
    }

    /// Distinct orders have distinct slots.
    proof fn lemma_slots_distinct(&self, arena: Arena, a: u64, b: u64)
        requires
            self.wf(arena),
            self.slots().contains_key(a),
            self.slots().contains_key(b),
            a != b,
        ensures
            self.slots()[a] != self.slots()[b],
    {
        reveal(OrderBook::wf);
    }

    /// No more orders are queued at a level, and no more prices hold orders, than
    /// slots are occupied.
    proof fn lemma_counts(&self, arena: Arena, side: Side)
        requires
            self.wf(arena),
        ensures
            forall|price: u64|
                #[trigger] self.queues@[(side, price)].len() <= arena@.dom().len(),
            forall|s: Seq<u64>|
                #[trigger] s.no_duplicates() && (forall|i: int|
                    0 <= i < s.len() ==> self.levels(side).level(#[trigger] s[i]).order_count > 0)
                    ==> s.len() <= arena@.dom().len(),
            arena@.dom().len() + 2 < usize::MAX / 16,
    {
        reveal(OrderBook::wf);
        let book = self.model(arena);
        arena.lemma_slots();
        assert forall|price: u64| #[trigger] self.queues@[(side, price)].len() <= arena@.dom().len() by {
            let level = (side, price);
            let queue = self.queues@[level];
            let taken = Seq::new(queue.len(), |i: int| self.slots()[queue[i]]);
            assert(book.queues[level].no_duplicates());
            assert forall|i: int| 0 <= i < taken.len() implies arena@.dom().contains(
                #[trigger] taken[i],
            ) by {
                assert(book.placed(level, book.queues[level][i]));
            }
            assert forall|i: int, j: int| 0 <= i < taken.len() && 0 <= j < taken.len() && i != j implies
                taken[i] != taken[j] by {
                assert(book.placed(level, book.queues[level][i]));
                assert(book.placed(level, book.queues[level][j]));
                self.lemma_slots_distinct(arena, queue[i], queue[j]);
            }
            lemma_distinct(taken, arena@.dom());
        }
        assert forall|s: Seq<u64>|
            #[trigger] s.no_duplicates() && (forall|i: int|
                0 <= i < s.len() ==> self.levels(side).level(#[trigger] s[i]).order_count > 0)
            implies s.len() <= arena@.dom().len() by {
            let taken = Seq::new(s.len(), |i: int| self.slots()[self.queues@[(side, s[i])][0]]);
            assert forall|i: int| 0 <= i < s.len() implies #[trigger] book.placed(
                (side, s[i]),
                book.queues[(side, s[i])][0],
            ) by {
                assert(self.levels(side).level(s[i]).order_count > 0);
                assert(self.level(side, s[i]) == level_of(
                    book.queue(side, s[i]),
                    self.slots(),
                    book.level_qty(side, s[i] as int),
                ));
            }
            assert forall|i: int| 0 <= i < taken.len() implies arena@.dom().contains(
                #[trigger] taken[i],
            ) by {
                assert(book.placed((side, s[i]), book.queues[(side, s[i])][0]));
            }
            assert forall|i: int, j: int| 0 <= i < taken.len() && 0 <= j < taken.len() && i != j implies
                taken[i] != taken[j] by {
                assert(book.placed((side, s[i]), book.queues[(side, s[i])][0]));
                assert(book.placed((side, s[j]), book.queues[(side, s[j])][0]));
                self.lemma_slots_distinct(
                    arena,
                    self.queues@[(side, s[i])][0],
                    self.queues@[(side, s[j])][0],
                );
            }
            lemma_distinct(taken, arena@.dom());
        }
    }

    /// What a level of a well formed book is.
    proof fn lemma_level(&self, arena: Arena, side: Side, price: u64)
        requires
            self.wf(arena),
        ensures
            arena.wf(),
            self.bids.wf(),
            self.asks.wf(),
            self.levels(side).readable(),
            self.bids.window_base() == self.asks.window_base(),
            self.bids.window_ticks() == self.asks.window_ticks(),
            self.model(arena).wf(),
            self.level(side, price) == level_of(
                self.model(arena).queue(side, price),
                self.slots(),
                self.model(arena).level_qty(side, price as int),
            ),
            self.levels(side).total() == self.model(arena).side_qty(side) <= u64::MAX,
            0 <= self.model(arena).level_qty(side, price as int) <= self.model(arena).side_qty(side),
            self.model(arena).queue(side, price).len() <= arena@.dom().len(),
            self.levels(side).sparse_keys().len() + 1 < usize::MAX / 16,
            forall|i: int|
                0 <= i < self.model(arena).queue(side, price).len() ==> {
                    let id = #[trigger] self.model(arena).queue(side, price)[i];
                    &&& self.model(arena).placed((side, price), id)
                    &&& self.slots().contains_key(id)
                    &&& arena@.contains_key(self.slots()[id])
                    &&& arena@[self.slots()[id]].id.0 == id
                },
    {
        reveal(OrderBook::wf);
        let book = self.model(arena);
        self.lemma_depth(arena, side);
        self.lemma_counts(arena, side);
        self.levels(side).lemma_levels();
        self.levels(side).lemma_readable();
        assert(self.level(side, price) == level_of(
            book.queue(side, price),
            self.slots(),
            book.level_qty(side, price as int),
        ));
        assert(self.levels(side).sparse_keys().no_duplicates());
        assert(self.queues@[(side, price)].len() <= arena@.dom().len());
        let f = |p: int| book.level_qty(side, p);
        assert forall|p: int| 0 <= p < price_limit() implies #[trigger] f(p) >= 0 by {
            assert(book.level_qty(side, (p as u64) as int) >= 0);
        }
        lemma_sum_monotone(f, 0, price as int, price + 1, price_limit());
        reveal_with_fuel(range_sum, 2);
        assert forall|i: int| 0 <= i < book.queue(side, price).len() implies book.placed(
            (side, price),
            #[trigger] book.queue(side, price)[i],
        ) by {
            assert(book.placed((side, price), book.queues[(side, price)][i]));
        }
    }

    /// What putting an order at the end of its queue makes of the book.
    proof fn lemma_inserted(
        pre: OrderBook,
        pre_arena: Arena,
        post: OrderBook,
        post_arena: Arena,
        id: u64,
        slot: u32,
        order: Order,
    )
        requires
            pre.wf(pre_arena),
            post_arena.wf(),
            post.bids.wf(),
            post.asks.wf(),
            post.bids.window_base() == post.asks.window_base() == pre.bids.window_base(),
            post.bids.window_ticks() == post.asks.window_ticks() == pre.bids.window_ticks(),
            !pre.slots().contains_key(id),
            !pre_arena@.contains_key(slot),
            order.id.0 == id,
            order.filled == 0,
            post.slots() == pre.slots().insert(id, slot),
            ({
                let book = pre.model(pre_arena);
                let level = (order.side, order.price);
                let queue = book.queues[level];
                let slots = pre.slots();
                let tail = link_to(queue, slots, queue.len() - 1);
                &&& post.queues@ == pre.queues@.insert(level, queue.push(id))
                &&& post.model(post_arena).best_bid == book.rest(id, order.resting()).best_bid
                &&& post.model(post_arena).best_ask == book.rest(id, order.resting()).best_ask
                &&& order.prev.0 == tail
                &&& order.next.0 == ARENA_NULL
                &&& post_arena@.contains_key(slot)
                &&& post_arena@[slot] == order
                &&& forall|s: u32| #[trigger]
                    pre_arena@.contains_key(s) ==> post_arena@.contains_key(s) && post_arena@[s] == (if s
                        == tail && queue.len() > 0 {
                        Order { next: ArenaIndex(slot), ..pre_arena@[s] }
                    } else {
                        pre_arena@[s]
                    })
                &&& book.level_qty(level.0, level.1 as int) + order.quantity <= u64::MAX
                &&& queue.len() + 1 <= u32::MAX
                &&& post.level(level.0, level.1) == level_of(
                    queue.push(id),
                    post.slots(),
                    book.level_qty(level.0, level.1 as int) + order.quantity,
                )
                &&& forall|s: Side, p: u64|
                    (s, p) != level ==> #[trigger] post.level(s, p) == pre.level(s, p)
            }),
        ensures
            post.wf(post_arena),
            post.model(post_arena) == pre.model(pre_arena).rest(id, order.resting()),
    {
        reveal(OrderBook::wf);
        let book = pre.model(pre_arena);
        let after = book.rest(id, order.resting());
        let level = (order.side, order.price);
        let queue = book.queues[level];
        let slots = pre.slots();
        book.lemma_rest(id, order.resting());
        assert forall|x: u64| #[trigger] slots.contains_key(x) implies post_arena@.contains_key(
            slots[x],
        ) && post_arena@[slots[x]].id.0 == x && post_arena@[slots[x]].resting() == book.orders[x] by {
            assert(pre_arena@.contains_key(slots[x]));
        }
        assert(post.model(post_arena).orders =~= after.orders);
        assert(post.model(post_arena) =~= after);
        assert forall|l: (Side, u64)| linked(
            #[trigger] post.queues@[l],
            post.slots(),
            post_arena@,
        ) by {
            Self::lemma_inserted_links(pre, pre_arena, post, post_arena, id, slot, order, l);
        }
        assert forall|s: Side, p: u64| #[trigger] post.level(s, p) == level_of(
            after.queue(s, p),
            post.slots(),
            after.level_qty(s, p as int),
        ) && 0 <= after.level_qty(s, p as int) <= u64::MAX && after.queue(s, p).len() <= u32::MAX by {
            assert(pre.level(s, p) == level_of(book.queue(s, p), slots, book.level_qty(s, p as int)));
            assert(0 <= book.level_qty(s, p as int) <= u64::MAX);
            if (s, p) != level && book.queue(s, p).len() > 0 {
                let q = book.queue(s, p);
                assert(book.placed((s, p), book.queues[(s, p)][0]));
                assert(book.placed((s, p), book.queues[(s, p)][q.len() - 1]));
            }
        }
        assert forall|s: Side, p: u64| 0 <= #[trigger] after.level_qty(s, p as int) <= u64::MAX
            && after.queue(s, p).len() <= u32::MAX by {
            assert(post.level(s, p) == post.level(s, p));
        }
    }

    proof fn lemma_inserted_links(
        pre: OrderBook,
        pre_arena: Arena,
        post: OrderBook,
        post_arena: Arena,
        id: u64,
        slot: u32,
        order: Order,
        l: (Side, u64),
    )
        requires
            pre.wf(pre_arena),
            !pre.slots().contains_key(id),
            !pre_arena@.contains_key(slot),
            post.slots() == pre.slots().insert(id, slot),
            ({
                let level = (order.side, order.price);
                let queue = pre.queues@[level];
                let slots = pre.slots();
                let tail = link_to(queue, slots, queue.len() - 1);
                &&& post.queues@ == pre.queues@.insert(level, queue.push(id))
                &&& order.prev.0 == tail
                &&& order.next.0 == ARENA_NULL
                &&& post_arena@[slot] == order
                &&& forall|s: u32| #[trigger]
                    pre_arena@.contains_key(s) ==> post_arena@[s] == (if s == tail && queue.len() > 0 {
                        Order { next: ArenaIndex(slot), ..pre_arena@[s] }
                    } else {
                        pre_arena@[s]
                    })
            }),
        ensures
            linked(post.queues@[l], post.slots(), post_arena@),
    {
        reveal(OrderBook::wf);
        let book = pre.model(pre_arena);
        let level = (order.side, order.price);
        let queue = book.queues[level];
        let slots = pre.slots();
        let q = pre.queues@[l];
        let after = post.queues@[l];
        assert(linked(q, slots, pre_arena@));
        assert(book.queues[l].no_duplicates());
        assert forall|i: int| 0 <= i < q.len() implies slots.contains_key(#[trigger] q[i])
            && pre_arena@.contains_key(slots[q[i]]) && q[i] != id by {
            assert(book.placed(l, book.queues[l][i]));
        }
        if queue.len() > 0 {
            assert(book.placed(level, book.queues[level][queue.len() - 1]));
        }
        assert forall|i: int| 0 <= i < after.len() implies {
            let o = post_arena@[post.slots()[#[trigger] after[i]]];
            &&& o.prev.0 == link_to(after, post.slots(), i - 1)
            &&& o.next.0 == link_to(after, post.slots(), i + 1)
        } by {
            if i < q.len() {
                let x = q[i];
                assert(after[i] == x);
                assert(book.placed(l, book.queues[l][i]));
                if i > 0 {
                    assert(after[i - 1] == q[i - 1]);
                }
                if i + 1 < q.len() {
                    assert(after[i + 1] == q[i + 1]);
                }
                if l != level && queue.len() > 0 {
                    assert(x != queue.last());
                    pre.lemma_slots_distinct(pre_arena, x, queue.last());
                }
                if l == level && i + 1 < q.len() {
                    pre.lemma_slots_distinct(pre_arena, x, queue.last());
                }
            } else {
                assert(l == level && after[i] == id);
                if i > 0 {
                    assert(after[i - 1] == q[i - 1]);
                }
            }
        }
    }

    /// What taking an order out of its queue makes of the book.
    #[verifier::spinoff_prover]
    #[verifier::rlimit(40)]
    proof fn lemma_removed(
        pre: OrderBook,
        pre_arena: Arena,
        post: OrderBook,
        post_arena: Arena,
        id: u64,
    )
        requires
            pre.wf(pre_arena),
            post_arena.wf(),
            post.bids.wf(),
            post.asks.wf(),
            post.bids.window_base() == post.asks.window_base() == pre.bids.window_base(),
            post.bids.window_ticks() == post.asks.window_ticks() == pre.bids.window_ticks(),
            pre.slots().contains_key(id),
            post.slots() == pre.slots().remove(id),
            ({
                let book = pre.model(pre_arena);
                let order = book.orders[id];
                let level = (order.side, order.price);
                let queue = book.queues[level];
                let slots = pre.slots();
                let k = book.position(id);
                &&& post.queues@ == pre.queues@.insert(level, queue.remove(k))
                &&& post.model(post_arena).best_bid == book.take_out(id).best_bid
                &&& post.model(post_arena).best_ask == book.take_out(id).best_ask
                &&& forall|s: u32|
                    pre_arena@.contains_key(s) && s != slots[id] ==> #[trigger] post_arena@.contains_key(
                        s,
                    ) && post_arena@[s] == relinked(queue, slots, pre_arena@, k, s)
                &&& post.level(level.0, level.1) == level_of(
                    queue.remove(k),
                    slots,
                    book.level_qty(level.0, level.1 as int) - order.unfilled(),
                )
                &&& forall|s: Side, p: u64|
                    (s, p) != level ==> #[trigger] post.level(s, p) == pre.level(s, p)
            }),
        ensures
            post.wf(post_arena),
            post.model(post_arena) == pre.model(pre_arena).take_out(id),
    {
        reveal(OrderBook::wf);
        let book = pre.model(pre_arena);
        let order = book.orders[id];
        let after = book.take_out(id);
        let level = (order.side, order.price);
        let queue = book.queues[level];
        let slots = pre.slots();
        let k = book.position(id);
        book.lemma_take_out(id);
        book.lemma_position(id);
        assert forall|x: u64| #[trigger] post.slots().contains_key(x) implies post_arena@.contains_key(
            slots[x],
        ) && post_arena@[slots[x]].id.0 == x && post_arena@[slots[x]].resting() == book.orders[x] by {
            assert(pre_arena@.contains_key(slots[x]));
            pre.lemma_slots_distinct(pre_arena, x, id);
            assert(post_arena@.contains_key(slots[x]));
        }
        assert(post.model(post_arena).orders =~= after.orders);
        assert(post.model(post_arena) =~= after);
        assert forall|l: (Side, u64)| linked(
            #[trigger] post.queues@[l],
            post.slots(),
            post_arena@,
        ) by {
            Self::lemma_removed_links(pre, pre_arena, post, post_arena, id, l);
        }
        assert forall|s: Side, p: u64| #[trigger] post.level(s, p) == level_of(
            after.queue(s, p),
            post.slots(),
            after.level_qty(s, p as int),
        ) && 0 <= after.level_qty(s, p as int) <= u64::MAX && after.queue(s, p).len() <= u32::MAX by {
            assert(pre.level(s, p) == level_of(book.queue(s, p), slots, book.level_qty(s, p as int)));
            assert(0 <= book.level_qty(s, p as int) <= u64::MAX);
            let q = after.queue(s, p);
            if q.len() > 0 {
                assert(after.placed((s, p), after.queues[(s, p)][0]));
                assert(after.placed((s, p), after.queues[(s, p)][q.len() - 1]));
            }
            lemma_level_nonnegative(after, s, p);
        }
        assert forall|s: Side, p: u64| 0 <= #[trigger] after.level_qty(s, p as int) <= u64::MAX
            && after.queue(s, p).len() <= u32::MAX by {
            assert(post.level(s, p) == post.level(s, p));
        }
    }

    proof fn lemma_removed_links(
        pre: OrderBook,
        pre_arena: Arena,
        post: OrderBook,
        post_arena: Arena,
        id: u64,
        l: (Side, u64),
    )
        requires
            pre.wf(pre_arena),
            pre.slots().contains_key(id),
            post.slots() == pre.slots().remove(id),
            ({
                let book = pre.model(pre_arena);
                let order = book.orders[id];
                let level = (order.side, order.price);
                let queue = book.queues[level];
                let slots = pre.slots();
                let k = book.position(id);
                &&& post.queues@ == pre.queues@.insert(level, queue.remove(k))
                &&& forall|s: u32|
                    pre_arena@.contains_key(s) && s != slots[id] ==> #[trigger] post_arena@.contains_key(
                        s,
                    ) && post_arena@[s] == relinked(queue, slots, pre_arena@, k, s)
            }),
        ensures
            linked(post.queues@[l], post.slots(), post_arena@),
    {
        reveal(OrderBook::wf);
        let book = pre.model(pre_arena);
        let order = book.orders[id];
        let level = (order.side, order.price);
        let queue = book.queues[level];
        let slots = pre.slots();
        let k = book.position(id);
        book.lemma_position(id);
        let q = pre.queues@[l];
        let after = post.queues@[l];
        assert(linked(q, slots, pre_arena@));
        assert(book.queues[l].no_duplicates());
        assert(book.queues[level].no_duplicates());
        assert forall|i: int| 0 <= i < q.len() implies slots.contains_key(#[trigger] q[i])
            && pre_arena@.contains_key(slots[q[i]]) && book.placed(l, q[i]) by {
            assert(book.placed(l, book.queues[l][i]));
        }
        assert forall|i: int| 0 <= i < queue.len() implies slots.contains_key(#[trigger] queue[i])
            && book.placed(level, queue[i]) by {
            assert(book.placed(level, book.queues[level][i]));
        }
        assert forall|i: int| 0 <= i < after.len() implies {
            let o = post_arena@[post.slots()[#[trigger] after[i]]];
            &&& o.prev.0 == link_to(after, post.slots(), i - 1)
            &&& o.next.0 == link_to(after, post.slots(), i + 1)
        } by {
            let j = if l == level && i >= k {
                i + 1
            } else {
                i
            };
            let x = q[j];
            assert(after[i] == x);
            assert(x != id);
            pre.lemma_slots_distinct(pre_arena, x, id);
            assert(post_arena@.contains_key(slots[x]));
            if k > 0 && x != queue[k - 1] {
                pre.lemma_slots_distinct(pre_arena, x, queue[k - 1]);
            }
            if k + 1 < queue.len() && x != queue[k + 1] {
                pre.lemma_slots_distinct(pre_arena, x, queue[k + 1]);
            }
            if l == level {
                if i > 0 {
                    let jj = if i - 1 >= k {
                        i
                    } else {
                        i - 1
                    };
                    assert(after[i - 1] == q[jj]);
                    assert(q[jj] != id);
                }
                if i + 1 < after.len() {
                    let jj = if i + 1 >= k {
                        i + 2
                    } else {
                        i + 1
                    };
                    assert(after[i + 1] == q[jj]);
                    assert(q[jj] != id);
                }
            } else {
                assert(after == q);
                if k > 0 {
                    assert(book.placed(level, queue[k - 1]));
                }
                if k + 1 < queue.len() {
                    assert(book.placed(level, queue[k + 1]));
                }
            }
        }
    }

    /// What filling part of an order makes of the book.
    proof fn lemma_reduced(
        pre: OrderBook,
        pre_arena: Arena,
        post: OrderBook,
        post_arena: Arena,
        slot: u32,
        delta: u64,
    )
        requires
            pre.wf(pre_arena),
            pre.owns(slot),
            delta <= pre_arena@[slot].unfilled(),
            post_arena.wf(),
            post.bids.wf(),
            post.asks.wf(),
            post.bids.window_base() == post.asks.window_base() == pre.bids.window_base(),
            post.bids.window_ticks() == post.asks.window_ticks() == pre.bids.window_ticks(),
            post.slots() == pre.slots(),
            post.queues@ == pre.queues@,
            post.best_bid_tick == pre.best_bid_tick,
            post.best_ask_tick == pre.best_ask_tick,
            ({
                let order = pre_arena@[slot];
                let level = pre.level(order.side, order.price);
                &&& post_arena@ == pre_arena@.insert(
                    slot,
                    Order { filled: (order.filled + delta) as u64, ..order },
                )
                &&& post.level(order.side, order.price) == PriceLevel {
                    total_quantity: (level.total_quantity - delta) as u64,
                    ..level
                }
                &&& forall|s: Side, p: u64|
                    (s, p) != (order.side, order.price) ==> #[trigger] post.level(s, p) == pre.level(
                        s,
                        p,
                    )
            }),
        ensures
            post.wf(post_arena),
            post.model(post_arena) == pre.model(pre_arena).reduce(
                pre_arena@[slot].id.0,
                delta as int,
            ),
    {
        pre.lemma_owned(pre_arena, slot);
        reveal(OrderBook::wf);
        let order = pre_arena@[slot];
        let id = order.id.0;
        let book = pre.model(pre_arena);
        let after = book.reduce(id, delta as int);
        let slots = pre.slots();
        book.lemma_reduce(id, delta as int);
        assert forall|x: u64| #[trigger] slots.contains_key(x) && x != id implies slots[x] != slot by {
            pre.lemma_slots_distinct(pre_arena, x, id);
        }
        assert(post.model(post_arena).orders =~= after.orders);
        assert(post.model(post_arena) =~= after);
        assert forall|l: (Side, u64)| linked(
            #[trigger] post.queues@[l],
            post.slots(),
            post_arena@,
        ) by {
            assert(linked(pre.queues@[l], slots, pre_arena@));
        }
        assert forall|s: Side, p: u64| #[trigger] post.level(s, p) == level_of(
            after.queue(s, p),
            slots,
            after.level_qty(s, p as int),
        ) && 0 <= after.level_qty(s, p as int) <= u64::MAX && after.queue(s, p).len() <= u32::MAX by {
            assert(pre.level(s, p) == level_of(book.queue(s, p), slots, book.level_qty(s, p as int)));
            assert(0 <= book.level_qty(s, p as int) <= u64::MAX);
            lemma_level_nonnegative(after, s, p);
        }
        assert forall|s: Side, p: u64| 0 <= #[trigger] after.level_qty(s, p as int) <= u64::MAX
            && after.queue(s, p).len() <= u32::MAX by {
            assert(post.level(s, p) == post.level(s, p));
        }
    }

    /// What sending an order to the end of its queue makes of the book.
    proof fn lemma_requeued(
        pre: OrderBook,
        pre_arena: Arena,
        post: OrderBook,
        post_arena: Arena,
        id: u64,
    )
        requires
            pre.wf(pre_arena),
            post_arena.wf(),
            post.bids.wf(),
            post.asks.wf(),
            post.bids.window_base() == post.asks.window_base() == pre.bids.window_base(),
            post.bids.window_ticks() == post.asks.window_ticks() == pre.bids.window_ticks(),
            pre.slots().contains_key(id),
            post.slots() == pre.slots(),
            post.best_bid_tick == pre.best_bid_tick,
            post.best_ask_tick == pre.best_ask_tick,
            ({
                let book = pre.model(pre_arena);
                let order = book.orders[id];
                let level = (order.side, order.price);
                let queue = book.queues[level];
                let slots = pre.slots();
                let k = book.position(id);
                &&& k + 1 < queue.len()
                &&& post.queues@ == pre.queues@.insert(level, queue.remove(k).push(id))
                &&& forall|s: u32| #[trigger]
                    pre_arena@.contains_key(s) ==> post_arena@.contains_key(s) && post_arena@[s]
                        == requeued(queue, slots, pre_arena@, k, s)
                &&& post.level(level.0, level.1) == level_of(
                    queue.remove(k).push(id),
                    slots,
                    book.level_qty(level.0, level.1 as int),
                )
                &&& forall|s: Side, p: u64|
                    (s, p) != level ==> #[trigger] post.level(s, p) == pre.level(s, p)
            }),
        ensures
            post.wf(post_arena),
            post.model(post_arena) == pre.model(pre_arena).requeue(id),
    {
        reveal(OrderBook::wf);
        let book = pre.model(pre_arena);
        let after = book.requeue(id);
        let slots = pre.slots();
        book.lemma_requeue(id);
        book.lemma_position(id);
        assert forall|x: u64| #[trigger] slots.contains_key(x) implies post_arena@.contains_key(
            slots[x],
        ) && post_arena@[slots[x]].id.0 == x && post_arena@[slots[x]].resting() == book.orders[x] by {
            assert(pre_arena@.contains_key(slots[x]));
        }
        assert(post.model(post_arena).orders =~= after.orders);
        assert(post.model(post_arena) =~= after);
        assert forall|l: (Side, u64)| linked(
            #[trigger] post.queues@[l],
            post.slots(),
            post_arena@,
        ) by {
            Self::lemma_requeued_links(pre, pre_arena, post, post_arena, id, l);
        }
        assert forall|s: Side, p: u64| #[trigger] post.level(s, p) == level_of(
            after.queue(s, p),
            slots,
            after.level_qty(s, p as int),
        ) && 0 <= after.level_qty(s, p as int) <= u64::MAX && after.queue(s, p).len() <= u32::MAX by {
            assert(pre.level(s, p) == level_of(book.queue(s, p), slots, book.level_qty(s, p as int)));
            assert(0 <= book.level_qty(s, p as int) <= u64::MAX);
        }
        assert forall|s: Side, p: u64| 0 <= #[trigger] after.level_qty(s, p as int) <= u64::MAX
            && after.queue(s, p).len() <= u32::MAX by {
            assert(post.level(s, p) == post.level(s, p));
        }
    }

    proof fn lemma_requeued_links(
        pre: OrderBook,
        pre_arena: Arena,
        post: OrderBook,
        post_arena: Arena,
        id: u64,
        l: (Side, u64),
    )
        requires
            pre.wf(pre_arena),
            pre.slots().contains_key(id),
            post.slots() == pre.slots(),
            ({
                let book = pre.model(pre_arena);
                let order = book.orders[id];
                let level = (order.side, order.price);
                let queue = book.queues[level];
                let slots = pre.slots();
                let k = book.position(id);
                &&& k + 1 < queue.len()
                &&& post.queues@ == pre.queues@.insert(level, queue.remove(k).push(id))
                &&& forall|s: u32| #[trigger]
                    pre_arena@.contains_key(s) ==> post_arena@.contains_key(s) && post_arena@[s]
                        == requeued(queue, slots, pre_arena@, k, s)
            }),
        ensures
            linked(post.queues@[l], post.slots(), post_arena@),
    {
        reveal(OrderBook::wf);
        let book = pre.model(pre_arena);
        let order = book.orders[id];
        let level = (order.side, order.price);
        let queue = book.queues[level];
        let slots = pre.slots();
        let k = book.position(id);
        book.lemma_position(id);
        let q = pre.queues@[l];
        let after = post.queues@[l];
        assert(linked(q, slots, pre_arena@));
        assert(book.queues[l].no_duplicates());
        assert(book.queues[level].no_duplicates());
        assert forall|i: int| 0 <= i < q.len() implies slots.contains_key(#[trigger] q[i])
            && pre_arena@.contains_key(slots[q[i]]) && book.placed(l, q[i]) by {
            assert(book.placed(l, book.queues[l][i]));
        }
        assert forall|i: int| 0 <= i < queue.len() implies slots.contains_key(#[trigger] queue[i])
            && book.placed(level, queue[i]) by {
            assert(book.placed(level, book.queues[level][i]));
        }
        assert forall|a: int, b: int|
            0 <= a < queue.len() && 0 <= b < queue.len() && a != b implies slots[#[trigger] queue[a]]
            != slots[#[trigger] queue[b]] by {
            pre.lemma_slots_distinct(pre_arena, queue[a], queue[b]);
        }
        if l == level {
            lemma_moved_links(queue, slots, pre_arena@, post_arena@, k);
            assert(after == queue.remove(k).push(queue[k]));
        } else {
            assert forall|i: int| 0 <= i < q.len() implies post_arena@[slots[#[trigger] q[i]]]
                == pre_arena@[slots[q[i]]] by {
                let x = q[i];
                assert(book.placed(l, x));
                pre.lemma_slots_distinct(pre_arena, x, queue[k]);
                pre.lemma_slots_distinct(pre_arena, x, queue[queue.len() - 1]);
                pre.lemma_slots_distinct(pre_arena, x, queue[k + 1]);
                if k > 0 {
                    pre.lemma_slots_distinct(pre_arena, x, queue[k - 1]);
                }
            }
        }
    }

    /// The levels of each side agree with their indices.
    pub closed spec fn sound(&self) -> bool {
        &&& self.bids.wf()
        &&& self.asks.wf()
        &&& self.bids.window_base() == self.asks.window_base()
        &&& self.bids.window_ticks() == self.asks.window_ticks()
    }

    /// The levels of each side can be read. Their indices need not agree with them.
    pub closed spec fn readable(&self) -> bool {
        &&& self.bids.readable()
        &&& self.asks.readable()
        &&& self.bids.window_base() == self.asks.window_base()
        &&& self.bids.window_ticks() == self.asks.window_ticks()
    }

    /// Whether `price` has an entry away from the dense window.
    pub closed spec fn sparse_entry(&self, side: Side, price: u64) -> bool {
        self.levels(side).sparse_entry(price)
    }

    /// Levels that agree with their indices can be read; of those, the ones that hold
    /// orders away from the window are the entries there.
    pub proof fn lemma_readable(&self)
        requires
            self.sound(),
        ensures
            self.readable(),
            forall|side: Side, price: u64| #[trigger]
                self.sparse_entry(side, price) == (self.level(side, price).order_count > 0
                    && !in_window(self.base(), self.ticks(), price as int)),
    {
        self.bids.lemma_readable();
        self.asks.lemma_readable();
        self.bids.lemma_levels();
        self.asks.lemma_levels();
    }

    /// What a well formed book is made of.
    pub proof fn lemma_wf(&self, arena: Arena)
        requires
            self.wf(arena),
        ensures
            self.sound(),
            self.readable(),
            arena.wf(),
            self.model(arena).wf(),
            forall|id: u64| #[trigger]
                self.slots().contains_key(id) <==> self.model(arena).orders.contains_key(id),
            forall|id: u64| #[trigger]
                self.slots().contains_key(id) ==> {
                    let slot = self.slots()[id];
                    &&& self.owns(slot)
                    &&& arena@.contains_key(slot)
                    &&& arena@[slot].id.0 == id
                    &&& arena@[slot].resting() == self.model(arena).orders[id]
                },
            forall|side: Side| self.model(arena).side_qty(side) <= u64::MAX,
            forall|side: Side, price: u64|
                0 <= #[trigger] self.model(arena).level_qty(side, price as int) <= u64::MAX,
            forall|side: Side, price: u64| #[trigger]
                self.level(side, price) == level_of(
                    self.model(arena).queue(side, price),
                    self.slots(),
                    self.model(arena).level_qty(side, price as int),
                ),
            forall|side: Side, price: u64|
                linked(#[trigger] self.model(arena).queue(side, price), self.slots(), arena@),
            self.base() == self.model(arena).base,
            self.ticks() == self.model(arena).ticks,
    {
        reveal(OrderBook::wf);
        self.lemma_readable();
        assert forall|side: Side| self.model(arena).side_qty(side) <= u64::MAX by {
            self.lemma_level(arena, side, 0);
        }
        assert forall|side: Side, price: u64|
            linked(#[trigger] self.model(arena).queue(side, price), self.slots(), arena@) by {
            assert(linked(self.queues@[(side, price)], self.slots(), arena@));
        }
    }

    /// There are no more orders than occupied slots.
    pub proof fn lemma_order_count(&self, arena: Arena)
        requires
            self.wf(arena),
        ensures
            self.model(arena).orders.dom().len() <= arena@.dom().len() <= u32::MAX,
    {
        self.lemma_wf(arena);
        arena.lemma_slots();
        let ids = self.model(arena).orders.dom();
        let slot_of = |id: u64| self.slots()[id];
        assert(vstd::relations::injective_on(slot_of, ids));
        vstd::set_lib::lemma_map_size(ids, ids.map(slot_of), slot_of);
        assert(ids.map(slot_of).subset_of(arena@.dom()));
        vstd::set_lib::lemma_len_subset(ids.map(slot_of), arena@.dom());
    }

    /// The quantity of a side is not negative.
    pub proof fn lemma_side_qty(&self, arena: Arena, side: Side)
        requires
            self.wf(arena),
        ensures
            0 <= self.model(arena).side_qty(side) <= u64::MAX,
    {
        self.lemma_wf(arena);
        let book = self.model(arena);
        let f = |p: int| book.level_qty(side, p);
        assert forall|p: int| 0 <= p < price_limit() implies #[trigger] f(p) >= 0 by {
            assert(book.level_qty(side, (p as u64) as int) >= 0);
        }
        lemma_sum_monotone(f, 0, 0, price_limit(), price_limit());
    }

    /// What is left of an order is part of the quantity of its side.
    pub proof fn lemma_unfilled(&self, arena: Arena, id: u64)
        requires
            self.wf(arena),
            self.slots().contains_key(id),
        ensures
            ({
                let book = self.model(arena);
                0 <= book.orders[id].unfilled() <= book.side_qty(book.orders[id].side)
            }),
    {
        self.lemma_wf(arena);
        let book = self.model(arena);
        let order = book.orders[id];
        let queue = book.queue(order.side, order.price);
        assert(queue.contains(id));
        let i = choose|i: int| 0 <= i < queue.len() && queue[i] == id;
        assert(queue[i] == id);
        lemma_qty_bounds(book.orders, queue, i);
        let f = |p: int| book.level_qty(order.side, p);
        assert forall|p: int| 0 <= p < price_limit() implies #[trigger] f(p) >= 0 by {
            assert(book.level_qty(order.side, (p as u64) as int) >= 0);
        }
        lemma_sum_monotone(f, 0, order.price as int, order.price + 1, price_limit());
        reveal_with_fuel(range_sum, 2);
        assert(f(order.price as int) == queue_qty(book.orders, queue));
    }

    /// A book without orders.
    pub fn new(config: InstrumentConfig) -> (book: Self)
        requires
            config.max_ticks < usize::MAX / 16,
        ensures
            book.instrument() == config.id,
            book.slots() == Map::<u64, u32>::empty(),
            forall|arena: Arena| #[trigger]
                book.model(arena) == Book::empty(config.base_price, config.max_ticks),
            forall|arena: Arena| arena.wf() ==> #[trigger] book.wf(arena),
    {
        let ghost queues = Map::total(|level: (Side, u64)| Seq::<u64>::empty());
        let book = OrderBook {
            instrument_id: config.id,
            bids: Levels::new(config.base_price, config.max_ticks),
            asks: Levels::new(config.base_price, config.max_ticks),
            best_bid_tick: None,
            best_ask_tick: None,
            index: OrderIndex::new(),
            queues: Ghost(queues),
        };
        proof {
            reveal(OrderBook::wf);
            let empty = Book::empty(config.base_price, config.max_ticks);
            assert forall|arena: Arena| #[trigger] book.model(arena) == empty by {
                assert(book.model(arena) =~= empty);
            }
            assert(empty.wf());
            assert forall|arena: Arena| arena.wf() implies #[trigger] book.wf(arena) by {
                assert(book.model(arena) == empty);
            }
        }
        book
    }

    /// The level at `price`.
    #[inline]
    fn level_at(&self, side: Side, price: u64) -> (level: PriceLevel)
        requires
            self.levels(side).readable(),
        ensures
            level == self.level(side, price),
    {
        match side {
            Side::Bid => self.bids.get(price),
            Side::Ask => self.asks.get(price),
        }
    }

    /// Puts `level` at `price`.
    #[inline]
    fn store_level(&mut self, side: Side, price: u64, level: PriceLevel)
        requires
            old(self).levels(side).wf(),
            sane(level),
            old(self).levels(side).total() - old(self).level(side, price).total_quantity
                + level.total_quantity <= u64::MAX,
            old(self).levels(side).sparse_keys().len() + 1 < usize::MAX / 16,
        ensures
            final(self).levels(side).wf(),
            final(self).levels(side.other()) == old(self).levels(side.other()),
            final(self).level(side, price) == level,
            forall|s: Side, p: u64|
                (s, p) != (side, price) ==> #[trigger] final(self).level(s, p) == old(self).level(s, p),
            final(self).levels(side).window_base() == old(self).levels(side).window_base(),
            final(self).levels(side).window_ticks() == old(self).levels(side).window_ticks(),
            final(self).instrument_id == old(self).instrument_id,
            final(self).best_bid_tick == old(self).best_bid_tick,
            final(self).best_ask_tick == old(self).best_ask_tick,
            final(self).index == old(self).index,
            final(self).queues == old(self).queues,
    {
        match side {
            Side::Bid => self.bids.store(price, level),
            Side::Ask => self.asks.store(price, level),
        }
    }

    /// Puts a new order at the end of the queue at `price` and returns its slot.
    /// `None` where an order with this identifier rests already, or the arena is
    /// full.
    pub fn insert_order(
        &mut self,
        id: OrderId,
        side: Side,
        price: u64,
        qty: u64,
        order_type: OrderType,
        visible_qty: Option<u64>,
        stp_group: Option<u32>,
        arena: &mut Arena,
    ) -> (index: Option<ArenaIndex>)
        requires
            old(self).wf(*old(arena)),
            !old(self).slots().contains_key(id.0) && old(arena).free_slots().len() > 0 ==> old(
                self,
            ).model(*old(arena)).side_qty(side) + qty <= u64::MAX,
        ensures
            final(self).wf(*final(arena)),
            final(self).instrument() == old(self).instrument(),
            final(arena).slots() == old(arena).slots(),
            old(self).slots().contains_key(id.0) || old(arena).free_slots().len() == 0 ==> {
                &&& index is None
                &&& *final(self) == *old(self)
                &&& *final(arena) == *old(arena)
            },
            !old(self).slots().contains_key(id.0) && old(arena).free_slots().len() > 0 ==> {
                let slot = old(arena).free_slots()[0];
                let order = Resting::fresh(
                    side,
                    price,
                    qty,
                    order_type,
                    visible_qty,
                    stp_group.unwrap_or(STP_NONE),
                );
                &&& index == Some(ArenaIndex(slot))
                &&& final(self).model(*final(arena)) == old(self).model(*old(arena)).rest(id.0, order)
                &&& final(self).slots() == old(self).slots().insert(id.0, slot)
                &&& final(arena).free_slots() == old(arena).free_slots().drop_first()
                &&& forall|s: u32|
                    old(arena)@.contains_key(s) && !old(self).owns(s) ==> final(arena)@.contains_key(s)
                        && #[trigger] final(arena)@[s] == old(arena)@[s]
            },
    {
        let order = Order {
            id,
            price,
            quantity: qty,
            filled: 0,
            timestamp: 0,
            visible_quantity: visible_qty.unwrap_or(qty),
            stp_group: stp_group.unwrap_or(STP_NONE),
            prev: ArenaIndex(ARENA_NULL),
            next: ArenaIndex(ARENA_NULL),
            side,
            order_type,
            time_in_force: TimeInForce::GTC,
            _pad: 0,
        };
        if self.index.contains_key(id.0) {
            return None;
        }
        proof {
            old(self).lemma_level(*old(arena), side, price);
            old(arena).lemma_slots();
        }
        let idx: ArenaIndex = match arena.allocate(order) {
            Some(idx) => idx,
            None => {
                return None;
            },
        };
        let ghost before = old(self).model(*old(arena));
        let ghost resting = order.resting();
        let ghost queue = before.queue(side, price);
        let mut level: PriceLevel = self.level_at(side, price);
        self.index.insert(id.0, idx.0);
        match level.tail {
            Some(tail) => {
                let order_mut = arena.get_mut(idx);
                order_mut.prev = tail;
                let tail_mut = arena.get_mut(tail);
                tail_mut.next = idx;
            },
            None => {
                level.head = Some(idx);
            },
        }
        level.tail = Some(idx);
        level.total_quantity = level.total_quantity + qty;
        level.order_count = level.order_count + 1;
        self.store_level(side, price, level);
        let ghost stored = *self;
        match side {
            Side::Bid => {
                if self.best_bid_tick.is_none() || price > self.best_bid_tick.unwrap() {
                    self.best_bid_tick = Some(price);
                }
            },
            Side::Ask => {
                if self.best_ask_tick.is_none() || price < self.best_ask_tick.unwrap() {
                    self.best_ask_tick = Some(price);
                }
            },
        }
        proof {
            self.queues@ = self.queues@.insert((side, price), queue.push(id.0));
            assert(queue.push(id.0).last() == id.0);
            if queue.len() > 0 {
                assert(queue.push(id.0)[0] == queue[0]);
                assert(before.placed((side, price), queue[0]));
            }
            assert forall|s: Side, p: u64| (s, p) != (side, price) implies #[trigger] self.level(s, p)
                == old(self).level(s, p) by {
                assert(stored.level(s, p) == old(self).level(s, p));
            }
            let placed = arena@[idx.0];
            assert(placed == Order {
                prev: ArenaIndex(link_to(queue, old(self).slots(), queue.len() - 1)),
                ..order
            });
            Self::lemma_inserted(*old(self), *old(arena), *self, *arena, id.0, idx.0, placed);
        }
        Some(idx)
    }

    /// Takes an order out of its queue and frees its slot. Returns the side and the
    /// price of the order.
    pub fn remove_order(&mut self, idx: ArenaIndex, arena: &mut Arena) -> (place: (Side, u64))
        requires
            old(self).wf(*old(arena)),
            old(self).owns(idx.0),
        ensures
            final(self).wf(*final(arena)),
            final(self).instrument() == old(self).instrument(),
            final(arena).slots() == old(arena).slots(),
            place == (old(arena)@[idx.0].side, old(arena)@[idx.0].price),
            final(self).model(*final(arena)) == old(self).model(*old(arena)).take_out(
                old(arena)@[idx.0].id.0,
            ),
            final(self).slots() == old(self).slots().remove(old(arena)@[idx.0].id.0),
            final(arena).free_slots() == seq![idx.0] + old(arena).free_slots(),
            forall|s: u32|
                old(arena)@.contains_key(s) && !old(self).owns(s) ==> final(arena)@.contains_key(s)
                    && #[trigger] final(arena)@[s] == old(arena)@[s],
    {
        let ghost slot = idx.0;
        let ghost id = old(arena)@[slot].id.0;
        let ghost before = old(self).model(*old(arena));
        let ghost queue = before.queue(old(arena)@[slot].side, old(arena)@[slot].price);
        let ghost slots = old(self).slots();
        let ghost k = before.position(id);
        proof {
            old(self).lemma_owned(*old(arena), slot);
        }
        let order = arena.get(idx);
        let order_id: u64 = order.id.0;
        let side: Side = order.side;
        let price: u64 = order.price;
        let qty: u64 = order.remaining();
        let prev: ArenaIndex = order.prev;
        let next: ArenaIndex = order.next;
        proof {
            old(self).lemma_level(*old(arena), side, price);
            old(arena).lemma_slots();
            before.lemma_take_out(id);
            assert forall|i: int| 0 <= i < queue.len() implies before.orders[#[trigger] queue[i]].filled
                <= before.orders[queue[i]].quantity by {
                assert(before.placed((side, price), queue[i]));
                assert(before.orders.contains_key(queue[i]));
            }
            lemma_qty_bounds(before.orders, queue, k);
            lemma_qty_remove(before.orders, queue, k);
            if k > 0 {
                assert(before.placed((side, price), queue[k - 1]));
                old(self).lemma_slots_distinct(*old(arena), queue[k - 1], id);
            }
            if k + 1 < queue.len() {
                assert(before.placed((side, price), queue[k + 1]));
                old(self).lemma_slots_distinct(*old(arena), queue[k + 1], id);
                if k > 0 {
                    old(self).lemma_slots_distinct(*old(arena), queue[k - 1], queue[k + 1]);
                }
            }
        }
        let mut level: PriceLevel = self.level_at(side, price);
        if prev.0 != ARENA_NULL {
            let order_mut = arena.get_mut(prev);
            order_mut.next = next;
        } else {
            level.head = next.link();
        }
        if next.0 != ARENA_NULL {
            let order_mut = arena.get_mut(next);
            order_mut.prev = prev;
        } else {
            level.tail = prev.link();
        }
        level.total_quantity = level.total_quantity - qty;
        level.order_count = level.order_count - 1;
        let emptied: bool = level.is_empty();
        self.store_level(side, price, level);
        let ghost stored = *self;
        self.index.remove(order_id);
        arena.free(idx);
        proof {
            self.queues@ = self.queues@.insert((side, price), queue.remove(k));
            old(self).lemma_depth(*old(arena), side);
            let rest = Book {
                orders: before.orders.remove(id),
                queues: before.queues.insert((side, price), without(queue, id)),
                ..before
            };
            assert forall|p: u64| self.levels(side).prices().contains(p) == rest.prices(
                side,
            ).contains(p) by {
                assert(self.level(side, p) == stored.level(side, p));
                assert(old(self).levels(side).prices().contains(p) == before.prices(
                    side,
                ).contains(p));
                assert(p != price ==> stored.level(side, p) == old(self).level(side, p));
            }
            assert(self.levels(side).prices() =~= rest.prices(side));
        }
        if emptied {
            self.refresh_best_after_level_empty(side, price);
        }
        proof {
            assert forall|s: Side, p: u64| (s, p) != (side, price) implies #[trigger] self.level(s, p)
                == old(self).level(s, p) by {
                assert(stored.level(s, p) == old(self).level(s, p));
            }
            let left = queue.remove(k);
            if left.len() > 0 {
                assert(left[0] == (if k == 0 {
                    queue[1]
                } else {
                    queue[0]
                }));
                assert(left.last() == (if k == queue.len() - 1 {
                    queue[k - 1]
                } else {
                    queue.last()
                }));
            }
            Self::lemma_removed(*old(self), *old(arena), *self, *arena, id);
        }
        (side, price)
    }

    /// After a level has emptied: where it was the best of its side, the next best
    /// level takes over.
    fn refresh_best_after_level_empty(&mut self, side: Side, removed_price: u64)
        requires
            old(self).levels(side).wf(),
        ensures
            final(self).bids == old(self).bids,
            final(self).asks == old(self).asks,
            final(self).instrument_id == old(self).instrument_id,
            final(self).index == old(self).index,
            final(self).queues == old(self).queues,
            ({
                let next = next_best(
                    side,
                    old(self).levels(side).prices(),
                    old(self).levels(side).window_base(),
                    old(self).levels(side).window_ticks(),
                );
                match side {
                    Side::Bid => final(self).best_bid_tick == (if old(self).best_bid_tick == Some(
                        removed_price,
                    ) {
                        next
                    } else {
                        old(self).best_bid_tick
                    }) && final(self).best_ask_tick == old(self).best_ask_tick,
                    Side::Ask => final(self).best_ask_tick == (if old(self).best_ask_tick == Some(
                        removed_price,
                    ) {
                        next
                    } else {
                        old(self).best_ask_tick
                    }) && final(self).best_bid_tick == old(self).best_bid_tick,
                }
            }),
    {
        match side {
            Side::Bid => {
                if self.best_bid_tick.is_some() && self.best_bid_tick.unwrap() == removed_price {
                    self.best_bid_tick = self.bids.best_price(side);
                }
            },
            Side::Ask => {
                if self.best_ask_tick.is_some() && self.best_ask_tick.unwrap() == removed_price {
                    self.best_ask_tick = self.asks.best_price(side);
                }
            },
        }
    }

    /// What is in a slot that the book owns.
    proof fn lemma_owned(&self, arena: Arena, slot: u32)
        requires
            self.wf(arena),
            self.owns(slot),
        ensures
            arena.wf(),
            arena@.contains_key(slot),
            ({
                let order = arena@[slot];
                let id = order.id.0;
                let book = self.model(arena);
                let queue = book.queue(order.side, order.price);
                let k = book.position(id);
                &&& self.slots().contains_key(id)
                &&& self.slots()[id] == slot
                &&& book.wf()
                &&& book.orders.contains_key(id)
                &&& book.orders[id] == order.resting()
                &&& 0 <= k < queue.len()
                &&& queue[k] == id
                &&& queue.no_duplicates()
                &&& order.prev.0 == link_to(queue, self.slots(), k - 1)
                &&& order.next.0 == link_to(queue, self.slots(), k + 1)
                &&& order.filled <= order.quantity
            }),
    {
        reveal(OrderBook::wf);
        let id = choose|id: u64| #[trigger] self.slots().contains_key(id) && self.slots()[id] == slot;
        let book = self.model(arena);
        assert(book.orders.contains_key(id));
        book.lemma_position(id);
        let order = arena@[slot];
        let l = (order.side, order.price);
        assert(linked(self.queues@[l], self.slots(), arena@));
        assert(book.queues[l].no_duplicates());
        assert(book.queue(order.side, order.price)[book.position(id)] == id);
    }

    /// Sends an order to the end of its queue.
    pub fn requeue_order(&mut self, idx: ArenaIndex, arena: &mut Arena)
        requires
            old(self).wf(*old(arena)),
            old(self).owns(idx.0),
        ensures
            final(self).wf(*final(arena)),
            final(self).instrument() == old(self).instrument(),
            final(arena).slots() == old(arena).slots(),
            final(self).model(*final(arena)) == old(self).model(*old(arena)).requeue(
                old(arena)@[idx.0].id.0,
            ),
            final(self).slots() == old(self).slots(),
            final(arena).free_slots() == old(arena).free_slots(),
            forall|s: u32|
                old(arena)@.contains_key(s) && !old(self).owns(s) ==> final(arena)@.contains_key(s)
                    && #[trigger] final(arena)@[s] == old(arena)@[s],
    {
        let ghost slot = idx.0;
        let ghost id = old(arena)@[slot].id.0;
        let ghost before = old(self).model(*old(arena));
        let ghost queue = before.queue(old(arena)@[slot].side, old(arena)@[slot].price);
        let ghost slots = old(self).slots();
        let ghost k = before.position(id);
        proof {
            old(self).lemma_owned(*old(arena), slot);
        }
        let order = arena.get(idx);
        let side: Side = order.side;
        let price: u64 = order.price;
        let prev: ArenaIndex = order.prev;
        let next: ArenaIndex = order.next;
        proof {
            old(self).lemma_level(*old(arena), side, price);
            old(arena).lemma_slots();
            assert(queue.last() == queue[queue.len() - 1]);
        }
        if next.0 == ARENA_NULL {
            proof {
                assert(k == queue.len() - 1);
                assert(queue.remove(k).push(id) =~= queue);
                assert(before.requeue(id).queues =~= before.queues);
            }
            return ;
        }
        proof {
            if k > 0 {
                assert(before.placed((side, price), queue[k - 1]));
                old(self).lemma_slots_distinct(*old(arena), queue[k - 1], id);
                old(self).lemma_slots_distinct(*old(arena), queue[k - 1], queue[k + 1]);
                old(self).lemma_slots_distinct(*old(arena), queue[k - 1], queue.last());
            }
            assert(before.placed((side, price), queue[k + 1]));
            old(self).lemma_slots_distinct(*old(arena), queue[k + 1], id);
            old(self).lemma_slots_distinct(*old(arena), queue.last(), id);
        }
        let mut level: PriceLevel = self.level_at(side, price);
        if prev.0 != ARENA_NULL {
            let order_mut = arena.get_mut(prev);
            order_mut.next = next;
        } else {
            level.head = next.link();
        }
        let order_mut = arena.get_mut(next);
        order_mut.prev = prev;
        match level.tail {
            Some(tail) => {
                let tail_mut = arena.get_mut(tail);
                tail_mut.next = idx;
                let moved_mut = arena.get_mut(idx);
                moved_mut.prev = tail;
                moved_mut.next = ArenaIndex(ARENA_NULL);
            },
            None => {},
        }
        level.tail = Some(idx);
        self.store_level(side, price, level);
        let ghost stored = *self;
        proof {
            let moved = queue.remove(k).push(id);
            self.queues@ = self.queues@.insert((side, price), moved);
            assert(moved.last() == id);
            assert(moved[0] == (if k == 0 {
                queue[1]
            } else {
                queue[0]
            }));
            assert forall|s: u32| #[trigger] old(arena)@.contains_key(s) implies arena@.contains_key(s)
                && arena@[s] == requeued(queue, slots, old(arena)@, k, s) by {
                if k > 0 && s == slots[queue[k - 1]] {
                } else if s == slots[queue[k + 1]] {
                }
            }
            assert forall|s: Side, p: u64| (s, p) != (side, price) implies #[trigger] self.level(s, p)
                == old(self).level(s, p) by {
                assert(stored.level(s, p) == old(self).level(s, p));
            }
            Self::lemma_requeued(*old(self), *old(arena), *self, *arena, id);
        }
    }

    /// Fills `delta` more of an order without taking it out.
    pub fn reduce_order_qty(&mut self, idx: ArenaIndex, delta: u64, arena: &mut Arena)
        requires
            old(self).wf(*old(arena)),
            old(self).owns(idx.0),
            delta <= old(arena)@[idx.0].unfilled(),
        ensures
            final(self).wf(*final(arena)),
            final(self).instrument() == old(self).instrument(),
            final(arena).slots() == old(arena).slots(),
            final(self).model(*final(arena)) == old(self).model(*old(arena)).reduce(
                old(arena)@[idx.0].id.0,
                delta as int,
            ),
            final(self).slots() == old(self).slots(),
            final(arena).free_slots() == old(arena).free_slots(),
            final(arena)@ == old(arena)@.insert(
                idx.0,
                (Order {
                    filled: (old(arena)@[idx.0].filled + delta) as u64,
                    ..old(arena)@[idx.0]
                }),
            ),
    {
        proof {
            old(self).lemma_owned(*old(arena), idx.0);
        }
        let order = arena.get_mut(idx);
        order.filled = order.filled + delta;
        let side: Side = order.side;
        let price: u64 = order.price;
        proof {
            let before = old(self).model(*old(arena));
            let id = old(arena)@[idx.0].id.0;
            let queue = before.queue(side, price);
            old(self).lemma_level(*old(arena), side, price);
            old(arena).lemma_slots();
            assert forall|i: int| 0 <= i < queue.len() implies before.orders[#[trigger] queue[i]].filled
                <= before.orders[queue[i]].quantity by {
                assert(before.placed((side, price), queue[i]));
                assert(before.orders.contains_key(queue[i]));
            }
            lemma_qty_bounds(before.orders, queue, before.position(id));
        }
        let mut level: PriceLevel = self.level_at(side, price);
        level.total_quantity = level.total_quantity - delta;
        self.store_level(side, price, level);
        proof {
            Self::lemma_reduced(*old(self), *old(arena), *self, *arena, idx.0, delta);
        }
    }

    /// The best bid.
    #[inline]
    pub fn best_bid(&self) -> (best: Option<u64>)
        ensures
            forall|arena: Arena| best == #[trigger] self.model(arena).best_bid,
    {
        self.best_bid_tick
    }

    /// The best ask.
    #[inline]
    pub fn best_ask(&self) -> (best: Option<u64>)
        ensures
            forall|arena: Arena| best == #[trigger] self.model(arena).best_ask,
    {
        self.best_ask_tick
    }

    /// The bid level at `price`, which is in the dense window or holds orders.
    pub fn get_bid_level(&self, price: u64) -> (level: &PriceLevel)
        requires
            self.readable(),
            self.has_entry(Side::Bid, price),
        ensures
            *level == self.level(Side::Bid, price),
    {
        self.bids.entry(price)
    }

    /// The ask level at `price`, which is in the dense window or holds orders.
    pub fn get_ask_level(&self, price: u64) -> (level: &PriceLevel)
        requires
            self.readable(),
            self.has_entry(Side::Ask, price),
        ensures
            *level == self.level(Side::Ask, price),
    {
        self.asks.entry(price)
    }

    /// The bid level at `price`, to be changed; away from the window an empty one is put
    /// there first where there is none. The depth index is left as it is, so that the
    /// book stays well formed only where the level ends up as it was; its levels can be
    /// read in any case.
    pub fn get_bid_level_mut(&mut self, price: u64) -> (level: &mut PriceLevel)
        requires
            old(self).readable(),
        ensures
            *level == old(self).level(Side::Bid, price),
            final(self).readable(),
            final(self).base() == old(self).base(),
            final(self).ticks() == old(self).ticks(),
            forall|s: Side, p: u64| #[trigger]
                final(self).sparse_entry(s, p) == (old(self).sparse_entry(s, p) || ((s, p) == (
                    Side::Bid,
                    price,
                ) && !in_window(old(self).base(), old(self).ticks(), price as int))),
            final(self).level(Side::Bid, price) == *final(level),
            forall|s: Side, p: u64|
                (s, p) != (Side::Bid, price) ==> #[trigger] final(self).level(s, p) == old(self).level(
                    s,
                    p,
                ),
            final(self).instrument() == old(self).instrument(),
            final(self).slots() == old(self).slots(),
            forall|arena: Arena| #[trigger] final(self).model(arena) == old(self).model(arena),
            *final(level) == *level && old(self).has_entry(Side::Bid, price) ==> forall|arena: Arena|
                old(self).wf(arena) ==> #[trigger] final(self).wf(arena),
    {
        let level = self.bids.entry_mut(price);
        proof {
            Self::lemma_same_levels(*old(self));
            assert(*final(level) == *level && old(self).has_entry(Side::Bid, price) && old(self).sound()
                ==> Self::same_levels(*old(self), after_borrow(*self)));
        }
        level
    }

    /// The ask level at `price`, to be changed; away from the window an empty one is put
    /// there first where there is none. The depth index is left as it is, so that the
    /// book stays well formed only where the level ends up as it was; its levels can be
    /// read in any case.
    pub fn get_ask_level_mut(&mut self, price: u64) -> (level: &mut PriceLevel)
        requires
            old(self).readable(),
        ensures
            *level == old(self).level(Side::Ask, price),
            final(self).readable(),
            final(self).base() == old(self).base(),
            final(self).ticks() == old(self).ticks(),
            forall|s: Side, p: u64| #[trigger]
                final(self).sparse_entry(s, p) == (old(self).sparse_entry(s, p) || ((s, p) == (
                    Side::Ask,
                    price,
                ) && !in_window(old(self).base(), old(self).ticks(), price as int))),
            final(self).level(Side::Ask, price) == *final(level),
            forall|s: Side, p: u64|
                (s, p) != (Side::Ask, price) ==> #[trigger] final(self).level(s, p) == old(self).level(
                    s,
                    p,
                ),
            final(self).instrument() == old(self).instrument(),
            final(self).slots() == old(self).slots(),
            forall|arena: Arena| #[trigger] final(self).model(arena) == old(self).model(arena),
            *final(level) == *level && old(self).has_entry(Side::Ask, price) ==> forall|arena: Arena|
                old(self).wf(arena) ==> #[trigger] final(self).wf(arena),
    {
        let level = self.asks.entry_mut(price);
        proof {
            Self::lemma_same_levels(*old(self));
            assert(*final(level) == *level && old(self).has_entry(Side::Ask, price) && old(self).sound()
                ==> Self::same_levels(*old(self), after_borrow(*self)));
        }
        level
    }

    /// The books agree in everything but how their levels are stored.
    closed spec fn same_levels(a: OrderBook, b: OrderBook) -> bool {
        &&& a.sound()
        &&& b.sound()
        &&& b.bids.window_base() == a.bids.window_base()
        &&& b.bids.window_ticks() == a.bids.window_ticks()
        &&& forall|s: Side, p: u64| #[trigger] b.level(s, p) == a.level(s, p)
        &&& b.best_bid_tick == a.best_bid_tick
        &&& b.best_ask_tick == a.best_ask_tick
        &&& b.index == a.index
        &&& b.queues == a.queues
    }

    /// A book with the same levels is as well formed.
    proof fn lemma_same_levels(a: OrderBook)
        ensures
            forall|b: OrderBook, arena: Arena|
                (a.sound() ==> Self::same_levels(a, b)) && a.wf(arena) ==> #[trigger] b.wf(arena),
    {
        reveal(OrderBook::wf);
        assert forall|b: OrderBook, arena: Arena|
            (a.sound() ==> Self::same_levels(a, b)) && a.wf(arena) implies #[trigger] b.wf(arena) by {
            assert(b.model(arena) =~= a.model(arena));
        }
    }

    /// First price of the dense window.
    pub closed spec fn base(&self) -> u64 {
        self.bids.window_base()
    }

    /// Width of the dense window.
    pub closed spec fn ticks(&self) -> u32 {
        self.bids.window_ticks()
    }

    /// Whether `price` is in the dense window or holds orders on `side`.
    pub open spec fn has_entry(&self, side: Side, price: u64) -> bool {
        in_window(self.base(), self.ticks(), price as int) || self.level(side, price).order_count > 0
    }

    /// A level whose queue holds orders has an entry.
    pub proof fn lemma_entry(&self, arena: Arena, side: Side, price: u64)
        requires
            self.wf(arena),
            self.model(arena).queue(side, price).len() > 0,
        ensures
            self.has_entry(side, price),
    {
        self.lemma_level(arena, side, price);
        arena.lemma_slots();
    }

    /// The quantity at `price`, zero where no order rests.
    pub fn get_level_qty(&self, side: Side, price: u64) -> (qty: u64)
        requires
            self.readable(),
        ensures
            qty == self.level(side, price).total_quantity,
            forall|arena: Arena| #[trigger]
                self.wf(arena) ==> qty == self.model(arena).level_qty(side, price as int),
    {
        proof {
            assert forall|arena: Arena| #[trigger] self.wf(arena) implies self.level(
                side,
                price,
            ).total_quantity == self.model(arena).level_qty(side, price as int) by {
                self.lemma_level(arena, side, price);
            }
        }
        self.level_at(side, price).total_quantity
    }

    /// The slot of order `id`.
    #[inline]
    pub fn lookup(&self, id: OrderId) -> (index: Option<ArenaIndex>)
        ensures
            index == (if self.slots().contains_key(id.0) {
                Some(ArenaIndex(self.slots()[id.0]))
            } else {
                None
            }),
    {
        match self.index.get(id.0) {
            Some(slot) => Some(ArenaIndex(slot)),
            None => None,
        }
    }

    /// Whether `price` has an entry away from the dense window, which it has if and only
    /// if orders rest there, unless a level was changed by reference.
    pub fn is_in_sparse(&self, side: Side, price: u64) -> (found: bool)
        requires
            self.readable(),
        ensures
            found == self.sparse_entry(side, price),
            self.sound() ==> found == (self.level(side, price).order_count > 0 && !in_window(
                self.base(),
                self.ticks(),
                price as int,
            )),
    {
        proof {
            if self.sound() {
                self.lemma_readable();
                assert(self.sparse_entry(side, price) == (self.level(side, price).order_count > 0
                    && !in_window(self.base(), self.ticks(), price as int)));
            }
        }
        match side {
            Side::Bid => self.bids.is_in_sparse(price),
            Side::Ask => self.asks.is_in_sparse(price),
        }
    }

    /// First price of the dense window.
    pub fn dense_base_price(&self) -> (base: u64)
        ensures
            base == self.base(),
            forall|arena: Arena| base == #[trigger] self.model(arena).base,
    {
        self.bids.base_price()
    }

    /// Ask quantity at `price` and below.
    pub fn ask_available_at_or_below(&self, price: u64) -> (qty: u64)
        requires
            self.sound(),
        ensures
            qty == range_sum(
                |p: int| self.level(Side::Ask, p as u64).total_quantity as int,
                0,
                price + 1,
            ),
            forall|arena: Arena| #[trigger]
                self.wf(arena) ==> qty == self.model(arena).depth(Side::Ask, price),
    {
        proof {
            lemma_sum_same(
                |p: int| self.asks.qty(p),
                |p: int| self.level(Side::Ask, p as u64).total_quantity as int,
                0,
                price + 1,
            );
            assert forall|arena: Arena| #[trigger] self.wf(arena) implies range_sum(
                |p: int| self.asks.qty(p),
                0,
                price + 1,
            ) == self.model(arena).depth(Side::Ask, price) by {
                self.lemma_depth(arena, Side::Ask);
                lemma_sum_same(
                    |p: int| self.asks.qty(p),
                    |p: int| self.model(arena).level_qty(Side::Ask, p),
                    0,
                    price + 1,
                );
            }
        }
        self.asks.at_or_below(price)
    }

    /// Bid quantity at `price` and above.
    pub fn bid_available_at_or_above(&self, price: u64) -> (qty: u64)
        requires
            self.sound(),
        ensures
            qty == range_sum(
                |p: int| self.level(Side::Bid, p as u64).total_quantity as int,
                price as int,
                price_limit(),
            ),
            forall|arena: Arena| #[trigger]
                self.wf(arena) ==> qty == self.model(arena).depth(Side::Bid, price),
    {
        proof {
            lemma_sum_same(
                |p: int| self.bids.qty(p),
                |p: int| self.level(Side::Bid, p as u64).total_quantity as int,
                price as int,
                price_limit(),
            );
            assert forall|arena: Arena| #[trigger] self.wf(arena) implies range_sum(
                |p: int| self.bids.qty(p),
                price as int,
                price_limit(),
            ) == self.model(arena).depth(Side::Bid, price) by {
                self.lemma_depth(arena, Side::Bid);
                lemma_sum_same(
                    |p: int| self.bids.qty(p),
                    |p: int| self.model(arena).level_qty(Side::Bid, p),
                    price as int,
                    price_limit(),
                );
            }
        }
        self.bids.at_or_above(price)
    }

    /// Moves the dense window to `new_base`. Orders, queues and best prices stay.
    pub fn force_recenter(&mut self, new_base: u64, arena: &mut Arena)
        requires
            old(self).wf(*old(arena)),
        ensures
            final(self).wf(*final(arena)),
            final(self).instrument() == old(self).instrument(),
            *final(arena) == *old(arena),
            final(self).slots() == old(self).slots(),
            final(self).model(*final(arena)) == old(self).model(*old(arena)).recentered(new_base),
    {
        proof {
            old(self).lemma_wf(*old(arena));
            old(self).lemma_counts(*old(arena), Side::Bid);
            old(self).lemma_counts(*old(arena), Side::Ask);
        }
        if new_base == self.bids.base_price() {
            proof {
                assert(self.model(*arena) =~= old(self).model(*old(arena)).recentered(new_base));
            }
            return;
        }
        self.bids.recenter(new_base);
        self.asks.recenter(new_base);
        proof {
            reveal(OrderBook::wf);
            let before = old(self).model(*old(arena));
            let after = self.model(*arena);
            assert(after =~= before.recentered(new_base));
            assert forall|side: Side, p: int| #[trigger] after.level_qty(side, p) == before.level_qty(
                side,
                p,
            ) by {}
            assert forall|side: Side, p: u64| #[trigger] self.level(side, p) == old(self).level(side, p) by {}
            assert forall|side: Side| #[trigger] after.best(side) == before.best(side) by {}
            assert forall|side: Side, p: u64| #[trigger] after.queue(side, p) == before.queue(side, p) by {}
            assert(after.wf()) by {
                assert forall|l: (Side, u64), i: int| 0 <= i < after.queues[l].len() implies after.placed(
                    l,
                    #[trigger] after.queues[l][i],
                ) by {
                    assert(before.placed(l, before.queues[l][i]));
                }
                assert forall|l: (Side, u64)| #[trigger] after.queues[l].no_duplicates() by {
                    assert(before.queues[l].no_duplicates());
                }
            }
        }
    }

    /// Moves the dense window so that the best price stands in its middle, where
    /// the best prices have drifted.
    pub fn maybe_recenter(&mut self, arena: &mut Arena)
        requires
            old(self).wf(*old(arena)),
        ensures
            final(self).wf(*final(arena)),
            final(self).instrument() == old(self).instrument(),
            *final(arena) == *old(arena),
            final(self).slots() == old(self).slots(),
            final(self).model(*final(arena)) == (if old(self).model(*old(arena)).drifted() {
                old(self).model(*old(arena)).recentered(
                    old(self).model(*old(arena)).centered_base(),
                )
            } else {
                old(self).model(*old(arena))
            }),
    {
        let base: u64 = self.bids.base_price();
        let window_size: u64 = self.bids.width() as u64;
        let threshold: u64 = window_size * 7 / 10;
        let bid_drifted: bool = match self.best_bid_tick {
            Some(bid) => bid >= base && bid - base >= threshold,
            None => false,
        };
        let ask_drifted: bool = match self.best_ask_tick {
            Some(ask) => ask < base || ask - base < window_size - threshold,
            None => false,
        };
        if bid_drifted || ask_drifted {
            let center: u64 = match self.best_bid_tick {
                Some(bid) => bid,
                None => match self.best_ask_tick {
                    Some(ask) => ask,
                    None => 0,
                },
            };
            let new_base: u64 = center.saturating_sub(window_size / 2);
            self.force_recenter(new_base, arena);
        }
    }
}

} // verus!
