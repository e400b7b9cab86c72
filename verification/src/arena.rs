//! Pre-allocated arena for orders, with free-list reuse.
use crate::types::{ArenaIndex, Order};
use vstd::prelude::*;

verus! {

/// End of the free list.
const FREE_LIST_END: u32 = u32::MAX;

/// Bytes that an order takes.
pub const ORDER_BYTES: usize = 64;

/// Bytes of a huge page.
pub const HUGE_PAGE_BYTES: usize = 2097152;

/// Slots of an arena: which are free, and in which order they are given out.
///
/// `next_free` is a singly linked list through the free slots: a free slot holds
/// the index of the next one. It is not read at occupied slots.
pub struct FreeList {
    next_free: Vec<u32>,
    free_head: u32,
    len: u32,
    free: Ghost<Seq<u32>>,
}

/// The head of the free list that `free` lists.
spec fn list_head(free: Seq<u32>, at: int) -> u32 {
    if at < free.len() {
        free[at]
    } else {
        FREE_LIST_END
    }
}

impl FreeList {
    /// The free slots, in the order in which they will be given out.
    pub closed spec fn view(&self) -> Seq<u32> {
        self.free@
    }

    /// Number of slots, free and occupied.
    pub closed spec fn slots(&self) -> u32 {
        self.next_free@.len() as u32
    }

    /// The free slots are in range, each listed once, and linked in their order.
    pub closed spec fn wf(&self) -> bool {
        &&& self.next_free@.len() <= u32::MAX
        &&& self.free@.no_duplicates()
        &&& self.free_head == list_head(self.free@, 0)
        &&& forall|i: int|
            0 <= i < self.free@.len() ==> {
                let slot = #[trigger] self.free@[i];
                &&& slot < self.next_free@.len()
                &&& self.next_free@[slot as int] == list_head(self.free@, i + 1)
            }
        &&& self.len + self.free@.len() == self.next_free@.len()
    }

    /// Free slots are in range and listed once.
    pub proof fn lemma_free(&self)
        requires
            self.wf(),
        ensures
            self@.no_duplicates(),
            self@.len() <= self.slots(),
            forall|i: int| 0 <= i < self@.len() ==> #[trigger] self@[i] < self.slots(),
    {
    }

    /// A list of `capacity` free slots.
    pub fn new(capacity: u32) -> (list: Self)
        ensures
            list.wf(),
            list.slots() == capacity,
            list@ == Seq::new(capacity as nat, |i: int| i as u32),
    {
        let mut next_free: Vec<u32> = Vec::with_capacity(capacity as usize);
        let mut i: u32 = 0;
        while i < capacity
            invariant
                i <= capacity,
                next_free@.len() == i,
                forall|k: int|
                    0 <= k < i ==> #[trigger] next_free@[k] == (if k + 1 < capacity {
                        (k + 1) as u32
                    } else {
                        FREE_LIST_END
                    }),
            decreases capacity - i,
        {
            next_free.push(
                if i + 1 < capacity {
                    i + 1
                } else {
                    FREE_LIST_END
                },
            );
            i += 1;
        }
        FreeList {
            next_free,
            free_head: if capacity > 0 {
                0
            } else {
                FREE_LIST_END
            },
            len: 0,
            free: Ghost(Seq::new(capacity as nat, |i: int| i as u32)),
        }
    }

    /// Gives the next free slot out. `None` where no slot is free.
    #[inline]
    pub fn take(&mut self) -> (slot: Option<u32>)
        requires
            old(self).wf(),
        ensures
            final(self).wf(),
            final(self).slots() == old(self).slots(),
            old(self)@.len() == 0 ==> slot is None && *final(self) == *old(self),
            old(self)@.len() > 0 ==> slot == Some(old(self)@[0]) && final(self)@
                == old(self)@.drop_first(),
    {
        if self.free_head == FREE_LIST_END {
            return None;
        }
        let slot: u32 = self.free_head;
        assert(self.free@[0] == slot);
        self.free_head = self.next_free[slot as usize];
        self.len = self.len + 1;
        proof {
            let free = old(self).free@;
            self.free@ = free.drop_first();
            assert forall|i: int| 0 <= i < self.free@.len() implies {
                let s = #[trigger] self.free@[i];
                &&& s < self.next_free@.len()
                &&& self.next_free@[s as int] == list_head(self.free@, i + 1)
            } by {
                assert(self.free@[i] == free[i + 1]);
            }
        }
        Some(slot)
    }

    /// Takes an occupied slot back; it is the next to be given out.
    #[inline]
    pub fn give_back(&mut self, slot: u32)
        requires
            old(self).wf(),
            slot < old(self).slots(),
            !old(self)@.contains(slot),
        ensures
            final(self).wf(),
            final(self).slots() == old(self).slots(),
            final(self)@ == seq![slot] + old(self)@,
    {
        proof {
            self.lemma_room(slot);
        }
        self.next_free[slot as usize] = self.free_head;
        self.free_head = slot;
        self.len = self.len - 1;
        proof {
            let free = old(self).free@;
            self.free@ = seq![slot] + free;
            assert forall|i: int| 0 <= i < self.free@.len() implies {
                let s = #[trigger] self.free@[i];
                &&& s < self.next_free@.len()
                &&& self.next_free@[s as int] == list_head(self.free@, i + 1)
            } by {
                if i > 0 {
                    assert(self.free@[i] == free[i - 1]);
                    assert(free.contains(free[i - 1]));
                }
            }
        }
    }

    /// Where a slot is not free, not all slots are.
    proof fn lemma_room(&self, slot: u32)
        requires
            self.wf(),
            slot < self.slots(),
            !self@.contains(slot),
        ensures
            self@.len() < self.slots(),
    {
        let n = self.slots() as nat;
        let all = Set::new(|s: u32| s < n);
        let listed = self@.to_set();
        assert(Seq::new(n, |i: int| i as u32).to_set() =~= all) by {
            assert forall|s: u32| all.contains(s) implies Seq::new(n, |i: int| i as u32).contains(s) by {
                assert(Seq::new(n, |i: int| i as u32)[s as int] == s);
            }
        }
        Seq::new(n, |i: int| i as u32).unique_seq_to_set();
        self@.unique_seq_to_set();
        assert(listed.subset_of(all.remove(slot)));
        vstd::set_lib::lemma_len_subset(listed, all.remove(slot));
    }

    /// Number of occupied slots.
    #[inline]
    pub fn len(&self) -> (count: u32)
        requires
            self.wf(),
        ensures
            count == self.slots() - self@.len(),
    {
        self.len
    }

    /// Whether every slot is free.
    #[inline]
    pub fn is_empty(&self) -> (empty: bool)
        requires
            self.wf(),
        ensures
            empty == (self@.len() == self.slots()),
    {
        self.len == 0
    }

    /// Number of slots.
    #[inline]
    pub fn capacity(&self) -> (count: u32)
        ensures
            count == self.slots(),
    {
        self.next_free.len() as u32
    }
}

/// Arena for orders, in parallel arrays: the orders, and the list of free slots.
pub struct Arena {
    data: Vec<Option<Order>>,
    list: FreeList,
}

impl Arena {
    /// The orders by slot.
    pub closed spec fn view(&self) -> Map<u32, Order> {
        Map::new(
            |slot: u32| slot < self.data@.len() && self.data@[slot as int] is Some,
            |slot: u32| self.data@[slot as int]->Some_0,
        )
    }

    /// The free slots, in the order in which they will be given out.
    pub closed spec fn free_slots(&self) -> Seq<u32> {
        self.list@
    }

    /// Number of slots.
    pub closed spec fn slots(&self) -> u32 {
        self.list.slots()
    }

    /// Every slot is either free or occupied.
    pub closed spec fn wf(&self) -> bool {
        &&& self.list.wf()
        &&& self.data@.len() == self.list.slots()
        &&& self.list.slots() * ORDER_BYTES <= isize::MAX
        &&& forall|slot: u32|
            slot < self.data@.len() ==> (self.data@[slot as int] is None
                <==> #[trigger] self.list@.contains(slot))
        &&& self.view().dom().finite()
        &&& self.view().dom().len() + self.list@.len() == self.list.slots()
    }

    /// Occupied slots are in range and not free; their number and that of the
    /// free slots add up to the capacity.
    pub proof fn lemma_slots(&self)
        requires
            self.wf(),
        ensures
            self@.dom().finite(),
            self@.dom().len() + self.free_slots().len() == self.slots(),
            self.slots() * ORDER_BYTES <= isize::MAX,
            forall|slot: u32| #[trigger]
                self@.contains_key(slot) ==> slot < self.slots() && !self.free_slots().contains(slot),
            forall|i: int|
                0 <= i < self.free_slots().len() ==> !self@.contains_key(#[trigger] self.free_slots()[i])
                    && self.free_slots()[i] < self.slots(),
    {
        self.list.lemma_free();
        assert forall|i: int| 0 <= i < self.free_slots().len() implies !self@.contains_key(
            #[trigger] self.free_slots()[i],
        ) && self.free_slots()[i] < self.slots() by {
            assert(self.list@.contains(self.list@[i]));
        }
    }

    /// An arena of `capacity` free slots.
    pub fn new(capacity: u32) -> (arena: Self)
        requires
            capacity * ORDER_BYTES <= isize::MAX,
        ensures
            arena.wf(),
            arena.slots() == capacity,
            arena@ == Map::<u32, Order>::empty(),
            arena.free_slots() == Seq::new(capacity as nat, |i: int| i as u32),
    {
        let mut data: Vec<Option<Order>> = Vec::with_capacity(capacity as usize);
        let mut i: u32 = 0;
        while i < capacity
            invariant
                i <= capacity,
                data@.len() == i,
                forall|k: int| 0 <= k < i ==> data@[k] is None,
            decreases capacity - i,
        {
            data.push(None);
            i += 1;
        }
        let arena = Arena { data, list: FreeList::new(capacity) };
        proof {
            let free = Seq::new(capacity as nat, |i: int| i as u32);
            assert(arena@ =~= Map::<u32, Order>::empty());
            assert(arena@.dom() =~= Set::<u32>::empty());
            assert forall|slot: u32| slot < arena.data@.len() implies (arena.data@[slot as int] is None
                <==> #[trigger] arena.list@.contains(slot)) by {
                assert(free[slot as int] == slot);
            }
        }
        arena
    }

    /// Puts an order into the next free slot. `None` where no slot is free.
    #[inline]
    pub fn allocate(&mut self, order: Order) -> (index: Option<ArenaIndex>)
        requires
            old(self).wf(),
        ensures
            final(self).wf(),
            final(self).slots() == old(self).slots(),
            gives_out(old(self).free_slots(), final(self).free_slots(), index),
            match index {
                Some(idx) => final(self)@ == old(self)@.insert(idx.0, order),
                None => *final(self) == *old(self),
            },
    {
        proof {
            self.list.lemma_free();
        }
        let slot: u32 = match self.list.take() {
            Some(slot) => slot,
            None => {
                return None;
            },
        };
        proof {
            assert(old(self).list@.contains(slot));
            assert(!old(self)@.contains_key(slot));
        }
        self.data[slot as usize] = Some(order);
        proof {
            let free = old(self).list@;
            assert(self@ =~= old(self)@.insert(slot, order));
            assert forall|s: u32| s < self.data@.len() implies (self.data@[s as int] is None
                <==> #[trigger] self.list@.contains(s)) by {
                assert(old(self).data@[s as int] is None <==> free.contains(s));
                if s == slot {
                    if self.list@.contains(s) {
                        let k = choose|k: int| 0 <= k < self.list@.len() && self.list@[k] == s;
                        assert(free[k + 1] == free[0]);
                    }
                } else if free.contains(s) {
                    let k = choose|k: int| 0 <= k < free.len() && free[k] == s;
                    assert(self.list@[k - 1] == s);
                } else if self.list@.contains(s) {
                    let k = choose|k: int| 0 <= k < self.list@.len() && self.list@[k] == s;
                    assert(free[k + 1] == s);
                }
            }
        }
        Some(ArenaIndex(slot))
    }

    /// Frees an occupied slot; it is the next to be given out.
    #[inline]
    pub fn free(&mut self, index: ArenaIndex)
        requires
            old(self).wf(),
            old(self)@.contains_key(index.0),
        ensures
            final(self).wf(),
            final(self).slots() == old(self).slots(),
            final(self)@ == old(self)@.remove(index.0),
            final(self).free_slots() == seq![index.0] + old(self).free_slots(),
    {
        let slot: u32 = index.0;
        assert(!self.list@.contains(slot));
        self.data[slot as usize] = None;
        self.list.give_back(slot);
        proof {
            let free = old(self).list@;
            assert(old(self)@.dom().contains(slot));
            assert(self@ =~= old(self)@.remove(slot));
            assert forall|s: u32| s < self.data@.len() implies (self.data@[s as int] is None
                <==> #[trigger] self.list@.contains(s)) by {
                assert(old(self).data@[s as int] is None <==> free.contains(s));
                if s == slot {
                    assert(self.list@[0] == s);
                } else if free.contains(s) {
                    let k = choose|k: int| 0 <= k < free.len() && free[k] == s;
                    assert(self.list@[k + 1] == s);
                } else if self.list@.contains(s) {
                    let k = choose|k: int| 0 <= k < self.list@.len() && self.list@[k] == s;
                    assert(free[k - 1] == s);
                }
            }
        }
    }

    /// The order in an occupied slot.
    #[inline]
    pub fn get(&self, index: ArenaIndex) -> (order: &Order)
        requires
            self.wf(),
            self@.contains_key(index.0),
        ensures
            *order == self@[index.0],
    {
        self.data[index.as_usize()].as_ref().unwrap()
    }

    /// The order in an occupied slot, to be changed.
    #[inline]
    pub fn get_mut(&mut self, index: ArenaIndex) -> (order: &mut Order)
        requires
            old(self).wf(),
            old(self)@.contains_key(index.0),
        ensures
            *order == old(self)@[index.0],
            final(self).wf(),
            final(self).slots() == old(self).slots(),
            final(self)@ == old(self)@.insert(index.0, *final(order)),
            final(self).free_slots() == old(self).free_slots(),
    {
        let order = self.data[index.as_usize()].as_mut().unwrap();
        proof {
            assert(after_borrow(*self)@.dom() =~= old(self)@.dom());
        }
        order
    }

    /// Number of occupied slots.
    #[inline]
    pub fn len(&self) -> (count: u32)
        requires
            self.wf(),
        ensures
            count == self@.dom().len(),
    {
        self.list.len()
    }

    /// Whether every slot is free.
    #[inline]
    pub fn is_empty(&self) -> (empty: bool)
        requires
            self.wf(),
        ensures
            empty == (self@.dom().len() == 0),
    {
        self.list.is_empty()
    }

    /// Number of slots.
    #[inline]
    pub fn capacity(&self) -> (count: u32)
        ensures
            count == self.slots(),
    {
        self.list.capacity()
    }
}

/// Whether an allocation leads from the free slots `before` to `after` and returns
/// `index`: the first of them, or none where none is free.
pub open spec fn gives_out(before: Seq<u32>, after: Seq<u32>, index: Option<ArenaIndex>) -> bool {
    if before.len() == 0 {
        index is None && after == before
    } else {
        index == Some(ArenaIndex(before[0])) && after == before.drop_first()
    }
}

/// What allocations return, one after the other, where at first all of `capacity` slots
/// are free in rising order: the slots in rising order, each once, and then none.
proof fn lemma_slots_in_order(
    capacity: u32,
    free: Seq<Seq<u32>>,
    indices: Seq<Option<ArenaIndex>>,
    n: int,
)
    requires
        free.len() == indices.len() + 1,
        0 <= n <= indices.len(),
        free[0] == Seq::new(capacity as nat, |i: int| i as u32),
        forall|k: int|
            0 <= k < indices.len() ==> gives_out(free[k], free[k + 1], #[trigger] indices[k]),
    ensures
        n <= capacity ==> free[n] == Seq::new((capacity - n) as nat, |i: int| (n + i) as u32),
        n >= capacity ==> free[n].len() == 0,
        n < indices.len() ==> indices[n] == (if n < capacity {
            Some(ArenaIndex(n as u32))
        } else {
            None
        }),
    decreases n,
{
    if n > 0 {
        lemma_slots_in_order(capacity, free, indices, n - 1);
        assert(gives_out(free[n - 1], free[n], indices[n - 1]));
        if n <= capacity {
            assert(free[n] =~= Seq::new((capacity - n) as nat, |i: int| (n + i) as u32));
        }
    } else {
        assert(free[0] =~= Seq::new((capacity - n) as nat, |i: int| (n + i) as u32));
    }
    if n < indices.len() {
        assert(gives_out(free[n], free[n + 1], indices[n]));
    }
}

/// A new arena gives its slots out in rising order, each once: of the allocations that
/// follow `new`, the `k`th returns slot `k`, and every one after the last slot returns
/// none.
pub proof fn law_new_arena_gives_slots_in_order(
    capacity: u32,
    arenas: Seq<Arena>,
    indices: Seq<Option<ArenaIndex>>,
)
    requires
        arenas.len() == indices.len() + 1,
        arenas[0].free_slots() == Seq::new(capacity as nat, |i: int| i as u32),
        forall|k: int|
            0 <= k < indices.len() ==> gives_out(
                arenas[k].free_slots(),
                arenas[k + 1].free_slots(),
                #[trigger] indices[k],
            ),
    ensures
        forall|k: int|
            0 <= k < indices.len() ==> #[trigger] indices[k] == (if k < capacity {
                Some(ArenaIndex(k as u32))
            } else {
                None
            }),
{
    let free = Seq::new(arenas.len(), |k: int| arenas[k].free_slots());
    assert forall|k: int| 0 <= k < indices.len() implies #[trigger] indices[k] == (if k < capacity {
        Some(ArenaIndex(k as u32))
    } else {
        None
    }) by {
        lemma_slots_in_order(capacity, free, indices, k);
    }
}

/// Freeing a slot undoes its allocation: the same orders are in the arena, and the
/// same slots are free, in the same order.
pub proof fn law_free_undoes_allocate(before: Arena, there: Arena, after: Arena, order: Order)
    requires
        before.wf(),
        before.free_slots().len() > 0,
        there@ == before@.insert(before.free_slots()[0], order),
        there.free_slots() == before.free_slots().drop_first(),
        after@ == there@.remove(before.free_slots()[0]),
        after.free_slots() == seq![before.free_slots()[0]] + there.free_slots(),
    ensures
        after@ == before@,
        after.free_slots() == before.free_slots(),
{
    before.lemma_slots();
    assert(!before@.contains_key(before.free_slots()[0]));
    assert(after@ =~= before@);
    assert(after.free_slots() =~= before.free_slots());
}

/// Bytes to map for `capacity` orders: the least whole number of huge pages that
/// holds them.
pub open spec fn huge_page_span(capacity: u32) -> int {
    (capacity * ORDER_BYTES + HUGE_PAGE_BYTES - 1) / (HUGE_PAGE_BYTES as int) * HUGE_PAGE_BYTES
}

/// Bytes to map for `capacity` orders.
pub fn huge_page_len(capacity: u32) -> (bytes: usize)
    requires
        capacity * ORDER_BYTES + HUGE_PAGE_BYTES <= isize::MAX,
    ensures
        bytes == huge_page_span(capacity),
        capacity * ORDER_BYTES <= bytes < capacity * ORDER_BYTES + HUGE_PAGE_BYTES,
        bytes % HUGE_PAGE_BYTES == 0,
{
    let byte_len: usize = capacity as usize * ORDER_BYTES;
    (byte_len + HUGE_PAGE_BYTES - 1) / HUGE_PAGE_BYTES * HUGE_PAGE_BYTES
}

/// Arena together with the length of the mapping of whole huge pages that would hold
/// its orders. It keeps the orders in an ordinary `Arena`, and gives slots out, frees
/// and reads them as that does; the mapping itself is not made here, only its length
/// is computed.
pub struct HugePageArena {
    slots: Arena,
    mmap_len: usize,
}

impl HugePageArena {
    /// The orders by slot.
    pub closed spec fn view(&self) -> Map<u32, Order> {
        self.slots@
    }

    /// The free slots, in the order in which they will be given out.
    pub closed spec fn free_slots(&self) -> Seq<u32> {
        self.slots.free_slots()
    }

    /// Number of slots.
    pub closed spec fn slots(&self) -> u32 {
        self.slots.slots()
    }

    /// The slots are sound and the mapping is sized for them.
    pub closed spec fn wf(&self) -> bool {
        &&& self.slots.wf()
        &&& self.mmap_len == huge_page_span(self.slots.slots())
    }

    /// An arena of `capacity` free slots.
    pub fn new(capacity: u32) -> (arena: Self)
        requires
            capacity * ORDER_BYTES + HUGE_PAGE_BYTES <= isize::MAX,
        ensures
            arena.wf(),
            arena.slots() == capacity,
            arena@ == Map::<u32, Order>::empty(),
            arena.free_slots() == Seq::new(capacity as nat, |i: int| i as u32),
    {
        HugePageArena { slots: Arena::new(capacity), mmap_len: huge_page_len(capacity) }
    }

    /// Puts an order into the next free slot. `None` where no slot is free.
    #[inline]
    pub fn allocate(&mut self, order: Order) -> (index: Option<ArenaIndex>)
        requires
            old(self).wf(),
        ensures
            final(self).wf(),
            final(self).slots() == old(self).slots(),
            gives_out(old(self).free_slots(), final(self).free_slots(), index),
            match index {
                Some(idx) => final(self)@ == old(self)@.insert(idx.0, order),
                None => *final(self) == *old(self),
            },
    {
        self.slots.allocate(order)
    }

    /// Frees an occupied slot; it is the next to be given out.
    #[inline]
    pub fn free(&mut self, index: ArenaIndex)
        requires
            old(self).wf(),
            old(self)@.contains_key(index.0),
        ensures
            final(self).wf(),
            final(self).slots() == old(self).slots(),
            final(self)@ == old(self)@.remove(index.0),
            final(self).free_slots() == seq![index.0] + old(self).free_slots(),
    {
        self.slots.free(index)
    }

    /// The order in an occupied slot.
    #[inline]
    pub fn get(&self, index: ArenaIndex) -> (order: &Order)
        requires
            self.wf(),
            self@.contains_key(index.0),
        ensures
            *order == self@[index.0],
    {
        self.slots.get(index)
    }

    /// The order in an occupied slot, to be changed.
    #[inline]
    pub fn get_mut(&mut self, index: ArenaIndex) -> (order: &mut Order)
        requires
            old(self).wf(),
            old(self)@.contains_key(index.0),
        ensures
            *order == old(self)@[index.0],
            final(self).wf(),
            final(self).slots() == old(self).slots(),
            final(self)@ == old(self)@.insert(index.0, *final(order)),
            final(self).free_slots() == old(self).free_slots(),
    {
        self.slots.get_mut(index)
    }

    /// Number of occupied slots.
    pub fn len(&self) -> (count: u32)
        requires
            self.wf(),
        ensures
            count == self@.dom().len(),
    {
        self.slots.len()
    }

    /// Whether every slot is free.
    pub fn is_empty(&self) -> (empty: bool)
        requires
            self.wf(),
        ensures
            empty == (self@.dom().len() == 0),
    {
        self.slots.is_empty()
    }

    /// Number of slots.
    pub fn capacity(&self) -> (count: u32)
        ensures
            count == self.slots(),
    {
        self.slots.capacity()
    }

    /// Bytes that the backing store takes.
    pub fn mapped_bytes(&self) -> (bytes: usize)
        requires
            self.wf(),
        ensures
            bytes == huge_page_span(self.slots()),
    {
        self.mmap_len
    }
}

/// A new huge-page arena gives its slots out as a new arena does.
pub proof fn law_new_huge_page_arena_gives_slots_in_order(
    capacity: u32,
    arenas: Seq<HugePageArena>,
    indices: Seq<Option<ArenaIndex>>,
)
    requires
        arenas.len() == indices.len() + 1,
        arenas[0].free_slots() == Seq::new(capacity as nat, |i: int| i as u32),
        forall|k: int|
            0 <= k < indices.len() ==> gives_out(
                arenas[k].free_slots(),
                arenas[k + 1].free_slots(),
                #[trigger] indices[k],
            ),
    ensures
        forall|k: int|
            0 <= k < indices.len() ==> #[trigger] indices[k] == (if k < capacity {
                Some(ArenaIndex(k as u32))
            } else {
                None
            }),
{
    let free = Seq::new(arenas.len(), |k: int| arenas[k].free_slots());
    assert forall|k: int| 0 <= k < indices.len() implies #[trigger] indices[k] == (if k < capacity {
        Some(ArenaIndex(k as u32))
    } else {
        None
    }) by {
        lemma_slots_in_order(capacity, free, indices, k);
    }
}

/// The mapping of a huge-page arena is the least whole number of huge pages that holds
/// its orders.
pub proof fn law_mapping_is_least(capacity: u32, pages: int)
    requires
        pages * HUGE_PAGE_BYTES >= capacity * ORDER_BYTES,
    ensures
        huge_page_span(capacity) <= pages * HUGE_PAGE_BYTES,
        huge_page_span(capacity) >= capacity * ORDER_BYTES,
        huge_page_span(capacity) % (HUGE_PAGE_BYTES as int) == 0,
{
}

} // verus!
