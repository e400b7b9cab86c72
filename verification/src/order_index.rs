//! Constant-time lookup of an order's arena slot by its identifier.
use core::hash::BuildHasherDefault;
use hashbrown::HashMap;
use twox_hash::XxHash64;
use vstd::prelude::*;

verus! {

/// Hasher of the order index: xxHash64 with its fixed default seed, so that a
/// replay walks through the same states.
pub type DeterministicHasher = BuildHasherDefault<XxHash64>;

/// Hash map from order identifier to arena slot, a `hashbrown::HashMap` with
/// `u64` keys and the deterministic hasher.
#[verifier::external_body]
pub struct OrderIndex {
    map: HashMap<u64, u32, DeterministicHasher>,
}

/// The entries that an index holds.
pub uninterp spec fn order_index_contents(index: OrderIndex) -> Map<u64, u32>;

impl OrderIndex {
    /// `hashbrown::HashMap::with_hasher`: the new map holds no entry.
    #[verifier::external_body]
    pub(crate) fn new() -> (index: Self)
        ensures
            (order_index_contents(index) == Map::<u64, u32>::empty()),
    {
        OrderIndex { map: HashMap::with_hasher(DeterministicHasher::default()) }
    }

    /// `hashbrown::HashMap::get`: the value of the entry for `id`, or `None` where
    /// there is no such entry.
    #[verifier::external_body]
    pub(crate) fn get(&self, id: u64) -> (slot: Option<u32>)
        ensures
            slot == (if order_index_contents(*self).contains_key(id) {
                Some(order_index_contents(*self)[id])
            } else {
                None
            }),
    {
        self.map.get(&id).copied()
    }

    /// `hashbrown::HashMap::contains_key`: whether there is an entry for `id`.
    #[verifier::external_body]
    pub(crate) fn contains_key(&self, id: u64) -> (found: bool)
        ensures
            found == order_index_contents(*self).contains_key(id),
    {
        self.map.contains_key(&id)
    }

    /// `hashbrown::HashMap::insert`: the entry for `id` becomes `slot`, the other
    /// entries stay. The value that the entry had before is dropped.
    #[verifier::external_body]
    pub(crate) fn insert(&mut self, id: u64, slot: u32)
        ensures
            order_index_contents(*final(self)) == order_index_contents(*old(self)).insert(id, slot),
    {
        self.map.insert(id, slot);
    }

    /// `hashbrown::HashMap::remove`: the entry for `id` goes, the other entries
    /// stay. The value that the entry had is dropped.
    #[verifier::external_body]
    pub(crate) fn remove(&mut self, id: u64)
        ensures
            order_index_contents(*final(self)) == order_index_contents(*old(self)).remove(id),
    {
        self.map.remove(&id);
    }
}

} // verus!
