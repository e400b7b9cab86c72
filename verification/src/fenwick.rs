//! Fenwick (binary indexed) tree for prefix sums of dense tick depth.
use crate::sums::{
    lemma_sum_monotone, lemma_sum_point, lemma_sum_same, lemma_sum_split, lemma_sum_zero, range_sum,
};
use vstd::prelude::*;

verus! {

/// Fenwick tree over a fixed number of slots.
///
/// Node `i` of `data` (one-based) holds the sum of the slots from `node_start(i)`
/// up to, but not including, slot `i`.
pub struct FenwickTree {
    data: Vec<u64>,
    values: Ghost<Seq<int>>,
}

/// First slot that node `i` sums: `i` without its lowest set bit.
pub open spec fn node_start(i: u64) -> u64 {
    i & ((i - 1) as u64)
}

/// Sum of the slots `lo..hi` of `values`.
pub open spec fn slot_sum(values: Seq<int>, lo: int, hi: int) -> int {
    range_sum(|i: int| values[i], lo, hi)
}

/// The slot values that `values` gives.
pub open spec fn as_slots(values: Seq<u64>) -> Seq<int> {
    Seq::new(values.len(), |i: int| values[i] as int)
}

/// Sum that node `i` keeps.
pub open spec fn node_sum(values: Seq<int>, i: int) -> int {
    slot_sum(values, node_start(i as u64) as int, i)
}

/// Whether node `i` keeps a sum over slot `index`.
pub open spec fn node_covers(i: int, index: int) -> bool {
    node_start(i as u64) <= index < i
}

proof fn lemma_node_start(i: u64)
    requires
        0 < i,
    ensures
        node_start(i) < i,
{
    assert(i & ((i - 1) as u64) < i) by (bit_vector)
        requires
            0 < i,
    ;
}

/// Nodes between `i` and the next node that covers what `i` covers start at `i`
/// or later; the next node starts where `i` does or earlier.
proof fn lemma_next_node(i: u64, j: u64)
    requires
        0 < i <= u64::MAX / 4,
    ensures
        i < 2 * i - node_start(i) <= 2 * i,
        node_start((2 * i - node_start(i)) as u64) <= node_start(i),
        i < j < 2 * i - node_start(i) ==> i <= node_start(j),
{
    lemma_node_start(i);
    assert(({
        let next = (2 * i - (i & ((i - 1) as u64))) as u64;
        (next & ((next - 1) as u64)) <= (i & ((i - 1) as u64))
    })) by (bit_vector)
        requires
            0 < i <= u64::MAX / 4,
    ;
    assert(i < j < 2 * i - (i & ((i - 1) as u64)) ==> i <= (j & ((j - 1) as u64)))
        by (bit_vector)
        requires
            0 < i <= u64::MAX / 4,
    ;
}

/// The lowest set bit of `i`.
#[inline]
fn lowest_bit(i: usize) -> (bit: usize)
    requires
        0 < i,
    ensures
        bit == i - node_start(i as u64),
        0 < bit <= i,
{
    let word: u64 = i as u64;
    proof {
        lemma_node_start(word);
    }
    (word - (word & (word - 1))) as usize
}

impl FenwickTree {
    /// The slot values.
    pub closed spec fn view(&self) -> Seq<int> {
        self.values@
    }

    /// Every node holds the sum that it stands for.
    pub closed spec fn wf(&self) -> bool {
        &&& self.data@.len() == self.values@.len() + 1
        &&& self.data@.len() <= usize::MAX / 16
        &&& forall|i: int|
            0 < i < self.data@.len() ==> #[trigger] self.data@[i] as int == node_sum(
                self.values@,
                i,
            )
    }

    /// A tree of `size` zero slots.
    pub fn new(size: usize) -> (tree: Self)
        requires
            size < usize::MAX / 16,
        ensures
            tree.wf(),
            tree@ == Seq::new(size as nat, |i: int| 0int),
    {
        let mut data: Vec<u64> = Vec::with_capacity(size + 1);
        let mut i: usize = 0;
        while i < size + 1
            invariant
                i <= size + 1,
                size < usize::MAX / 16,
                data@.len() == i,
                forall|j: int| 0 <= j < i ==> data@[j] == 0,
            decreases size + 1 - i,
        {
            data.push(0);
            i += 1;
        }
        let ghost values = Seq::new(size as nat, |i: int| 0int);
        let tree = FenwickTree { data, values: Ghost(values) };
        proof {
            assert forall|i: int| 0 < i < tree.data@.len() implies #[trigger] tree.data@[i] as int
                == node_sum(values, i) by {
                lemma_node_start(i as u64);
                lemma_sum_zero(|k: int| values[k], node_start(i as u64) as int, i);
            }
        }
        tree
    }

    /// A tree with the slot values `values`.
    pub fn build(values: &Vec<u64>) -> (tree: Self)
        requires
            values@.len() < usize::MAX / 16,
            slot_sum(as_slots(values@), 0, values@.len() as int) <= u64::MAX,
        ensures
            tree.wf(),
            tree@ == as_slots(values@),
    {
        let n: usize = values.len();
        let ghost slots = as_slots(values@);
        let mut tree = FenwickTree::new(n);
        let mut i: usize = 0;
        while i < n
            invariant
                i <= n,
                n == values@.len(),
                n < usize::MAX / 16,
                slots == as_slots(values@),
                slot_sum(slots, 0, n as int) <= u64::MAX,
                tree.wf(),
                tree@.len() == n,
                forall|k: int| 0 <= k < i ==> tree@[k] == slots[k],
                forall|k: int| i <= k < n ==> tree@[k] == 0,
            decreases n - i,
        {
            let value: u64 = values[i];
            if value > 0 {
                proof {
                    let partial = tree@;
                    assert(forall|k: int| 0 <= k < n ==> #[trigger] slots[k] >= 0);
                    assert forall|k: int| 0 <= k < n implies #[trigger] partial[k] >= 0 by {
                        assert(slots[k] >= 0);
                    }
                    lemma_sum_split(|j: int| partial[j], 0, i as int, n as int);
                    lemma_sum_zero(|j: int| partial[j], i as int, n as int);
                    lemma_sum_same(|j: int| partial[j], |j: int| slots[j], 0, i as int);
                    lemma_sum_monotone(|j: int| slots[j], 0, 0, i + 1, n as int);
                    assert forall|k: int|
                        i < k <= partial.len() && #[trigger] node_covers(k, i as int) implies node_sum(
                        partial,
                        k,
                    ) + value <= u64::MAX by {
                        lemma_node_bounds(partial, k, i as int);
                    }
                }
                tree.add(i, value);
            }
            i += 1;
        }
        assert(tree@ =~= slots);
        tree
    }

    /// Adds `delta` to slot `index`. A slot past the end is ignored.
    pub fn add(&mut self, index: usize, delta: u64)
        requires
            old(self).wf(),
            index < usize::MAX,
            forall|i: int|
                index < i <= old(self)@.len() && #[trigger] node_covers(i, index as int)
                    ==> node_sum(old(self)@, i) + delta <= u64::MAX,
        ensures
            final(self).wf(),
            index < old(self)@.len() ==> final(self)@ == old(self)@.update(
                index as int,
                old(self)@[index as int] + delta,
            ),
            index >= old(self)@.len() ==> final(self)@ == old(self)@,
            forall|i: int|
                index < i <= final(self)@.len() && #[trigger] node_covers(i, index as int)
                    ==> node_sum(final(self)@, i) >= delta,
    {
        let mut i: usize = index + 1;
        let ghost before = self.values@;
        let ghost nodes = self.data@;
        let ghost p = index as int;
        if index < self.data.len() - 1 {
            let ghost after = before.update(p, before[p] + delta);
            proof {
                lemma_first_node(i as u64);
                self.values@ = after;
            }
            while i < self.data.len()
                invariant
                    self.values@ == after,
                    after == before.update(p, before[p] + delta),
                    0 <= p < before.len(),
                    p == index,
                    self.data@.len() == nodes.len() == before.len() + 1,
                    nodes.len() <= usize::MAX / 16,
                    index < i <= usize::MAX / 2,
                    i < nodes.len() ==> node_covers(i as int, p),
                    forall|j: int| 0 < j < nodes.len() ==> #[trigger] nodes[j] as int == node_sum(before, j),
                    forall|j: int|
                        index < j <= before.len() && #[trigger] node_covers(j, p) ==> node_sum(
                            before,
                            j,
                        ) + delta <= u64::MAX,
                    forall|j: int| i <= j < nodes.len() ==> self.data@[j] == nodes[j],
                    forall|j: int| 0 < j < i && j < nodes.len() ==> #[trigger] self.data@[j] as int == nodes[j]
                        + (if node_covers(j, p) { delta as int } else { 0 }),
                decreases usize::MAX - i,
            {
                let ghost at = i as int;
                assert(node_covers(at, p));
                assert(nodes[at] as int == node_sum(before, at));
                let current: u64 = self.data[i];
                self.data[i] = current + delta;
                let next: usize = i + lowest_bit(i);
                proof {
                    lemma_next_node(i as u64, i as u64);
                    assert forall|j: int| i < j < next && j < nodes.len() implies !node_covers(
                        j,
                        p,
                    ) by {
                        lemma_next_node(i as u64, j as u64);
                    }
                }
                i = next;
            }
            proof {
                assert forall|j: int| 0 < j < self.data@.len() implies #[trigger] self.data@[j] as int
                    == node_sum(after, j) by {
                    lemma_node_start(j as u64);
                    lemma_sum_point(
                        |k: int| before[k],
                        |k: int| after[k],
                        node_start(j as u64) as int,
                        j,
                        p,
                    );
                }
                assert forall|j: int|
                    index < j <= after.len() && #[trigger] node_covers(j, p) implies node_sum(
                    after,
                    j,
                ) >= delta by {
                    assert(self.data@[j] as int == nodes[j] + delta);
                }
            }
        }
    }

    /// Taking from a slot undoes adding to it, in every tree: what was added can be
    /// taken, and the slots are then what they were.
    pub proof fn law_sub_undoes_add(before: FenwickTree, added: FenwickTree, index: usize, delta: u64)
        requires
            before.wf(),
            added.wf(),
            index < before@.len(),
            added@ == before@.update(index as int, before@[index as int] + delta),
        ensures
            forall|i: int|
                index < i <= added@.len() && #[trigger] node_covers(i, index as int) ==> node_sum(
                    added@,
                    i,
                ) >= delta,
            added@.update(index as int, added@[index as int] - delta) == before@,
    {
        let p = index as int;
        assert(added@.update(p, added@[p] - delta) =~= before@);
        assert forall|i: int|
            index < i <= added@.len() && #[trigger] node_covers(i, p) implies node_sum(added@, i)
            >= delta by {
            lemma_node_start(i as u64);
            assert(before.data@[i] as int == node_sum(before@, i));
            lemma_sum_point(
                |k: int| before@[k],
                |k: int| added@[k],
                node_start(i as u64) as int,
                i,
                p,
            );
        }
    }

    /// Takes `delta` from slot `index`. A slot past the end is ignored.
    pub fn sub(&mut self, index: usize, delta: u64)
        requires
            old(self).wf(),
            index < usize::MAX,
            forall|i: int|
                index < i <= old(self)@.len() && #[trigger] node_covers(i, index as int)
                    ==> node_sum(old(self)@, i) >= delta,
        ensures
            final(self).wf(),
            index < old(self)@.len() ==> final(self)@ == old(self)@.update(
                index as int,
                old(self)@[index as int] - delta,
            ),
            index >= old(self)@.len() ==> final(self)@ == old(self)@,
    {
        let mut i: usize = index + 1;
        let ghost before = self.values@;
        let ghost nodes = self.data@;
        let ghost p = index as int;
        if index < self.data.len() - 1 {
            let ghost after = before.update(p, before[p] - delta);
            proof {
                lemma_first_node(i as u64);
                self.values@ = after;
            }
            while i < self.data.len()
                invariant
                    self.values@ == after,
                    after == before.update(p, before[p] - delta),
                    0 <= p < before.len(),
                    p == index,
                    self.data@.len() == nodes.len() == before.len() + 1,
                    nodes.len() <= usize::MAX / 16,
                    index < i <= usize::MAX / 2,
                    i < nodes.len() ==> node_covers(i as int, p),
                    forall|j: int| 0 < j < nodes.len() ==> #[trigger] nodes[j] as int == node_sum(before, j),
                    forall|j: int|
                        index < j <= before.len() && #[trigger] node_covers(j, p) ==> node_sum(
                            before,
                            j,
                        ) >= delta,
                    forall|j: int| i <= j < nodes.len() ==> self.data@[j] == nodes[j],
                    forall|j: int| 0 < j < i && j < nodes.len() ==> #[trigger] self.data@[j] as int == nodes[j]
                        - (if node_covers(j, p) { delta as int } else { 0 }),
                decreases usize::MAX - i,
            {
                let ghost at = i as int;
                assert(node_covers(at, p));
                assert(nodes[at] as int == node_sum(before, at));
                let current: u64 = self.data[i];
                self.data[i] = current - delta;
                let next: usize = i + lowest_bit(i);
                proof {
                    lemma_next_node(i as u64, i as u64);
                    assert forall|j: int| i < j < next && j < nodes.len() implies !node_covers(
                        j,
                        p,
                    ) by {
                        lemma_next_node(i as u64, j as u64);
                    }
                }
                i = next;
            }
            proof {
                assert forall|j: int| 0 < j < self.data@.len() implies #[trigger] self.data@[j] as int
                    == node_sum(after, j) by {
                    lemma_node_start(j as u64);
                    lemma_sum_point(
                        |k: int| before[k],
                        |k: int| after[k],
                        node_start(j as u64) as int,
                        j,
                        p,
                    );
                }
            }
        }
    }

    /// Sum of the slots from the first up to and including `index`.
    pub fn prefix_sum(&self, index: usize) -> (sum: u64)
        requires
            self.wf(),
            index < self@.len(),
            slot_sum(self@, 0, index + 1) <= u64::MAX,
        ensures
            sum == slot_sum(self@, 0, index + 1),
    {
        let mut i: usize = index + 1;
        let mut acc: u64 = 0;
        let ghost f = |k: int| self.values@[k];
        while i > 0
            invariant
                self.wf(),
                f == (|k: int| self.values@[k]),
                i <= index + 1 <= self.values@.len(),
                acc + range_sum(f, 0, i as int) == slot_sum(self.values@, 0, index + 1),
                slot_sum(self.values@, 0, index + 1) <= u64::MAX,
            decreases i,
        {
            let ghost start = node_start(i as u64) as int;
            proof {
                lemma_node_start(i as u64);
                lemma_sum_split(f, 0, start, i as int);
                assert(self.data@[i as int] as int == node_sum(self.values@, i as int));
                self.lemma_prefix_nonnegative(start);
            }
            acc = acc + self.data[i];
            i = i - lowest_bit(i);
        }
        acc
    }

    /// Sum of the slots up to and including `index`.
    #[inline]
    pub fn prefix_sum_le(&self, index: usize) -> (sum: u64)
        requires
            self.wf(),
            index < self@.len(),
            slot_sum(self@, 0, index + 1) <= u64::MAX,
        ensures
            sum == slot_sum(self@, 0, index + 1),
    {
        self.prefix_sum(index)
    }

    /// Sum of the slots from `index` to the last.
    pub fn suffix_sum_ge(&self, index: usize) -> (sum: u64)
        requires
            self.wf(),
            0 < self@.len(),
            index <= self@.len(),
            slot_sum(self@, 0, self@.len() as int) <= u64::MAX,
            slot_sum(self@, index as int, self@.len() as int) >= 0,
        ensures
            sum == slot_sum(self@, index as int, self@.len() as int),
    {
        proof {
            lemma_sum_split(|k: int| self.values@[k], 0, index as int, self.values@.len() as int);
        }
        let total: u64 = self.prefix_sum(self.data.len() - 2);
        let before: u64 = if index > 0 {
            self.prefix_sum(index - 1)
        } else {
            0
        };
        total - before
    }

    /// Every prefix of the slots sums to a number that is not negative.
    pub proof fn lemma_prefix_nonnegative(&self, end: int)
        requires
            self.wf(),
            0 <= end <= self@.len(),
        ensures
            slot_sum(self@, 0, end) >= 0,
        decreases end,
    {
        if end > 0 {
            let start = node_start(end as u64) as int;
            lemma_node_start(end as u64);
            self.lemma_prefix_nonnegative(start);
            lemma_sum_split(|k: int| self.values@[k], 0, start, end);
            assert(self.data@[end] as int == node_sum(self.values@, end));
        }
    }
}

/// Where no slot is negative, a node that covers a slot keeps at least the value
/// of the slot and at most the sum of all slots.
pub proof fn lemma_node_bounds(values: Seq<int>, i: int, index: int)
    requires
        forall|k: int| 0 <= k < values.len() ==> #[trigger] values[k] >= 0,
        0 <= index < values.len() <= u64::MAX,
        i <= values.len(),
        node_covers(i, index),
    ensures
        values[index] <= node_sum(values, i) <= slot_sum(values, 0, values.len() as int),
{
    let f = |k: int| values[k];
    let start = node_start(i as u64) as int;
    lemma_sum_monotone(f, 0, start, i, values.len() as int);
    lemma_sum_monotone(f, start, index, index + 1, i);
    assert(range_sum(f, index, index + 1) == values[index]) by {
        reveal_with_fuel(range_sum, 2);
    }
}

/// Node `index + 1` covers slot `index`.
proof fn lemma_first_node(i: u64)
    requires
        0 < i,
    ensures
        node_covers(i as int, i - 1),
{
    lemma_node_start(i);
}

} // verus!
