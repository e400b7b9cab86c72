//! Occupancy bitset: one bit per dense tick, for a constant-time search of the
//! next best price.
use vstd::prelude::*;

verus! {

/// A fixed number of bits, in words of 64.
pub struct Occupancy {
    words: Vec<u64>,
}

/// Whether bit `bit` of `word` is set.
pub open spec fn bit_set(word: u64, bit: u64) -> bool {
    (word >> bit) & 1 == 1
}

proof fn lemma_set_bit(word: u64, bit: u64, other: u64)
    requires
        bit < 64,
        other < 64,
    ensures
        bit_set(word | (1u64 << bit), other) == (other == bit || bit_set(word, other)),
        bit_set(word & !(1u64 << bit), other) == (other != bit && bit_set(word, other)),
{
    assert((((word | (1u64 << bit)) >> other) & 1 == 1) == (other == bit || (word >> other) & 1
        == 1)) by (bit_vector)
        requires
            bit < 64,
            other < 64,
    ;
    assert((((word & !(1u64 << bit)) >> other) & 1 == 1) == (other != bit && (word >> other) & 1
        == 1)) by (bit_vector)
        requires
            bit < 64,
            other < 64,
    ;
}

proof fn lemma_no_bits(bit: u64)
    ensures
        !bit_set(0, bit),
{
    assert((0u64 >> bit) & 1 == 0) by (bit_vector);
}

/// The bit just above the leading zeros is the highest that is set.
proof fn lemma_leading(word: u64, bit: u64)
    requires
        word != 0,
    ensures
        0 <= vstd::std_specs::bits::u64_leading_zeros(word) < 64,
        bit_set(word, (63 - vstd::std_specs::bits::u64_leading_zeros(word)) as u64),
        63 - vstd::std_specs::bits::u64_leading_zeros(word) < bit < 64 ==> !bit_set(word, bit),
    decreases word,
{
    reveal(vstd::std_specs::bits::u64_leading_zeros);
    if word == 1 {
        assert(vstd::std_specs::bits::u64_leading_zeros(0) == 64);
        assert((1u64 >> 0) & 1 == 1) by (bit_vector);
        assert(0 < bit < 64 ==> (1u64 >> bit) & 1 == 0) by (bit_vector);
    } else {
        let half = word / 2;
        let below = (if bit > 0 {
            bit - 1
        } else {
            0
        }) as u64;
        lemma_leading(half, below);
        let top = (63 - vstd::std_specs::bits::u64_leading_zeros(half)) as u64;
        let up = (top + 1) as u64;
        assert(top < 63) by {
            if top == 63 {
                assert(!(((word / 2) >> 63) & 1 == 1)) by (bit_vector);
            }
        }
        assert((((word / 2) >> top) & 1 == 1) == ((word >> up) & 1 == 1)) by (bit_vector)
            requires
                up == top + 1,
                top < 63,
        ;
        if 0 < bit < 64 {
            assert((((word / 2) >> below) & 1 == 1) == ((word >> bit) & 1 == 1)) by (bit_vector)
                requires
                    bit == below + 1,
                    bit < 64,
            ;
        }
    }
}

impl Occupancy {
    /// Number of bits.
    pub closed spec fn bits(&self) -> int {
        self.words@.len() as int * 64
    }

    /// Whether bit `i` is set.
    pub closed spec fn has(&self, i: int) -> bool {
        0 <= i < self.bits() && bit_set(self.words@[i / 64], (i % 64) as u64)
    }

    /// A set without members, with room for `size` bits.
    pub fn new(size: usize) -> (set: Self)
        requires
            size < usize::MAX / 16,
        ensures
            size <= set.bits() < size + 64,
            forall|i: int| !#[trigger] set.has(i),
    {
        let count: usize = (size + 63) / 64;
        let mut words: Vec<u64> = Vec::with_capacity(count);
        let mut i: usize = 0;
        while i < count
            invariant
                i <= count,
                words@.len() == i,
                forall|k: int| 0 <= k < i ==> words@[k] == 0,
            decreases count - i,
        {
            words.push(0);
            i += 1;
        }
        let set = Occupancy { words };
        proof {
            assert forall|i: int| !#[trigger] set.has(i) by {
                lemma_no_bits((i % 64) as u64);
            }
        }
        set
    }

    /// Sets bit `i`.
    pub fn set(&mut self, i: usize)
        requires
            i < old(self).bits(),
        ensures
            final(self).bits() == old(self).bits(),
            forall|k: int| #[trigger] final(self).has(k) == (k == i || old(self).has(k)),
    {
        let word: usize = i / 64;
        let bit: u64 = (i % 64) as u64;
        let current: u64 = self.words[word];
        self.words[word] = current | (1u64 << bit);
        proof {
            assert forall|k: int| #[trigger] self.has(k) == (k == i || old(self).has(k)) by {
                if 0 <= k < self.bits() {
                    lemma_set_bit(current, bit, (k % 64) as u64);
                }
            }
        }
    }

    /// Clears bit `i`.
    pub fn clear(&mut self, i: usize)
        requires
            i < old(self).bits(),
        ensures
            final(self).bits() == old(self).bits(),
            forall|k: int| #[trigger] final(self).has(k) == (k != i && old(self).has(k)),
    {
        let word: usize = i / 64;
        let bit: u64 = (i % 64) as u64;
        let current: u64 = self.words[word];
        self.words[word] = current & !(1u64 << bit);
        proof {
            assert forall|k: int| #[trigger] self.has(k) == (k != i && old(self).has(k)) by {
                if 0 <= k < self.bits() {
                    lemma_set_bit(current, bit, (k % 64) as u64);
                }
            }
        }
    }

    /// The highest set bit.
    pub fn highest(&self) -> (bit: Option<usize>)
        requires
            self.bits() <= usize::MAX,
        ensures
            bit is None ==> forall|k: int| !#[trigger] self.has(k),
            bit matches Some(i) ==> self.has(i as int) && forall|k: int| #[trigger]
                self.has(k) ==> k <= i,
    {
        let mut at: usize = self.words.len();
        while at > 0
            invariant
                self.bits() <= usize::MAX,
                at <= self.words@.len(),
                forall|k: int| #[trigger] self.has(k) ==> k < at * 64,
            decreases at,
        {
            let word: u64 = self.words[at - 1];
            if word != 0 {
                proof {
                    lemma_leading(word, 0);
                }
                let bit: usize = 63 - word.leading_zeros() as usize;
                let i: usize = (at - 1) * 64 + bit;
                proof {
                    assert(i as int / 64 == at - 1 && i as int % 64 == bit);
                    assert forall|k: int| #[trigger] self.has(k) implies k <= i by {
                        if k > i {
                            lemma_leading(word, (k % 64) as u64);
                        }
                    }
                }
                return Some(i);
            }
            proof {
                assert forall|k: int| #[trigger] self.has(k) implies k < (at - 1) * 64 by {
                    lemma_no_bits((k % 64) as u64);
                }
            }
            at -= 1;
        }
        None
    }

    /// The lowest set bit.
    pub fn lowest(&self) -> (bit: Option<usize>)
        requires
            self.bits() <= usize::MAX,
        ensures
            bit is None ==> forall|k: int| !#[trigger] self.has(k),
            bit matches Some(i) ==> self.has(i as int) && forall|k: int| #[trigger]
                self.has(k) ==> i <= k,
    {
        let mut at: usize = 0;
        while at < self.words.len()
            invariant
                self.bits() <= usize::MAX,
                at <= self.words@.len(),
                forall|k: int| #[trigger] self.has(k) ==> at * 64 <= k,
            decreases self.words@.len() - at,
        {
            let word: u64 = self.words[at];
            if word != 0 {
                let bit: usize = word.trailing_zeros() as usize;
                let i: usize = at * 64 + bit;
                proof {
                    assert(i as int / 64 == at && i as int % 64 == bit);
                    assert forall|k: int| #[trigger] self.has(k) implies i <= k by {
                        if k < i {
                            let low = (k % 64) as u64;
                            assert((word >> low) & 1u64 == 0u64);
                        }
                    }
                }
                return Some(i);
            }
            proof {
                assert forall|k: int| #[trigger] self.has(k) implies (at + 1) * 64 <= k by {
                    lemma_no_bits((k % 64) as u64);
                }
            }
            at += 1;
        }
        None
    }
}

} // verus!
