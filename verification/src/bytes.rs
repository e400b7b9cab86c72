//! Little-endian integers.
use vstd::prelude::*;

verus! {

/// The `n` lowest bytes of `x`, least significant first.
pub open spec fn le_bytes(x: int, n: nat) -> Seq<u8>
    decreases n,
{
    if n == 0 {
        Seq::empty()
    } else {
        seq![(x % 256) as u8] + le_bytes(x / 256, (n - 1) as nat)
    }
}

/// The integer that `bytes` hold, least significant first.
pub open spec fn le_value(bytes: Seq<u8>) -> int
    decreases bytes.len(),
{
    if bytes.len() == 0 {
        0
    } else {
        bytes[0] + 256 * le_value(bytes.drop_first())
    }
}

/// The number of values that `n` bytes can hold.
pub open spec fn byte_range(n: nat) -> int
    decreases n,
{
    if n == 0 {
        1
    } else {
        256 * byte_range((n - 1) as nat)
    }
}

/// Ranges of the widths in use.
pub proof fn lemma_byte_range()
    ensures
        byte_range(4) == u32::MAX + 1,
        byte_range(8) == u64::MAX + 1,
{
    reveal_with_fuel(byte_range, 9);
}

/// An integer takes as many bytes as are asked for.
pub proof fn lemma_le_len(x: int, n: nat)
    ensures
        le_bytes(x, n).len() == n,
    decreases n,
{
    if n > 0 {
        lemma_le_len(x / 256, (n - 1) as nat);
    }
}

/// Bytes hold an integer in their range.
pub proof fn lemma_le_range(bytes: Seq<u8>)
    ensures
        0 <= le_value(bytes) < byte_range(bytes.len()),
    decreases bytes.len(),
{
    if bytes.len() > 0 {
        lemma_le_range(bytes.drop_first());
    }
}

/// The bytes of an integer in range hold that integer.
pub proof fn lemma_le_round_trip(x: int, n: nat)
    requires
        0 <= x < byte_range(n),
    ensures
        le_value(le_bytes(x, n)) == x,
    decreases n,
{
    if n > 0 {
        lemma_le_round_trip(x / 256, (n - 1) as nat);
        assert(le_bytes(x, n).drop_first() =~= le_bytes(x / 256, (n - 1) as nat));
    }
}

/// Appends the bytes of a `u64`.
pub fn push_u64(buf: &mut Vec<u8>, x: u64)
    ensures
        final(buf)@ == old(buf)@ + le_bytes(x as int, 8),
{
    let mut rest: u64 = x;
    let mut i: usize = 0;
    assert(buf@ + le_bytes(x as int, 8) =~= old(buf)@ + le_bytes(x as int, 8));
    while i < 8
        invariant
            i <= 8,
            buf@ + le_bytes(rest as int, (8 - i) as nat) == old(buf)@ + le_bytes(x as int, 8),
        decreases 8 - i,
    {
        let low: u8 = (rest % 256) as u8;
        proof {
            assert(buf@.push(low) + le_bytes(rest as int / 256, (7 - i) as nat) =~= buf@ + (seq![low]
                + le_bytes(rest as int / 256, (7 - i) as nat)));
        }
        buf.push(low);
        rest = rest / 256;
        i += 1;
    }
    assert(buf@ + le_bytes(rest as int, 0) =~= buf@);
}

/// Appends the bytes of a `u32`.
pub fn push_u32(buf: &mut Vec<u8>, x: u32)
    ensures
        final(buf)@ == old(buf)@ + le_bytes(x as int, 4),
{
    let mut rest: u32 = x;
    let mut i: usize = 0;
    assert(buf@ + le_bytes(x as int, 4) =~= old(buf)@ + le_bytes(x as int, 4));
    while i < 4
        invariant
            i <= 4,
            buf@ + le_bytes(rest as int, (4 - i) as nat) == old(buf)@ + le_bytes(x as int, 4),
        decreases 4 - i,
    {
        let low: u8 = (rest % 256) as u8;
        proof {
            assert(buf@.push(low) + le_bytes(rest as int / 256, (3 - i) as nat) =~= buf@ + (seq![low]
                + le_bytes(rest as int / 256, (3 - i) as nat)));
        }
        buf.push(low);
        rest = rest / 256;
        i += 1;
    }
    assert(buf@ + le_bytes(rest as int, 0) =~= buf@);
}

/// The integer in the `width` bytes from `pos` on.
fn read_le(bytes: &[u8], pos: usize, width: usize) -> (x: u64)
    requires
        width <= 8,
        pos + width <= bytes@.len(),
    ensures
        x == le_value(bytes@.subrange(pos as int, pos + width)),
{
    let ghost part = bytes@.subrange(pos as int, pos + width);
    let end: usize = bytes.len();
    let mut x: u64 = 0;
    let mut i: usize = width;
    assert(part.subrange(width as int, width as int) =~= Seq::<u8>::empty());
    while i > 0
        invariant
            i <= width <= 8,
            pos + width <= end == bytes@.len(),
            part == bytes@.subrange(pos as int, pos + width),
            x == le_value(part.subrange(i as int, width as int)),
        decreases i,
    {
        proof {
            let tail = part.subrange(i as int, width as int);
            let more = part.subrange(i - 1, width as int);
            assert(more.drop_first() =~= tail);
            lemma_le_range(more);
            lemma_range_grows(more.len(), 8);
            lemma_byte_range();
        }
        x = x * 256 + bytes[pos + i - 1] as u64;
        i -= 1;
    }
    assert(part.subrange(0, width as int) =~= part);
    x
}

proof fn lemma_range_grows(n: nat, m: nat)
    requires
        n <= m,
    ensures
        1 <= byte_range(n) <= byte_range(m),
    decreases m,
{
    if n < m {
        lemma_range_grows(n, (m - 1) as nat);
    } else if n > 0 {
        lemma_range_grows((n - 1) as nat, (m - 1) as nat);
    }
}

/// The `u64` at `pos`.
pub fn read_u64(bytes: &[u8], pos: usize) -> (x: u64)
    requires
        pos + 8 <= bytes@.len(),
    ensures
        x == le_value(bytes@.subrange(pos as int, pos + 8)),
{
    read_le(bytes, pos, 8)
}

/// The `u32` at `pos`.
pub fn read_u32(bytes: &[u8], pos: usize) -> (x: u32)
    requires
        pos + 4 <= bytes@.len(),
    ensures
        x == le_value(bytes@.subrange(pos as int, pos + 4)),
{
    proof {
        lemma_le_range(bytes@.subrange(pos as int, pos + 4));
        lemma_byte_range();
    }
    read_le(bytes, pos, 4) as u32
}

} // verus!
