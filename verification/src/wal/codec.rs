//! Numbers as bytes, and checksums.

use vstd::prelude::*;

verus! {

/// The first `n` bytes of a number, the least significant first.
pub open spec fn le_bytes(x: nat, n: nat) -> Seq<u8>
    decreases n,
{
    if n == 0 {
        Seq::empty()
    } else {
        seq![(x % 256) as u8] + le_bytes(x / 256, (n - 1) as nat)
    }
}

/// The number that bytes stand for, the least significant first.
pub open spec fn le_value(bytes: Seq<u8>) -> nat
    decreases bytes.len(),
{
    if bytes.len() == 0 {
        0
    } else {
        bytes[0] as nat + 256 * le_value(bytes.drop_first())
    }
}

/// One more than the largest number of `n` bytes.
pub open spec fn byte_range(n: nat) -> nat
    decreases n,
{
    if n == 0 {
        1
    } else {
        256 * byte_range((n - 1) as nat)
    }
}

/// A number comes back from its bytes.
pub proof fn lemma_le_round_trip(x: nat, n: nat)
    requires
        x < byte_range(n),
    ensures
        le_bytes(x, n).len() == n,
        le_value(le_bytes(x, n)) == x,
    decreases n,
{
    if n > 0 {
        lemma_le_round_trip(x / 256, (n - 1) as nat);
        let bytes = le_bytes(x, n);
        assert(bytes.drop_first() =~= le_bytes(x / 256, (n - 1) as nat));
        assert(bytes[0] == (x % 256) as u8);
    }
}

/// Bytes come back from their number.
pub proof fn lemma_le_value_round_trip(bytes: Seq<u8>)
    ensures
        le_bytes(le_value(bytes), bytes.len()) == bytes,
        le_value(bytes) < byte_range(bytes.len()),
    decreases bytes.len(),
{
    if bytes.len() > 0 {
        let rest = bytes.drop_first();
        lemma_le_value_round_trip(rest);
        let x = le_value(bytes);
        assert(x % 256 == bytes[0] as nat);
        assert(x / 256 == le_value(rest));
        assert(seq![bytes[0]] + rest =~= bytes);
    }
}

/// The bytes of a number have the length that was asked for.
pub proof fn lemma_le_len(x: nat, n: nat)
    ensures
        le_bytes(x, n).len() == n,
    decreases n,
{
    if n > 0 {
        lemma_le_len(x / 256, (n - 1) as nat);
    }
}

/// The ranges of the machine words.
pub proof fn lemma_ranges()
    ensures
        byte_range(1) == 0x100,
        byte_range(4) == 0x1_0000_0000,
        byte_range(8) == 0x1_0000_0000_0000_0000,
{
    reveal_with_fuel(byte_range, 9);
}

/// Appends the first `n` bytes of a number.
pub fn put_le(buffer: &mut Vec<u8>, x: u64, n: usize)
    ensures
        final(buffer)@ == old(buffer)@ + le_bytes(x as nat, n as nat),
{
    let ghost before = buffer@;
    let mut rest: u64 = x;
    let mut left: usize = n;
    assert(buffer@ =~= before);
    while left > 0
        invariant
            left <= n,
            buffer@ + le_bytes(rest as nat, left as nat) == before + le_bytes(
                x as nat,
                n as nat,
            ),
        decreases left,
    {
        let ghost here = buffer@;
        let ghost tail = le_bytes((rest / 256) as nat, (left - 1) as nat);
        buffer.push((rest % 256) as u8);
        assert(buffer@ + tail =~= here + le_bytes(rest as nat, left as nat));
        rest = rest / 256;
        left -= 1;
    }
    assert(buffer@ + le_bytes(rest as nat, 0) =~= buffer@);
}

/// The number at a position of at most eight bytes.
pub fn get_le(bytes: &[u8], at: usize, n: usize) -> (r: u64)
    requires
        n <= 8,
        at + n <= bytes@.len(),
    ensures
        r == le_value(bytes@.subrange(at as int, at + n)),
{
    let size: usize = bytes.len();
    let mut value: u64 = 0;
    let mut left: usize = n;
    proof {
        lemma_ranges();
        assert(bytes@.subrange(at + n, at + n) =~= Seq::empty());
    }
    while left > 0
        invariant
            left <= n <= 8,
            size == bytes@.len(),
            at + n <= size,
            value == le_value(bytes@.subrange(at + left, at + n)),
        decreases left,
    {
        left -= 1;
        let byte: u8 = bytes[at + left];
        proof {
            let longer = bytes@.subrange(at + left, at + n);
            assert(longer.drop_first() =~= bytes@.subrange(at + left + 1, at + n));
            assert(longer[0] == byte);
            lemma_le_value_round_trip(longer);
            lemma_range_monotone(longer.len(), 8);
            lemma_ranges();
        }
        value = value * 256 + byte as u64;
    }
    value
}

/// More bytes reach further.
proof fn lemma_range_monotone(a: nat, b: nat)
    requires
        a <= b,
    ensures
        byte_range(a) <= byte_range(b),
    decreases b,
{
    if a < b {
        lemma_range_monotone(a, (b - 1) as nat);
    }
}

/// The remainder after one more bit.
pub open spec fn crc_bit(state: u32) -> u32 {
    if state & 1 == 1 {
        (state >> 1) ^ 0xedb8_8320
    } else {
        state >> 1
    }
}

/// The remainder after `n` more bits.
pub open spec fn crc_bits(state: u32, n: nat) -> u32
    decreases n,
{
    if n == 0 {
        state
    } else {
        crc_bit(crc_bits(state, (n - 1) as nat))
    }
}

/// The remainder after some bytes.
pub open spec fn crc_state(bytes: Seq<u8>) -> u32
    decreases bytes.len(),
{
    if bytes.len() == 0 {
        0xffff_ffff
    } else {
        crc_bits(crc_state(bytes.drop_last()) ^ (bytes.last() as u32), 8)
    }
}

/// The CRC-32 checksum with the reflected polynomial 0xedb88320.
pub open spec fn crc32_of(bytes: Seq<u8>) -> u32 {
    crc_state(bytes) ^ 0xffff_ffff
}

/// The CRC-32 checksum of the bytes from `start` to `end`.
pub fn crc32(bytes: &[u8], start: usize, end: usize) -> (r: u32)
    requires
        start <= end <= bytes@.len(),
    ensures
        r == crc32_of(bytes@.subrange(start as int, end as int)),
{
    let mut state: u32 = 0xffff_ffff;
    let mut i: usize = start;
    assert(bytes@.subrange(start as int, start as int) =~= Seq::empty());
    while i < end
        invariant
            start <= i <= end <= bytes@.len(),
            state == crc_state(bytes@.subrange(start as int, i as int)),
        decreases end - i,
    {
        let ghost seen = bytes@.subrange(start as int, i as int);
        let mixed: u32 = state ^ (bytes[i] as u32);
        let mut next: u32 = mixed;
        let mut bit: usize = 0;
        while bit < 8
            invariant
                bit <= 8,
                next == crc_bits(mixed, bit as nat),
            decreases 8 - bit,
        {
            next = if next & 1 == 1 {
                (next >> 1) ^ 0xedb8_8320
            } else {
                next >> 1
            };
            bit += 1;
        }
        proof {
            let more = bytes@.subrange(start as int, i + 1);
            assert(more.drop_last() =~= seen);
            assert(more.last() == bytes@[i as int]);
        }
        state = next;
        i += 1;
    }
    state ^ 0xffff_ffff
}

} // verus!
