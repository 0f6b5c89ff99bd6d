//! Integers stored in bytes.
use vstd::prelude::*;

verus! {

/// The number that `s` holds, least significant byte first.
pub open spec fn le_value(s: Seq<u8>) -> nat
    decreases s.len(),
{
    if s.len() == 0 {
        0
    } else {
        s[0] as nat + 256 * le_value(s.drop_first())
    }
}

/// The number that `s` holds, most significant byte first.
pub open spec fn be_value(s: Seq<u8>) -> nat
    decreases s.len(),
{
    if s.len() == 0 {
        0
    } else {
        256 * be_value(s.drop_last()) + s.last() as nat
    }
}

/// How many numbers fit in `len` bytes.
pub open spec fn byte_range(len: nat) -> nat
    decreases len,
{
    if len == 0 {
        1
    } else {
        256 * byte_range((len - 1) as nat)
    }
}

/// The 64-bit little-endian number at `at`.
pub open spec fn u64_at(s: Seq<u8>, at: int) -> u64 {
    le_value(s.subrange(at, at + 8)) as u64
}

/// The 32-bit little-endian number at `at`.
pub open spec fn u32_at(s: Seq<u8>, at: int) -> u32 {
    le_value(s.subrange(at, at + 4)) as u32
}

/// The 16-bit little-endian number at `at`.
pub open spec fn u16_at(s: Seq<u8>, at: int) -> u16 {
    le_value(s.subrange(at, at + 2)) as u16
}

/// A little-endian number is smaller than the range of its bytes.
pub proof fn lemma_le_value_bound(s: Seq<u8>)
    ensures
        le_value(s) < byte_range(s.len()),
    decreases s.len(),
{
    if s.len() > 0 {
        lemma_le_value_bound(s.drop_first());
    }
}

/// A big-endian number is smaller than the range of its bytes.
pub proof fn lemma_be_value_bound(s: Seq<u8>)
    ensures
        be_value(s) < byte_range(s.len()),
    decreases s.len(),
{
    if s.len() > 0 {
        lemma_be_value_bound(s.drop_last());
    }
}

/// The range of `n` bytes is at most that of `m` bytes where `n <= m`.
proof fn lemma_byte_range_monotonic(n: nat, m: nat)
    requires
        n <= m,
    ensures
        byte_range(n) <= byte_range(m),
    decreases m,
{
    if n < m {
        lemma_byte_range_monotonic(n, (m - 1) as nat);
    }
}

/// Up to eight bytes hold a `u64`.
pub proof fn lemma_byte_range_u64(n: nat)
    requires
        n <= 8,
    ensures
        byte_range(n) <= 0x1_0000_0000_0000_0000,
{
    lemma_byte_range_monotonic(n, 8);
    reveal_with_fuel(byte_range, 9);
}

/// Reversing the bytes turns one byte order into the other.
pub proof fn lemma_be_is_reversed_le(s: Seq<u8>)
    ensures
        be_value(s) == le_value(s.reverse()),
    decreases s.len(),
{
    if s.len() > 0 {
        lemma_be_is_reversed_le(s.drop_last());
        assert(s.reverse().drop_first() =~= s.drop_last().reverse());
    }
}

/// The number in the `count` bytes at `at`, least significant byte first.
pub fn read_le(bytes: &[u8], at: usize, count: usize) -> (value: u64)
    requires
        count <= 8,
        at + count <= bytes.len(),
    ensures
        value == le_value(bytes@.subrange(at as int, at + count)),
{
    let ghost field = bytes@.subrange(at as int, at + count);
    let mut value: u64 = 0;
    let mut left: usize = count;
    assert(field.subrange(count as int, count as int) =~= Seq::<u8>::empty());
    while left > 0
        invariant
            left <= count <= 8,
            at + count <= bytes.len(),
            field == bytes@.subrange(at as int, at + count),
            value == le_value(field.subrange(left as int, count as int)),
        decreases left,
    {
        let ghost tail = field.subrange(left as int, count as int);
        let ghost longer = field.subrange(left - 1, count as int);
        proof {
            assert(longer.drop_first() =~= tail);
            lemma_le_value_bound(longer);
            lemma_byte_range_u64(longer.len());
        }
        left = left - 1;
        value = value * 256 + bytes[at + left] as u64;
    }
    assert(field.subrange(0, count as int) =~= field);
    value
}

/// The number in the `count` bytes at `at`, most significant byte first.
pub fn read_be(bytes: &[u8], at: usize, count: usize) -> (value: u64)
    requires
        count <= 8,
        at + count <= bytes.len(),
    ensures
        value == be_value(bytes@.subrange(at as int, at + count)),
{
    let ghost field = bytes@.subrange(at as int, at + count);
    let mut value: u64 = 0;
    let mut done: usize = 0;
    assert(field.subrange(0, 0) =~= Seq::<u8>::empty());
    while done < count
        invariant
            done <= count <= 8,
            at + count <= bytes.len(),
            field == bytes@.subrange(at as int, at + count),
            value == be_value(field.subrange(0, done as int)),
        decreases count - done,
    {
        let ghost head = field.subrange(0, done as int);
        let ghost longer = field.subrange(0, done + 1);
        proof {
            assert(longer.drop_last() =~= head);
            lemma_be_value_bound(longer);
            lemma_byte_range_u64(longer.len());
        }
        value = value * 256 + bytes[at + done] as u64;
        done = done + 1;
    }
    assert(field.subrange(0, count as int) =~= field);
    value
}

/// The 64-bit little-endian number at `at`.
pub fn read_u64(bytes: &[u8], at: usize) -> (value: u64)
    requires
        at + 8 <= bytes.len(),
    ensures
        value == u64_at(bytes@, at as int),
{
    read_le(bytes, at, 8)
}

/// The 32-bit little-endian number at `at`.
pub fn read_u32(bytes: &[u8], at: usize) -> (value: u32)
    requires
        at + 4 <= bytes.len(),
    ensures
        value == u32_at(bytes@, at as int),
        value == le_value(bytes@.subrange(at as int, at + 4)),
{
    proof {
        lemma_le_value_bound(bytes@.subrange(at as int, at + 4));
        reveal_with_fuel(byte_range, 5);
    }
    read_le(bytes, at, 4) as u32
}

/// The 16-bit little-endian number at `at`.
pub fn read_u16(bytes: &[u8], at: usize) -> (value: u16)
    requires
        at + 2 <= bytes.len(),
    ensures
        value == u16_at(bytes@, at as int),
        value == le_value(bytes@.subrange(at as int, at + 2)),
{
    proof {
        lemma_le_value_bound(bytes@.subrange(at as int, at + 2));
        reveal_with_fuel(byte_range, 3);
    }
    read_le(bytes, at, 2) as u16
}

} // verus!
