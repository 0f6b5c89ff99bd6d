//! Numbers and blocks as bytes.
use vstd::arithmetic::power::pow;
use vstd::prelude::*;
use vstd::utf8::{encode_utf8, valid_utf8};

use crate::blocks::common::{header_of, link_at, HeaderView};
use crate::bytes::{be_value, le_value, lemma_be_is_reversed_le, u16_at, u32_at, u64_at};
use crate::text::{decoded_text, lemma_stored_text, lossy_utf8};

verus! {

/// `value` in `count` bytes, least significant byte first.
pub open spec fn le_bytes(value: nat, count: nat) -> Seq<u8>
    decreases count,
{
    if count == 0 {
        Seq::empty()
    } else {
        seq![(value % 256) as u8] + le_bytes(value / 256, (count - 1) as nat)
    }
}

/// `value` in `count` bytes, most significant byte first.
pub open spec fn be_bytes(value: nat, count: nat) -> Seq<u8> {
    le_bytes(value, count).reverse()
}

pub proof fn lemma_le_bytes_len(value: nat, count: nat)
    ensures
        le_bytes(value, count).len() == count,
        be_bytes(value, count).len() == count,
    decreases count,
{
    if count > 0 {
        lemma_le_bytes_len(value / 256, (count - 1) as nat);
    }
}

/// A number written in bytes, in either byte order, is read back.
pub proof fn lemma_number_is_read_back(value: nat, count: nat)
    requires
        value < pow(256, count),
    ensures
        le_value(le_bytes(value, count)) == value,
        be_value(be_bytes(value, count)) == value,
{
    lemma_le_is_read_back(value, count);
    lemma_be_is_reversed_le(be_bytes(value, count));
    assert(be_bytes(value, count).reverse() =~= le_bytes(value, count));
}

proof fn lemma_le_is_read_back(value: nat, count: nat)
    requires
        value < pow(256, count),
    ensures
        le_value(le_bytes(value, count)) == value,
    decreases count,
{
    reveal(pow);
    if count > 0 {
        let rest = (count - 1) as nat;
        assert(value / 256 < pow(256, rest));
        lemma_le_is_read_back(value / 256, rest);
        let bytes = le_bytes(value, count);
        assert(bytes.drop_first() =~= le_bytes(value / 256, rest));
    }
}

/// How many values the bytes of the common widths hold.
pub proof fn lemma_widths()
    ensures
        pow(256, 1) == 0x100,
        pow(256, 2) == 0x1_0000,
        pow(256, 4) == 0x1_0000_0000,
        pow(256, 8) == 0x1_0000_0000_0000_0000,
{
    reveal(pow);
    reveal_with_fuel(pow, 9);
    assert(pow(256, 8) == 0x1_0000_0000_0000_0000) by {
        assert(pow(256, 4) == 0x1_0000_0000);
    }
}

/// A 64-bit number is read back from where it was written.
pub proof fn lemma_u64_is_read_back(s: Seq<u8>, at: int, value: u64)
    requires
        s.subrange(at, at + 8) == le_bytes(value as nat, 8),
    ensures
        u64_at(s, at) == value,
{
    lemma_widths();
    lemma_number_is_read_back(value as nat, 8);
}

/// A 32-bit number is read back from where it was written.
pub proof fn lemma_u32_is_read_back(s: Seq<u8>, at: int, value: u32)
    requires
        s.subrange(at, at + 4) == le_bytes(value as nat, 4),
    ensures
        u32_at(s, at) == value,
{
    lemma_widths();
    lemma_number_is_read_back(value as nat, 4);
}

/// A 16-bit number is read back from where it was written.
pub proof fn lemma_u16_is_read_back(s: Seq<u8>, at: int, value: u16)
    requires
        s.subrange(at, at + 2) == le_bytes(value as nat, 2),
    ensures
        u16_at(s, at) == value,
{
    lemma_widths();
    lemma_number_is_read_back(value as nat, 2);
}

/// Bytes that are no valid UTF-8 are decoded with replacements.
pub proof fn lemma_ill_formed_text(bytes: Seq<u8>)
    requires
        !valid_utf8(bytes),
    ensures
        decoded_text(bytes) == lossy_utf8(bytes),
{
}

/// `s` starts with a block: four bytes of `id`, a reserved number, the length of the block,
/// the number of links, the links, and `data`.
pub open spec fn holds_block(
    s: Seq<u8>,
    id: Seq<char>,
    reserved: u32,
    block_len: u64,
    links: Seq<u64>,
    data: Seq<u8>,
) -> bool {
    let start: int = 24 + 8 * links.len() as int;
    &&& encode_utf8(id).len() == 4
    &&& links.len() <= u64::MAX
    &&& start + data.len() <= s.len()
    &&& s.subrange(0, 4) == encode_utf8(id)
    &&& s.subrange(4, 8) == le_bytes(reserved as nat, 4)
    &&& s.subrange(8, 16) == le_bytes(block_len as nat, 8)
    &&& s.subrange(16, 24) == le_bytes(links.len(), 8)
    &&& forall|i: int|
        0 <= i < links.len() ==> s.subrange(24 + 8 * i, 32 + 8 * i) == le_bytes(
            (#[trigger] links[i]) as nat,
            8,
        )
    &&& s.subrange(start, start + data.len()) == data
}

/// The header and the links of a block are read back, and its data lies behind them.
pub proof fn lemma_block_is_read_back(
    s: Seq<u8>,
    id: Seq<char>,
    reserved: u32,
    block_len: u64,
    links: Seq<u64>,
    data: Seq<u8>,
)
    requires
        holds_block(s, id, reserved, block_len, links, data),
    ensures
        header_of(s) == (HeaderView { id, reserved0: reserved, block_len, links_nr: links.len() as u64 }),
        forall|i: int| 0 <= i < links.len() ==> link_at(s, i) == #[trigger] links[i],
        forall|i: int|
            0 <= i < data.len() ==> #[trigger] data[i] == s[24 + 8 * links.len() + i],
        forall|from: int, to: int|
            0 <= from <= to <= data.len() ==> #[trigger] data.subrange(from, to) == s.subrange(
                24 + 8 * links.len() + from,
                24 + 8 * links.len() + to,
            ),
{
    let start: int = 24 + 8 * links.len() as int;
    lemma_stored_text(id);
    lemma_u32_is_read_back(s, 4, reserved);
    lemma_u64_is_read_back(s, 8, block_len);
    lemma_u64_is_read_back(s, 16, links.len() as u64);
    assert forall|i: int| 0 <= i < links.len() implies link_at(s, i) == #[trigger] links[i] by {
        lemma_u64_is_read_back(s, 24 + 8 * i, links[i]);
    }
    assert forall|from: int, to: int| 0 <= from <= to <= data.len() implies #[trigger] data.subrange(
        from,
        to,
    ) == s.subrange(start + from, start + to) by {
        assert(data.subrange(from, to) =~= s.subrange(start + from, start + to));
    }
    assert forall|i: int| 0 <= i < data.len() implies #[trigger] data[i] == s[start + i] by {
        assert(s.subrange(start, start + data.len())[i] == s[start + i]);
    }
}

} // verus!
