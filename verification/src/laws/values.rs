//! Values in records: what is written there is decoded.
use vstd::arithmetic::div_mod::lemma_fundamental_div_mod_converse;
use vstd::arithmetic::power::pow;
use vstd::arithmetic::power2::{lemma2_to64, lemma_pow2_adds, lemma_pow2_pos, pow2};
use vstd::prelude::*;

use crate::blocks::channel_block::{ChannelBlockView, DataType};
use crate::bytes::{be_value, le_value};
use crate::laws::encoding::{be_bytes, le_bytes, lemma_le_bytes_len, lemma_number_is_read_back};
use crate::laws::encoding::lemma_widths;
use crate::parsing::decoder::{bit_field, decoded, is_number, is_valid, twos_complement, DecodedView};
use crate::parsing::records::{cell, RecordLayout};

verus! {

/// The kinds of storage for numbers.
pub open spec fn is_numeric_kind(kind: DataType) -> bool {
    is_unsigned_kind(kind) || is_signed_kind(kind) || is_float_kind(kind)
}

pub open spec fn is_unsigned_kind(kind: DataType) -> bool {
    kind == DataType::UnsignedIntegerLE || kind == DataType::UnsignedIntegerBE
}

pub open spec fn is_signed_kind(kind: DataType) -> bool {
    kind == DataType::SignedIntegerLE || kind == DataType::SignedIntegerBE
}

pub open spec fn is_float_kind(kind: DataType) -> bool {
    kind == DataType::FloatLE || kind == DataType::FloatBE
}

/// `number` in `count` bytes, in the byte order of the kind.
pub open spec fn in_byte_order(kind: DataType, number: nat, count: nat) -> Seq<u8> {
    if kind == DataType::UnsignedIntegerBE || kind == DataType::SignedIntegerBE || kind
        == DataType::FloatBE {
        be_bytes(number, count)
    } else {
        le_bytes(number, count)
    }
}

/// The record holds `bytes` where the channel has its value: behind the record id, at the
/// byte offset of the channel; or as a whole, where the channel has values of variable length.
pub open spec fn holds_value(
    record: Seq<u8>,
    record_id_len: nat,
    channel: ChannelBlockView,
    bytes: Seq<u8>,
) -> bool {
    let start = record_id_len + channel.byte_offset;
    if channel.channel_type == 1 && channel.data != 0 {
        record == bytes
    } else {
        start + bytes.len() <= record.len() && record.subrange(start, start + bytes.len()) == bytes
    }
}

/// `len` bytes are the fewest that hold the bits of the channel; a value of variable length
/// has any number of bytes up to eight.
pub open spec fn is_field_len(channel: ChannelBlockView, len: nat) -> bool {
    let bits = channel.bit_offset + channel.bit_count;
    if channel.channel_type == 1 && channel.data != 0 {
        len <= 8
    } else {
        1 <= len <= 8 && 8 * (len - 1) < bits <= 8 * len
    }
}

/// The number that has `low` in its first `offset` bits, `value` in the `count` bits above
/// them, and `high` above those.
pub open spec fn composed(low: nat, value: nat, high: nat, offset: nat, count: nat) -> nat {
    low + pow2(offset) * (value + pow2(count) * high)
}

/// A number of up to eight bytes that has `value` in the bits of the channel, and anything in
/// the bits below and above.
pub open spec fn has_in_bits(number: nat, channel: ChannelBlockView, value: nat, len: nat) -> bool {
    let offset = channel.bit_offset as nat;
    let count = channel.bit_count as nat;
    &&& number < pow(256, len)
    &&& value < pow2(count)
    &&& exists|low: nat, high: nat|
        low < pow2(offset) && number == #[trigger] composed(low, value, high, offset, count)
}

proof fn lemma_bits(number: nat, offset: nat, count: nat, value: nat, low: nat, high: nat)
    requires
        low < pow2(offset),
        value < pow2(count),
        number == composed(low, value, high, offset, count),
    ensures
        bit_field(number, offset, count) == value,
{
    let below = pow2(offset) as int;
    let width = pow2(count) as int;
    lemma_pow2_pos(offset);
    lemma_pow2_pos(count);
    let upper = (value + pow2(count) * high) as int;
    assert(below * upper == upper * below) by (nonlinear_arith);
    lemma_fundamental_div_mod_converse(number as int, below, upper, low as int);
    assert(width * high == high * width) by (nonlinear_arith);
    lemma_fundamental_div_mod_converse(upper, width, high as int, value as int);
}

/// The bits of a channel are found in the bytes of a number.
proof fn lemma_number_bits(
    kind: DataType,
    channel: ChannelBlockView,
    number: nat,
    value: nat,
    len: nat,
)
    requires
        has_in_bits(number, channel, value, len),
    ensures
        ({
            let bytes = in_byte_order(kind, number, len);
            let whole = if kind == DataType::UnsignedIntegerBE || kind == DataType::SignedIntegerBE
                || kind == DataType::FloatBE {
                be_value(bytes)
            } else {
                le_value(bytes)
            };
            &&& bytes.len() == len
            &&& whole == number
            &&& bit_field(whole, channel.bit_offset as nat, channel.bit_count as nat) == value
        }),
{
    lemma_le_bytes_len(number, len);
    lemma_number_is_read_back(number, len);
    let offset = channel.bit_offset as nat;
    let count = channel.bit_count as nat;
    let (low, high) = choose|low: nat, high: nat|
        low < pow2(offset) && number == #[trigger] composed(low, value, high, offset, count);
    lemma_bits(number, offset, count, value, low, high);
}

/// An unsigned integer is decoded from the bits that it was written to, in either byte order,
/// whatever the bits around it hold.
pub proof fn lemma_unsigned_is_decoded(
    record: Seq<u8>,
    record_id_len: nat,
    channel: ChannelBlockView,
    number: nat,
    value: u64,
    len: nat,
)
    requires
        is_unsigned_kind(channel.data_type),
        is_field_len(channel, len),
        channel.bit_count <= 64,
        has_in_bits(number, channel, value as nat, len),
        holds_value(record, record_id_len, channel, in_byte_order(channel.data_type, number, len)),
    ensures
        decoded(record, record_id_len, channel) == Some(DecodedView::UnsignedInteger(value)),
{
    lemma_number_bits(channel.data_type, channel, number, value as nat, len);
}

/// A signed integer is decoded from its two's complement, in either byte order, whatever the
/// bits around it hold.
pub proof fn lemma_signed_is_decoded(
    record: Seq<u8>,
    record_id_len: nat,
    channel: ChannelBlockView,
    number: nat,
    value: i64,
    len: nat,
)
    requires
        is_signed_kind(channel.data_type),
        is_field_len(channel, len),
        1 <= channel.bit_count <= 64,
        -pow2((channel.bit_count - 1) as nat) <= value < pow2((channel.bit_count - 1) as nat),
        has_in_bits(
            number,
            channel,
            (if value >= 0 {
                value as int
            } else {
                value + pow2(channel.bit_count as nat)
            }) as nat,
            len,
        ),
        holds_value(record, record_id_len, channel, in_byte_order(channel.data_type, number, len)),
    ensures
        decoded(record, record_id_len, channel) == Some(DecodedView::SignedInteger(value)),
{
    let count = channel.bit_count as nat;
    lemma_pow2_adds(1, (count - 1) as nat);
    lemma2_to64();
    lemma_pow2_pos((count - 1) as nat);
    let stored = (if value >= 0 {
        value as int
    } else {
        value + pow2(count)
    }) as nat;
    lemma_number_bits(channel.data_type, channel, number, stored, len);
    assert(twos_complement(stored, count) == value);
}

/// The bit pattern of a floating-point number is decoded from the bits that it was written to,
/// in either byte order, whatever the bits around it hold.
pub proof fn lemma_float_is_decoded(
    record: Seq<u8>,
    record_id_len: nat,
    channel: ChannelBlockView,
    number: nat,
    pattern: u64,
    len: nat,
)
    requires
        is_float_kind(channel.data_type),
        is_field_len(channel, len),
        channel.bit_count == 32 || channel.bit_count == 64,
        has_in_bits(number, channel, pattern as nat, len),
        holds_value(record, record_id_len, channel, in_byte_order(channel.data_type, number, len)),
    ensures
        channel.bit_count == 32 ==> decoded(record, record_id_len, channel) == Some(
            DecodedView::Single(pattern as u32),
        ),
        channel.bit_count == 64 ==> decoded(record, record_id_len, channel) == Some(
            DecodedView::Double(pattern),
        ),
{
    lemma_number_bits(channel.data_type, channel, number, pattern as nat, len);
}

/// An integer of no bits is zero, wherever the record has a byte for it.
pub proof fn lemma_no_bits(record: Seq<u8>, record_id_len: nat, channel: ChannelBlockView)
    requires
        is_unsigned_kind(channel.data_type) || is_signed_kind(channel.data_type),
        channel.bit_offset == 0,
        channel.bit_count == 0,
        channel.channel_type != 1 || channel.data == 0,
        record_id_len + channel.byte_offset + 1 <= record.len(),
    ensures
        is_unsigned_kind(channel.data_type) ==> decoded(record, record_id_len, channel) == Some(
            DecodedView::UnsignedInteger(0),
        ),
        is_signed_kind(channel.data_type) ==> decoded(record, record_id_len, channel) == Some(
            DecodedView::SignedInteger(0),
        ),
{
    lemma2_to64();
}

/// Widths that no number has decode to no number: more than eight bytes or 64 bits, and for
/// floating-point numbers anything but 32 and 64 bits; and so do unknown kinds.
pub proof fn lemma_unsupported_widths(
    record: Seq<u8>,
    record_id_len: nat,
    channel: ChannelBlockView,
)
    requires
        channel.channel_type != 1 || channel.data == 0,
        channel.data_type is Unknown || is_numeric_kind(channel.data_type) && (
        channel.bit_offset + channel.bit_count > 64 || is_float_kind(channel.data_type)
            && channel.bit_count != 32 && channel.bit_count != 64),
    ensures
        decoded(record, record_id_len, channel) matches Some(value) ==> value
            == DecodedView::Unknown && !is_number(value),
{
}

/// A number below the range of its bytes is all of what 32 or 64 bits at bit 0 hold.
proof fn lemma_pattern_in_bits(channel: ChannelBlockView, pattern: nat, len: nat)
    requires
        channel.bit_offset == 0,
        (channel.bit_count == 32 && len == 4) || (channel.bit_count == 64 && len == 8),
        pattern < pow(256, len),
    ensures
        has_in_bits(pattern, channel, pattern, len),
{
    lemma2_to64();
    lemma_widths();
    let width = pow2(channel.bit_count as nat);
    assert(width * 0 == 0);
    assert(pattern == composed(0, pattern, 0, 0, channel.bit_count as nat));
}

/// The bit pattern of a floating-point number of 32 bits is decoded, in either byte order.
pub proof fn lemma_single_is_decoded(
    record: Seq<u8>,
    record_id_len: nat,
    channel: ChannelBlockView,
    pattern: u32,
)
    requires
        is_float_kind(channel.data_type),
        channel.bit_offset == 0,
        channel.bit_count == 32,
        holds_value(
            record,
            record_id_len,
            channel,
            in_byte_order(channel.data_type, pattern as nat, 4),
        ),
    ensures
        decoded(record, record_id_len, channel) == Some(DecodedView::Single(pattern)),
{
    lemma_widths();
    lemma_pattern_in_bits(channel, pattern as nat, 4);
    lemma_number_bits(channel.data_type, channel, pattern as nat, pattern as nat, 4);
}

/// The bit pattern of a floating-point number of 64 bits is decoded, in either byte order.
pub proof fn lemma_double_is_decoded(
    record: Seq<u8>,
    record_id_len: nat,
    channel: ChannelBlockView,
    pattern: u64,
)
    requires
        is_float_kind(channel.data_type),
        channel.bit_offset == 0,
        channel.bit_count == 64,
        holds_value(
            record,
            record_id_len,
            channel,
            in_byte_order(channel.data_type, pattern as nat, 8),
        ),
    ensures
        decoded(record, record_id_len, channel) == Some(DecodedView::Double(pattern)),
{
    lemma_widths();
    lemma_pattern_in_bits(channel, pattern as nat, 8);
    lemma_number_bits(channel.data_type, channel, pattern as nat, pattern as nat, 8);
}

/// A channel of a numeric kind and a supported width decodes to a number wherever the record
/// is long enough.
pub proof fn lemma_numeric_channels_give_numbers(
    record: Seq<u8>,
    record_id_len: nat,
    channel: ChannelBlockView,
    len: nat,
)
    requires
        is_numeric_kind(channel.data_type),
        is_float_kind(channel.data_type) ==> channel.bit_count == 32 || channel.bit_count == 64,
        is_field_len(channel, len),
        channel.bit_count <= 64,
        channel.channel_type != 1 || channel.data == 0,
        record_id_len + channel.byte_offset + len <= record.len(),
    ensures
        decoded(record, record_id_len, channel) matches Some(value) && {
            &&& is_unsigned_kind(channel.data_type) ==> value is UnsignedInteger
            &&& is_signed_kind(channel.data_type) ==> value is SignedInteger
            &&& is_float_kind(channel.data_type) && channel.bit_count == 32 ==> value is Single
            &&& is_float_kind(channel.data_type) && channel.bit_count == 64 ==> value is Double
            &&& is_number(value)
        },
{
}

/// Texts, byte arrays and MIME contents are decoded as the bytes that hold them, and are no
/// numbers.
pub proof fn lemma_texts_are_decoded(
    record: Seq<u8>,
    record_id_len: nat,
    channel: ChannelBlockView,
    bytes: Seq<u8>,
)
    requires
        !is_numeric_kind(channel.data_type),
        !(channel.data_type is Unknown),
        channel.channel_type == 1 && channel.data != 0 || bytes.len() == channel.bit_count / 8,
        holds_value(record, record_id_len, channel, bytes),
    ensures
        decoded(record, record_id_len, channel) == Some(
            DecodedView::Bytes(channel.data_type, bytes),
        ),
        !is_number(DecodedView::Bytes(channel.data_type, bytes)),
{
}

/// There is no value where the record ends before the field of the channel does.
pub proof fn lemma_short_records_have_no_value(
    record: Seq<u8>,
    record_id_len: nat,
    channel: ChannelBlockView,
    len: nat,
)
    requires
        channel.channel_type != 1 || channel.data == 0,
        if is_numeric_kind(channel.data_type) {
            8 * (len - 1) < channel.bit_offset + channel.bit_count <= 8 * len
        } else {
            len == channel.bit_count / 8
        },
        record.len() < record_id_len + channel.byte_offset + len,
    ensures
        decoded(record, record_id_len, channel) is None,
{
}

/// The invalidation bit of the channel in the record: the bit at its position behind the
/// record id and the values.
pub open spec fn is_marked_invalid(
    record: Seq<u8>,
    record_id_len: nat,
    data_bytes: nat,
    channel: ChannelBlockView,
) -> bool {
    let at = record_id_len + data_bytes + channel.pos_invalidation_bit / 8;
    at < record.len() && (record[at] as nat / pow2((channel.pos_invalidation_bit % 8) as nat)) % 2
        == 1
}

proof fn lemma_flag_bits(flags: u32)
    ensures
        flags & 0x01 != 0 <==> flags % 2 == 1,
        flags & 0x02 != 0 <==> (flags / 2) % 2 == 1,
{
    assert(flags & 0x01 != 0 <==> flags % 2 == 1) by (bit_vector);
    assert(flags & 0x02 != 0 <==> (flags / 2) % 2 == 1) by (bit_vector);
}

proof fn lemma_byte_bit(byte: u8, position: u8)
    requires
        position < 8,
    ensures
        ((byte >> position) & 1 == 0) <==> (byte as nat / pow2(position as nat)) % 2 == 0,
{
    lemma2_to64();
    assert(position == 0 ==> (byte >> position) & 1 == (byte / 1) % 2) by (bit_vector);
    assert(position == 1 ==> (byte >> position) & 1 == (byte / 2) % 2) by (bit_vector);
    assert(position == 2 ==> (byte >> position) & 1 == (byte / 4) % 2) by (bit_vector);
    assert(position == 3 ==> (byte >> position) & 1 == (byte / 8) % 2) by (bit_vector);
    assert(position == 4 ==> (byte >> position) & 1 == (byte / 16) % 2) by (bit_vector);
    assert(position == 5 ==> (byte >> position) & 1 == (byte / 32) % 2) by (bit_vector);
    assert(position == 6 ==> (byte >> position) & 1 == (byte / 64) % 2) by (bit_vector);
    assert(position == 7 ==> (byte >> position) & 1 == (byte / 128) % 2) by (bit_vector);
}

/// A value is valid unless the first flag of the channel declares all values invalid, or its
/// second flag gives it an invalidation bit and the record sets it.
pub proof fn lemma_validity(
    record: Seq<u8>,
    record_id_len: nat,
    data_bytes: u32,
    channel: ChannelBlockView,
)
    ensures
        is_valid(record, record_id_len, data_bytes, channel) <==> channel.flags % 2 == 0 && !((
        channel.flags / 2) % 2 == 1 && is_marked_invalid(
            record,
            record_id_len,
            data_bytes as nat,
            channel,
        )),
{
    lemma_flag_bits(channel.flags);
    let at = record_id_len + data_bytes + channel.pos_invalidation_bit / 8;
    if at < record.len() {
        lemma_byte_bit(record[at], (channel.pos_invalidation_bit % 8) as u8);
    }
}

/// What a record says of a channel: nothing where the value is invalid, and what is decoded
/// otherwise.
pub proof fn lemma_cell_is_decoded_unless_invalid(
    record: Seq<u8>,
    layout: RecordLayout,
    channel: ChannelBlockView,
)
    ensures
        ({
            let id_len = layout.record_id_len as nat;
            let invalid = channel.flags % 2 == 1 || (layout.invalidation_bytes > 0 && (channel.flags
                / 2) % 2 == 1 && is_marked_invalid(
                record,
                id_len,
                layout.data_bytes as nat,
                channel,
            ));
            cell(record, layout, channel) == if invalid {
                None
            } else {
                decoded(record, id_len, channel)
            }
        }),
{
    lemma_flag_bits(channel.flags);
    lemma_validity(record, layout.record_id_len as nat, layout.data_bytes, channel);
}

} // verus!
