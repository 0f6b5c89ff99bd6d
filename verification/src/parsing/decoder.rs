//! Decoding of the values that records hold.
use vstd::arithmetic::power2::{lemma_pow2_pos, lemma_pow2_strictly_increases};
use vstd::arithmetic::power2::{lemma_pow2_unfold, pow2};
use vstd::bits::{lemma_u64_pow2_no_overflow, lemma_u64_shl_is_mul, lemma_u64_shr_is_div};
use vstd::prelude::*;

use crate::blocks::channel_block::{ChannelBlock, ChannelBlockView, DataType};
use crate::bytes::{be_value, le_value, read_be, read_le};

verus! {

/// A value as it is stored. Floating-point numbers are kept as their bit patterns; texts,
/// byte arrays and MIME contents as their bytes.
#[derive(Debug)]
pub enum DecodedValue {
    UnsignedInteger(u64),
    SignedInteger(i64),
    Single(u32),
    Double(u64),
    Bytes(DataType, Vec<u8>),
    Unknown,
}

/// The content of a [`DecodedValue`].
pub enum DecodedView {
    UnsignedInteger(u64),
    SignedInteger(i64),
    Single(u32),
    Double(u64),
    Bytes(DataType, Seq<u8>),
    Unknown,
}

impl DeepView for DecodedValue {
    type V = DecodedView;

    open spec fn deep_view(&self) -> DecodedView {
        match *self {
            DecodedValue::UnsignedInteger(value) => DecodedView::UnsignedInteger(value),
            DecodedValue::SignedInteger(value) => DecodedView::SignedInteger(value),
            DecodedValue::Single(bits) => DecodedView::Single(bits),
            DecodedValue::Double(bits) => DecodedView::Double(bits),
            DecodedValue::Bytes(kind, bytes) => DecodedView::Bytes(kind, bytes@),
            DecodedValue::Unknown => DecodedView::Unknown,
        }
    }
}

impl Clone for DecodedValue {
    fn clone(&self) -> (copy: Self)
        ensures
            copy.deep_view() == self.deep_view(),
    {
        match self {
            DecodedValue::UnsignedInteger(value) => DecodedValue::UnsignedInteger(*value),
            DecodedValue::SignedInteger(value) => DecodedValue::SignedInteger(*value),
            DecodedValue::Single(bits) => DecodedValue::Single(*bits),
            DecodedValue::Double(bits) => DecodedValue::Double(*bits),
            DecodedValue::Bytes(kind, bytes) => {
                let copied = bytes.clone();
                assert(copied@ =~= bytes@);
                DecodedValue::Bytes(*kind, copied)
            },
            DecodedValue::Unknown => DecodedValue::Unknown,
        }
    }
}

/// Whether a stored value is a number.
pub open spec fn is_number(value: DecodedView) -> bool {
    value is UnsignedInteger || value is SignedInteger || value is Single || value is Double
}

impl DecodedValue {
    /// Whether the stored value is a number.
    pub fn is_number(&self) -> (number: bool)
        ensures
            number == is_number(self.deep_view()),
    {
        match self {
            DecodedValue::UnsignedInteger(_) => true,
            DecodedValue::SignedInteger(_) => true,
            DecodedValue::Single(_) => true,
            DecodedValue::Double(_) => true,
            DecodedValue::Bytes(_, _) => false,
            DecodedValue::Unknown => false,
        }
    }
}

/// Whether values of this kind are numbers.
pub open spec fn stores_number(kind: DataType) -> bool {
    kind is UnsignedIntegerLE || kind is UnsignedIntegerBE || kind is SignedIntegerLE
        || kind is SignedIntegerBE || kind is FloatLE || kind is FloatBE
}

/// Whether numbers of this kind have their most significant byte first.
pub open spec fn is_big_endian(kind: DataType) -> bool {
    kind is UnsignedIntegerBE || kind is SignedIntegerBE || kind is FloatBE
}

/// Whether the values of a channel have a length of their own and are kept outside of the
/// records (VLSD).
pub open spec fn is_vlsd(channel: ChannelBlockView) -> bool {
    channel.channel_type == 1 && channel.data != 0
}

/// Bytes that the value of a channel touches in a record.
pub open spec fn field_len(channel: ChannelBlockView) -> nat {
    let bits = channel.bit_offset + channel.bit_count;
    if !stores_number(channel.data_type) {
        channel.bit_count as nat / 8
    } else if bits == 0 {
        1
    } else {
        ((bits + 7) / 8) as nat
    }
}

/// The bytes that hold the value of a channel: part of a record, or all of it where the
/// record is a value of its own. None where the record is too short.
pub open spec fn field_of(record: Seq<u8>, record_id_len: nat, channel: ChannelBlockView) -> Option<
    Seq<u8>,
> {
    let start = record_id_len + channel.byte_offset;
    if is_vlsd(channel) {
        Some(record)
    } else if start + field_len(channel) > record.len() {
        None
    } else {
        Some(record.subrange(start, start + field_len(channel)))
    }
}

/// The `count` bits of `value` from bit `offset` on.
pub open spec fn bit_field(value: nat, offset: nat, count: nat) -> nat {
    (value / pow2(offset)) % pow2(count)
}

/// `value`, read as a two's complement number of `count` bits.
pub open spec fn twos_complement(value: nat, count: nat) -> int {
    if count > 0 && value >= pow2((count - 1) as nat) {
        value - pow2(count)
    } else {
        value as int
    }
}

/// What the bytes of a value mean.
pub open spec fn interpreted(field: Seq<u8>, channel: ChannelBlockView) -> DecodedView {
    let kind = channel.data_type;
    if kind is Unknown {
        DecodedView::Unknown
    } else if !stores_number(kind) {
        DecodedView::Bytes(kind, field)
    } else if field.len() > 8 || channel.bit_count > 64 {
        DecodedView::Unknown
    } else {
        let whole = if is_big_endian(kind) {
            be_value(field)
        } else {
            le_value(field)
        };
        let bits = bit_field(whole, channel.bit_offset as nat, channel.bit_count as nat);
        if kind is UnsignedIntegerLE || kind is UnsignedIntegerBE {
            DecodedView::UnsignedInteger(bits as u64)
        } else if kind is SignedIntegerLE || kind is SignedIntegerBE {
            DecodedView::SignedInteger(twos_complement(bits, channel.bit_count as nat) as i64)
        } else if channel.bit_count == 32 {
            DecodedView::Single(bits as u32)
        } else if channel.bit_count == 64 {
            DecodedView::Double(bits as u64)
        } else {
            DecodedView::Unknown
        }
    }
}

/// The value of a channel in a record; none where the record is too short for it.
pub open spec fn decoded(record: Seq<u8>, record_id_len: nat, channel: ChannelBlockView) -> Option<
    DecodedView,
> {
    match field_of(record, record_id_len, channel) {
        None => None,
        Some(field) => Some(interpreted(field, channel)),
    }
}

/// Whether a record holds a valid value of a channel: not where all values of the channel
/// are invalid, nor where the channel has an invalidation bit and the record sets it.
pub open spec fn is_valid(
    record: Seq<u8>,
    record_id_len: nat,
    cg_data_bytes: u32,
    channel: ChannelBlockView,
) -> bool {
    let at = record_id_len + cg_data_bytes + channel.pos_invalidation_bit / 8;
    if channel.flags & 0x01 != 0 {
        false
    } else if channel.flags & 0x02 == 0 || at >= record.len() {
        true
    } else {
        (record[at] >> ((channel.pos_invalidation_bit % 8) as u8)) & 1 == 0
    }
}

fn extract_bits(value: u64, offset: u8, count: u32) -> (bits: u64)
    requires
        count <= 64,
    ensures
        bits == bit_field(value as nat, offset as nat, count as nat),
        bits < pow2(count as nat),
{
    proof {
        lemma_pow2_pos(offset as nat);
        lemma_pow2_pos(count as nat);
        vstd::arithmetic::power2::lemma2_to64();
    }
    let shifted: u64 = if offset >= 64 {
        proof {
            if offset > 64 {
                lemma_pow2_strictly_increases(64, offset as nat);
            }
            assert(value as int / pow2(offset as nat) as int == 0) by (nonlinear_arith)
                requires
                    0 <= value < pow2(offset as nat),
            ;
        }
        0
    } else {
        proof {
            lemma_u64_shr_is_div(value, offset as u64);
        }
        value >> (offset as u64)
    };
    if count == 64 {
        proof {
            assert(shifted as int % pow2(64) as int == shifted) by (nonlinear_arith)
                requires
                    0 <= shifted < pow2(64),
            ;
        }
        shifted
    } else {
        proof {
            lemma_u64_pow2_no_overflow(count as nat);
            lemma_u64_shl_is_mul(1, count as u64);
        }
        shifted % (1u64 << (count as u64))
    }
}

fn sign_extend(value: u64, count: u32) -> (signed: i64)
    requires
        count <= 64,
        value < pow2(count as nat),
    ensures
        signed == twos_complement(value as nat, count as nat),
{
    if count == 0 {
        proof {
            vstd::arithmetic::power2::lemma2_to64();
        }
        return 0;
    }
    let half_bits: u64 = (count - 1) as u64;
    proof {
        vstd::arithmetic::power2::lemma2_to64();
        vstd::arithmetic::power2::lemma2_to64_rest();
        lemma_u64_pow2_no_overflow(half_bits as nat);
        lemma_u64_shl_is_mul(1, half_bits);
        lemma_pow2_unfold(count as nat);
        if half_bits < 63 {
            lemma_pow2_strictly_increases(half_bits as nat, 63);
        }
    }
    let half: u64 = 1u64 << half_bits;
    if value < half {
        value as i64
    } else {
        let above: u64 = value - half;
        let below: u64 = half - 1 - above;
        -1 - (below as i64)
    }
}

/// Decode the value of a channel from a record.
pub fn decode_channel_value(record: &[u8], record_id_len: usize, channel: &ChannelBlock) -> (value:
    Option<DecodedValue>)
    ensures
        value.deep_view() == decoded(record@, record_id_len as nat, channel.deep_view()),
{
    let ghost view = channel.deep_view();
    let kind = channel.data_type;
    let number = match kind {
        DataType::UnsignedIntegerLE | DataType::UnsignedIntegerBE | DataType::SignedIntegerLE
        | DataType::SignedIntegerBE | DataType::FloatLE | DataType::FloatBE => true,
        _ => false,
    };
    let field: &[u8] = if channel.channel_type == 1 && channel.data != 0 {
        record
    } else {
        let bits: u64 = channel.bit_offset as u64 + channel.bit_count as u64;
        let len: u64 = if !number {
            channel.bit_count as u64 / 8
        } else if bits == 0 {
            1
        } else {
            (bits + 7) / 8
        };
        assert(len == field_len(view));
        let start: u128 = record_id_len as u128 + channel.byte_offset as u128;
        let end: u128 = start + len as u128;
        if end > record.len() as u128 {
            return None;
        }
        &record[start as usize..end as usize]
    };
    match kind {
        DataType::Unknown(_) => {
            return Some(DecodedValue::Unknown);
        },
        _ => {},
    }
    if !number {
        let mut bytes: Vec<u8> = Vec::new();
        bytes.extend_from_slice(field);
        assert(bytes@ =~= field@);
        return Some(DecodedValue::Bytes(kind, bytes));
    }
    if field.len() > 8 || channel.bit_count > 64 {
        return Some(DecodedValue::Unknown);
    }
    assert(field@.subrange(0, field.len() as int) =~= field@);
    let whole: u64 = match kind {
        DataType::UnsignedIntegerBE | DataType::SignedIntegerBE | DataType::FloatBE => read_be(
            field,
            0,
            field.len(),
        ),
        _ => read_le(field, 0, field.len()),
    };
    let bits = extract_bits(whole, channel.bit_offset, channel.bit_count);
    let value = match kind {
        DataType::UnsignedIntegerLE | DataType::UnsignedIntegerBE => DecodedValue::UnsignedInteger(
            bits,
        ),
        DataType::SignedIntegerLE | DataType::SignedIntegerBE => DecodedValue::SignedInteger(
            sign_extend(bits, channel.bit_count),
        ),
        _ => {
            if channel.bit_count == 32 {
                proof {
                    vstd::arithmetic::power2::lemma2_to64();
                }
                DecodedValue::Single(bits as u32)
            } else if channel.bit_count == 64 {
                DecodedValue::Double(bits)
            } else {
                DecodedValue::Unknown
            }
        },
    };
    Some(value)
}

/// Check that a record holds a valid value of a channel.
pub fn check_value_validity(
    record: &[u8],
    record_id_len: usize,
    cg_data_bytes: u32,
    channel: &ChannelBlock,
) -> (valid: bool)
    ensures
        valid == is_valid(record@, record_id_len as nat, cg_data_bytes, channel.deep_view()),
{
    if channel.flags & 0x01 != 0 {
        return false;
    }
    if channel.flags & 0x02 == 0 {
        return true;
    }
    let at: u128 = record_id_len as u128 + cg_data_bytes as u128 + (channel.pos_invalidation_bit
        / 8) as u128;
    if at >= record.len() as u128 {
        return true;
    }
    (record[at as usize] >> ((channel.pos_invalidation_bit % 8) as u8)) & 1 == 0
}

} // verus!
