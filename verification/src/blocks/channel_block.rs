//! Channels (`##CN`).
use vstd::prelude::*;

use crate::blocks::common::{block_at, block_bytes, data_section, link_at, open_block};
use crate::blocks::conversion::{parse_conversion, ConversionBlock, ConversionView};
use crate::bytes::{read_u32, read_u64, u32_at};
use crate::error::{outcome, ErrorView, MdfError};

verus! {

/// How the value of a channel is stored.
#[derive(Debug, Clone, Copy, PartialEq, Eq, Structural)]
pub enum DataType {
    UnsignedIntegerLE,
    UnsignedIntegerBE,
    SignedIntegerLE,
    SignedIntegerBE,
    FloatLE,
    FloatBE,
    StringLatin1,
    StringUtf8,
    StringUtf16LE,
    StringUtf16BE,
    ByteArray,
    MimeSample,
    MimeStream,
    Unknown(u8),
}

/// The storage that a stored code stands for.
pub open spec fn data_type(code: u8) -> DataType {
    match code {
        0 => DataType::UnsignedIntegerLE,
        1 => DataType::UnsignedIntegerBE,
        2 => DataType::SignedIntegerLE,
        3 => DataType::SignedIntegerBE,
        4 => DataType::FloatLE,
        5 => DataType::FloatBE,
        6 => DataType::StringLatin1,
        7 => DataType::StringUtf8,
        8 => DataType::StringUtf16LE,
        9 => DataType::StringUtf16BE,
        10 => DataType::ByteArray,
        11 => DataType::MimeSample,
        12 => DataType::MimeStream,
        _ => DataType::Unknown(code),
    }
}

impl DataType {
    /// The storage that a stored code stands for.
    pub fn from_code(code: u8) -> (kind: Self)
        ensures
            kind == data_type(code),
    {
        match code {
            0 => DataType::UnsignedIntegerLE,
            1 => DataType::UnsignedIntegerBE,
            2 => DataType::SignedIntegerLE,
            3 => DataType::SignedIntegerBE,
            4 => DataType::FloatLE,
            5 => DataType::FloatBE,
            6 => DataType::StringLatin1,
            7 => DataType::StringUtf8,
            8 => DataType::StringUtf16LE,
            9 => DataType::StringUtf16BE,
            10 => DataType::ByteArray,
            11 => DataType::MimeSample,
            12 => DataType::MimeStream,
            _ => DataType::Unknown(code),
        }
    }
}

/// A channel: where its value lies in a record, and how to interpret it.
#[derive(Debug)]
pub struct ChannelBlock {
    pub next_ch_addr: u64,
    pub component_addr: u64,
    pub name_addr: u64,
    pub source_addr: u64,
    pub conversion_addr: u64,
    /// Address of signal data, for channels whose values have no fixed length.
    pub data: u64,
    pub unit_addr: u64,
    pub comment_addr: u64,
    /// 0 for a plain channel, 1 for values of variable length, 2 for a master (time axis).
    pub channel_type: u8,
    pub sync_type: u8,
    pub data_type: DataType,
    pub bit_offset: u8,
    pub byte_offset: u32,
    pub bit_count: u32,
    pub flags: u32,
    pub pos_invalidation_bit: u32,
    /// The conversion rule that `conversion_addr` leads to.
    pub conversion: Option<ConversionBlock>,
}

/// The content of a [`ChannelBlock`].
pub struct ChannelBlockView {
    pub next_ch_addr: u64,
    pub component_addr: u64,
    pub name_addr: u64,
    pub source_addr: u64,
    pub conversion_addr: u64,
    pub data: u64,
    pub unit_addr: u64,
    pub comment_addr: u64,
    pub channel_type: u8,
    pub sync_type: u8,
    pub data_type: DataType,
    pub bit_offset: u8,
    pub byte_offset: u32,
    pub bit_count: u32,
    pub flags: u32,
    pub pos_invalidation_bit: u32,
    pub conversion: Option<ConversionView>,
}

impl DeepView for ChannelBlock {
    type V = ChannelBlockView;

    open spec fn deep_view(&self) -> ChannelBlockView {
        ChannelBlockView {
            next_ch_addr: self.next_ch_addr,
            component_addr: self.component_addr,
            name_addr: self.name_addr,
            source_addr: self.source_addr,
            conversion_addr: self.conversion_addr,
            data: self.data,
            unit_addr: self.unit_addr,
            comment_addr: self.comment_addr,
            channel_type: self.channel_type,
            sync_type: self.sync_type,
            data_type: self.data_type,
            bit_offset: self.bit_offset,
            byte_offset: self.byte_offset,
            bit_count: self.bit_count,
            flags: self.flags,
            pos_invalidation_bit: self.pos_invalidation_bit,
            conversion: self.conversion.deep_view(),
        }
    }
}

/// The conversion rule at `address`, if there is one.
pub open spec fn conversion_at(file: Seq<u8>, address: u64) -> Result<
    Option<ConversionView>,
    ErrorView,
> {
    if address == 0 {
        Ok(None)
    } else {
        match block_bytes(file, address) {
            Err(error) => Err(error),
            Ok(block) => match parse_conversion(block) {
                Err(error) => Err(error),
                Ok(rule) => Ok(Some(rule)),
            },
        }
    }
}

/// Reading the channel block at `address`, with its conversion rule.
pub open spec fn channel_block_at(file: Seq<u8>, address: u64) -> Result<
    ChannelBlockView,
    ErrorView,
> {
    match block_bytes(file, address) {
        Err(error) => Err(error),
        Ok(s) => match data_section(s, "##CN"@, 8, 20) {
            Err(error) => Err(error),
            Ok(at) => match conversion_at(file, link_at(s, 4)) {
                Err(error) => Err(error),
                Ok(conversion) => Ok(
                    ChannelBlockView {
                        next_ch_addr: link_at(s, 0),
                        component_addr: link_at(s, 1),
                        name_addr: link_at(s, 2),
                        source_addr: link_at(s, 3),
                        conversion_addr: link_at(s, 4),
                        data: link_at(s, 5),
                        unit_addr: link_at(s, 6),
                        comment_addr: link_at(s, 7),
                        channel_type: s[at],
                        sync_type: s[at + 1],
                        data_type: data_type(s[at + 2]),
                        bit_offset: s[at + 3],
                        byte_offset: u32_at(s, at + 4),
                        bit_count: u32_at(s, at + 8),
                        flags: u32_at(s, at + 12),
                        pos_invalidation_bit: u32_at(s, at + 16),
                        conversion,
                    },
                ),
            },
        },
    }
}

/// Read the conversion rule at `address`, if there is one.
pub fn read_conversion(mmap: &[u8], address: u64) -> (rule: Result<
    Option<ConversionBlock>,
    MdfError,
>)
    ensures
        outcome(rule) == conversion_at(mmap@, address),
{
    if address == 0 {
        return Ok(None);
    }
    let block = block_at(mmap, address)?;
    let rule = ConversionBlock::from_bytes(block)?;
    Ok(Some(rule))
}

impl ChannelBlock {
    /// Read the channel block at `address`, with its conversion rule.
    pub fn from_mmap(mmap: &[u8], address: u64) -> (block: Result<Self, MdfError>)
        ensures
            outcome(block) == channel_block_at(mmap@, address),
    {
        let bytes = block_at(mmap, address)?;
        let at = open_block(bytes, "##CN", 8, 20)?;
        let conversion_addr = read_u64(bytes, 56);
        let conversion = read_conversion(mmap, conversion_addr)?;
        Ok(
            ChannelBlock {
                next_ch_addr: read_u64(bytes, 24),
                component_addr: read_u64(bytes, 32),
                name_addr: read_u64(bytes, 40),
                source_addr: read_u64(bytes, 48),
                conversion_addr,
                data: read_u64(bytes, 64),
                unit_addr: read_u64(bytes, 72),
                comment_addr: read_u64(bytes, 80),
                channel_type: bytes[at],
                sync_type: bytes[at + 1],
                data_type: DataType::from_code(bytes[at + 2]),
                bit_offset: bytes[at + 3],
                byte_offset: read_u32(bytes, at + 4),
                bit_count: read_u32(bytes, at + 8),
                flags: read_u32(bytes, at + 12),
                pos_invalidation_bit: read_u32(bytes, at + 16),
                conversion,
            },
        )
    }
}

} // verus!
