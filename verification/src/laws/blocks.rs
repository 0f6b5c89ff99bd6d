//! Blocks: what is laid out in bytes is parsed, field by field.
use vstd::prelude::*;
use vstd::utf8::encode_utf8;

use crate::block_layout::{block_info, BlockInfoView};
use crate::blocks::channel_block::{channel_block_at, conversion_at, data_type, ChannelBlockView};
use crate::blocks::channel_block::DataType;
use crate::blocks::channel_group_block::{parse_channel_group, ChannelGroupBlock};
use crate::blocks::common::{block_bytes, header_of, string_block};
use crate::blocks::conversion::{conversion_type, key_among, parse_conversion, ConversionType};
use crate::blocks::conversion::ConversionView;
use crate::blocks::data_block::parse_data_block;
use crate::blocks::data_group_block::{parse_data_group, DataGroupBlock};
use crate::blocks::data_list_block::parse_data_list;
use crate::blocks::header_block::{parse_file_header, HeaderBlock};
use crate::blocks::identification::parse_identification;
use crate::blocks::source_block::{parse_source, SourceBlock};
use crate::error::ErrorView;
use crate::laws::encoding::{holds_block, le_bytes, lemma_block_is_read_back};
use crate::laws::encoding::{lemma_u16_is_read_back, lemma_u32_is_read_back};
use crate::laws::encoding::lemma_u64_is_read_back;
use crate::parsing::source_info::{source_at, SourceView};
use crate::text::lemma_stored_text;

verus! {

/// A read that ends with this error.
pub open spec fn fails_with<T>(read: Result<T, ErrorView>, error: ErrorView) -> bool {
    read matches Err(found) && found == error
}

/// The block at `address` of a file is what the bytes from there on hold.
pub proof fn lemma_block_bytes(file: Seq<u8>, address: u64)
    requires
        address <= usize::MAX,
    ensures
        address + 24 <= file.len() ==> block_bytes(file, address) == Ok::<Seq<u8>, ErrorView>(
            file.subrange(address as int, file.len() as int),
        ),
        address + 24 > file.len() && address + 24 <= usize::MAX ==> block_bytes(file, address)
            == Err::<Seq<u8>, ErrorView>(
            ErrorView::TooShortBuffer { actual: file.len() as int, expected: address + 24 },
        ),
        address + 24 > file.len() && address + 24 > usize::MAX ==> block_bytes(file, address)
            == Err::<Seq<u8>, ErrorView>(
            ErrorView::TooShortBuffer { actual: file.len() as int, expected: usize::MAX as int },
        ),
{
}

/// A data group block is parsed: its four links, and the size of record ids.
pub proof fn lemma_data_group_is_parsed(
    s: Seq<u8>,
    reserved: u32,
    block_len: u64,
    links: Seq<u64>,
    data: Seq<u8>,
)
    requires
        holds_block(s, "##DG"@, reserved, block_len, links, data),
        links.len() >= 4,
        data.len() >= 1,
    ensures
        parse_data_group(s) == Ok::<DataGroupBlock, ErrorView>(
            DataGroupBlock {
                next_dg_addr: links[0],
                first_cg_addr: links[1],
                data_block_addr: links[2],
                comment_addr: links[3],
                record_id_len: data[0],
            },
        ),
{
    lemma_block_is_read_back(s, "##DG"@, reserved, block_len, links, data);
}

/// A channel group block is parsed: its six links, and the numbers behind them.
pub proof fn lemma_channel_group_is_parsed(
    s: Seq<u8>,
    reserved: u32,
    block_len: u64,
    links: Seq<u64>,
    data: Seq<u8>,
    block: ChannelGroupBlock,
)
    requires
        holds_block(s, "##CG"@, reserved, block_len, links, data),
        links.len() >= 6,
        data.len() >= 32,
        block.next_cg_addr == links[0],
        block.first_ch_addr == links[1],
        block.acq_name_addr == links[2],
        block.acq_source_addr == links[3],
        block.first_sample_reduction_addr == links[4],
        block.comment_addr == links[5],
        data.subrange(0, 8) == le_bytes(block.record_id as nat, 8),
        data.subrange(8, 16) == le_bytes(block.cycles_nr as nat, 8),
        data.subrange(16, 18) == le_bytes(block.flags as nat, 2),
        data.subrange(24, 28) == le_bytes(block.samples_byte_nr as nat, 4),
        data.subrange(28, 32) == le_bytes(block.invalidation_bytes_nr as nat, 4),
    ensures
        parse_channel_group(s) == Ok::<ChannelGroupBlock, ErrorView>(block),
{
    lemma_block_is_read_back(s, "##CG"@, reserved, block_len, links, data);
    let at: int = 24 + 8 * links.len() as int;
    lemma_u64_is_read_back(s, at, block.record_id);
    lemma_u64_is_read_back(s, at + 8, block.cycles_nr);
    lemma_u16_is_read_back(s, at + 16, block.flags);
    lemma_u32_is_read_back(s, at + 24, block.samples_byte_nr);
    lemma_u32_is_read_back(s, at + 28, block.invalidation_bytes_nr);
}

/// A channel block is parsed: its eight links, the codes and numbers behind them, and the
/// conversion rule that its fifth link leads to.
pub proof fn lemma_channel_is_parsed(
    file: Seq<u8>,
    address: u64,
    s: Seq<u8>,
    reserved: u32,
    block_len: u64,
    links: Seq<u64>,
    data: Seq<u8>,
    block: ChannelBlockView,
)
    requires
        block_bytes(file, address) == Ok::<Seq<u8>, ErrorView>(s),
        holds_block(s, "##CN"@, reserved, block_len, links, data),
        links.len() >= 8,
        data.len() >= 20,
        block.next_ch_addr == links[0],
        block.component_addr == links[1],
        block.name_addr == links[2],
        block.source_addr == links[3],
        block.conversion_addr == links[4],
        block.data == links[5],
        block.unit_addr == links[6],
        block.comment_addr == links[7],
        block.channel_type == data[0],
        block.sync_type == data[1],
        block.data_type == data_type(data[2]),
        block.bit_offset == data[3],
        data.subrange(4, 8) == le_bytes(block.byte_offset as nat, 4),
        data.subrange(8, 12) == le_bytes(block.bit_count as nat, 4),
        data.subrange(12, 16) == le_bytes(block.flags as nat, 4),
        data.subrange(16, 20) == le_bytes(block.pos_invalidation_bit as nat, 4),
        conversion_at(file, links[4]) == Ok::<Option<ConversionView>, ErrorView>(block.conversion),
    ensures
        channel_block_at(file, address) == Ok::<ChannelBlockView, ErrorView>(block),
{
    lemma_block_is_read_back(s, "##CN"@, reserved, block_len, links, data);
    let at: int = 24 + 8 * links.len() as int;
    lemma_u32_is_read_back(s, at + 4, block.byte_offset);
    lemma_u32_is_read_back(s, at + 8, block.bit_count);
    lemma_u32_is_read_back(s, at + 12, block.flags);
    lemma_u32_is_read_back(s, at + 16, block.pos_invalidation_bit);
}

/// The code under which a kind of storage is written.
pub open spec fn type_code(kind: DataType) -> u8 {
    match kind {
        DataType::UnsignedIntegerLE => 0,
        DataType::UnsignedIntegerBE => 1,
        DataType::SignedIntegerLE => 2,
        DataType::SignedIntegerBE => 3,
        DataType::FloatLE => 4,
        DataType::FloatBE => 5,
        DataType::StringLatin1 => 6,
        DataType::StringUtf8 => 7,
        DataType::StringUtf16LE => 8,
        DataType::StringUtf16BE => 9,
        DataType::ByteArray => 10,
        DataType::MimeSample => 11,
        DataType::MimeStream => 12,
        DataType::Unknown(code) => code,
    }
}

/// Kinds of storage are read back from their codes, and codes beyond the known ones are kept.
pub proof fn lemma_storage_codes(kind: DataType, code: u8)
    ensures
        !(kind is Unknown) ==> data_type(type_code(kind)) == kind,
        code > 12 ==> data_type(code) == DataType::Unknown(code),
        type_code(data_type(code)) == code,
{
}

/// The code under which a kind of conversion is written.
pub open spec fn rule_code(kind: ConversionType) -> u8 {
    match kind {
        ConversionType::Identity => 0,
        ConversionType::Linear => 1,
        ConversionType::Rational => 2,
        ConversionType::Algebraic => 3,
        ConversionType::TableLookupInterp => 4,
        ConversionType::TableLookupNoInterp => 5,
        ConversionType::RangeLookup => 6,
        ConversionType::ValueToText => 7,
        ConversionType::RangeToText => 8,
        ConversionType::TextToValue => 9,
        ConversionType::TextToText => 10,
        ConversionType::BitfieldText => 11,
        ConversionType::Unknown(code) => code,
    }
}

/// Kinds of conversion are read back from their codes, and codes beyond the known ones are
/// kept.
pub proof fn lemma_conversion_codes(kind: ConversionType, code: u8)
    ensures
        !(kind is Unknown) ==> conversion_type(rule_code(kind)) == kind,
        code > 11 ==> conversion_type(code) == ConversionType::Unknown(code),
        rule_code(conversion_type(code)) == code,
{
}

/// Looking a text up among texts finds the first that is it, provided that those before it can
/// be read.
pub proof fn lemma_key_is_first(file: Seq<u8>, addresses: Seq<u64>, key: Seq<char>, index: int)
    requires
        0 <= index <= addresses.len(),
        forall|i: int|
            0 <= i < index ==> (string_block(file, #[trigger] addresses[i]) matches Ok(text) && text
                != Some(key)),
    ensures
        index == addresses.len() ==> key_among(file, addresses, key) == Ok::<
            Option<int>,
            ErrorView,
        >(None),
        index < addresses.len() ==> match string_block(file, addresses[index]) {
            Err(error) => key_among(file, addresses, key) == Err::<Option<int>, ErrorView>(error),
            Ok(text) => text == Some(key) ==> key_among(file, addresses, key) == Ok::<
                Option<int>,
                ErrorView,
            >(Some(index)),
        },
    decreases addresses.len(),
{
    if addresses.len() > 0 {
        let shorter = addresses.drop_last();
        let at = if index < shorter.len() {
            index
        } else {
            shorter.len() as int
        };
        assert forall|i: int| 0 <= i < at implies (string_block(
            file,
            #[trigger] shorter[i],
        ) matches Ok(text) && text != Some(key)) by {
            assert(shorter[i] == addresses[i]);
        }
        lemma_key_is_first(file, shorter, key, at);
        assert(addresses.last() == addresses[addresses.len() - 1]);
        if index < shorter.len() {
            assert(shorter[index] == addresses[index]);
        }
    }
}

/// A conversion rule is parsed: its kind, all its parameters in order, and the addresses
/// behind its first four links.
pub proof fn lemma_conversion_is_parsed(
    s: Seq<u8>,
    reserved: u32,
    block_len: u64,
    links: Seq<u64>,
    data: Seq<u8>,
    kind: ConversionType,
    parameters: Seq<u64>,
)
    requires
        holds_block(s, "##CC"@, reserved, block_len, links, data),
        links.len() >= 4,
        data.len() >= 24 + 8 * parameters.len(),
        parameters.len() <= u16::MAX,
        kind == conversion_type(data[0]),
        data.subrange(6, 8) == le_bytes(parameters.len(), 2),
        forall|i: int|
            0 <= i < parameters.len() ==> data.subrange(24 + 8 * i, 32 + 8 * i) == le_bytes(
                (#[trigger] parameters[i]) as nat,
                8,
            ),
    ensures
        parse_conversion(s) == Ok::<ConversionView, ErrorView>(
            ConversionView {
                cc_type: kind,
                cc_val: parameters,
                cc_ref: links.subrange(4, links.len() as int),
            },
        ),
{
    lemma_block_is_read_back(s, "##CC"@, reserved, block_len, links, data);
    let at: int = 24 + 8 * links.len() as int;
    lemma_u16_is_read_back(s, at + 6, parameters.len() as u16);
    let rule = parse_conversion(s)->Ok_0;
    assert(parse_conversion(s) is Ok);
    assert forall|i: int| 0 <= i < parameters.len() implies rule.cc_val[i] == parameters[i] by {
        assert(data.subrange(24 + 8 * i, 32 + 8 * i) == s.subrange(
            at + (24 + 8 * i),
            at + (32 + 8 * i),
        ));
        lemma_u64_is_read_back(s, at + 24 + 8 * i, parameters[i]);
    }
    assert(rule.cc_val =~= parameters);
    assert forall|i: int| 0 <= i < links.len() - 4 implies rule.cc_ref[i] == links[i + 4] by {}
    assert(rule.cc_ref =~= links.subrange(4, links.len() as int));
}

/// The conversion rule of a channel is the one at its address; a null link gives none.
pub proof fn lemma_conversion_at(file: Seq<u8>, address: u64, s: Seq<u8>, rule: ConversionView)
    ensures
        conversion_at(file, 0) == Ok::<Option<ConversionView>, ErrorView>(None),
        address != 0 && block_bytes(file, address) == Ok::<Seq<u8>, ErrorView>(s)
            && parse_conversion(s) == Ok::<ConversionView, ErrorView>(rule) ==> conversion_at(
            file,
            address,
        ) == Ok::<Option<ConversionView>, ErrorView>(Some(rule)),
{
}

/// A source block is parsed: its three links and three codes.
pub proof fn lemma_source_is_parsed(
    s: Seq<u8>,
    reserved: u32,
    block_len: u64,
    links: Seq<u64>,
    data: Seq<u8>,
)
    requires
        holds_block(s, "##SI"@, reserved, block_len, links, data),
        links.len() >= 3,
        data.len() >= 3,
    ensures
        parse_source(s) == Ok::<SourceBlock, ErrorView>(
            SourceBlock {
                name_addr: links[0],
                path_addr: links[1],
                comment_addr: links[2],
                source_type: data[0],
                bus_type: data[1],
                flags: data[2],
            },
        ),
{
    lemma_block_is_read_back(s, "##SI"@, reserved, block_len, links, data);
}

/// A source comes with the texts that its block links to, each in its place.
pub proof fn lemma_source_is_described(file: Seq<u8>, address: u64)
    requires
        address != 0,
        source_at(file, address) is Ok,
    ensures
        source_at(file, 0) == Ok::<Option<SourceView>, ErrorView>(None),
        source_at(file, address)->Ok_0 matches Some(source) && {
            &&& parse_source(block_bytes(file, address)->Ok_0) == Ok::<SourceBlock, ErrorView>(
                source.block,
            )
            &&& string_block(file, source.block.name_addr) == Ok::<Option<Seq<char>>, ErrorView>(
                source.name,
            )
            &&& string_block(file, source.block.path_addr) == Ok::<Option<Seq<char>>, ErrorView>(
                source.path,
            )
            &&& string_block(file, source.block.comment_addr) == Ok::<
                Option<Seq<char>>,
                ErrorView,
            >(source.comment)
        },
{
}

/// A source can be read where its block and its three texts can be.
pub proof fn lemma_source_is_read(file: Seq<u8>, address: u64, s: Seq<u8>, block: SourceBlock)
    requires
        address != 0,
        block_bytes(file, address) == Ok::<Seq<u8>, ErrorView>(s),
        parse_source(s) == Ok::<SourceBlock, ErrorView>(block),
        string_block(file, block.name_addr) is Ok,
        string_block(file, block.path_addr) is Ok,
        string_block(file, block.comment_addr) is Ok,
    ensures
        source_at(file, address) is Ok,
{
}

/// The file header is parsed: its six links and the start time behind them.
pub proof fn lemma_file_header_is_parsed(
    s: Seq<u8>,
    reserved: u32,
    block_len: u64,
    links: Seq<u64>,
    data: Seq<u8>,
    abs_time: u64,
)
    requires
        holds_block(s, "##HD"@, reserved, block_len, links, data),
        links.len() >= 6,
        data.len() >= 8,
        data.subrange(0, 8) == le_bytes(abs_time as nat, 8),
    ensures
        parse_file_header(s) == Ok::<HeaderBlock, ErrorView>(
            HeaderBlock {
                first_dg_addr: links[0],
                file_history_addr: links[1],
                channel_tree_addr: links[2],
                first_attachment_addr: links[3],
                first_event_addr: links[4],
                comment_addr: links[5],
                abs_time,
            },
        ),
{
    lemma_block_is_read_back(s, "##HD"@, reserved, block_len, links, data);
    let at: int = 24 + 8 * links.len() as int;
    lemma_u64_is_read_back(s, at, abs_time);
}

/// A file that is shorter than an identification is refused.
pub proof fn lemma_short_identification_is_refused(s: Seq<u8>)
    requires
        s.len() < 64,
    ensures
        parse_identification(s) == Err::<u16, ErrorView>(
            ErrorView::TooShortBuffer { actual: s.len() as int, expected: 64 },
        ),
{
}

/// An identification names the format and its version; other names and versions before 4.00
/// are refused.
pub proof fn lemma_identification_is_checked(s: Seq<u8>, id: Seq<char>, version: u16)
    requires
        s.len() >= 64,
        s.subrange(0, 8) == encode_utf8(id),
        s.subrange(28, 30) == le_bytes(version as nat, 2),
    ensures
        id != "MDF     "@ ==> parse_identification(s) == Err::<u16, ErrorView>(
            ErrorView::FileIdentifierError(id),
        ),
        id == "MDF     "@ && version < 400 ==> parse_identification(s) == Err::<u16, ErrorView>(
            ErrorView::FileVersioningError(version),
        ),
        id == "MDF     "@ && version >= 400 ==> parse_identification(s) == Ok::<u16, ErrorView>(
            version,
        ),
{
    lemma_stored_text(id);
    lemma_u16_is_read_back(s, 28, version);
}

/// A list block is parsed: the next list, and the links to the data in order.
pub proof fn lemma_list_is_parsed(
    s: Seq<u8>,
    reserved: u32,
    block_len: u64,
    links: Seq<u64>,
    data: Seq<u8>,
)
    requires
        holds_block(s, "##DL"@, reserved, block_len, links, data),
        links.len() >= 1,
    ensures
        parse_data_list(s) matches Ok(list) && list.next == links[0] && list.data_links
            == links.subrange(1, links.len() as int),
{
    lemma_block_is_read_back(s, "##DL"@, reserved, block_len, links, data);
    let list = parse_data_list(s)->Ok_0;
    assert forall|i: int| 0 <= i < links.len() - 1 implies list.data_links[i] == links[i + 1] by {}
    assert(list.data_links =~= links.subrange(1, links.len() as int));
}

/// A plain data block holds the data behind its header, as much as its length says, whatever
/// follows the block.
pub proof fn lemma_plain_data_is_parsed(s: Seq<u8>, id: Seq<char>, reserved: u32, data: Seq<u8>)
    requires
        id == "##DT"@ || id == "##DV"@,
        24 + data.len() <= usize::MAX,
        holds_block(s, id, reserved, (24 + data.len()) as u64, Seq::empty(), data),
    ensures
        parse_data_block(s) matches Ok(block) && block.data == data && block.header.id == id
            && block.header.block_len == 24 + data.len(),
{
    lemma_block_is_read_back(s, id, reserved, (24 + data.len()) as u64, Seq::empty(), data);
}

/// Blocks are refused under another kind, with too few links, or where the bytes end before
/// their data does.
pub proof fn lemma_other_blocks_are_refused(s: Seq<u8>)
    requires
        s.len() >= 24,
    ensures
        ({
            let id = header_of(s).id;
            let links_nr = header_of(s).links_nr;
            let room = s.len() - 24 - 8 * links_nr;
            &&& parse_data_group(s) is Ok ==> id == "##DG"@ && links_nr >= 4 && room >= 1
            &&& parse_channel_group(s) is Ok ==> id == "##CG"@ && links_nr >= 6 && room >= 32
            &&& parse_conversion(s) matches Ok(rule) ==> id == "##CC"@ && links_nr >= 4 && room >= 24
                + 8 * rule.cc_val.len()
            &&& parse_source(s) is Ok ==> id == "##SI"@ && links_nr >= 3 && room >= 3
            &&& parse_file_header(s) is Ok ==> id == "##HD"@ && links_nr >= 6 && room >= 8
            &&& parse_data_list(s) is Ok ==> id == "##DL"@ && links_nr >= 1 && room >= 0
            &&& parse_data_block(s) is Ok ==> id == "##DT"@ || id == "##DV"@
        }),
{
}

/// A block of another kind is refused with its kind and the one that was expected.
pub proof fn lemma_other_kinds_are_reported(s: Seq<u8>)
    requires
        s.len() >= 24,
    ensures
        ({
            let id = header_of(s).id;
            let refused = |expected: Seq<char>| ErrorView::BlockIDError { actual: id, expected };
            &&& id != "##DG"@ ==> fails_with(parse_data_group(s), refused("##DG"@))
            &&& id != "##CG"@ ==> fails_with(parse_channel_group(s), refused("##CG"@))
            &&& id != "##CC"@ ==> fails_with(parse_conversion(s), refused("##CC"@))
            &&& id != "##SI"@ ==> fails_with(parse_source(s), refused("##SI"@))
            &&& id != "##HD"@ ==> fails_with(parse_file_header(s), refused("##HD"@))
            &&& id != "##DL"@ ==> fails_with(parse_data_list(s), refused("##DL"@))
            &&& id != "##DT"@ && id != "##DV"@ ==> fails_with(
                parse_data_block(s),
                refused("##DT / ##DV"@),
            )
        }),
{
}

/// Blocks with too few links are refused, and so are blocks that end before their links and
/// their data do; what is missing is reported.
pub proof fn lemma_incomplete_blocks_are_reported(s: Seq<u8>)
    requires
        s.len() >= 24,
        24 + 8 * header_of(s).links_nr + 32 <= usize::MAX,
    ensures
        ({
            let id = header_of(s).id;
            let links_nr = header_of(s).links_nr;
            let start = 24 + 8 * links_nr;
            let few = ErrorView::BlockLinkError("block with too few links"@);
            let cut = |needed: int|
                ErrorView::TooShortBuffer { actual: s.len() as int, expected: start + needed };
            &&& id == "##DG"@ && links_nr < 4 ==> fails_with(parse_data_group(s), few)
            &&& id == "##CG"@ && links_nr < 6 ==> fails_with(parse_channel_group(s), few)
            &&& id == "##CC"@ && links_nr < 4 ==> fails_with(parse_conversion(s), few)
            &&& id == "##SI"@ && links_nr < 3 ==> fails_with(parse_source(s), few)
            &&& id == "##HD"@ && links_nr < 6 ==> fails_with(parse_file_header(s), few)
            &&& id == "##DL"@ && links_nr == 0 ==> fails_with(
                parse_data_list(s),
                ErrorView::BlockLinkError("data list block without links"@),
            )
            &&& id == "##DG"@ && links_nr >= 4 && s.len() < start + 1 ==> fails_with(
                parse_data_group(s),
                cut(1),
            )
            &&& id == "##CG"@ && links_nr >= 6 && s.len() < start + 32 ==> fails_with(
                parse_channel_group(s),
                cut(32),
            )
            &&& id == "##CC"@ && links_nr >= 4 && s.len() < start + 24 ==> fails_with(
                parse_conversion(s),
                cut(24),
            )
            &&& id == "##SI"@ && links_nr >= 3 && s.len() < start + 3 ==> fails_with(
                parse_source(s),
                cut(3),
            )
            &&& id == "##HD"@ && links_nr >= 6 && s.len() < start + 8 ==> fails_with(
                parse_file_header(s),
                cut(8),
            )
            &&& id == "##DL"@ && links_nr >= 1 && s.len() < start ==> fails_with(
                parse_data_list(s),
                cut(0),
            )
        }),
{
}

/// A channel block with too few links, or one that ends before its data does, is refused.
pub proof fn lemma_incomplete_channel_is_reported(file: Seq<u8>, address: u64, s: Seq<u8>)
    requires
        block_bytes(file, address) == Ok::<Seq<u8>, ErrorView>(s),
        s.len() >= 24,
        24 + 8 * header_of(s).links_nr + 20 <= usize::MAX,
    ensures
        ({
            let id = header_of(s).id;
            let links_nr = header_of(s).links_nr;
            let needed = 24 + 8 * links_nr + 20;
            &&& id != "##CN"@ ==> fails_with(
                channel_block_at(file, address),
                ErrorView::BlockIDError { actual: id, expected: "##CN"@ },
            )
            &&& id == "##CN"@ && links_nr < 8 ==> fails_with(
                channel_block_at(file, address),
                ErrorView::BlockLinkError("block with too few links"@),
            )
            &&& id == "##CN"@ && links_nr >= 8 && s.len() < needed ==> fails_with(
                channel_block_at(file, address),
                ErrorView::TooShortBuffer { actual: s.len() as int, expected: needed },
            )
        }),
{
}

/// Bytes that are too short for a header are refused, and the header is what is missing.
pub proof fn lemma_no_header(s: Seq<u8>)
    requires
        s.len() < 24,
    ensures
        ({
            let missing = ErrorView::TooShortBuffer { actual: s.len() as int, expected: 24 };
            &&& fails_with(parse_data_group(s), missing)
            &&& fails_with(parse_channel_group(s), missing)
            &&& fails_with(parse_conversion(s), missing)
            &&& fails_with(parse_source(s), missing)
            &&& fails_with(parse_file_header(s), missing)
            &&& fails_with(parse_data_list(s), missing)
            &&& fails_with(parse_data_block(s), missing)
        }),
{
}

/// A plain data block that reaches past the end of the bytes is refused; one whose length
/// covers no more than its header is empty.
pub proof fn lemma_cut_data_is_refused(
    s: Seq<u8>,
    id: Seq<char>,
    reserved: u32,
    block_len: u64,
    links: Seq<u64>,
)
    requires
        id == "##DT"@ || id == "##DV"@,
        block_len <= usize::MAX,
        holds_block(s, id, reserved, block_len, links, Seq::empty()),
    ensures
        block_len > s.len() ==> fails_with(
            parse_data_block(s),
            ErrorView::TooShortBuffer { actual: s.len() as int, expected: block_len as int },
        ),
        block_len <= 24 ==> (parse_data_block(s) matches Ok(block) && block.data.len() == 0),
        24 <= block_len <= s.len() ==> (parse_data_block(s) matches Ok(block) && block.data
            == s.subrange(24, block_len as int)),
{
    lemma_block_is_read_back(s, id, reserved, block_len, links, Seq::empty());
}

/// A text block that reaches past the end of the file is refused; one whose length covers no
/// more than its header holds the empty text.
pub proof fn lemma_cut_text_is_refused(
    file: Seq<u8>,
    address: u64,
    s: Seq<u8>,
    id: Seq<char>,
    reserved: u32,
    block_len: u64,
    links: Seq<u64>,
)
    requires
        address != 0,
        id == "##TX"@ || id == "##MD"@,
        block_len <= usize::MAX,
        block_bytes(file, address) == Ok::<Seq<u8>, ErrorView>(s),
        holds_block(s, id, reserved, block_len, links, Seq::empty()),
    ensures
        block_len > s.len() ==> fails_with(
            string_block(file, address),
            ErrorView::TooShortBuffer { actual: s.len() as int, expected: block_len as int },
        ),
        block_len <= 24 ==> string_block(file, address) == Ok::<Option<Seq<char>>, ErrorView>(
            Some(Seq::empty()),
        ),
{
    lemma_block_is_read_back(s, id, reserved, block_len, links, Seq::empty());
    lemma_stored_text(Seq::empty());
    let none = s.subrange(24, 24);
    assert(none =~= Seq::empty());
    assert(encode_utf8(Seq::<char>::empty()) =~= Seq::empty());
    assert(none.subrange(0, 0) =~= Seq::empty());
}

/// A channel whose conversion rule cannot be read cannot be read either.
pub proof fn lemma_broken_rule_breaks_channel(
    file: Seq<u8>,
    address: u64,
    s: Seq<u8>,
    reserved: u32,
    block_len: u64,
    links: Seq<u64>,
    data: Seq<u8>,
)
    requires
        block_bytes(file, address) == Ok::<Seq<u8>, ErrorView>(s),
        holds_block(s, "##CN"@, reserved, block_len, links, data),
        links.len() >= 8,
        data.len() >= 20,
    ensures
        conversion_at(file, links[4]) matches Err(error) ==> channel_block_at(file, address)
            == Err::<ChannelBlockView, ErrorView>(error),
{
    lemma_block_is_read_back(s, "##CN"@, reserved, block_len, links, data);
}

/// A channel is read from a channel block only.
pub proof fn lemma_other_channels_are_refused(file: Seq<u8>, address: u64)
    requires
        channel_block_at(file, address) is Ok,
    ensures
        block_bytes(file, address) matches Ok(s) && header_of(s).id == "##CN"@ && header_of(
            s,
        ).links_nr >= 8 && s.len() >= 24 + 8 * header_of(s).links_nr + 20,
{
}

/// A text ends at its first zero byte, whatever follows.
pub proof fn lemma_text_ends_at_zero(
    file: Seq<u8>,
    address: u64,
    s: Seq<u8>,
    id: Seq<char>,
    reserved: u32,
    text: Seq<char>,
    rest: Seq<u8>,
)
    requires
        address != 0,
        id == "##TX"@ || id == "##MD"@,
        block_bytes(file, address) == Ok::<Seq<u8>, ErrorView>(s),
        24 + encode_utf8(text).len() + 1 + rest.len() <= usize::MAX,
        forall|i: int| 0 <= i < encode_utf8(text).len() ==> #[trigger] encode_utf8(text)[i] != 0,
        holds_block(
            s,
            id,
            reserved,
            (24 + encode_utf8(text).len() + 1 + rest.len()) as u64,
            Seq::empty(),
            encode_utf8(text) + seq![0u8] + rest,
        ),
    ensures
        string_block(file, address) == Ok::<Option<Seq<char>>, ErrorView>(Some(text)),
{
    let bytes = encode_utf8(text);
    let data = bytes + seq![0u8] + rest;
    lemma_block_is_read_back(s, id, reserved, (24 + data.len()) as u64, Seq::empty(), data);
    lemma_zero_ends(bytes, seq![0u8] + rest);
    assert(bytes + (seq![0u8] + rest) =~= data);
    assert(data.subrange(0, data.len() as int) =~= data);
    assert(data.subrange(0, bytes.len() as int) =~= bytes);
    lemma_stored_text(text);
}

proof fn lemma_zero_ends(text: Seq<u8>, rest: Seq<u8>)
    requires
        forall|i: int| 0 <= i < text.len() ==> #[trigger] text[i] != 0,
        rest.len() > 0,
        rest[0] == 0,
    ensures
        crate::blocks::common::text_len(text + rest) == text.len(),
    decreases text.len(),
{
    if text.len() > 0 {
        lemma_zero_ends(text.drop_first(), rest);
        assert((text + rest).drop_first() =~= text.drop_first() + rest);
        assert((text + rest)[0] == text[0]);
    } else {
        assert((text + rest)[0] == rest[0]);
    }
}

/// A null link, and a block that is no text, hold no text.
pub proof fn lemma_no_text(file: Seq<u8>, address: u64)
    ensures
        string_block(file, 0) == Ok::<Option<Seq<char>>, ErrorView>(None),
        address != 0 ==> (block_bytes(file, address) matches Ok(s) ==> header_of(s).id != "##TX"@
            && header_of(s).id != "##MD"@ ==> string_block(file, address) == Ok::<
            Option<Seq<char>>,
            ErrorView,
        >(None)),
        address != 0 ==> (block_bytes(file, address) matches Err(error) ==> string_block(
            file,
            address,
        ) == Err::<Option<Seq<char>>, ErrorView>(error)),
{
}

/// A block of any kind is listed with its kind, its length and all its links.
pub proof fn lemma_block_is_listed(
    file: Seq<u8>,
    address: u64,
    s: Seq<u8>,
    id: Seq<char>,
    reserved: u32,
    block_len: u64,
    links: Seq<u64>,
    data: Seq<u8>,
)
    requires
        block_bytes(file, address) == Ok::<Seq<u8>, ErrorView>(s),
        holds_block(s, id, reserved, block_len, links, data),
    ensures
        block_info(file, address) == Ok::<BlockInfoView, ErrorView>(
            BlockInfoView { address, id, block_len, links },
        ),
{
    lemma_block_is_read_back(s, id, reserved, block_len, links, data);
    let info = block_info(file, address)->Ok_0;
    assert(info.links =~= links);
}

} // verus!
