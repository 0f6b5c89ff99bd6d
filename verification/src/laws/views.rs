//! Values and what contracts say of them: every field of a value has its place.
use vstd::prelude::*;

use crate::block_layout::{BlockInfo, FileLayout};
use crate::blocks::channel_block::ChannelBlock;
use crate::blocks::common::BlockHeader;
use crate::blocks::conversion::ConversionBlock;
use crate::blocks::data_block::DataBlock;
use crate::blocks::data_list_block::DataListBlock;
use crate::error::{outcome, ErrorView, MdfError};
use crate::parsing::decoder::{DecodedValue, DecodedView};
use crate::parsing::mdf_file::MdfFile;
use crate::parsing::raw_channel_group::RawChannelGroup;
use crate::parsing::raw_data_group::RawDataGroup;
use crate::parsing::source_info::SourceInfo;
use crate::signal::{Sample, SampleView, Series, Signal, SignalF64};

verus! {

/// Stored values are told apart by their kind and their content.
pub proof fn lemma_value_views(one: DecodedValue, other: DecodedValue)
    ensures
        one matches DecodedValue::UnsignedInteger(v) ==> one.deep_view()
            == DecodedView::UnsignedInteger(v),
        one matches DecodedValue::SignedInteger(v) ==> one.deep_view()
            == DecodedView::SignedInteger(v),
        one matches DecodedValue::Single(v) ==> one.deep_view() == DecodedView::Single(v),
        one matches DecodedValue::Double(v) ==> one.deep_view() == DecodedView::Double(v),
        one matches DecodedValue::Bytes(kind, bytes) ==> one.deep_view() == DecodedView::Bytes(
            kind,
            bytes@,
        ),
        one is Unknown ==> one.deep_view() == DecodedView::Unknown,
{
}

/// A signal is seen with its name, its unit, its axis, its scaling and its values.
pub proof fn lemma_signal_views(signal: Signal, several: SignalF64, series: Series, i: int)
    ensures
        signal.deep_view().name == signal.name@,
        signal.deep_view().unit is Some <==> signal.unit is Some,
        signal.unit matches Some(unit) ==> signal.deep_view().unit == Some(unit@),
        signal.deep_view().timestamps == signal.timestamps.deep_view(),
        signal.deep_view().scaling == signal.scaling,
        signal.deep_view().values.len() == signal.values@.len(),
        0 <= i < signal.values@.len() ==> (signal.deep_view().values[i] is Some
            <==> signal.values@[i] is Some),
        0 <= i < signal.values@.len() ==> (signal.values@[i] matches Some(value)
            ==> signal.deep_view().values[i] == Some(value.deep_view())),
        several.deep_view().name == several.name@,
        several.deep_view().unit is Some <==> several.unit is Some,
        several.unit matches Some(unit) ==> several.deep_view().unit == Some(unit@),
        several.deep_view().timestamps == several.timestamps.deep_view(),
        several.deep_view().values == several.values.deep_view(),
        series.deep_view().scaling == series.scaling,
        series.deep_view().samples.len() == series.samples@.len(),
        0 <= i < series.samples@.len() ==> match series.samples@[i] {
            Sample::NotANumber => series.deep_view().samples[i] == SampleView::NotANumber,
            Sample::Stored(value) => series.deep_view().samples[i] == SampleView::Stored(
                value.deep_view(),
            ),
        },
{
}

/// Blocks are seen with all their fields.
pub proof fn lemma_block_views(
    header: BlockHeader,
    data: DataBlock,
    list: DataListBlock,
    rule: ConversionBlock,
    info: BlockInfo,
)
    ensures
        header.deep_view().id == header.id@,
        header.deep_view().reserved0 == header.reserved0,
        header.deep_view().block_len == header.block_len,
        header.deep_view().links_nr == header.links_nr,
        data.deep_view().header == data.header.deep_view(),
        data.deep_view().data == data.data@,
        list.deep_view().header == list.header.deep_view(),
        list.deep_view().next == list.next,
        list.deep_view().data_links == list.data_links@,
        rule.deep_view().cc_type == rule.cc_type,
        rule.deep_view().cc_val == rule.cc_val@,
        rule.deep_view().cc_ref == rule.cc_ref@,
        info.deep_view().address == info.address,
        info.deep_view().id == info.id@,
        info.deep_view().block_len == info.block_len,
        info.deep_view().links == info.links@,
{
}

/// A channel block is seen with all its fields.
pub proof fn lemma_channel_view(block: ChannelBlock)
    ensures
        ({
            let view = block.deep_view();
            &&& view.next_ch_addr == block.next_ch_addr
            &&& view.component_addr == block.component_addr
            &&& view.name_addr == block.name_addr
            &&& view.source_addr == block.source_addr
            &&& view.conversion_addr == block.conversion_addr
            &&& view.data == block.data
            &&& view.unit_addr == block.unit_addr
            &&& view.comment_addr == block.comment_addr
            &&& view.channel_type == block.channel_type
            &&& view.sync_type == block.sync_type
            &&& view.data_type == block.data_type
            &&& view.bit_offset == block.bit_offset
            &&& view.byte_offset == block.byte_offset
            &&& view.bit_count == block.bit_count
            &&& view.flags == block.flags
            &&& view.pos_invalidation_bit == block.pos_invalidation_bit
            &&& view.conversion is Some <==> block.conversion is Some
            &&& block.conversion matches Some(rule) ==> view.conversion == Some(rule.deep_view())
        }),
{
}

/// Groups and files are seen with all that they hold, in order.
pub proof fn lemma_tree_views(
    group: RawChannelGroup,
    data_group: RawDataGroup,
    file: MdfFile,
    layout: FileLayout,
    source: SourceInfo,
    i: int,
)
    ensures
        group.deep_view().block == group.block,
        group.deep_view().channels.len() == group.raw_channels@.len(),
        0 <= i < group.raw_channels@.len() ==> group.deep_view().channels[i]
            == group.raw_channels@[i].block.deep_view(),
        data_group.deep_view().block == data_group.block,
        data_group.deep_view().channel_groups.len() == data_group.channel_groups@.len(),
        0 <= i < data_group.channel_groups@.len() ==> data_group.deep_view().channel_groups[i]
            == data_group.channel_groups@[i].deep_view(),
        file.deep_view().version == file.version,
        file.deep_view().header == file.header,
        file.deep_view().bytes == file.mmap@,
        file.deep_view().data_groups.len() == file.data_groups@.len(),
        0 <= i < file.data_groups@.len() ==> file.deep_view().data_groups[i]
            == file.data_groups@[i].deep_view(),
        layout.deep_view().file_size == layout.file_size,
        layout.deep_view().blocks.len() == layout.blocks@.len(),
        0 <= i < layout.blocks@.len() ==> layout.deep_view().blocks[i]
            == layout.blocks@[i].deep_view(),
        source.deep_view().block == source.block,
        source.name matches Some(text) ==> source.deep_view().name == Some(text@),
        source.path matches Some(text) ==> source.deep_view().path == Some(text@),
        source.comment matches Some(text) ==> source.deep_view().comment == Some(text@),
        source.name is None ==> source.deep_view().name is None,
        source.path is None ==> source.deep_view().path is None,
        source.comment is None ==> source.deep_view().comment is None,
{
}

/// Outcomes tell success from failure, and errors are told apart by their kind and content.
pub proof fn lemma_outcomes(read: Result<DecodedValue, MdfError>, error: MdfError)
    ensures
        read matches Ok(value) ==> outcome(read) == Ok::<DecodedView, ErrorView>(value.deep_view()),
        read matches Err(found) ==> outcome(read) == Err::<DecodedView, ErrorView>(
            found.deep_view(),
        ),
        match error {
            MdfError::TooShortBuffer { actual, expected } => error.deep_view() == (
            ErrorView::TooShortBuffer { actual: actual as int, expected: expected as int }),
            MdfError::FileIdentifierError(text) => error.deep_view()
                == ErrorView::FileIdentifierError(text@),
            MdfError::FileVersioningError(version) => error.deep_view()
                == ErrorView::FileVersioningError(version),
            MdfError::BlockIDError { actual, expected } => error.deep_view() == (
            ErrorView::BlockIDError { actual: actual@, expected: expected@ }),
            MdfError::BlockLinkError(text) => error.deep_view() == ErrorView::BlockLinkError(text@),
            MdfError::BlockSerializationError(text) => error.deep_view()
                == ErrorView::BlockSerializationError(text@),
        },
{
}

} // verus!
