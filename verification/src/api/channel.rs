//! A channel of a channel group.
use vstd::prelude::*;

use crate::blocks::channel_block::{ChannelBlock, ChannelBlockView};
use crate::blocks::common::{read_string_block, string_block};
use crate::error::{outcome, ErrorView, MdfError};
use crate::parsing::decoder::{is_vlsd, DecodedValue, DecodedView};
use crate::parsing::raw_channel_group::RawChannelGroup;
use crate::parsing::raw_data_group::RawDataGroup;
use crate::parsing::records::{read_record_cells, record_cells, GroupView};
use crate::parsing::signal_data::{read_vlsd_cells, vlsd_cells};
use crate::signal::{scaling_of, series_of, Scaling, Series, SeriesView};

verus! {

/// High level wrapper for a channel. It refers to the blocks of the file and decodes
/// nothing until it is asked for values.
pub struct Channel<'a> {
    block: &'a ChannelBlock,
    raw_data_group: &'a RawDataGroup,
    raw_channel_group: &'a RawChannelGroup,
    mmap: &'a [u8],
}

/// A channel within its group.
pub struct ChannelView {
    pub group: GroupView,
    pub channel: ChannelBlockView,
}

impl<'a> DeepView for Channel<'a> {
    type V = ChannelView;

    closed spec fn deep_view(&self) -> ChannelView {
        ChannelView {
            group: GroupView {
                data_group: self.raw_data_group.deep_view(),
                group: self.raw_channel_group.deep_view(),
                file: self.mmap@,
            },
            channel: self.block.deep_view(),
        }
    }
}

/// The values of a channel as they are stored.
pub open spec fn channel_cells(group: GroupView, channel: ChannelBlockView) -> Result<
    Seq<Option<DecodedView>>,
    ErrorView,
> {
    if is_vlsd(channel) {
        vlsd_cells(group.file, channel)
    } else {
        record_cells(group, channel)
    }
}

/// The values of a channel as numeric samples.
pub open spec fn channel_series(group: GroupView, channel: ChannelBlockView) -> Result<
    SeriesView,
    ErrorView,
> {
    match channel_cells(group, channel) {
        Err(error) => Err(error),
        Ok(values) => Ok(series_of(scaling_of(channel), values)),
    }
}

impl<'a> Channel<'a> {
    /// A channel of `raw_channel_group`, which belongs to `raw_data_group`.
    pub fn new(
        block: &'a ChannelBlock,
        raw_data_group: &'a RawDataGroup,
        raw_channel_group: &'a RawChannelGroup,
        mmap: &'a [u8],
    ) -> (channel: Self)
        ensures
            channel.deep_view() == (ChannelView {
                group: GroupView {
                    data_group: raw_data_group.deep_view(),
                    group: raw_channel_group.deep_view(),
                    file: mmap@,
                },
                channel: block.deep_view(),
            }),
    {
        Channel { block, raw_data_group, raw_channel_group, mmap }
    }

    /// The block of the channel.
    pub fn block(&self) -> (block: &'a ChannelBlock)
        ensures
            block.deep_view() == self.deep_view().channel,
    {
        self.block
    }

    /// Retrieve the name of the channel.
    pub fn name(&self) -> (name: Result<Option<String>, MdfError>)
        ensures
            outcome(name) == string_block(
                self.deep_view().group.file,
                self.deep_view().channel.name_addr,
            ),
    {
        read_string_block(self.mmap, self.block.name_addr)
    }

    /// Retrieve the physical unit of the channel.
    pub fn unit(&self) -> (unit: Result<Option<String>, MdfError>)
        ensures
            outcome(unit) == string_block(
                self.deep_view().group.file,
                self.deep_view().channel.unit_addr,
            ),
    {
        read_string_block(self.mmap, self.block.unit_addr)
    }

    /// Retrieve the comment on the channel.
    pub fn comment(&self) -> (comment: Result<Option<String>, MdfError>)
        ensures
            outcome(comment) == string_block(
                self.deep_view().group.file,
                self.deep_view().channel.comment_addr,
            ),
    {
        read_string_block(self.mmap, self.block.comment_addr)
    }

    /// How the values of the channel become physical.
    pub fn scaling(&self) -> (scaling: Scaling)
        ensures
            scaling == scaling_of(self.deep_view().channel),
    {
        Scaling::of(self.block)
    }

    /// Decode all values of the channel, as they are stored; none for an invalid one.
    pub fn values(&self) -> (values: Result<Vec<Option<DecodedValue>>, MdfError>)
        ensures
            outcome(values) == channel_cells(self.deep_view().group, self.deep_view().channel),
    {
        if self.block.channel_type == 1 && self.block.data != 0 {
            return read_vlsd_cells(self.mmap, self.block);
        }
        read_record_cells(self.raw_data_group, self.raw_channel_group, self.mmap, self.block)
    }

    /// Decode all values of the channel as numeric samples.
    pub fn values_as_f64(&self) -> (series: Result<Series, MdfError>)
        ensures
            outcome(series) == channel_series(self.deep_view().group, self.deep_view().channel),
    {
        let values = self.values()?;
        Ok(Series::of(self.scaling(), &values))
    }
}

} // verus!
