//! A channel group as it was read from the file.
use vstd::prelude::*;

use crate::blocks::channel_block::ChannelBlockView;
use crate::blocks::channel_group_block::ChannelGroupBlock;
use crate::parsing::raw_channel::RawChannel;

verus! {

/// A channel group and its channels, in the order of the file.
#[derive(Debug)]
pub struct RawChannelGroup {
    pub block: ChannelGroupBlock,
    pub raw_channels: Vec<RawChannel>,
}

/// The content of a [`RawChannelGroup`].
pub struct ChannelGroupView {
    pub block: ChannelGroupBlock,
    pub channels: Seq<ChannelBlockView>,
}

impl DeepView for RawChannelGroup {
    type V = ChannelGroupView;

    open spec fn deep_view(&self) -> ChannelGroupView {
        ChannelGroupView { block: self.block, channels: self.raw_channels.deep_view() }
    }
}

} // verus!
