//! A channel as it was read from the file.
use vstd::prelude::*;

use crate::blocks::channel_block::{ChannelBlock, ChannelBlockView};

verus! {

/// A channel of a channel group.
#[derive(Debug)]
pub struct RawChannel {
    pub block: ChannelBlock,
}

impl DeepView for RawChannel {
    type V = ChannelBlockView;

    open spec fn deep_view(&self) -> ChannelBlockView {
        self.block.deep_view()
    }
}

} // verus!
