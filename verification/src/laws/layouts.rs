//! Layouts: when the blocks of a file can be listed.
use vstd::prelude::*;

use crate::block_layout::{block_info, layout, walked, BlockInfoView};
use crate::blocks::identification::parse_identification;
use crate::parsing::visited::{addresses_left, lemma_visit_leaves_fewer};

verus! {

/// The addresses hold readable blocks, and the links of these lead to them again.
pub open spec fn is_closed(file: Seq<u8>, addresses: Set<u64>) -> bool {
    forall|address: u64| #[trigger]
        addresses.contains(address) ==> (block_info(file, address) matches Ok(info) && forall|i: int|

            0 <= i < info.links.len() && #[trigger] info.links[i] != 0 ==> addresses.contains(
                info.links[i],
            ))
}

proof fn lemma_walk_stays(
    file: Seq<u8>,
    pending: Seq<u64>,
    visited: Set<u64>,
    found: Seq<BlockInfoView>,
    addresses: Set<u64>,
)
    requires
        is_closed(file, addresses),
        forall|p: int|
            0 <= p < pending.len() ==> #[trigger] pending[p] == 0 || addresses.contains(pending[p]),
    ensures
        walked(file, pending, visited, found) is Ok,
    decreases addresses_left(visited), pending.len(),
{
    if pending.len() > 0 {
        let address = pending.last();
        let rest = pending.drop_last();
        assert(address == pending[pending.len() - 1]);
        assert forall|p: int| 0 <= p < rest.len() implies #[trigger] rest[p] == 0
            || addresses.contains(rest[p]) by {
            assert(rest[p] == pending[p]);
        }
        if address == 0 || visited.contains(address) {
            lemma_walk_stays(file, rest, visited, found, addresses);
        } else {
            assert(addresses.contains(address));
            let info = block_info(file, address)->Ok_0;
            let next = rest + info.links.reverse();
            assert forall|p: int| 0 <= p < next.len() implies #[trigger] next[p] == 0
                || addresses.contains(next[p]) by {
                if p < rest.len() {
                    assert(next[p] == rest[p]);
                } else {
                    let l = info.links.len() - 1 - (p - rest.len());
                    assert(next[p] == info.links[l]);
                }
            }
            lemma_visit_leaves_fewer(visited, address);
            lemma_walk_stays(file, next, visited.insert(address), found.push(info), addresses);
        }
    }
}

/// The blocks of a file can be listed where all blocks that the header leads to, over any
/// number of links, can be read; the size that the layout states is that of the file.
pub proof fn lemma_layout_is_found(file: Seq<u8>, addresses: Set<u64>)
    requires
        parse_identification(file) is Ok,
        addresses.contains(64),
        is_closed(file, addresses),
    ensures
        layout(file) matches Ok(found) && found.file_size == file.len(),
{
    lemma_walk_stays(file, seq![64u64], Set::empty(), Seq::empty(), addresses);
}

/// The blocks of a file without a valid identification are not listed.
pub proof fn lemma_layout_needs_identification(file: Seq<u8>)
    ensures
        parse_identification(file) matches Err(error) ==> (layout(file) matches Err(found) && found
            == error),
{
}

} // verus!
