//! Lists of data blocks (`##DL`).
use vstd::prelude::*;

use crate::blocks::common::{header_of, link_at, BlockHeader, HeaderView, HEADER_LEN};
use crate::bytes::read_u64;
use crate::error::{outcome, too_short, ErrorView, MdfError};

verus! {

/// A list of links to data blocks, and the link to the list that continues it.
#[derive(Debug)]
pub struct DataListBlock {
    pub header: BlockHeader,
    /// Address of the next list, or 0 for the last one.
    pub next: u64,
    /// Addresses of the data blocks, in the order of their data.
    pub data_links: Vec<u64>,
}

/// The content of a [`DataListBlock`].
pub struct DataListView {
    pub header: HeaderView,
    pub next: u64,
    pub data_links: Seq<u64>,
}

impl DeepView for DataListBlock {
    type V = DataListView;

    open spec fn deep_view(&self) -> DataListView {
        DataListView {
            header: self.header.deep_view(),
            next: self.next,
            data_links: self.data_links@,
        }
    }
}

/// Reading a list block from the front of `s`.
pub open spec fn parse_data_list(s: Seq<u8>) -> Result<DataListView, ErrorView> {
    if s.len() < HEADER_LEN {
        Err(too_short(s.len() as int, HEADER_LEN as int))
    } else {
        let header = header_of(s);
        if header.id != "##DL"@ {
            Err(ErrorView::BlockIDError { actual: header.id, expected: "##DL"@ })
        } else if header.links_nr == 0 {
            Err(ErrorView::BlockLinkError("data list block without links"@))
        } else if HEADER_LEN + 8 * header.links_nr > s.len() {
            Err(too_short(s.len() as int, HEADER_LEN + 8 * header.links_nr))
        } else {
            Ok(
                DataListView {
                    header,
                    next: link_at(s, 0),
                    data_links: Seq::new((header.links_nr - 1) as nat, |i: int| link_at(s, i + 1)),
                },
            )
        }
    }
}

impl DataListBlock {
    /// Read the list block at the front of `bytes`.
    pub fn from_bytes(bytes: &[u8]) -> (list: Result<Self, MdfError>)
        ensures
            outcome(list) == parse_data_list(bytes@),
    {
        let header = BlockHeader::from_bytes(bytes)?;
        if !header.is("##DL") {
            return Err(
                MdfError::BlockIDError { actual: header.id, expected: "##DL".to_string() },
            );
        }
        if header.links_nr == 0 {
            return Err(MdfError::BlockLinkError("data list block without links".to_string()));
        }
        let room = (bytes.len() - HEADER_LEN) / 8;
        if header.links_nr > room as u64 {
            let needed: u128 = 24 + 8 * header.links_nr as u128;
            let expected = if needed > usize::MAX as u128 { usize::MAX } else { needed as usize };
            return Err(MdfError::TooShortBuffer { actual: bytes.len(), expected });
        }
        let count = header.links_nr as usize;
        let next = read_u64(bytes, HEADER_LEN);
        let mut data_links: Vec<u64> = Vec::new();
        let mut i: usize = 1;
        while i < count
            invariant
                1 <= i <= count <= room,
                room == (bytes.len() - HEADER_LEN) / 8,
                HEADER_LEN <= bytes.len(),
                data_links@ == Seq::new((i - 1) as nat, |k: int| link_at(bytes@, k + 1)),
            decreases count - i,
        {
            data_links.push(read_u64(bytes, HEADER_LEN + 8 * i));
            i = i + 1;
        }
        Ok(DataListBlock { header, next, data_links })
    }
}

} // verus!
