//! Blocks of record data (`##DT`) and of sample data (`##DV`).
use std::borrow::Cow;
use vstd::prelude::*;

use crate::blocks::common::{body_len, header_of, BlockHeader, HeaderView, HEADER_LEN};
use crate::error::{outcome, too_short, ErrorView, MdfError};

verus! {

/// A block of raw data.
#[derive(Debug)]
pub struct DataBlock<'a> {
    pub header: BlockHeader,
    /// Borrowed from the file for plain `##DT`/`##DV` blocks, owned where the payload was
    /// inflated out of a compressed `##DZ` block.
    pub data: Cow<'a, [u8]>,
}

/// The content of a [`DataBlock`].
pub struct DataBlockView {
    pub header: HeaderView,
    pub data: Seq<u8>,
}

impl<'a> DeepView for DataBlock<'a> {
    type V = DataBlockView;

    open spec fn deep_view(&self) -> DataBlockView {
        DataBlockView { header: self.header.deep_view(), data: self.data@ }
    }
}

/// Reading a plain data block from the front of `s`: a header, then as much data as the
/// header says.
pub open spec fn parse_data_block(s: Seq<u8>) -> Result<DataBlockView, ErrorView> {
    if s.len() < HEADER_LEN {
        Err(too_short(s.len() as int, HEADER_LEN as int))
    } else {
        let header = header_of(s);
        let end = HEADER_LEN + body_len(header);
        if header.id != "##DT"@ && header.id != "##DV"@ {
            Err(ErrorView::BlockIDError { actual: header.id, expected: "##DT / ##DV"@ })
        } else if s.len() < end {
            Err(too_short(s.len() as int, end))
        } else {
            Ok(DataBlockView { header, data: s.subrange(HEADER_LEN as int, end) })
        }
    }
}

/// The `index`-th record of `size` bytes.
pub open spec fn record_at(data: Seq<u8>, size: nat, index: int) -> Seq<u8> {
    data.subrange(index * size, index * size + size)
}

/// `data` cut into records of `size` bytes; what is left at the end is no record.
pub open spec fn records_of(data: Seq<u8>, size: nat) -> Seq<Seq<u8>> {
    Seq::new(data.len() / size, |i: int| record_at(data, size, i))
}

/// The `index`-th record lies within the data.
pub proof fn lemma_record_bounds(len: nat, size: nat, index: int)
    requires
        0 < size,
        0 <= index < len / size,
    ensures
        0 <= index * size,
        index * size + size == (index + 1) * size,
        (index + 1) * size <= (len / size) * size <= len,
{
    assert((len / size) * size <= len) by (nonlinear_arith)
        requires
            0 < size,
    ;
    assert(0 <= index * size) by (nonlinear_arith)
        requires
            0 <= index,
            0 < size,
    ;
    assert(index * size + size == (index + 1) * size) by (nonlinear_arith);
    assert((index + 1) * size <= (len / size) * size) by (nonlinear_arith)
        requires
            index + 1 <= len / size,
            0 < size,
    ;
}

/// The records of a block, put one after the other, are its data without the remainder that
/// is too short for a record.
pub proof fn lemma_records_cover_data(data: Seq<u8>, size: nat)
    requires
        0 < size,
    ensures
        records_of(data, size).flatten() == data.subrange(
            0,
            ((data.len() / size) * size) as int,
        ),
        0 <= data.len() - (data.len() / size) * size < size,
{
    let count = data.len() / size;
    assert(0 <= data.len() - count * size < size) by (nonlinear_arith)
        requires
            0 < size,
            count == data.len() / size,
    ;
    lemma_records_prefix(data, size, count);
    assert(records_of(data, size).subrange(0, count as int) =~= records_of(data, size));
}

proof fn lemma_records_prefix(data: Seq<u8>, size: nat, count: nat)
    requires
        0 < size,
        count <= data.len() / size,
    ensures
        records_of(data, size).subrange(0, count as int).flatten() == data.subrange(
            0,
            (count * size) as int,
        ),
    decreases count,
{
    let records = records_of(data, size);
    if count == 0 {
        assert(records.subrange(0, 0) =~= Seq::empty());
        assert(0 * size == 0) by (nonlinear_arith);
        assert(data.subrange(0, 0) =~= Seq::empty());
    } else {
        let before = (count - 1) as nat;
        lemma_records_prefix(data, size, before);
        lemma_record_bounds(data.len(), size, before as int);
        let shorter = records.subrange(0, before as int);
        let longer = records.subrange(0, count as int);
        assert(longer =~= shorter.push(records[before as int]));
        shorter.lemma_flatten_push(records[before as int]);
        assert(data.subrange(0, (count * size) as int) =~= data.subrange(0, (before * size) as int) + record_at(
            data,
            size,
            before as int,
        ));
    }
}

impl<'a> DataBlock<'a> {
    /// Read a `##DT` or `##DV` block from the front of `bytes`.
    ///
    /// Both share one layout: a header followed by raw data. The data is borrowed.
    pub fn from_bytes(bytes: &'a [u8]) -> (block: Result<Self, MdfError>)
        ensures
            outcome(block) == parse_data_block(bytes@),
            block matches Ok(b) ==> b.data is Borrowed,
    {
        let header = BlockHeader::from_bytes(bytes)?;
        if !header.is("##DT") && !header.is("##DV") {
            return Err(
                MdfError::BlockIDError {
                    actual: header.id,
                    expected: "##DT / ##DV".to_string(),
                },
            );
        }
        let data_len = (header.block_len as usize).saturating_sub(HEADER_LEN);
        let expected_bytes = HEADER_LEN + data_len;
        if bytes.len() < expected_bytes {
            return Err(
                MdfError::TooShortBuffer { actual: bytes.len(), expected: expected_bytes },
            );
        }
        Ok(DataBlock { header, data: Cow::Borrowed(&bytes[HEADER_LEN..expected_bytes]) })
    }

    /// A block whose payload was produced by decompression.
    pub fn from_owned(header: BlockHeader, data: Vec<u8>) -> (block: Self)
        ensures
            block.deep_view() == (DataBlockView { header: header.deep_view(), data: data@ }),
            block.data is Owned,
    {
        DataBlock { header, data: Cow::Owned(data) }
    }

    /// The raw data of the block.
    pub fn bytes(&self) -> (data: &[u8])
        ensures
            data@ == self.deep_view().data,
    {
        match &self.data {
            Cow::Borrowed(borrowed) => borrowed,
            Cow::Owned(owned) => owned.as_slice(),
        }
    }

    /// The raw records of `record_size` bytes each, the record id included.
    ///
    /// What is left at the end of the block and is too short for a record is not handed out.
    pub fn records(&self, record_size: usize) -> (records: Vec<&[u8]>)
        requires
            0 < record_size,
        ensures
            records.deep_view() == records_of(self.deep_view().data, record_size as nat),
    {
        let data = self.bytes();
        let count = data.len() / record_size;
        let mut records: Vec<&[u8]> = Vec::new();
        let mut i: usize = 0;
        let mut start: usize = 0;
        while i < count
            invariant
                i <= count,
                0 < record_size,
                count == data.len() / record_size,
                start == i * record_size,
                data@ == self.deep_view().data,
                records@.len() == i,
                forall|k: int|
                    0 <= k < i ==> (#[trigger] records@[k])@ == record_at(
                        data@,
                        record_size as nat,
                        k,
                    ),
            decreases count - i,
        {
            proof {
                lemma_record_bounds(data@.len(), record_size as nat, i as int);
            }
            let end = start + record_size;
            records.push(&data[start..end]);
            start = end;
            i = i + 1;
        }
        assert(records.deep_view() =~~= records_of(data@, record_size as nat));
        records
    }
}

} // verus!
