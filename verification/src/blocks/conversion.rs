//! Conversion rules (`##CC`) that turn stored values into physical ones.
use vstd::prelude::*;

use crate::blocks::common::{data_section, header_of, link_at, open_block};
use crate::blocks::common::{read_string_block, string_block, HEADER_LEN};
use crate::bytes::{read_u16, read_u64, u16_at, u64_at};
use crate::error::{outcome, too_short, ErrorView, MdfError};
use crate::text::same_text;

verus! {

/// The kinds of conversion.
#[derive(Debug, Clone, Copy, PartialEq, Eq, Structural)]
pub enum ConversionType {
    Identity,
    Linear,
    Rational,
    Algebraic,
    TableLookupInterp,
    TableLookupNoInterp,
    RangeLookup,
    ValueToText,
    RangeToText,
    TextToValue,
    TextToText,
    BitfieldText,
    Unknown(u8),
}

/// A conversion rule. Its parameters are kept as the bit patterns of 64-bit floating-point
/// numbers.
#[derive(Debug)]
pub struct ConversionBlock {
    pub cc_type: ConversionType,
    pub cc_val: Vec<u64>,
    /// Addresses of the texts or rules that the rule refers to.
    pub cc_ref: Vec<u64>,
}

/// The content of a [`ConversionBlock`].
pub struct ConversionView {
    pub cc_type: ConversionType,
    pub cc_val: Seq<u64>,
    pub cc_ref: Seq<u64>,
}

impl DeepView for ConversionBlock {
    type V = ConversionView;

    open spec fn deep_view(&self) -> ConversionView {
        ConversionView { cc_type: self.cc_type, cc_val: self.cc_val@, cc_ref: self.cc_ref@ }
    }
}

/// The kind that a stored code stands for.
pub open spec fn conversion_type(code: u8) -> ConversionType {
    match code {
        0 => ConversionType::Identity,
        1 => ConversionType::Linear,
        2 => ConversionType::Rational,
        3 => ConversionType::Algebraic,
        4 => ConversionType::TableLookupInterp,
        5 => ConversionType::TableLookupNoInterp,
        6 => ConversionType::RangeLookup,
        7 => ConversionType::ValueToText,
        8 => ConversionType::RangeToText,
        9 => ConversionType::TextToValue,
        10 => ConversionType::TextToText,
        11 => ConversionType::BitfieldText,
        _ => ConversionType::Unknown(code),
    }
}

impl ConversionType {
    /// The kind that a stored code stands for.
    pub fn from_code(code: u8) -> (kind: Self)
        ensures
            kind == conversion_type(code),
    {
        match code {
            0 => ConversionType::Identity,
            1 => ConversionType::Linear,
            2 => ConversionType::Rational,
            3 => ConversionType::Algebraic,
            4 => ConversionType::TableLookupInterp,
            5 => ConversionType::TableLookupNoInterp,
            6 => ConversionType::RangeLookup,
            7 => ConversionType::ValueToText,
            8 => ConversionType::RangeToText,
            9 => ConversionType::TextToValue,
            10 => ConversionType::TextToText,
            11 => ConversionType::BitfieldText,
            _ => ConversionType::Unknown(code),
        }
    }
}

/// Reading a conversion block from the front of `s`.
pub open spec fn parse_conversion(s: Seq<u8>) -> Result<ConversionView, ErrorView> {
    match data_section(s, "##CC"@, 4, 24) {
        Err(error) => Err(error),
        Ok(at) => {
            let count = u16_at(s, at + 6);
            if at + 24 + 8 * count > s.len() {
                Err(too_short(s.len() as int, at + 24 + 8 * count))
            } else {
                Ok(
                    ConversionView {
                        cc_type: conversion_type(s[at]),
                        cc_val: Seq::new(count as nat, |i: int| u64_at(s, at + 24 + 8 * i)),
                        cc_ref: Seq::new(
                            (header_of(s).links_nr - 4) as nat,
                            |i: int| link_at(s, i + 4),
                        ),
                    },
                )
            }
        },
    }
}

impl ConversionBlock {
    /// Read the conversion block at the front of `bytes`.
    pub fn from_bytes(bytes: &[u8]) -> (block: Result<Self, MdfError>)
        ensures
            outcome(block) == parse_conversion(bytes@),
    {
        let at = open_block(bytes, "##CC", 4, 24)?;
        assert(at + 24 <= bytes.len());
        let count = read_u16(bytes, at + 6) as usize;
        let start = at + 24;
        if 8 * count > bytes.len() - start {
            return Err(
                MdfError::TooShortBuffer {
                    actual: bytes.len(),
                    expected: start.saturating_add(8 * count),
                },
            );
        }
        let mut cc_val: Vec<u64> = Vec::new();
        let mut i: usize = 0;
        while i < count
            invariant
                i <= count,
                start == at + 24,
                start + 8 * count <= bytes.len(),
                cc_val@ == Seq::new(i as nat, |k: int| u64_at(bytes@, at + 24 + 8 * k)),
            decreases count - i,
        {
            cc_val.push(read_u64(bytes, start + 8 * i));
            i = i + 1;
        }
        let mut cc_ref: Vec<u64> = Vec::new();
        let mut link: usize = HEADER_LEN + 32;
        while link < at
            invariant
                HEADER_LEN + 32 <= link <= at <= bytes.len(),
                (at - link) % 8 == 0,
                link == HEADER_LEN + 8 * (cc_ref@.len() + 4),
                cc_ref@ == Seq::new(cc_ref@.len(), |i: int| link_at(bytes@, i + 4)),
            decreases at - link,
        {
            cc_ref.push(read_u64(bytes, link));
            link = link + 8;
        }
        Ok(ConversionBlock { cc_type: ConversionType::from_code(bytes[at]), cc_val, cc_ref })
    }
}

/// Looking for the first of the texts at `addresses` that is `key`. An error that is met
/// before it is found ends the search.
pub open spec fn key_among(file: Seq<u8>, addresses: Seq<u64>, key: Seq<char>) -> Result<
    Option<int>,
    ErrorView,
>
    decreases addresses.len(),
{
    if addresses.len() == 0 {
        Ok(None)
    } else {
        match key_among(file, addresses.drop_last(), key) {
            Err(error) => Err(error),
            Ok(Some(index)) => Ok(Some(index)),
            Ok(None) => match string_block(file, addresses.last()) {
                Err(error) => Err(error),
                Ok(text) => if text == Some(key) {
                    Ok(Some(addresses.len() - 1))
                } else {
                    Ok(None)
                },
            },
        }
    }
}

/// What a search has settled among the first texts, it has settled among all.
proof fn lemma_key_settled(file: Seq<u8>, addresses: Seq<u64>, key: Seq<char>, count: int)
    requires
        0 <= count <= addresses.len(),
        key_among(file, addresses.subrange(0, count), key) != Ok::<Option<int>, ErrorView>(None),
    ensures
        key_among(file, addresses, key) == key_among(file, addresses.subrange(0, count), key),
    decreases addresses.len() - count,
{
    if count == addresses.len() {
        assert(addresses.subrange(0, count) =~= addresses);
    } else {
        assert(addresses.subrange(0, count + 1).drop_last() =~= addresses.subrange(0, count));
        lemma_key_settled(file, addresses, key, count + 1);
    }
}

/// Find the first of the texts at `addresses` that is `key`: how rules look texts up.
pub fn find_key(mmap: &[u8], addresses: &[u64], key: &str) -> (index: Result<
    Option<usize>,
    MdfError,
>)
    ensures
        match index {
            Ok(Some(i)) => key_among(mmap@, addresses@, key@) == Ok::<Option<int>, ErrorView>(
                Some(i as int),
            ),
            Ok(None) => key_among(mmap@, addresses@, key@) == Ok::<Option<int>, ErrorView>(None),
            Err(error) => key_among(mmap@, addresses@, key@) == Err::<Option<int>, ErrorView>(
                error.deep_view(),
            ),
        },
{
    let mut i: usize = 0;
    assert(addresses@.subrange(0, 0) =~= Seq::empty());
    while i < addresses.len()
        invariant
            i <= addresses.len(),
            key_among(mmap@, addresses@.subrange(0, i as int), key@) == Ok::<
                Option<int>,
                ErrorView,
            >(None),
        decreases addresses.len() - i,
    {
        let ghost longer = addresses@.subrange(0, i + 1);
        proof {
            assert(longer.drop_last() =~= addresses@.subrange(0, i as int));
        }
        match read_string_block(mmap, addresses[i]) {
            Err(error) => {
                proof {
                    lemma_key_settled(mmap@, addresses@, key@, i + 1);
                }
                return Err(error);
            },
            Ok(Some(text)) => {
                if same_text(text.as_str(), key) {
                    proof {
                        lemma_key_settled(mmap@, addresses@, key@, i + 1);
                    }
                    return Ok(Some(i));
                }
            },
            Ok(None) => {},
        }
        i = i + 1;
    }
    assert(addresses@.subrange(0, i as int) =~= addresses@);
    Ok(None)
}

} // verus!
