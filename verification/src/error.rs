//! Errors of the reader, and the outcomes that contracts speak of.
use vstd::prelude::*;

verus! {

/// Everything that can go wrong while a file is read.
#[derive(Debug)]
#[allow(inconsistent_fields)]
pub enum MdfError {
    /// A structure reaches past the end of the bytes that hold it.
    TooShortBuffer { actual: usize, expected: usize },
    /// The file does not start with the MDF identifier.
    FileIdentifierError(String),
    /// The file states a version that is not supported.
    FileVersioningError(u16),
    /// A block of another kind was expected at this place.
    BlockIDError { actual: String, expected: String },
    /// Blocks are linked in a way that cannot be followed.
    BlockLinkError(String),
    /// The content of a block cannot be interpreted.
    BlockSerializationError(String),
}

/// What an [`MdfError`] says, with its texts as character sequences.
#[allow(inconsistent_fields)]
pub enum ErrorView {
    TooShortBuffer { actual: int, expected: int },
    FileIdentifierError(Seq<char>),
    FileVersioningError(u16),
    BlockIDError { actual: Seq<char>, expected: Seq<char> },
    BlockLinkError(Seq<char>),
    BlockSerializationError(Seq<char>),
}

impl DeepView for MdfError {
    type V = ErrorView;

    open spec fn deep_view(&self) -> ErrorView {
        match *self {
            MdfError::TooShortBuffer { actual, expected } => ErrorView::TooShortBuffer {
                actual: actual as int,
                expected: expected as int,
            },
            MdfError::FileIdentifierError(found) => ErrorView::FileIdentifierError(found@),
            MdfError::FileVersioningError(found) => ErrorView::FileVersioningError(found),
            MdfError::BlockIDError { actual, expected } => ErrorView::BlockIDError {
                actual: actual@,
                expected: expected@,
            },
            MdfError::BlockLinkError(reason) => ErrorView::BlockLinkError(reason@),
            MdfError::BlockSerializationError(reason) => ErrorView::BlockSerializationError(
                reason@,
            ),
        }
    }
}

/// The outcome of a fallible read in terms of views.
pub open spec fn outcome<T: DeepView>(result: Result<T, MdfError>) -> Result<T::V, ErrorView> {
    match result {
        Ok(value) => Ok(value.deep_view()),
        Err(error) => Err(error.deep_view()),
    }
}

/// The error for a structure that needs `expected` bytes where there are `actual`.
/// Sums that exceed the address space are reported as its last address.
pub open spec fn too_short(actual: int, expected: int) -> ErrorView {
    ErrorView::TooShortBuffer { actual, expected: saturated(expected) }
}

/// `value`, or the largest address where it is larger.
pub open spec fn saturated(value: int) -> int {
    if value > usize::MAX {
        usize::MAX as int
    } else {
        value
    }
}

} // verus!
