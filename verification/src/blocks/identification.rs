//! The identification at the front of a file.
use vstd::prelude::*;

use crate::bytes::{read_u16, u16_at};
use crate::error::{outcome, too_short, ErrorView, MdfError};
use crate::text::{decode_text, decoded_text, same_text};

verus! {

/// Length of the identification; the file header follows it.
pub const IDENTIFICATION_LEN: usize = 64;

/// Files of earlier versions are laid out differently.
pub const OLDEST_VERSION: u16 = 400;

/// Checking the identification at the front of a file. Its version is handed out.
pub open spec fn parse_identification(s: Seq<u8>) -> Result<u16, ErrorView> {
    if s.len() < IDENTIFICATION_LEN {
        Err(too_short(s.len() as int, IDENTIFICATION_LEN as int))
    } else {
        let id = decoded_text(s.subrange(0, 8));
        let version = u16_at(s, 28);
        if id != "MDF     "@ {
            Err(ErrorView::FileIdentifierError(id))
        } else if version < OLDEST_VERSION {
            Err(ErrorView::FileVersioningError(version))
        } else {
            Ok(version)
        }
    }
}

/// Check the identification at the front of a file, and read its version.
pub fn check_identification(bytes: &[u8]) -> (version: Result<u16, MdfError>)
    ensures
        outcome(version) == parse_identification(bytes@),
{
    if bytes.len() < IDENTIFICATION_LEN {
        return Err(
            MdfError::TooShortBuffer { actual: bytes.len(), expected: IDENTIFICATION_LEN },
        );
    }
    let id = decode_text(&bytes[0..8]);
    if !same_text(id.as_str(), "MDF     ") {
        return Err(MdfError::FileIdentifierError(id));
    }
    let version = read_u16(bytes, 28);
    if version < OLDEST_VERSION {
        return Err(MdfError::FileVersioningError(version));
    }
    Ok(version)
}

} // verus!
