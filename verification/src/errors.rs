use vstd::prelude::*;

verus! {

/// Everything that can go wrong in this library.
///
/// Encoding rejects byte strings whose length is not a multiple of 4;
/// decoding rejects texts whose character count is not a multiple of 7,
/// and texts holding a character outside the alphabet (in either case).
/// The offending character rides along in the error.
#[derive(Debug, Clone, Copy, PartialEq, Eq)]
pub enum Base24Error {
    EncodeInputLengthInvalid,
    DecodeInputLengthInvalid,
    DecodeUnsupportedCharacter(char),
}

} // verus!
