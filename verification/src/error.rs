use vstd::prelude::*;

verus! {

/// Why a frame could not be built or taken apart.
#[derive(Debug, Clone, Copy, PartialEq, Eq, Structural)]
pub enum HDLCError {
    /// The four special characters are not pairwise distinct.
    DuplicateSpecialChar,
    /// An unescaped frame delimiter stands before the last byte of the input.
    FendCharInData,
    /// An escape byte is not followed by one of the two substitute bytes.
    MissingTradeChar,
    /// The input does not start with the frame delimiter.
    MissingFirstFend,
    /// The input ends before a closing frame delimiter was found.
    MissingFinalFend,
}

} // verus!
