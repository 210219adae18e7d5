use vstd::prelude::*;

verus! {

/// Errors that can occur when decoding base16384 data.
#[derive(Debug, Clone, Copy, PartialEq, Eq, Structural)]
pub enum Base16384DecodeError {
    /// The input data has an invalid length.
    InvalidLength,
    /// The input data has an invalid character at the given index.
    ///
    /// The index is the position of the offending symbol within its
    /// four-symbol group; in the UTF-8 form it is the byte offset of the
    /// offending triplet within its twelve-byte group.
    InvalidCharacter { index: usize },
}

} // verus!
