//! The failure taxonomy of the crate. Every failure is returned to the
//! immediate caller as an explicit result value; nothing is retried and
//! nothing panics.

use vstd::prelude::*;

verus! {

/// Why an arena, overlay, or codec operation was refused.
#[derive(Debug, Clone, Copy, PartialEq, Eq, Structural)]
pub enum Error {
    /// A key or index exceeds the current sequence length.
    OutOfBounds,
    /// `remove` addressed a slot that is currently vacant.
    AlreadyVacant,
    /// A patch names an index that the target sequence does not have.
    IndexOutOfRange,
    /// A declared pair count exceeds the remaining decodable bytes.
    DecodeTooLarge,
    /// The byte stream ended in the middle of a count, key, or value.
    DecodeShort,
    /// A decoded key does not fit in a machine word.
    DecodeMalformed,
}

} // verus!
