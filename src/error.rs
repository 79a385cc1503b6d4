//! Errors of the storage layer.
use vstd::prelude::*;

verus! {

/// A format violation found while decoding, or a block index out of range.
#[derive(Debug, Clone, Copy, PartialEq, Eq, Structural)]
pub enum LsmError {
    CorruptBlock,
    CorruptMeta,
    CorruptFooter,
    NoSuchBlock,
    /// The table would not fit the 32-bit offsets of its footer and index.
    TooLarge,
}

} // verus!
