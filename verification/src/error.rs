//! The ways in which building or restoring a table can fail.

use vstd::prelude::*;

verus! {

/// Why a table could not be built or restored.
#[derive(Clone, Copy, Debug, PartialEq, Eq, Structural)]
pub enum LutError {
    /// A closing bracket without an opening one before it, or an opening
    /// bracket that is never closed.
    UnmatchedBracket,
    /// No hash key that was tried gave a perfect hash of the keys.
    PhfUnsolvable,
    /// The file name names no format that tables are stored in.
    UnsupportedFormat,
    /// The bytes are not a stored table.
    CorruptedArtifact,
}

} // verus!
