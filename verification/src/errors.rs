//! The failures the library can report. They are deterministic,
//! input-dependent conditions; nothing is retried or silently dropped.

use vstd::prelude::*;

verus! {

/// Failure of a diff operation.
#[derive(Clone, Copy, Debug, PartialEq, Eq, Structural)]
pub enum DiffError {
    /// The new sequence is empty: there is nothing to produce a patch for.
    EmptyInput,
}

/// Failure to parse a textual patch.
#[derive(Clone, Copy, Debug, PartialEq, Eq, Structural)]
pub enum PatchParseError {
    /// A header line did not hold exactly three unsigned integers.
    MalformedHeader,
    /// A content line appeared although both payload counts were satisfied.
    UnrecognizedLine,
}

/// Failure to replay a patch against an old sequence.
#[derive(Clone, Copy, Debug, PartialEq, Eq, Structural)]
pub enum PatchApplyError {
    /// A change starts before the end of the previous one.
    OutOfOrder,
    /// A change reaches beyond the end of the old sequence.
    OutOfBounds,
}

/// Failure of the text-level patch application: either the patch text cannot
/// be parsed, or the parsed changes cannot be replayed.
#[derive(Clone, Copy, Debug, PartialEq, Eq, Structural)]
pub enum PatchError {
    Parse(PatchParseError),
    Apply(PatchApplyError),
}

} // verus!
