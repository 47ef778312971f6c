//! The patch as a value: an ordered list of changes, each describing one
//! contiguous edit region with its literal line payloads.

use vstd::prelude::*;

verus! {

/// One contiguous edit region: `removed_count` lines of the old sequence
/// starting at `old_start` are replaced by `added_count` lines of the new
/// sequence starting at `new_start`; the payloads carry those lines.
pub struct Change {
    /// First line of the region in the old sequence.
    pub old_start: usize,
    /// Number of lines removed from the old sequence.
    pub removed_count: usize,
    /// First line of the region in the new sequence.
    pub new_start: usize,
    /// Number of lines added in the new sequence.
    pub added_count: usize,
    /// The removed lines, carried for auditability; replay does not trust them.
    pub removed_lines: Vec<String>,
    /// The added lines, spliced in by replay.
    pub added_lines: Vec<String>,
}

/// The counts of a change agree with its payloads.
pub open spec fn change_wf(c: Change) -> bool {
    &&& c.removed_count == c.removed_lines@.len()
    &&& c.added_count == c.added_lines@.len()
}

/// A patch: an ordered list of changes.
pub struct Patch(Vec<Change>);

impl View for Patch {
    type V = Seq<Change>;

    closed spec fn view(&self) -> Seq<Change> {
        self.0@
    }
}

impl Patch {
    /// Wraps a list of changes as a patch.
    pub fn from_vec(vec: Vec<Change>) -> (p: Patch)
        ensures
            p@ == vec@,
    {
        Patch(vec)
    }

    /// The changes of the patch, in order.
    pub fn as_vec_ref(&self) -> (r: &Vec<Change>)
        ensures
            r@ == self@,
    {
        let Patch(vec) = self;
        vec
    }
}

} // verus!
