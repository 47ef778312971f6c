//! A document as an ordered list of text lines, and the two named operations
//! on documents: diffing two of them into a patch, and applying a patch to
//! reconstruct the newer one.

use vstd::prelude::*;

use crate::block::{Block, is_match_candidates, block_valid, all_blocks_valid};
use crate::delta::{
    apply_changes, apply_changes_from, build_changes, change_models, changes_carry_lines,
    changes_in_order_from, check_changes, gap_deltas,
};
use crate::errors::{DiffError, PatchApplyError};
use crate::lines::{line_views, render_lines};
use crate::patch::Patch;
use crate::select::{pick_blocks, selection_of};

verus! {

/// A document snapshot: an ordered, zero-indexed list of text lines.
#[derive(Debug, Clone)]
pub struct Document(Vec<String>);

impl View for Document {
    type V = Seq<Seq<char>>;

    closed spec fn view(&self) -> Seq<Seq<char>> {
        line_views(self.0@)
    }
}

impl Document {
    /// Wraps a list of lines as a document.
    pub fn from_lines(lines: Vec<String>) -> (d: Document)
        ensures
            d@ == line_views(lines@),
    {
        Document(lines)
    }

    /// The lines of the document.
    pub fn as_vec_ref(&self) -> (r: &Vec<String>)
        ensures
            line_views(r@) == self@,
    {
        let Document(vec) = self;
        vec
    }

    /// The text of the document: every line followed by one newline.
    pub fn to_string(&self) -> (s: String)
        ensures
            s@ == crate::lines::join_lines(self@),
    {
        render_lines(&self.0)
    }
}

/// Diffs two documents: finds the shared runs of lines, greedily picks a
/// non-crossing subset of them, and returns the edit regions that remain,
/// with their literal line payloads.
///
/// The contract states the round trip: together with [`apply_patch`], whose
/// result is exactly `apply_changes_from(old_doc@, p@, 0)`, a produced patch
/// replays the old document into the new one. An empty new document is
/// rejected; that is the one input on which no patch is produced.
pub fn diff_lines(old_doc: &Document, new_doc: &Document) -> (r: Result<Patch, DiffError>)
    ensures
        (r is Ok) == (new_doc@.len() > 0),
        (r is Err) ==> r == Result::<Patch, DiffError>::Err(DiffError::EmptyInput),
        r matches Ok(p) ==> {
            &&& changes_in_order_from(p@, 0, old_doc@.len() as int)
            &&& changes_carry_lines(old_doc@, new_doc@, p@)
            &&& apply_changes_from(old_doc@, p@, 0) == new_doc@
            &&& exists|cands: Seq<Block>|
                {
                    &&& #[trigger] is_match_candidates(old_doc@, new_doc@, cands)
                    &&& change_models(p@) == gap_deltas(
                        selection_of(cands),
                        0,
                        0,
                        old_doc@.len() as int,
                        new_doc@.len() as int,
                    )
                }
        },
{
    if new_doc.0.len() == 0 {
        return Err(DiffError::EmptyInput);
    }
    let m = old_doc.0.len();
    let n = new_doc.0.len();
    let cands = crate::block::find_blocks(&old_doc.0, &new_doc.0);
    let ghost cands0 = cands@;
    proof {
        assert forall|i: int| 0 <= i < cands@.len() implies block_valid(
            old_doc@,
            new_doc@,
            #[trigger] cands@[i],
        ) by {
            assert(crate::block::block_maximal(old_doc@, new_doc@, cands@[i]));
        }
    }
    let picked = pick_blocks(cands, Ghost(old_doc@), Ghost(new_doc@));
    let cs = build_changes(&old_doc.0, &new_doc.0, &picked);
    proof {
        assert(is_match_candidates(old_doc@, new_doc@, cands0));
        assert(change_models(cs@) == gap_deltas(
            selection_of(cands0),
            0,
            0,
            old_doc@.len() as int,
            new_doc@.len() as int,
        ));
    }
    Ok(Patch::from_vec(cs))
}

/// Applies a patch to the old document: copies unchanged lines, splices in
/// each change's added lines, and skips each change's removed region. A patch
/// whose changes are out of order, overlapping, or beyond the end of the old
/// document is rejected without producing output.
pub fn apply_patch(old_doc: &Document, patch: &Patch) -> (r: Result<Document, PatchApplyError>)
    ensures
        (r is Ok) == (check_changes(patch@, 0, old_doc@.len() as int) is Fine),
        (r == Result::<Document, PatchApplyError>::Err(PatchApplyError::OutOfOrder)) == (
        check_changes(patch@, 0, old_doc@.len() as int) is Order),
        (r == Result::<Document, PatchApplyError>::Err(PatchApplyError::OutOfBounds)) == (
        check_changes(patch@, 0, old_doc@.len() as int) is Bounds),
        r matches Ok(d) ==> d@ == apply_changes_from(old_doc@, patch@, 0),
{
    match apply_changes(&old_doc.0, patch.as_vec_ref()) {
        Ok(v) => Ok(Document(v)),
        Err(e) => Err(e),
    }
}

} // verus!
