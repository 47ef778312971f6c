//! Text-level diffing: the [`Differ`] computes shared runs and edit regions
//! of two texts and serializes them to the patch format; [`parse_patch_file`]
//! reads a patch text back, and [`apply_patch`] replays one against an old
//! text.

use vstd::prelude::*;

use crate::block::{Block, all_blocks_valid, block_valid, is_match_candidates};
use crate::codec::{
    PatchModel, ParseOutcome, init_state, parse_patch_text, parse_run, patch_models,
    serialize_patches, serialize_spec,
};
use crate::delta::{ApplyCheck, DeltaModel, build_changes, change_models, gap_deltas};
use crate::errors::{PatchApplyError, PatchError, PatchParseError};
use crate::lines::{
    append_range, join_lines, line_views, render_lines, split_lines, split_lines_spec,
};
use crate::select::{blocks_dominance_sorted, pick_blocks, selection_of};

pub use crate::codec::Patch;

verus! {

/// One edit region by positions and extents alone: where it starts in the old
/// and in the new sequence, and how many lines it removes and adds.
#[derive(Clone, Copy, Debug, PartialEq, Eq, Structural)]
pub struct Delta {
    /// First line of the region in the old sequence.
    pub old_start: usize,
    /// First line of the region in the new sequence.
    pub new_start: usize,
    /// Number of lines removed from the old sequence.
    pub removed_count: usize,
    /// Number of lines added in the new sequence.
    pub added_count: usize,
}

/// The value of a delta.
pub open spec fn delta_model(d: Delta) -> DeltaModel {
    DeltaModel {
        old_start: d.old_start as int,
        removed: d.removed_count as int,
        new_start: d.new_start as int,
        added: d.added_count as int,
    }
}

/// The values of a list of deltas.
pub open spec fn delta_models(ds: Seq<Delta>) -> Seq<DeltaModel> {
    ds.map_values(|d: Delta| delta_model(d))
}

/// The patch records of the given edit regions: each with the literal lines
/// of the region it names.
pub open spec fn recs_of(
    old: Seq<Seq<char>>,
    new: Seq<Seq<char>>,
    ds: Seq<DeltaModel>,
) -> Seq<PatchModel> {
    ds.map_values(
        |d: DeltaModel|
            PatchModel {
                old_start: d.old_start as nat,
                removed_count: d.removed as nat,
                added_count: d.added as nat,
                removed_lines: old.subrange(d.old_start, d.old_start + d.removed),
                added_lines: new.subrange(d.new_start, d.new_start + d.added),
            },
    )
}

/// The first violation a replay of the records from `cursor` would meet.
pub open spec fn check_recs(rs: Seq<PatchModel>, cursor: int, m: int) -> ApplyCheck
    decreases rs.len(),
{
    if rs.len() == 0 {
        ApplyCheck::Fine
    } else if rs[0].old_start < cursor {
        ApplyCheck::Order
    } else if rs[0].old_start + rs[0].removed_count > m {
        ApplyCheck::Bounds
    } else {
        check_recs(rs.drop_first(), rs[0].old_start + rs[0].removed_count as int, m)
    }
}

/// Replaying the records against `old` from `cursor`: copy the old lines up
/// to each record's start, splice in its added lines, skip its removed count,
/// and copy what remains after the last record.
pub open spec fn apply_recs(old: Seq<Seq<char>>, rs: Seq<PatchModel>, cursor: int) -> Seq<Seq<char>>
    decreases rs.len(),
{
    if rs.len() == 0 {
        old.subrange(cursor, old.len() as int)
    } else {
        old.subrange(cursor, rs[0].old_start as int) + rs[0].added_lines + apply_recs(
            old,
            rs.drop_first(),
            rs[0].old_start + rs[0].removed_count as int,
        )
    }
}

/// Replays parsed patch records against the old lines.
fn apply_records(old_lines: &Vec<String>, ps: &Vec<Patch>) -> (r: Result<
    Vec<String>,
    PatchApplyError,
>)
    ensures
        (r is Ok) == (check_recs(patch_models(ps@), 0, old_lines@.len() as int) is Fine),
        (r == Result::<Vec<String>, PatchApplyError>::Err(PatchApplyError::OutOfOrder)) == (
        check_recs(patch_models(ps@), 0, old_lines@.len() as int) is Order),
        (r == Result::<Vec<String>, PatchApplyError>::Err(PatchApplyError::OutOfBounds)) == (
        check_recs(patch_models(ps@), 0, old_lines@.len() as int) is Bounds),
        r matches Ok(v) ==> line_views(v@) == apply_recs(
            line_views(old_lines@),
            patch_models(ps@),
            0,
        ),
{
    let ghost odv = line_views(old_lines@);
    let ghost models = patch_models(ps@);
    let m = old_lines.len();
    let mut out: Vec<String> = Vec::new();
    let mut cur: usize = 0;
    let mut i: usize = 0;
    proof {
        assert(models.skip(0) =~= models);
        assert(line_views(out@) + apply_recs(odv, models, 0) =~= apply_recs(odv, models, 0));
    }
    while i < ps.len()
        invariant
            odv == line_views(old_lines@),
            models == patch_models(ps@),
            m == old_lines@.len(),
            i <= ps@.len(),
            cur <= m,
            check_recs(models, 0, m as int) == check_recs(models.skip(i as int), cur as int,
            m as int),
            line_views(out@) + apply_recs(odv, models.skip(i as int), cur as int) == apply_recs(
                odv,
                models,
                0,
            ),
        decreases ps@.len() - i,
    {
        proof {
            assert(models.skip(i as int)[0] == models[i as int]);
            assert(models[i as int] == ps@[i as int]@);
            assert(models.skip(i as int).drop_first() =~= models.skip(i as int + 1));
        }
        let r_old_start = ps[i].old_start;
        let r_removed = ps[i].removed_count;
        if r_old_start < cur {
            return Err(PatchApplyError::OutOfOrder);
        }
        if r_old_start > m || r_removed > m - r_old_start {
            return Err(PatchApplyError::OutOfBounds);
        }
        let ghost out_pre = out@;
        append_range(&mut out, old_lines, cur, r_old_start);
        let alen = ps[i].added_lines.len();
        append_range(&mut out, &ps[i].added_lines, 0, alen);
        proof {
            assert(line_views(ps@[i as int].added_lines@).subrange(
                0,
                ps@[i as int].added_lines@.len() as int,
            ) =~= line_views(ps@[i as int].added_lines@));
            assert(line_views(out@) + apply_recs(odv, models.skip(i as int + 1), r_old_start
                + r_removed) =~= line_views(out_pre) + (odv.subrange(
                cur as int,
                r_old_start as int,
            ) + models[i as int].added_lines + apply_recs(
                odv,
                models.skip(i as int + 1),
                r_old_start + r_removed,
            )));
        }
        cur = r_old_start + r_removed;
        i = i + 1;
    }
    proof {
        assert(models.skip(i as int) =~= Seq::<PatchModel>::empty());
    }
    let ghost out_pre = out@;
    append_range(&mut out, old_lines, cur, m);
    proof {
        assert(line_views(out@) =~= line_views(out_pre) + odv.subrange(cur as int, m as int));
    }
    Ok(out)
}

/// Parses a textual patch into its records. Fails on a malformed header and
/// on a content line that appears although both payload counts are satisfied;
/// the contract ties every outcome to the parser model in `codec`.
pub fn parse_patch_file(patch_file: String) -> (r: Result<Vec<Patch>, PatchParseError>)
    ensures
        (r is Ok) == (parse_run(split_lines_spec(patch_file@), init_state(), Seq::empty())
            is Parsed),
        r matches Ok(v) ==> parse_run(split_lines_spec(patch_file@), init_state(), Seq::empty())
            == ParseOutcome::Parsed(patch_models(v@)),
        (r == Result::<Vec<Patch>, PatchParseError>::Err(PatchParseError::MalformedHeader)) == (
        parse_run(split_lines_spec(patch_file@), init_state(), Seq::empty()) is BadHeader),
        (r == Result::<Vec<Patch>, PatchParseError>::Err(PatchParseError::UnrecognizedLine)) == (
        parse_run(split_lines_spec(patch_file@), init_state(), Seq::empty()) is BadLine),
{
    parse_patch_text(patch_file.as_str())
}

/// Applies a textual patch to an old text: parses the patch, replays its
/// records against the old text's lines, and renders the result, one line per
/// newline. Fails exactly when the patch text cannot be parsed or its records
/// are out of order or out of bounds for the old text.
pub fn apply_patch(old_file: String, patch: String) -> (r: Result<String, PatchError>)
    ensures
        (parse_run(split_lines_spec(patch@), init_state(), Seq::empty()) is BadHeader) ==> r
            == Result::<String, PatchError>::Err(
            PatchError::Parse(PatchParseError::MalformedHeader),
        ),
        (parse_run(split_lines_spec(patch@), init_state(), Seq::empty()) is BadLine) ==> r
            == Result::<String, PatchError>::Err(
            PatchError::Parse(PatchParseError::UnrecognizedLine),
        ),
        forall|rs: Seq<PatchModel>|
            parse_run(split_lines_spec(patch@), init_state(), Seq::empty())
                == ParseOutcome::Parsed(rs) ==> {
                &&& (r is Ok) == (check_recs(rs, 0, split_lines_spec(old_file@).len() as int)
                    is Fine)
                &&& (check_recs(rs, 0, split_lines_spec(old_file@).len() as int) is Order) ==> r
                    == Result::<String, PatchError>::Err(
                    PatchError::Apply(PatchApplyError::OutOfOrder),
                )
                &&& (check_recs(rs, 0, split_lines_spec(old_file@).len() as int) is Bounds) ==> r
                    == Result::<String, PatchError>::Err(
                    PatchError::Apply(PatchApplyError::OutOfBounds),
                )
                &&& r matches Ok(out) ==> out@ == join_lines(
                    apply_recs(split_lines_spec(old_file@), rs, 0),
                )
            },
{
    let recs = match parse_patch_text(patch.as_str()) {
        Ok(recs) => recs,
        Err(e) => {
            return Err(PatchError::Parse(e));
        },
    };
    let old_lines = split_lines(old_file.as_str());
    let out_lines = match apply_records(&old_lines, &recs) {
        Ok(v) => v,
        Err(e) => {
            return Err(PatchError::Apply(e));
        },
    };
    Ok(render_lines(&out_lines))
}


/// Copies a block list.
fn copy_blocks(v: &Vec<Block>) -> (r: Vec<Block>)
    ensures
        r@ == v@,
{
    let mut r: Vec<Block> = Vec::new();
    let mut i: usize = 0;
    while i < v.len()
        invariant
            i <= v@.len(),
            r@ == v@.take(i as int),
        decreases v@.len() - i,
    {
        r.push(v[i]);
        proof {
            assert(v@.take(i + 1) =~= v@.take(i as int).push(v@[i as int]));
        }
        i = i + 1;
    }
    proof {
        assert(v@.take(v@.len() as int) =~= v@);
    }
    r
}

/// Copies a delta list.
fn copy_deltas(v: &Vec<Delta>) -> (r: Vec<Delta>)
    ensures
        r@ == v@,
{
    let mut r: Vec<Delta> = Vec::new();
    let mut i: usize = 0;
    while i < v.len()
        invariant
            i <= v@.len(),
            r@ == v@.take(i as int),
        decreases v@.len() - i,
    {
        r.push(v[i]);
        proof {
            assert(v@.take(i + 1) =~= v@.take(i as int).push(v@[i as int]));
        }
        i = i + 1;
    }
    proof {
        assert(v@.take(v@.len() as int) =~= v@);
    }
    r
}

/// The diff engine: splits the two texts into lines once, finds and selects
/// the shared runs, and derives the edit regions.
#[derive(Debug)]
pub struct Differ {
    old_lines: Vec<String>,
    new_lines: Vec<String>,
    commons: Vec<Block>,
    deltas: Option<Vec<Delta>>,
}

impl Differ {
    /// The old text's lines.
    pub closed spec fn old_view(&self) -> Seq<Seq<char>> {
        line_views(self.old_lines@)
    }

    /// The new text's lines.
    pub closed spec fn new_view(&self) -> Seq<Seq<char>> {
        line_views(self.new_lines@)
    }

    /// The selected common runs, ascending by `old_start`.
    pub closed spec fn commons_view(&self) -> Seq<Block> {
        self.commons@
    }

    /// The edit regions; absent exactly when the new text has no lines.
    pub closed spec fn deltas_view(&self) -> Option<Seq<Delta>> {
        match self.deltas {
            Some(ds) => Some(ds@),
            None => None,
        }
    }

    /// What construction establishes and the other methods rely on: the
    /// selected runs are valid non-crossing matches, and the edit regions are
    /// exactly the gaps they leave.
    pub closed spec fn wf(&self) -> bool {
        &&& all_blocks_valid(self.old_view(), self.new_view(), self.commons@)
        &&& blocks_dominance_sorted(self.commons@)
        &&& (self.deltas is Some) == (self.new_view().len() > 0)
        &&& (self.deltas matches Some(ds) ==> delta_models(ds@) == gap_deltas(
            self.commons@,
            0,
            0,
            self.old_view().len() as int,
            self.new_view().len() as int,
        ))
    }

    /// Splits both texts into lines, finds every maximal shared run, picks a
    /// non-crossing subset — longest runs first — and derives the edit
    /// regions. No two selected runs cross: each ends, in both coordinates,
    /// no later than the next begins.
    pub fn new(old_content: &str, new_content: &str) -> (r: Differ)
        ensures
            r.wf(),
            r.old_view() == split_lines_spec(old_content@),
            r.new_view() == split_lines_spec(new_content@),
            all_blocks_valid(r.old_view(), r.new_view(), r.commons_view()),
            blocks_dominance_sorted(r.commons_view()),
            exists|cands: Seq<Block>|
                #[trigger] is_match_candidates(r.old_view(), r.new_view(), cands)
                    && r.commons_view() == selection_of(cands),
            (r.deltas_view() is Some) == (r.new_view().len() > 0),
            r.deltas_view() matches Some(ds) ==> delta_models(ds) == gap_deltas(
                r.commons_view(),
                0,
                0,
                r.old_view().len() as int,
                r.new_view().len() as int,
            ),
    {
        let old_lines = split_lines(old_content);
        let new_lines = split_lines(new_content);
        let ghost odv = line_views(old_lines@);
        let ghost ndv = line_views(new_lines@);
        let m = old_lines.len();
        let n = new_lines.len();
        let cands = crate::block::find_blocks(&old_lines, &new_lines);
        let ghost cands0 = cands@;
        proof {
            assert forall|i: int| 0 <= i < cands@.len() implies block_valid(
                odv,
                ndv,
                #[trigger] cands@[i],
            ) by {
                assert(crate::block::block_maximal(odv, ndv, cands@[i]));
            }
        }
        let picked = pick_blocks(cands, Ghost(odv), Ghost(ndv));
        let deltas_opt: Option<Vec<Delta>> = if n == 0 {
            None
        } else {
            let cs = build_changes(&old_lines, &new_lines, &picked);
            let mut ds: Vec<Delta> = Vec::new();
            let mut i: usize = 0;
            while i < cs.len()
                invariant
                    i <= cs@.len(),
                    ds@.len() == i,
                    forall|t: int|
                        0 <= t < i ==> delta_model(#[trigger] ds@[t]) == change_models(cs@)[t],
                decreases cs@.len() - i,
            {
                let d = Delta {
                    old_start: cs[i].old_start,
                    new_start: cs[i].new_start,
                    removed_count: cs[i].removed_count,
                    added_count: cs[i].added_count,
                };
                ds.push(d);
                i = i + 1;
            }
            proof {
                assert(delta_models(ds@) =~= change_models(cs@));
            }
            Some(ds)
        };
        Differ { old_lines, new_lines, commons: picked, deltas: deltas_opt }
    }

    /// The selected common runs, ascending by `old_start`.
    pub fn get_commons(&mut self) -> (r: Option<Vec<Block>>)
        ensures
            *final(self) == *old(self),
            r matches Some(c) && c@ == old(self).commons_view(),
    {
        Some(copy_blocks(&self.commons))
    }

    /// The edit regions, ascending by `old_start`; absent exactly when the
    /// new text has no lines, which is the one input a diff rejects.
    pub fn get_deltas(&mut self) -> (r: Option<Vec<Delta>>)
        ensures
            *final(self) == *old(self),
            (r is Some) == (old(self).deltas_view() is Some),
            r matches Some(ds) ==> old(self).deltas_view() == Some(ds@),
    {
        match &self.deltas {
            None => None,
            Some(v) => Some(copy_deltas(v)),
        }
    }

    /// Serializes the edit regions, with their literal lines, to the patch
    /// format. Nothing is produced when the new text has no lines — the diff
    /// rejects that input — or when there is no edit region at all, that is,
    /// when the two texts have the same lines.
    pub fn gen_patch(&mut self) -> (r: Option<String>)
        requires
            old(self).wf(),
        ensures
            *final(self) == *old(self),
            (r is Some) == (old(self).new_view().len() > 0 && gap_deltas(
                old(self).commons_view(),
                0,
                0,
                old(self).old_view().len() as int,
                old(self).new_view().len() as int,
            ).len() > 0),
            r matches Some(s) ==> s@ == serialize_spec(
                recs_of(
                    old(self).old_view(),
                    old(self).new_view(),
                    gap_deltas(
                        old(self).commons_view(),
                        0,
                        0,
                        old(self).old_view().len() as int,
                        old(self).new_view().len() as int,
                    ),
                ),
            ),
    {
        let ghost odv = self.old_view();
        let ghost ndv = self.new_view();
        let ghost gaps = gap_deltas(
            self.commons@,
            0,
            0,
            odv.len() as int,
            ndv.len() as int,
        );
        let empty = match &self.deltas {
            None => {
                return None;
            },
            Some(ds) => ds.len() == 0,
        };
        if empty {
            proof {
                assert(gaps.len() == 0);
            }
            return None;
        }
        let cs = build_changes(&self.old_lines, &self.new_lines, &self.commons);
        let mut recs: Vec<Patch> = Vec::new();
        let mut i: usize = 0;
        proof {
            assert(change_models(cs@) == gaps);
        }
        while i < cs.len()
            invariant
                odv == self.old_view(),
                ndv == self.new_view(),
                i <= cs@.len(),
                recs@.len() == i,
                change_models(cs@) == gaps,
                crate::delta::changes_carry_lines(odv, ndv, cs@),
                forall|t: int|
                    0 <= t < i ==> #[trigger] patch_models(recs@)[t] == recs_of(odv, ndv, gaps)[t],
            decreases cs@.len() - i,
        {
            proof {
                assert(crate::patch::change_wf(cs@[i as int]));
            }
            let rlen = cs[i].removed_lines.len();
            let alen = cs[i].added_lines.len();
            let rl = crate::lines::copy_range(&cs[i].removed_lines, 0, rlen);
            let al = crate::lines::copy_range(&cs[i].added_lines, 0, alen);
            let rec = Patch {
                old_start: cs[i].old_start,
                removed_count: cs[i].removed_count,
                added_count: cs[i].added_count,
                removed_lines: rl,
                added_lines: al,
            };
            let ghost pre = recs@;
            recs.push(rec);
            proof {
                assert(line_views(cs@[i as int].removed_lines@).subrange(
                    0,
                    cs@[i as int].removed_lines@.len() as int,
                ) =~= line_views(cs@[i as int].removed_lines@));
                assert(line_views(cs@[i as int].added_lines@).subrange(
                    0,
                    cs@[i as int].added_lines@.len() as int,
                ) =~= line_views(cs@[i as int].added_lines@));
                assert(change_models(cs@)[i as int] == crate::delta::change_model(cs@[i as int]));
                assert forall|t: int| 0 <= t < i + 1 implies #[trigger] patch_models(recs@)[t]
                    == recs_of(odv, ndv, gaps)[t] by {
                    if t < i {
                        assert(patch_models(pre)[t] == recs_of(odv, ndv, gaps)[t]);
                        assert(recs@[t] == pre[t]);
                    } else {
                        assert(recs@[t] == rec);
                        assert(patch_models(recs@)[t] == rec@);
                        assert(recs_of(odv, ndv, gaps)[t] =~~= rec@);
                    }
                }
            }
            i = i + 1;
        }
        proof {
            assert(patch_models(recs@) =~~= recs_of(odv, ndv, gaps));
        }
        let s = serialize_patches(&recs);
        Some(s)
    }
}

} // verus!
