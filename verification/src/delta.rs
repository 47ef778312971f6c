//! Deltas: the edit regions between two line sequences. Fills the gaps
//! between the picked blocks, and replays an ordered list of changes against
//! the old sequence.

use vstd::prelude::*;

use crate::block::{Block, all_blocks_valid};
use crate::lines::{line_views, copy_range, append_range};
use crate::patch::{Change, change_wf};
use crate::select::blocks_dominance_sorted;

verus! {

/// The positions and extents of one edit region, without its payloads.
pub struct DeltaModel {
    pub old_start: int,
    pub removed: int,
    pub new_start: int,
    pub added: int,
}

/// The positions and extents of a change.
pub open spec fn change_model(c: Change) -> DeltaModel {
    DeltaModel {
        old_start: c.old_start as int,
        removed: c.removed_count as int,
        new_start: c.new_start as int,
        added: c.added_count as int,
    }
}

/// The positions and extents of every change of a list.
pub open spec fn change_models(cs: Seq<Change>) -> Seq<DeltaModel> {
    cs.map_values(|c: Change| change_model(c))
}

/// The edit regions left between the picked blocks `bs`, walking from the
/// position `(po, pn)` to the ends `(m, n)` of the two sequences: one region
/// for each gap that is non-empty in either coordinate.
pub open spec fn gap_deltas(bs: Seq<Block>, po: int, pn: int, m: int, n: int) -> Seq<DeltaModel>
    decreases bs.len(),
{
    if bs.len() == 0 {
        if po < m || pn < n {
            seq![DeltaModel { old_start: po, removed: m - po, new_start: pn, added: n - pn }]
        } else {
            seq![]
        }
    } else {
        let b = bs[0];
        let rest = gap_deltas(bs.drop_first(), b.old_end(), b.new_end(), m, n);
        if po < b.old_start || pn < b.new_start {
            seq![
                DeltaModel {
                    old_start: po,
                    removed: b.old_start - po,
                    new_start: pn,
                    added: b.new_start - pn,
                },
            ] + rest
        } else {
            rest
        }
    }
}

/// Verdict of checking a change list against an old sequence of `m` lines,
/// walking a cursor from `cursor`: the changes must be ascending and
/// non-overlapping in old coordinates, and stay within the sequence.
pub enum ApplyCheck {
    Fine,
    Order,
    Bounds,
}

/// The first violation a replay from `cursor` would meet, if any.
pub open spec fn check_changes(cs: Seq<Change>, cursor: int, m: int) -> ApplyCheck
    decreases cs.len(),
{
    if cs.len() == 0 {
        ApplyCheck::Fine
    } else if cs[0].old_start < cursor {
        ApplyCheck::Order
    } else if cs[0].old_start + cs[0].removed_count > m {
        ApplyCheck::Bounds
    } else {
        check_changes(cs.drop_first(), cs[0].old_start + cs[0].removed_count, m)
    }
}

/// The changes are ascending, non-overlapping, and within bounds from `cursor`.
pub open spec fn changes_in_order_from(cs: Seq<Change>, cursor: int, m: int) -> bool {
    check_changes(cs, cursor, m) == ApplyCheck::Fine
}

/// Replaying `cs` against `old` from `cursor`: copy the old lines up to each
/// change's start, splice in its added lines, skip its removed lines, and
/// copy what remains after the last change.
pub open spec fn apply_changes_from(old: Seq<Seq<char>>, cs: Seq<Change>, cursor: int) -> Seq<
    Seq<char>,
>
    decreases cs.len(),
{
    if cs.len() == 0 {
        old.subrange(cursor, old.len() as int)
    } else {
        old.subrange(cursor, cs[0].old_start as int) + line_views(cs[0].added_lines@)
            + apply_changes_from(old, cs.drop_first(), cs[0].old_start + cs[0].removed_count)
    }
}

/// What a replay emits before its final copy of the old tail.
pub open spec fn replay_out(old: Seq<Seq<char>>, cs: Seq<Change>, cursor: int) -> Seq<Seq<char>>
    decreases cs.len(),
{
    if cs.len() == 0 {
        Seq::empty()
    } else {
        old.subrange(cursor, cs[0].old_start as int) + line_views(cs[0].added_lines@) + replay_out(
            old,
            cs.drop_first(),
            cs[0].old_start + cs[0].removed_count,
        )
    }
}

/// Where the replay cursor stands after all changes of `cs`.
pub open spec fn cursor_after(cs: Seq<Change>, cursor: int) -> int
    decreases cs.len(),
{
    if cs.len() == 0 {
        cursor
    } else {
        cursor_after(cs.drop_first(), cs[0].old_start + cs[0].removed_count)
    }
}

/// A replay is its emitted output followed by the untouched old tail.
pub proof fn lemma_apply_is_replay(old: Seq<Seq<char>>, cs: Seq<Change>, cursor: int)
    ensures
        apply_changes_from(old, cs, cursor) == replay_out(old, cs, cursor) + old.subrange(
            cursor_after(cs, cursor),
            old.len() as int,
        ),
    decreases cs.len(),
{
    if cs.len() == 0 {
        assert(apply_changes_from(old, cs, cursor) =~= replay_out(old, cs, cursor) + old.subrange(
            cursor_after(cs, cursor),
            old.len() as int,
        ));
    } else {
        lemma_apply_is_replay(old, cs.drop_first(), cs[0].old_start + cs[0].removed_count);
        assert(apply_changes_from(old, cs, cursor) =~= replay_out(old, cs, cursor) + old.subrange(
            cursor_after(cs, cursor),
            old.len() as int,
        ));
    }
}

/// Appending a change extends the emitted output by the copied old segment
/// and the change's added lines, and moves the final cursor past the change's
/// removed region.
pub proof fn lemma_replay_push(old: Seq<Seq<char>>, cs: Seq<Change>, c: Change, cursor: int)
    ensures
        replay_out(old, cs.push(c), cursor) == replay_out(old, cs, cursor) + old.subrange(
            cursor_after(cs, cursor),
            c.old_start as int,
        ) + line_views(c.added_lines@),
        cursor_after(cs.push(c), cursor) == c.old_start + c.removed_count,
    decreases cs.len(),
{
    let p = cs.push(c);
    if cs.len() == 0 {
        assert(p[0] == c);
        assert(p.drop_first() =~= Seq::<Change>::empty());
        assert(replay_out(old, p.drop_first(), c.old_start + c.removed_count)
            =~= Seq::<Seq<char>>::empty());
        assert(cursor_after(p.drop_first(), c.old_start + c.removed_count) == c.old_start
            + c.removed_count);
        assert(replay_out(old, p, cursor) =~= replay_out(old, cs, cursor) + old.subrange(
            cursor_after(cs, cursor),
            c.old_start as int,
        ) + line_views(c.added_lines@));
    } else {
        assert(p[0] == cs[0]);
        assert(p.drop_first() =~= cs.drop_first().push(c));
        lemma_replay_push(old, cs.drop_first(), c, cs[0].old_start + cs[0].removed_count);
        assert(replay_out(old, p, cursor) =~= replay_out(old, cs, cursor) + old.subrange(
            cursor_after(cs, cursor),
            c.old_start as int,
        ) + line_views(c.added_lines@));
    }
}

/// Appending a change keeps the list in order exactly when the change starts
/// at or after the final cursor and stays within bounds.
pub proof fn lemma_in_order_push(cs: Seq<Change>, c: Change, cursor: int, m: int)
    requires
        changes_in_order_from(cs, cursor, m),
    ensures
        changes_in_order_from(cs.push(c), cursor, m) == (cursor_after(cs, cursor) <= c.old_start
            && c.old_start + c.removed_count <= m),
        cursor_after(cs.push(c), cursor) == c.old_start + c.removed_count,
    decreases cs.len(),
{
    let p = cs.push(c);
    if cs.len() == 0 {
        assert(p[0] == c);
        assert(p.drop_first() =~= Seq::<Change>::empty());
        assert(cursor_after(p.drop_first(), c.old_start + c.removed_count) == c.old_start
            + c.removed_count);
        assert(check_changes(p.drop_first(), c.old_start + c.removed_count, m)
            == ApplyCheck::Fine);
    } else {
        assert(p[0] == cs[0]);
        assert(p.drop_first() =~= cs.drop_first().push(c));
        lemma_in_order_push(cs.drop_first(), c, cs[0].old_start + cs[0].removed_count, m);
    }
}

/// The payloads of every change are the literal lines of the region it names.
pub open spec fn changes_carry_lines(
    old: Seq<Seq<char>>,
    new: Seq<Seq<char>>,
    cs: Seq<Change>,
) -> bool {
    forall|i: int|
        0 <= i < cs.len() ==> {
            &&& change_wf(#[trigger] cs[i])
            &&& 0 <= cs[i].old_start && cs[i].old_start + cs[i].removed_count <= old.len()
            &&& 0 <= cs[i].new_start && cs[i].new_start + cs[i].added_count <= new.len()
            &&& line_views(cs[i].removed_lines@) == old.subrange(
                cs[i].old_start as int,
                cs[i].old_start + cs[i].removed_count,
            )
            &&& line_views(cs[i].added_lines@) == new.subrange(
                cs[i].new_start as int,
                cs[i].new_start + cs[i].added_count,
            )
        }
}

/// Builds the changes between the two sequences from the picked blocks: one
/// change for each gap before, between or after the blocks that is non-empty
/// in either coordinate. The result is in order, carries the literal lines of
/// each region, and — the round-trip property — replaying it against the old
/// sequence yields the new one.
pub(crate) fn build_changes(
    old_lines: &Vec<String>,
    new_lines: &Vec<String>,
    picked: &Vec<Block>,
) -> (cs: Vec<Change>)
    requires
        all_blocks_valid(line_views(old_lines@), line_views(new_lines@), picked@),
        blocks_dominance_sorted(picked@),
    ensures
        change_models(cs@) == gap_deltas(
            picked@,
            0,
            0,
            old_lines@.len() as int,
            new_lines@.len() as int,
        ),
        changes_carry_lines(line_views(old_lines@), line_views(new_lines@), cs@),
        changes_in_order_from(cs@, 0, old_lines@.len() as int),
        apply_changes_from(line_views(old_lines@), cs@, 0) == line_views(new_lines@),
{
    let ghost odv = line_views(old_lines@);
    let ghost ndv = line_views(new_lines@);
    let m = old_lines.len();
    let n = new_lines.len();
    let mut cs: Vec<Change> = Vec::new();
    let mut po: usize = 0;
    let mut pn: usize = 0;
    let mut i: usize = 0;
    proof {
        assert(change_models(cs@) =~= Seq::<DeltaModel>::empty());
        assert(picked@.skip(0) =~= picked@);
        assert(replay_out(odv, cs@, 0) + odv.subrange(0, 0) =~= ndv.subrange(0, 0));
    }
    while i < picked.len()
        invariant
            odv == line_views(old_lines@),
            ndv == line_views(new_lines@),
            m == old_lines@.len(),
            n == new_lines@.len(),
            all_blocks_valid(odv, ndv, picked@),
            blocks_dominance_sorted(picked@),
            i <= picked@.len(),
            po <= m,
            pn <= n,
            i < picked@.len() ==> po <= picked@[i as int].old_start && pn <= picked@[
                i as int
            ].new_start,
            0 <= cursor_after(cs@, 0) <= po,
            changes_in_order_from(cs@, 0, m as int),
            replay_out(odv, cs@, 0) + odv.subrange(cursor_after(cs@, 0), po as int)
                == ndv.subrange(0, pn as int),
            gap_deltas(picked@, 0, 0, m as int, n as int) == change_models(cs@) + gap_deltas(
                picked@.skip(i as int),
                po as int,
                pn as int,
                m as int,
                n as int,
            ),
            changes_carry_lines(odv, ndv, cs@),
        decreases picked@.len() - i,
    {
        let b = picked[i];
        proof {
            assert(crate::block::block_valid(odv, ndv, picked@[i as int]));
            assert(picked@.skip(i as int)[0] == picked@[i as int]);
            assert(picked@.skip(i as int).drop_first() =~= picked@.skip(i as int + 1));
        }
        let ghost pre = cs@;
        if po < b.old_start || pn < b.new_start {
            let removed_lines = copy_range(old_lines, po, b.old_start);
            let added_lines = copy_range(new_lines, pn, b.new_start);
            let c = Change {
                old_start: po,
                removed_count: b.old_start - po,
                new_start: pn,
                added_count: b.new_start - pn,
                removed_lines,
                added_lines,
            };
            proof {
                lemma_in_order_push(cs@, c, 0, m as int);
                lemma_replay_push(odv, cs@, c, 0);
            }
            cs.push(c);
            proof {
                let ca = cursor_after(pre, 0);
                assert(change_models(cs@) =~= change_models(pre).push(change_model(c)));
                assert((change_models(pre) + gap_deltas(picked@.skip(i as int), po as int,
                pn as int, m as int, n as int)) =~= change_models(cs@) + gap_deltas(
                    picked@.skip(i as int + 1),
                    b.old_end(),
                    b.new_end(),
                    m as int,
                    n as int,
                ));
                assert(replay_out(odv, cs@, 0) =~= (replay_out(odv, pre, 0) + odv.subrange(
                    ca,
                    po as int,
                )) + ndv.subrange(pn as int, b.new_start as int));
                assert(replay_out(odv, cs@, 0) =~= ndv.subrange(0, b.new_start as int));
                assert(replay_out(odv, cs@, 0) + odv.subrange(
                    cursor_after(cs@, 0),
                    b.old_start as int,
                ) =~= ndv.subrange(0, b.new_start as int));
                assert(changes_carry_lines(odv, ndv, cs@)) by {
                    assert forall|t: int| 0 <= t < cs@.len() implies {
                        &&& change_wf(#[trigger] cs@[t])
                        &&& 0 <= cs@[t].old_start && cs@[t].old_start + cs@[t].removed_count
                            <= odv.len()
                        &&& 0 <= cs@[t].new_start && cs@[t].new_start + cs@[t].added_count
                            <= ndv.len()
                        &&& line_views(cs@[t].removed_lines@) == odv.subrange(
                            cs@[t].old_start as int,
                            cs@[t].old_start + cs@[t].removed_count,
                        )
                        &&& line_views(cs@[t].added_lines@) == ndv.subrange(
                            cs@[t].new_start as int,
                            cs@[t].new_start + cs@[t].added_count,
                        )
                    } by {
                        if t < pre.len() {
                            assert(cs@[t] == pre[t]);
                        } else {
                            assert(cs@[t] == c);
                        }
                    }
                }
            }
        }
        proof {
            // both branches now stand just before the block: the replayed
            // output is the new prefix up to its start
            let ca = cursor_after(cs@, 0);
            assert(ca <= b.old_start as int);
            assert(replay_out(odv, cs@, 0) + odv.subrange(ca, b.old_start as int) == ndv.subrange(
                0,
                b.new_start as int,
            ));
            // the block itself copies identical content on both sides
            assert(odv.subrange(b.old_start as int, b.old_end()) =~= ndv.subrange(
                b.new_start as int,
                b.new_end(),
            )) by {
                assert forall|k: int| 0 <= k < b.len implies odv.subrange(
                    b.old_start as int,
                    b.old_end(),
                )[k] == ndv.subrange(b.new_start as int, b.new_end())[k] by {
                    assert(odv[b.old_start + k] == ndv[b.old_start + k - b.old_start
                        + b.new_start]);
                }
            }
            assert(odv.subrange(ca, b.old_end()) =~= odv.subrange(ca, b.old_start as int)
                + odv.subrange(b.old_start as int, b.old_end()));
            assert(replay_out(odv, cs@, 0) + odv.subrange(ca, b.old_end()) =~= (replay_out(
                odv,
                cs@,
                0,
            ) + odv.subrange(ca, b.old_start as int)) + odv.subrange(
                b.old_start as int,
                b.old_end(),
            ));
            assert(ndv.subrange(0, b.new_start as int) + ndv.subrange(
                b.new_start as int,
                b.new_end(),
            ) =~= ndv.subrange(0, b.new_end()));
            assert(replay_out(odv, cs@, 0) + odv.subrange(ca, b.old_end()) == ndv.subrange(
                0,
                b.new_end(),
            ));
        }
        po = b.old_start + b.len;
        pn = b.new_start + b.len;
        i = i + 1;
        proof {
            if i < picked@.len() {
                assert(crate::select::dominates(picked@[i - 1], picked@[i as int]));
            }
        }
    }
    proof {
        assert(picked@.skip(i as int) =~= Seq::<Block>::empty());
    }
    if po < m || pn < n {
        let removed_lines = copy_range(old_lines, po, m);
        let added_lines = copy_range(new_lines, pn, n);
        let c = Change {
            old_start: po,
            removed_count: m - po,
            new_start: pn,
            added_count: n - pn,
            removed_lines,
            added_lines,
        };
        let ghost pre = cs@;
        proof {
            lemma_in_order_push(cs@, c, 0, m as int);
            lemma_replay_push(odv, cs@, c, 0);
        }
        cs.push(c);
        proof {
            let ca = cursor_after(pre, 0);
            assert(change_models(cs@) =~= change_models(pre).push(change_model(c)));
            assert((change_models(pre) + gap_deltas(picked@.skip(i as int), po as int, pn as int,
            m as int, n as int)) =~= change_models(cs@));
            assert(replay_out(odv, cs@, 0) =~= (replay_out(odv, pre, 0) + odv.subrange(
                ca,
                po as int,
            )) + ndv.subrange(pn as int, n as int));
            assert(replay_out(odv, cs@, 0) =~= ndv.subrange(0, n as int));
            assert(changes_carry_lines(odv, ndv, cs@)) by {
                assert forall|t: int| 0 <= t < cs@.len() implies {
                    &&& change_wf(#[trigger] cs@[t])
                    &&& 0 <= cs@[t].old_start && cs@[t].old_start + cs@[t].removed_count
                        <= odv.len()
                    &&& 0 <= cs@[t].new_start && cs@[t].new_start + cs@[t].added_count <= ndv.len()
                    &&& line_views(cs@[t].removed_lines@) == odv.subrange(
                        cs@[t].old_start as int,
                        cs@[t].old_start + cs@[t].removed_count,
                    )
                    &&& line_views(cs@[t].added_lines@) == ndv.subrange(
                        cs@[t].new_start as int,
                        cs@[t].new_start + cs@[t].added_count,
                    )
                } by {
                    if t < pre.len() {
                        assert(cs@[t] == pre[t]);
                    } else {
                        assert(cs@[t] == c);
                    }
                }
            }
            lemma_apply_is_replay(odv, cs@, 0);
            assert(odv.subrange(m as int, m as int) =~= Seq::<Seq<char>>::empty());
            assert(replay_out(odv, cs@, 0) + odv.subrange(m as int, m as int) =~= replay_out(
                odv,
                cs@,
                0,
            ));
            assert(ndv.subrange(0, n as int) =~= ndv);
        }
    } else {
        proof {
            assert(change_models(cs@) + gap_deltas(picked@.skip(i as int), po as int, pn as int,
            m as int, n as int) =~= change_models(cs@));
            lemma_apply_is_replay(odv, cs@, 0);
            let ca = cursor_after(cs@, 0);
            assert(apply_changes_from(odv, cs@, 0) =~= replay_out(odv, cs@, 0) + odv.subrange(
                ca,
                m as int,
            ));
            assert(ndv.subrange(0, n as int) =~= ndv);
        }
    }
    cs
}

/// Replays an ordered patch against the old sequence: copies unchanged lines,
/// splices in each change's added lines, and skips each change's removed
/// region. Fails, without producing output, on the first change that is out
/// of order or out of bounds.
pub(crate) fn apply_changes(old_lines: &Vec<String>, cs: &Vec<Change>) -> (r: Result<
    Vec<String>,
    crate::errors::PatchApplyError,
>)
    ensures
        (r is Ok) == (check_changes(cs@, 0, old_lines@.len() as int) is Fine),
        (r == Result::<Vec<String>, crate::errors::PatchApplyError>::Err(
            crate::errors::PatchApplyError::OutOfOrder,
        )) == (check_changes(cs@, 0, old_lines@.len() as int) is Order),
        (r == Result::<Vec<String>, crate::errors::PatchApplyError>::Err(
            crate::errors::PatchApplyError::OutOfBounds,
        )) == (check_changes(cs@, 0, old_lines@.len() as int) is Bounds),
        r matches Ok(v) ==> line_views(v@) == apply_changes_from(
            line_views(old_lines@),
            cs@,
            0,
        ),
{
    let ghost odv = line_views(old_lines@);
    let m = old_lines.len();
    let mut out: Vec<String> = Vec::new();
    let mut cur: usize = 0;
    let mut i: usize = 0;
    proof {
        assert(cs@.skip(0) =~= cs@);
        assert(line_views(out@) + apply_changes_from(odv, cs@, 0) =~= apply_changes_from(
            odv,
            cs@,
            0,
        ));
    }
    while i < cs.len()
        invariant
            odv == line_views(old_lines@),
            m == old_lines@.len(),
            i <= cs@.len(),
            cur <= m,
            check_changes(cs@, 0, m as int) == check_changes(cs@.skip(i as int), cur as int,
            m as int),
            line_views(out@) + apply_changes_from(odv, cs@.skip(i as int), cur as int)
                == apply_changes_from(odv, cs@, 0),
        decreases cs@.len() - i,
    {
        proof {
            assert(cs@.skip(i as int)[0] == cs@[i as int]);
            assert(cs@.skip(i as int).drop_first() =~= cs@.skip(i as int + 1));
        }
        let c_old_start = cs[i].old_start;
        let c_removed = cs[i].removed_count;
        if c_old_start < cur {
            return Err(crate::errors::PatchApplyError::OutOfOrder);
        }
        if c_old_start > m || c_removed > m - c_old_start {
            return Err(crate::errors::PatchApplyError::OutOfBounds);
        }
        let ghost out_pre = out@;
        append_range(&mut out, old_lines, cur, c_old_start);
        let ghost out_mid = out@;
        append_range_of(&mut out, &cs[i]);
        proof {
            assert(line_views(out_mid) =~= line_views(out_pre) + odv.subrange(
                cur as int,
                c_old_start as int,
            ));
            assert(line_views(out@) =~= line_views(out_mid) + line_views(
                cs@[i as int].added_lines@,
            ));
            assert(line_views(out@) + apply_changes_from(odv, cs@.skip(i as int + 1), c_old_start
                + c_removed) =~= line_views(out_pre) + (odv.subrange(cur as int, c_old_start as int)
                + line_views(cs@[i as int].added_lines@) + apply_changes_from(
                odv,
                cs@.skip(i as int + 1),
                c_old_start + c_removed,
            )));
        }
        cur = c_old_start + c_removed;
        i = i + 1;
    }
    proof {
        assert(cs@.skip(i as int) =~= Seq::<Change>::empty());
    }
    let ghost out_pre = out@;
    append_range(&mut out, old_lines, cur, m);
    proof {
        assert(line_views(out@) =~= line_views(out_pre) + odv.subrange(cur as int, m as int));
    }
    Ok(out)
}

/// Appends a change's added lines to the output.
fn append_range_of(dst: &mut Vec<String>, c: &Change)
    ensures
        line_views(final(dst)@) == line_views(old(dst)@) + line_views(c.added_lines@),
{
    let len = c.added_lines.len();
    append_range(dst, &c.added_lines, 0, len);
    proof {
        assert(line_views(c.added_lines@).subrange(0, c.added_lines@.len() as int) =~= line_views(
            c.added_lines@,
        ));
    }
}


/// Some block of `bs` covers the old-sequence index `x`.
pub open spec fn in_block_old(bs: Seq<Block>, x: int) -> bool {
    exists|t: int| 0 <= t < bs.len() && (#[trigger] bs[t]).old_start <= x < bs[t].old_end()
}

/// Some block of `bs` covers the new-sequence index `x`.
pub open spec fn in_block_new(bs: Seq<Block>, x: int) -> bool {
    exists|t: int| 0 <= t < bs.len() && (#[trigger] bs[t]).new_start <= x < bs[t].new_end()
}

/// Some delta of `ds` removes the old-sequence index `x`.
pub open spec fn in_delta_old(ds: Seq<DeltaModel>, x: int) -> bool {
    exists|t: int|
        0 <= t < ds.len() && (#[trigger] ds[t]).old_start <= x < ds[t].old_start + ds[t].removed
}

/// Some delta of `ds` adds the new-sequence index `x`.
pub open spec fn in_delta_new(ds: Seq<DeltaModel>, x: int) -> bool {
    exists|t: int|
        0 <= t < ds.len() && (#[trigger] ds[t]).new_start <= x < ds[t].new_start + ds[t].added
}

/// The blocks are non-empty, lie within the two sequences, and each ends, in
/// both coordinates, no later than the next begins.
spec fn blocks_geometry(bs: Seq<Block>, m: int, n: int) -> bool {
    &&& forall|t: int|
        0 <= t < bs.len() ==> (#[trigger] bs[t]).len >= 1 && bs[t].old_end() <= m
            && bs[t].new_end() <= n
    &&& blocks_dominance_sorted(bs)
}

proof fn lemma_partition_from(bs: Seq<Block>, po: int, pn: int, m: int, n: int)
    requires
        0 <= po <= m,
        0 <= pn <= n,
        bs.len() > 0 ==> po <= bs[0].old_start && pn <= bs[0].new_start,
        blocks_geometry(bs, m, n),
    ensures
        forall|x: int|
            po <= x < m ==> (in_block_old(bs, x) <==> !in_delta_old(
                gap_deltas(bs, po, pn, m, n),
                x,
            )),
        forall|x: int|
            pn <= x < n ==> (in_block_new(bs, x) <==> !in_delta_new(
                gap_deltas(bs, po, pn, m, n),
                x,
            )),
        forall|t: int|
            0 <= t < gap_deltas(bs, po, pn, m, n).len() ==> {
                let d = #[trigger] gap_deltas(bs, po, pn, m, n)[t];
                po <= d.old_start && d.old_start + d.removed <= m && d.removed >= 0 && pn
                    <= d.new_start && d.new_start + d.added <= n && d.added >= 0
            },
        forall|t1: int, t2: int|
            0 <= t1 < t2 < gap_deltas(bs, po, pn, m, n).len() ==> {
                let d1 = #[trigger] gap_deltas(bs, po, pn, m, n)[t1];
                let d2 = #[trigger] gap_deltas(bs, po, pn, m, n)[t2];
                d1.old_start + d1.removed <= d2.old_start && d1.new_start + d1.added
                    <= d2.new_start
            },
    decreases bs.len(),
{
    let ds = gap_deltas(bs, po, pn, m, n);
    if bs.len() == 0 {
        assert forall|x: int| po <= x < m implies (in_block_old(bs, x) <==> !in_delta_old(
            ds,
            x,
        )) by {
            assert(!in_block_old(bs, x));
            assert(po < m);
            assert(ds[0].old_start <= x < ds[0].old_start + ds[0].removed);
        }
        assert forall|x: int| pn <= x < n implies (in_block_new(bs, x) <==> !in_delta_new(
            ds,
            x,
        )) by {
            assert(!in_block_new(bs, x));
            assert(pn < n);
            assert(ds[0].new_start <= x < ds[0].new_start + ds[0].added);
        }
    } else {
        let b = bs[0];
        let bs2 = bs.drop_first();
        let d2 = gap_deltas(bs2, b.old_end(), b.new_end(), m, n);
        assert(forall|t: int| 0 <= t < bs2.len() ==> #[trigger] bs2[t] == bs[t + 1]);
        if bs2.len() > 0 {
            assert(crate::select::dominates(bs[0], bs[1]));
        }
        lemma_partition_from(bs2, b.old_end(), b.new_end(), m, n);
        let has_gap = po < b.old_start || pn < b.new_start;
        assert forall|x: int| po <= x < m implies (in_block_old(bs, x) <==> !in_delta_old(
            ds,
            x,
        )) by {
            if x < b.old_start {
                assert(po < b.old_start);
                assert(ds[0].old_start <= x < ds[0].old_start + ds[0].removed);
                assert(in_delta_old(ds, x));
                if in_block_old(bs, x) {
                    let t = choose|t: int|
                        0 <= t < bs.len() && (#[trigger] bs[t]).old_start <= x < bs[t].old_end();
                    if t > 0 {
                        assert(crate::select::dominates(bs[0], bs[t]));
                    }
                    assert(false);
                }
            } else if x < b.old_end() {
                assert(in_block_old(bs, x));
                if in_delta_old(ds, x) {
                    let t = choose|t: int|
                        0 <= t < ds.len() && (#[trigger] ds[t]).old_start <= x < ds[t].old_start
                            + ds[t].removed;
                    if has_gap {
                        if t > 0 {
                            assert(ds[t] == d2[t - 1]);
                            assert(b.old_end() <= ds[t].old_start);
                        }
                    } else {
                        assert(ds[t] == d2[t]);
                        assert(b.old_end() <= ds[t].old_start);
                    }
                    assert(false);
                }
            } else {
                assert(in_block_old(bs2, x) <==> !in_delta_old(d2, x));
                if in_block_old(bs2, x) {
                    let t = choose|t: int|
                        0 <= t < bs2.len() && (#[trigger] bs2[t]).old_start <= x < bs2[
                            t
                        ].old_end();
                    assert(bs[t + 1].old_start <= x < bs[t + 1].old_end());
                    assert(in_block_old(bs, x));
                } else {
                    assert(in_delta_old(d2, x));
                    let t = choose|t: int|
                        0 <= t < d2.len() && (#[trigger] d2[t]).old_start <= x < d2[t].old_start
                            + d2[t].removed;
                    let off: int = if has_gap {
                        1
                    } else {
                        0
                    };
                    assert(ds[t + off] == d2[t]);
                    assert(in_delta_old(ds, x));
                    if in_block_old(bs, x) {
                        let q = choose|q: int|
                            0 <= q < bs.len() && (#[trigger] bs[q]).old_start <= x < bs[
                                q
                            ].old_end();
                        assert(q > 0);
                        assert(bs2[q - 1].old_start <= x < bs2[q - 1].old_end());
                        assert(false);
                    }
                }
                if in_delta_old(ds, x) && in_block_old(bs, x) {
                    let t = choose|t: int|
                        0 <= t < ds.len() && (#[trigger] ds[t]).old_start <= x < ds[t].old_start
                            + ds[t].removed;
                    if has_gap && t == 0 {
                        assert(x < b.old_start);
                        assert(false);
                    } else {
                        let off: int = if has_gap {
                            1
                        } else {
                            0
                        };
                        assert(ds[t] == d2[t - off]);
                        assert(in_delta_old(d2, x));
                        assert(false);
                    }
                }
            }
        }
        assert forall|x: int| pn <= x < n implies (in_block_new(bs, x) <==> !in_delta_new(
            ds,
            x,
        )) by {
            if x < b.new_start {
                assert(pn < b.new_start);
                assert(ds[0].new_start <= x < ds[0].new_start + ds[0].added);
                assert(in_delta_new(ds, x));
                if in_block_new(bs, x) {
                    let t = choose|t: int|
                        0 <= t < bs.len() && (#[trigger] bs[t]).new_start <= x < bs[t].new_end();
                    if t > 0 {
                        assert(crate::select::dominates(bs[0], bs[t]));
                    }
                    assert(false);
                }
            } else if x < b.new_end() {
                assert(in_block_new(bs, x));
                if in_delta_new(ds, x) {
                    let t = choose|t: int|
                        0 <= t < ds.len() && (#[trigger] ds[t]).new_start <= x < ds[t].new_start
                            + ds[t].added;
                    if has_gap {
                        if t > 0 {
                            assert(ds[t] == d2[t - 1]);
                            assert(b.new_end() <= ds[t].new_start);
                        }
                    } else {
                        assert(ds[t] == d2[t]);
                        assert(b.new_end() <= ds[t].new_start);
                    }
                    assert(false);
                }
            } else {
                assert(in_block_new(bs2, x) <==> !in_delta_new(d2, x));
                if in_block_new(bs2, x) {
                    let t = choose|t: int|
                        0 <= t < bs2.len() && (#[trigger] bs2[t]).new_start <= x < bs2[
                            t
                        ].new_end();
                    assert(bs[t + 1].new_start <= x < bs[t + 1].new_end());
                    assert(in_block_new(bs, x));
                } else {
                    assert(in_delta_new(d2, x));
                    let t = choose|t: int|
                        0 <= t < d2.len() && (#[trigger] d2[t]).new_start <= x < d2[t].new_start
                            + d2[t].added;
                    let off: int = if has_gap {
                        1
                    } else {
                        0
                    };
                    assert(ds[t + off] == d2[t]);
                    assert(in_delta_new(ds, x));
                    if in_block_new(bs, x) {
                        let q = choose|q: int|
                            0 <= q < bs.len() && (#[trigger] bs[q]).new_start <= x < bs[
                                q
                            ].new_end();
                        assert(q > 0);
                        assert(bs2[q - 1].new_start <= x < bs2[q - 1].new_end());
                        assert(false);
                    }
                }
                if in_delta_new(ds, x) && in_block_new(bs, x) {
                    let t = choose|t: int|
                        0 <= t < ds.len() && (#[trigger] ds[t]).new_start <= x < ds[t].new_start
                            + ds[t].added;
                    if has_gap && t == 0 {
                        assert(x < b.new_start);
                        assert(false);
                    } else {
                        let off: int = if has_gap {
                            1
                        } else {
                            0
                        };
                        assert(ds[t] == d2[t - off]);
                        assert(in_delta_new(d2, x));
                        assert(false);
                    }
                }
            }
        }
    }
}

/// The partition property: the picked blocks of a pair of sequences and the
/// deltas derived from them cover every line index of the old sequence
/// exactly once, and every line index of the new sequence exactly once —
/// every index lies in a block or in a delta, never in both, and blocks as
/// well as deltas are pairwise disjoint.
pub proof fn lemma_partition(old: Seq<Seq<char>>, new: Seq<Seq<char>>, bs: Seq<Block>)
    requires
        all_blocks_valid(old, new, bs),
        blocks_dominance_sorted(bs),
    ensures
        forall|x: int|
            0 <= x < old.len() ==> (in_block_old(bs, x) <==> !in_delta_old(
                gap_deltas(bs, 0, 0, old.len() as int, new.len() as int),
                x,
            )),
        forall|x: int|
            0 <= x < new.len() ==> (in_block_new(bs, x) <==> !in_delta_new(
                gap_deltas(bs, 0, 0, old.len() as int, new.len() as int),
                x,
            )),
        forall|t1: int, t2: int|
            0 <= t1 < t2 < bs.len() ==> bs[t1].old_end() <= bs[t2].old_start && bs[t1].new_end()
                <= bs[t2].new_start,
        forall|t1: int, t2: int|
            0 <= t1 < t2 < gap_deltas(bs, 0, 0, old.len() as int, new.len() as int).len() ==> {
                let d1 = #[trigger] gap_deltas(bs, 0, 0, old.len() as int, new.len() as int)[t1];
                let d2 = #[trigger] gap_deltas(bs, 0, 0, old.len() as int, new.len() as int)[t2];
                d1.old_start + d1.removed <= d2.old_start && d1.new_start + d1.added
                    <= d2.new_start
            },
{
    let m = old.len() as int;
    let n = new.len() as int;
    assert forall|t: int| 0 <= t < bs.len() implies (#[trigger] bs[t]).len >= 1 && bs[t].old_end()
        <= m && bs[t].new_end() <= n by {
        assert(crate::block::block_valid(old, new, bs[t]));
    }
    if bs.len() > 0 {
        assert(bs[0].len >= 1);
        assert(bs[0].old_start >= 0 && bs[0].new_start >= 0);
    }
    lemma_partition_from(bs, 0, 0, m, n);
}

} // verus!
