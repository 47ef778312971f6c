//! Blocks: runs of identical lines shared between the old and the new
//! sequence, and the matcher that finds all maximal such runs.

use vstd::prelude::*;

use crate::lines::line_views;
verus! {

/// A run of `len` lines that is identical between the old and the new
/// sequence: `old[old_start + k] == new[new_start + k]` for every `k < len`.
#[derive(Clone, Copy, Debug)]
pub struct Block {
    /// Index of the first line of the run in the old sequence.
    pub old_start: usize,
    /// Index of the first line of the run in the new sequence.
    pub new_start: usize,
    /// Number of lines in the run.
    pub len: usize,
}

impl Block {
    /// One past the last old-sequence index of the run.
    pub open spec fn old_end(self) -> int {
        self.old_start + self.len
    }

    /// One past the last new-sequence index of the run.
    pub open spec fn new_end(self) -> int {
        self.new_start + self.len
    }
}

/// The run lies inside an old sequence of `m` lines and a new one of `n`.
pub open spec fn block_in_bounds(b: Block, m: int, n: int) -> bool {
    &&& b.old_end() <= m
    &&& b.new_end() <= n
}

/// Every line of the run is identical between the two sequences.
pub open spec fn block_matches(old: Seq<Seq<char>>, new: Seq<Seq<char>>, b: Block) -> bool {
    &&& block_in_bounds(b, old.len() as int, new.len() as int)
    &&& forall|i: int|
        b.old_start <= i < b.old_end() ==> #[trigger] old[i] == new[i - b.old_start + b.new_start]
}

/// A non-empty matching run.
pub open spec fn block_valid(old: Seq<Seq<char>>, new: Seq<Seq<char>>, b: Block) -> bool {
    &&& b.len >= 1
    &&& block_matches(old, new, b)
}

/// A matching run that cannot be extended by one line in either direction.
pub open spec fn block_maximal(old: Seq<Seq<char>>, new: Seq<Seq<char>>, b: Block) -> bool {
    &&& block_valid(old, new, b)
    &&& (b.old_start == 0 || b.new_start == 0 || old[b.old_start - 1] != new[b.new_start - 1])
    &&& (b.old_end() == old.len() || b.new_end() == new.len() || old[b.old_end()] != new[
        b.new_end()
    ])
}

/// All blocks of `bs` are valid matching runs for `(old, new)`.
pub open spec fn all_blocks_valid(old: Seq<Seq<char>>, new: Seq<Seq<char>>, bs: Seq<Block>) -> bool {
    forall|i: int| 0 <= i < bs.len() ==> block_valid(old, new, #[trigger] bs[i])
}

/// The pair of line indices `(i, j)` lies on block `b`'s diagonal and inside
/// its extent.
pub open spec fn covers_pair(b: Block, i: int, j: int) -> bool {
    &&& b.old_start <= i < b.old_end()
    &&& j - i == b.new_start - b.old_start
}

/// Some block of `bs` covers the pair of line indices `(i, j)`.
pub open spec fn pair_covered(bs: Seq<Block>, i: int, j: int) -> bool {
    exists|t: int| 0 <= t < bs.len() && covers_pair(#[trigger] bs[t], i, j)
}

/// `bs` accounts for every pair of identical lines: whenever `old[i] == new[j]`,
/// some block of `bs` covers `(i, j)`.
pub open spec fn match_complete(old: Seq<Seq<char>>, new: Seq<Seq<char>>, bs: Seq<Block>) -> bool {
    forall|i: int, j: int|
        0 <= i < old.len() && 0 <= j < new.len() && old[i] == new[j] ==> pair_covered(bs, i, j)
}

/// `bs` is exactly the set of shared runs of `(old, new)`: each of its blocks
/// is a maximal matching run, and every matching pair of lines is covered.
pub open spec fn is_match_candidates(
    old: Seq<Seq<char>>,
    new: Seq<Seq<char>>,
    bs: Seq<Block>,
) -> bool {
    &&& forall|i: int| 0 <= i < bs.len() ==> block_maximal(old, new, #[trigger] bs[i])
    &&& match_complete(old, new, bs)
}

/// Compares two lines; equality of the views is what every contract of this
/// crate speaks about.
pub(crate) fn line_eq(a: &String, b: &String) -> (r: bool)
    ensures
        r == (a@ == b@),
{
    a.eq(b)
}

/// Coverage of a pair survives extending the block list at the end.
pub proof fn lemma_covered_extend(bs1: Seq<Block>, bs2: Seq<Block>, i: int, j: int)
    requires
        bs1.len() <= bs2.len(),
        forall|t: int| 0 <= t < bs1.len() ==> bs2[t] == bs1[t],
        pair_covered(bs1, i, j),
    ensures
        pair_covered(bs2, i, j),
{
    let t = choose|t: int| 0 <= t < bs1.len() && covers_pair(#[trigger] bs1[t], i, j);
    assert(covers_pair(bs2[t], i, j));
}

/// Scans one diagonal: compares `old_lines[d_old + k]` with
/// `new_lines[d_new + k]` for every `k` the two sequences allow, and appends
/// each maximal run of equal lines to `out`.
fn scan_diagonal(
    old_lines: &Vec<String>,
    new_lines: &Vec<String>,
    d_old: usize,
    d_new: usize,
    out: &mut Vec<Block>,
)
    requires
        d_old == 0 || d_new == 0,
        d_old <= old_lines@.len(),
        d_new <= new_lines@.len(),
    ensures
        old(out)@.len() <= final(out)@.len(),
        forall|t: int| 0 <= t < old(out)@.len() ==> final(out)@[t] == old(out)@[t],
        forall|t: int|
            old(out)@.len() <= t < final(out)@.len() ==> block_maximal(
                line_views(old_lines@),
                line_views(new_lines@),
                #[trigger] final(out)@[t],
            ),
        forall|k: int|
            0 <= k && d_old + k < old_lines@.len() && d_new + k < new_lines@.len()
                && #[trigger] line_views(old_lines@)[d_old + k] == line_views(new_lines@)[d_new + k]
                ==> pair_covered(final(out)@, d_old + k, d_new + k),
{
    let ghost odv = line_views(old_lines@);
    let ghost ndv = line_views(new_lines@);
    let m = old_lines.len();
    let n = new_lines.len();
    let limit: usize = if m - d_old <= n - d_new {
        m - d_old
    } else {
        n - d_new
    };
    let ghost out0 = out@;
    let mut k: usize = 0;
    let mut run: usize = 0;
    while k < limit
        invariant
            run <= k <= limit,
            d_old == 0 || d_new == 0,
            d_old + limit <= m,
            d_new + limit <= n,
            d_old + limit == m || d_new + limit == n,
            m == old_lines@.len(),
            n == new_lines@.len(),
            odv == line_views(old_lines@),
            ndv == line_views(new_lines@),
            out0.len() <= out@.len(),
            forall|t: int| 0 <= t < out0.len() ==> out@[t] == out0[t],
            forall|t: int|
                out0.len() <= t < out@.len() ==> block_maximal(odv, ndv, #[trigger] out@[t]),
            forall|q: int|
                0 <= q < k - run && #[trigger] odv[d_old + q] == ndv[d_new + q] ==> pair_covered(
                    out@,
                    d_old + q,
                    d_new + q,
                ),
            forall|q: int| k - run <= q < k ==> #[trigger] odv[d_old + q] == ndv[d_new + q],
            run > 0 ==> (k == run || odv[d_old + (k - run) - 1] != ndv[d_new + (k - run) - 1]),
            run == 0 && k > 0 ==> odv[d_old + k - 1] != ndv[d_new + k - 1],
        decreases limit - k,
    {
        proof {
            assert(odv[d_old + k as int] == old_lines@[d_old + k as int]@);
            assert(ndv[d_new + k as int] == new_lines@[d_new + k as int]@);
        }
        if line_eq(&old_lines[d_old + k], &new_lines[d_new + k]) {
            run = run + 1;
        } else {
            if run > 0 {
                let b = Block { old_start: d_old + k - run, new_start: d_new + k - run, len: run };
                let ghost pre = out@;
                out.push(b);
                proof {
                    assert(block_maximal(odv, ndv, b)) by {
                        assert forall|i: int| b.old_start <= i < b.old_end() implies #[trigger] odv[i]
                            == ndv[i - b.old_start + b.new_start] by {
                            let q = i - d_old;
                            assert(k - run <= q < k);
                            assert(odv[d_old + q] == ndv[d_new + q]);
                        }
                    }
                    assert forall|q: int|
                        0 <= q < (k + 1) - 0 && #[trigger] odv[d_old + q] == ndv[d_new
                            + q] implies pair_covered(out@, d_old + q, d_new + q) by {
                        if q < k - run {
                            lemma_covered_extend(pre, out@, d_old + q, d_new + q);
                        } else if q < k {
                            assert(covers_pair(out@[pre.len() as int], d_old + q, d_new + q));
                        } else {
                            assert(q == k);
                            assert(false);
                        }
                    }
                }
                run = 0;
            }
        }
        k = k + 1;
    }
    if run > 0 {
        let b = Block { old_start: d_old + limit - run, new_start: d_new + limit - run, len: run };
        let ghost pre = out@;
        out.push(b);
        proof {
            assert(block_maximal(odv, ndv, b)) by {
                assert forall|i: int| b.old_start <= i < b.old_end() implies #[trigger] odv[i]
                    == ndv[i - b.old_start + b.new_start] by {
                    let q = i - d_old;
                    assert(limit - run <= q < limit);
                    assert(odv[d_old + q] == ndv[d_new + q]);
                }
                assert(b.old_end() == old_lines@.len() || b.new_end() == new_lines@.len());
            }
            assert forall|q: int|
                0 <= q < limit && #[trigger] odv[d_old + q] == ndv[d_new + q] implies pair_covered(
                out@,
                d_old + q,
                d_new + q,
            ) by {
                if q < limit - run {
                    lemma_covered_extend(pre, out@, d_old + q, d_new + q);
                } else {
                    assert(covers_pair(out@[pre.len() as int], d_old + q, d_new + q));
                }
            }
        }
    }
    proof {
        assert forall|k2: int|
            0 <= k2 && d_old + k2 < old_lines@.len() && d_new + k2 < new_lines@.len()
                && #[trigger] odv[d_old + k2] == ndv[d_new + k2] implies pair_covered(
            out@,
            d_old + k2,
            d_new + k2,
        ) by {
            assert(k2 < limit);
        }
    }
}

/// Finds every maximal run of identical lines shared between the two
/// sequences, scanning one diagonal (one fixed offset between old and new
/// indices) at a time.
pub(crate) fn find_blocks(old_lines: &Vec<String>, new_lines: &Vec<String>) -> (out: Vec<Block>)
    ensures
        is_match_candidates(line_views(old_lines@), line_views(new_lines@), out@),
{
    let ghost odv = line_views(old_lines@);
    let ghost ndv = line_views(new_lines@);
    let m = old_lines.len();
    let n = new_lines.len();
    let mut out: Vec<Block> = Vec::new();
    let mut d: usize = 0;
    while d < n
        invariant
            d <= n,
            m == old_lines@.len(),
            n == new_lines@.len(),
            odv == line_views(old_lines@),
            ndv == line_views(new_lines@),
            forall|t: int| 0 <= t < out@.len() ==> block_maximal(odv, ndv, #[trigger] out@[t]),
            forall|i: int, j: int|
                0 <= i < m && 0 <= j < n && #[trigger] odv[i] == #[trigger] ndv[j] && 0 <= j - i < d
                    ==> pair_covered(out@, i, j),
        decreases n - d,
    {
        let ghost pre = out@;
        scan_diagonal(old_lines, new_lines, 0, d, &mut out);
        proof {
            assert forall|i: int, j: int|
                0 <= i < m && 0 <= j < n && #[trigger] odv[i] == #[trigger] ndv[j] && 0 <= j - i < d
                    + 1 implies pair_covered(out@, i, j) by {
                if j - i < d {
                    lemma_covered_extend(pre, out@, i, j);
                } else {
                    assert(j == d + i);
                    assert(odv[0 + i] == ndv[d + i]);
                }
            }
        }
        d = d + 1;
    }
    let mut d2: usize = 1;
    while d2 < m
        invariant
            1 <= d2 <= m || m == 0,
            m == old_lines@.len(),
            n == new_lines@.len(),
            odv == line_views(old_lines@),
            ndv == line_views(new_lines@),
            forall|t: int| 0 <= t < out@.len() ==> block_maximal(odv, ndv, #[trigger] out@[t]),
            forall|i: int, j: int|
                0 <= i < m && 0 <= j < n && #[trigger] odv[i] == #[trigger] ndv[j] && (0 <= j - i
                    || i - j < d2) ==> pair_covered(out@, i, j),
        decreases m - d2,
    {
        let ghost pre = out@;
        scan_diagonal(old_lines, new_lines, d2, 0, &mut out);
        proof {
            assert forall|i: int, j: int|
                0 <= i < m && 0 <= j < n && #[trigger] odv[i] == #[trigger] ndv[j] && (0 <= j - i
                    || i - j < d2 + 1) implies pair_covered(out@, i, j) by {
                if 0 <= j - i || i - j < d2 {
                    lemma_covered_extend(pre, out@, i, j);
                } else {
                    assert(i == d2 + j);
                    assert(odv[d2 + j] == ndv[0 + j]);
                }
            }
        }
        d2 = d2 + 1;
    }
    proof {
        assert forall|i: int, j: int|
            0 <= i < odv.len() && 0 <= j < ndv.len() && odv[i] == ndv[j] implies pair_covered(
            out@,
            i,
            j,
        ) by {
            assert(0 <= j - i || i - j < m);
        }
    }
    out
}

} // verus!
