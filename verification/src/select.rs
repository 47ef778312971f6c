//! Selection of a non-conflicting subset of the candidate blocks: a greedy
//! policy that prefers longer runs and never lets two picked blocks cross.

use vstd::prelude::*;

use crate::block::{Block, block_valid, all_blocks_valid};
use vstd::relations::{sorted_by, total_ordering};
use vstd::seq_lib::lemma_sorted_unique;

verus! {

broadcast use {vstd::seq_lib::group_to_multiset_ensures, vstd::multiset::group_multiset_axioms};

/// Block `a` lies entirely before block `b` in both coordinates.
pub open spec fn dominates(a: Block, b: Block) -> bool {
    &&& a.old_end() <= b.old_start
    &&& a.new_end() <= b.new_start
}

/// The two blocks do not cross: one lies entirely before the other in both
/// coordinates.
pub open spec fn compatible(a: Block, b: Block) -> bool {
    dominates(a, b) || dominates(b, a)
}

/// The candidate is compatible with every block picked so far.
pub open spec fn compat_all(acc: Seq<Block>, c: Block) -> bool {
    forall|i: int| 0 <= i < acc.len() ==> compatible(#[trigger] acc[i], c)
}

/// No two blocks of `s` cross each other.
pub open spec fn pairwise_compatible(s: Seq<Block>) -> bool {
    forall|i: int, j: int| 0 <= i < j < s.len() ==> compatible(#[trigger] s[i], #[trigger] s[j])
}

/// The picked blocks are in ascending order and pairwise non-crossing: each
/// one ends, in both coordinates, no later than the next one starts.
pub open spec fn blocks_dominance_sorted(s: Seq<Block>) -> bool {
    forall|i: int, j: int| 0 <= i < j < s.len() ==> dominates(#[trigger] s[i], #[trigger] s[j])
}

/// The greedy policy: walk the candidates in order and accept each one that
/// does not cross any block accepted before it.
pub open spec fn greedy_pick(cands: Seq<Block>, acc: Seq<Block>) -> Seq<Block>
    decreases cands.len(),
{
    if cands.len() == 0 {
        acc
    } else {
        let acc2 = if compat_all(acc, cands[0]) {
            acc.push(cands[0])
        } else {
            acc
        };
        greedy_pick(cands.drop_first(), acc2)
    }
}

/// Candidate order: longer runs first; ties broken by ascending `old_start`,
/// then ascending `new_start`, so that the selection is deterministic.
pub open spec fn cand_order(a: Block, b: Block) -> bool {
    ||| a.len > b.len
    ||| (a.len == b.len && a.old_start < b.old_start)
    ||| (a.len == b.len && a.old_start == b.old_start && a.new_start <= b.new_start)
}

/// Output order: ascending `old_start`, with the remaining fields as
/// deterministic tie breaks.
pub open spec fn start_order(a: Block, b: Block) -> bool {
    ||| a.old_start < b.old_start
    ||| (a.old_start == b.old_start && a.new_start < b.new_start)
    ||| (a.old_start == b.old_start && a.new_start == b.new_start && a.len <= b.len)
}

/// The candidate order as a function value, so every contract names the same
/// term.
pub open spec fn cand_leq() -> spec_fn(Block, Block) -> bool {
    |a: Block, b: Block| cand_order(a, b)
}

/// The output order as a function value.
pub open spec fn start_leq() -> spec_fn(Block, Block) -> bool {
    |a: Block, b: Block| start_order(a, b)
}

pub proof fn lemma_cand_leq_total()
    ensures
        total_ordering(cand_leq()),
{
    assert(vstd::relations::reflexive(cand_leq()));
    assert(vstd::relations::transitive(cand_leq()));
    assert(vstd::relations::antisymmetric(cand_leq()));
    assert(vstd::relations::strongly_connected(cand_leq()));
}

pub proof fn lemma_start_leq_total()
    ensures
        total_ordering(start_leq()),
{
    assert(vstd::relations::reflexive(start_leq()));
    assert(vstd::relations::transitive(start_leq()));
    assert(vstd::relations::antisymmetric(start_leq()));
    assert(vstd::relations::strongly_connected(start_leq()));
}

/// What the selector returns for a given candidate list: sort by the greedy
/// preference order, pick greedily, and present the result in ascending
/// `old_start` order.
pub open spec fn selection_of(cands: Seq<Block>) -> Seq<Block> {
    greedy_pick(cands.sort_by(cand_leq()), Seq::<Block>::empty()).sort_by(start_leq())
}

/// Everything the greedy pass returns comes from its accumulator or its
/// candidates.
proof fn lemma_greedy_membership(cands: Seq<Block>, acc: Seq<Block>)
    ensures
        forall|x: Block|
            greedy_pick(cands, acc).contains(x) ==> acc.contains(x) || cands.contains(x),
    decreases cands.len(),
{
    if cands.len() > 0 {
        let acc2 = if compat_all(acc, cands[0]) {
            acc.push(cands[0])
        } else {
            acc
        };
        lemma_greedy_membership(cands.drop_first(), acc2);
        assert forall|x: Block| greedy_pick(cands, acc).contains(x) implies acc.contains(x)
            || cands.contains(x) by {
            if acc2.contains(x) {
                if acc.contains(x) {
                } else {
                    assert(x == cands[0]);
                    assert(cands.contains(x));
                }
            } else if cands.drop_first().contains(x) {
                let t = choose|t: int| 0 <= t < cands.drop_first().len() && cands.drop_first()[t]
                    == x;
                assert(cands[t + 1] == x);
            }
        }
    }
}

/// The greedy pass keeps its accumulator pairwise non-crossing.
proof fn lemma_greedy_compatible(cands: Seq<Block>, acc: Seq<Block>)
    requires
        pairwise_compatible(acc),
    ensures
        pairwise_compatible(greedy_pick(cands, acc)),
    decreases cands.len(),
{
    if cands.len() > 0 {
        if compat_all(acc, cands[0]) {
            let acc2 = acc.push(cands[0]);
            assert forall|i: int, j: int| 0 <= i < j < acc2.len() implies compatible(
                #[trigger] acc2[i],
                #[trigger] acc2[j],
            ) by {
                if j < acc.len() {
                } else {
                    assert(acc2[j] == cands[0]);
                    assert(compatible(acc[i], cands[0]));
                }
            }
            lemma_greedy_compatible(cands.drop_first(), acc2);
        } else {
            lemma_greedy_compatible(cands.drop_first(), acc);
        }
    }
}

/// The selection never lets two picked blocks cross, and only returns
/// candidates; valid candidates therefore yield a valid, dominance-sorted
/// selection.
pub proof fn lemma_selection_properties(
    old: Seq<Seq<char>>,
    new: Seq<Seq<char>>,
    cands: Seq<Block>,
)
    requires
        all_blocks_valid(old, new, cands),
    ensures
        blocks_dominance_sorted(selection_of(cands)),
        all_blocks_valid(old, new, selection_of(cands)),
        sorted_by(selection_of(cands), start_leq()),
{
    lemma_cand_leq_total();
    lemma_start_leq_total();
    let sorted = cands.sort_by(cand_leq());
    cands.lemma_sort_by_ensures(cand_leq());
    let g = greedy_pick(sorted, Seq::<Block>::empty());
    g.lemma_sort_by_ensures(start_leq());
    let sel = g.sort_by(start_leq());
    lemma_greedy_membership(sorted, Seq::<Block>::empty());
    lemma_greedy_compatible(sorted, Seq::<Block>::empty());

    // every selected block is a candidate, hence valid
    assert forall|t: int| 0 <= t < sel.len() implies block_valid(old, new, #[trigger] sel[t]) by {
        assert(sel.contains(sel[t]));
        assert(sel.to_multiset().count(sel[t]) > 0);
        assert(g.contains(sel[t]));
        assert(sorted.contains(sel[t]) || cands.contains(sel[t]));
        if sorted.contains(sel[t]) {
            assert(sorted.to_multiset().count(sel[t]) > 0);
            assert(cands.contains(sel[t]));
        }
        let q = choose|q: int| 0 <= q < cands.len() && cands[q] == sel[t];
        assert(block_valid(old, new, cands[q]));
    }

    // dominance order: ascending by start and pairwise compatible
    assert forall|i: int, j: int| 0 <= i < j < sel.len() implies dominates(
        #[trigger] sel[i],
        #[trigger] sel[j],
    ) by {
        assert(start_leq()(sel[i], sel[j]));
        assert(block_valid(old, new, sel[i]));
        assert(block_valid(old, new, sel[j]));
        if sel[i] == sel[j] {
            // a block of positive length cannot be compatible with itself,
            // and the greedy accumulator never repeats one
            assert(sel.to_multiset().count(sel[i]) >= 2) by {
                let ms = sel.remove(i).to_multiset();
                assert(sel.remove(i)[j - 1] == sel[j]);
                assert(sel.remove(i).contains(sel[j]));
                assert(ms.count(sel[j]) > 0);
            }
            assert(g.to_multiset().count(sel[i]) >= 2);
            let p1 = choose|p1: int| 0 <= p1 < g.len() && g[p1] == sel[i];
            assert(g.remove(p1).to_multiset().count(sel[i]) >= 1);
            assert(g.remove(p1).contains(sel[i]));
            let p2 = choose|p2: int| 0 <= p2 < g.remove(p1).len() && g.remove(p1)[p2] == sel[i];
            if p2 < p1 {
                assert(g[p2] == sel[i]);
                assert(compatible(g[p2], g[p1]));
            } else {
                assert(g[p2 + 1] == sel[i]);
                assert(compatible(g[p1], g[p2 + 1]));
            }
            assert(false);
        } else {
            assert(sel.contains(sel[i]));
            assert(sel.to_multiset().count(sel[i]) > 0);
            assert(sel.contains(sel[j]));
            assert(sel.to_multiset().count(sel[j]) > 0);
            assert(g.contains(sel[i]) && g.contains(sel[j]));
            let p1 = choose|p1: int| 0 <= p1 < g.len() && g[p1] == sel[i];
            let p2 = choose|p2: int| 0 <= p2 < g.len() && g[p2] == sel[j];
            assert(p1 != p2);
            if p1 < p2 {
                assert(compatible(g[p1], g[p2]));
            } else {
                assert(compatible(g[p2], g[p1]));
            }
            assert(compatible(sel[i], sel[j]));
            if dominates(sel[j], sel[i]) {
                assert(sel[j].old_start + sel[j].len <= sel[i].old_start);
                assert(false);
            }
        }
    }
}

/// Exec mirror of [`cand_order`].
fn cand_order_exec(a: &Block, b: &Block) -> (r: bool)
    ensures
        r == cand_order(*a, *b),
{
    if a.len != b.len {
        a.len > b.len
    } else if a.old_start != b.old_start {
        a.old_start < b.old_start
    } else {
        a.new_start <= b.new_start
    }
}

/// Exec mirror of [`start_order`].
fn start_order_exec(a: &Block, b: &Block) -> (r: bool)
    ensures
        r == start_order(*a, *b),
{
    if a.old_start != b.old_start {
        a.old_start < b.old_start
    } else if a.new_start != b.new_start {
        a.new_start < b.new_start
    } else {
        a.len <= b.len
    }
}

/// Selection sort of a block list under a total order; `use_cand` picks the
/// candidate order, otherwise the output order is used.
fn sort_blocks(v: Vec<Block>, use_cand: bool) -> (r: Vec<Block>)
    ensures
        r@ == if use_cand {
            v@.sort_by(cand_leq())
        } else {
            v@.sort_by(start_leq())
        },
        forall|t: int| 0 <= t < r@.len() ==> v@.contains(#[trigger] r@[t]),
{
    let ghost leq = if use_cand {
        cand_leq()
    } else {
        start_leq()
    };
    proof {
        lemma_cand_leq_total();
        lemma_start_leq_total();
    }
    let mut src = v;
    let mut out: Vec<Block> = Vec::new();
    while src.len() > 0
        invariant
            total_ordering(leq),
            leq == if use_cand {
                cand_leq()
            } else {
                start_leq()
            },
            out@.to_multiset().add(src@.to_multiset()) =~= v@.to_multiset(),
            sorted_by(out@, leq),
            forall|i: int, j: int|
                0 <= i < out@.len() && 0 <= j < src@.len() ==> leq(
                    #[trigger] out@[i],
                    #[trigger] src@[j],
                ),
        decreases src.len(),
    {
        let mut best: usize = 0;
        let mut t: usize = 1;
        while t < src.len()
            invariant
                total_ordering(leq),
                leq == if use_cand {
                    cand_leq()
                } else {
                    start_leq()
                },
                0 <= best < src@.len(),
                t <= src@.len(),
                src@.len() > 0,
                forall|q: int| 0 <= q < t ==> leq(src@[best as int], #[trigger] src@[q]),
            decreases src.len() - t,
        {
            let keep = if use_cand {
                cand_order_exec(&src[best], &src[t])
            } else {
                start_order_exec(&src[best], &src[t])
            };
            if !keep {
                best = t;
            }
            t = t + 1;
        }
        let ghost pre_src = src@;
        let ghost pre_out = out@;
        let x = src.remove(best);
        out.push(x);
        proof {
            assert(pre_src.remove(best as int).to_multiset() =~= pre_src.to_multiset().remove(x));
            assert(out@.to_multiset() =~= pre_out.to_multiset().insert(x));
            assert(pre_src.to_multiset().count(x) > 0) by {
                assert(pre_src.contains(x));
            }
            assert(out@.to_multiset().add(src@.to_multiset()) =~= v@.to_multiset());
            assert forall|i: int, j: int|
                0 <= i < out@.len() && 0 <= j < src@.len() implies leq(
                #[trigger] out@[i],
                #[trigger] src@[j],
            ) by {
                let y = src@[j];
                assert(y == pre_src[if j < best { j } else { j + 1 }]);
                if i < pre_out.len() {
                    assert(leq(out@[i], y));
                } else {
                    assert(out@[i] == x);
                    assert(leq(x, y));
                }
            }
            assert(sorted_by(out@, leq));
        }
    }
    proof {
        assert(out@.to_multiset() =~= v@.to_multiset());
        v@.lemma_sort_by_ensures(leq);
        lemma_sorted_unique(out@, v@.sort_by(leq), leq);
        assert(out@ == v@.sort_by(leq));
        assert forall|t: int| 0 <= t < out@.len() implies v@.contains(#[trigger] out@[t]) by {
            assert(out@.to_multiset().count(out@[t]) > 0) by {
                assert(out@.contains(out@[t]));
            }
        }
    }
    out
}

/// Picks a maximal non-crossing, order-preserving subset of the candidate
/// blocks: candidates are tried longest first and accepted only when they do
/// not cross any block accepted before; the result is sorted ascending by
/// `old_start`.
pub(crate) fn pick_blocks(
    blocks: Vec<Block>,
    Ghost(old): Ghost<Seq<Seq<char>>>,
    Ghost(new): Ghost<Seq<Seq<char>>>,
) -> (picked: Vec<Block>)
    requires
        all_blocks_valid(old, new, blocks@),
        old.len() <= usize::MAX,
        new.len() <= usize::MAX,
    ensures
        picked@ == selection_of(blocks@),
        blocks_dominance_sorted(picked@),
        all_blocks_valid(old, new, picked@),
        sorted_by(picked@, start_leq()),
{
    proof {
        lemma_selection_properties(old, new, blocks@);
    }
    let ghost blocks0 = blocks@;
    let sorted = sort_blocks(blocks, true);
    let mut picked: Vec<Block> = Vec::new();
    let mut i: usize = 0;
    proof {
        assert(sorted@.skip(0) =~= sorted@);
    }
    while i < sorted.len()
        invariant
            i <= sorted@.len(),
            sorted@ == blocks0.sort_by(cand_leq()),
            forall|t: int| 0 <= t < sorted@.len() ==> blocks0.contains(#[trigger] sorted@[t]),
            all_blocks_valid(old, new, blocks0),
            all_blocks_valid(old, new, picked@),
            old.len() <= usize::MAX && new.len() <= usize::MAX,
            greedy_pick(sorted@, Seq::<Block>::empty()) == greedy_pick(
                sorted@.skip(i as int),
                picked@,
            ),
        decreases sorted@.len() - i,
    {
        let c = sorted[i];
        proof {
            let q = choose|q: int| 0 <= q < blocks0.len() && blocks0[q] == c;
            assert(block_valid(old, new, c));
        }
        let mut ok = true;
        let mut j: usize = 0;
        while j < picked.len()
            invariant
                j <= picked@.len(),
                all_blocks_valid(old, new, picked@),
                block_valid(old, new, c),
                old.len() <= usize::MAX && new.len() <= usize::MAX,
                ok == (forall|q: int| 0 <= q < j ==> compatible(#[trigger] picked@[q], c)),
            decreases picked@.len() - j,
        {
            let p = picked[j];
            proof {
                assert(block_valid(old, new, picked@[j as int]));
            }
            let comp = (c.old_start + c.len <= p.old_start && c.new_start + c.len <= p.new_start)
                || (p.old_start + p.len <= c.old_start && p.new_start + p.len <= c.new_start);
            ok = ok && comp;
            j = j + 1;
        }
        proof {
            assert(ok == compat_all(picked@, c));
            assert(sorted@.skip(i as int)[0] == sorted@[i as int]);
            assert(sorted@.skip(i as int).drop_first() =~= sorted@.skip(i as int + 1));
        }
        if ok {
            let ghost prev = picked@;
            picked.push(c);
            proof {
                assert(all_blocks_valid(old, new, picked@)) by {
                    assert forall|t: int| 0 <= t < picked@.len() implies block_valid(
                        old,
                        new,
                        #[trigger] picked@[t],
                    ) by {
                        if t < prev.len() {
                            assert(block_valid(old, new, prev[t]));
                        }
                    }
                }
            }
        }
        i = i + 1;
    }
    proof {
        assert(sorted@.skip(i as int) =~= Seq::<Block>::empty());
        assert(greedy_pick(sorted@, Seq::<Block>::empty()) == picked@);
    }
    let result = sort_blocks(picked, false);
    proof {
        assert(result@ == selection_of(blocks0));
    }
    result
}

} // verus!
