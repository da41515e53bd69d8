//! Contours in machine integers.

use vstd::prelude::*;
use crate::layout::extent::lemma_shift_upto;
use crate::layout::extent::lemma_widest;
use crate::layout::extent::within;
use crate::layout::tree::leaf_span;
use crate::layout::tree::merge;
use crate::layout::tree::moved_left;
use crate::layout::tree::shared_levels;
use crate::layout::tree::shift_for;
use crate::layout::tree::shift_upto;
use crate::layout::tree::widest;

verus! {

/// No contour of a graph that fits in memory reaches further than this
/// from the centre of its root.
pub open spec fn reach_limit() -> int {
    0x2_0000_0000_0000_0000_0000_0000
}

/// The levels of a stored contour as pairs of integers.
pub open spec fn spans(c: Seq<(i128, i128)>) -> Seq<(int, int)> {
    Seq::new(c.len(), |d: int| (c[d].0 as int, c[d].1 as int))
}

/// Computes [`shift_for`].
pub(crate) fn shift_between(packed: &Vec<(i128, i128)>, next: &Vec<(i128, i128)>, gap: u32) -> (shift:
    i128)
    requires
        within(spans(packed@), -reach_limit(), reach_limit()),
        within(spans(next@), -reach_limit(), reach_limit()),
    ensures
        shift == shift_for(spans(packed@), spans(next@), gap as int),
        0 <= shift <= 2 * reach_limit() + gap,
{
    let levels: usize = if packed.len() <= next.len() {
        packed.len()
    } else {
        next.len()
    };
    let mut shift: i128 = 0;
    proof {
        lemma_shift_upto(
            spans(packed@),
            spans(next@),
            gap as int,
            levels as int,
            reach_limit(),
            -reach_limit(),
        );
    }
    for d in 0..levels
        invariant
            levels == shared_levels(spans(packed@), spans(next@)),
            within(spans(packed@), -reach_limit(), reach_limit()),
            within(spans(next@), -reach_limit(), reach_limit()),
            shift == shift_upto(spans(packed@), spans(next@), gap as int, d as int),
            0 <= shift <= 2 * reach_limit() + gap,
    {
        proof {
            lemma_shift_upto(
                spans(packed@),
                spans(next@),
                gap as int,
                d + 1,
                reach_limit(),
                -reach_limit(),
            );
            assert(spans(packed@)[d as int].1 == packed@[d as int].1);
            assert(spans(next@)[d as int].0 == next@[d as int].0);
        }
        let need: i128 = packed[d].1 + gap as i128 - next[d].0;
        if need > shift {
            shift = need;
        }
    }
    shift
}

/// Computes [`merge`].
pub(crate) fn merge_contours(packed: &Vec<(i128, i128)>, next: &Vec<(i128, i128)>, shift: i128) -> (out:
    Vec<(i128, i128)>)
    requires
        within(spans(packed@), -reach_limit(), reach_limit()),
        within(spans(next@), -reach_limit(), reach_limit()),
        0 <= shift <= 2 * reach_limit() + u32::MAX,
    ensures
        spans(out@) == merge(spans(packed@), spans(next@), shift as int),
{
    let total: usize = if packed.len() >= next.len() {
        packed.len()
    } else {
        next.len()
    };
    let mut out: Vec<(i128, i128)> = Vec::new();
    let ghost want = merge(spans(packed@), spans(next@), shift as int);
    for d in 0..total
        invariant
            total == want.len(),
            want == merge(spans(packed@), spans(next@), shift as int),
            within(spans(packed@), -reach_limit(), reach_limit()),
            within(spans(next@), -reach_limit(), reach_limit()),
            0 <= shift <= 2 * reach_limit() + u32::MAX,
            out@.len() == d,
            forall|k: int| 0 <= k < d ==> (#[trigger] out@[k]).0 == want[k].0 && out@[k].1 == want[k].1,
    {
        proof {
            if d < packed.len() {
                assert(spans(packed@)[d as int].1 == packed@[d as int].1);
            }
            if d < next.len() {
                assert(spans(next@)[d as int].0 == next@[d as int].0);
            }
        }
        if d < packed.len() && d < next.len() {
            let p: (i128, i128) = packed[d];
            let q: (i128, i128) = next[d];
            let l: i128 = if p.0 <= q.0 + shift {
                p.0
            } else {
                q.0 + shift
            };
            let r: i128 = if p.1 >= q.1 + shift {
                p.1
            } else {
                q.1 + shift
            };
            out.push((l, r));
        } else if d < packed.len() {
            out.push(packed[d]);
        } else {
            let q: (i128, i128) = next[d];
            out.push((q.0 + shift, q.1 + shift));
        }
    }
    assert(spans(out@) =~= want);
    out
}

/// Computes [`widest`].
pub(crate) fn widest_level(c: &Vec<(i128, i128)>) -> (w: i128)
    requires
        within(spans(c@), -reach_limit(), reach_limit()),
    ensures
        w == widest(spans(c@)),
        0 <= w <= 2 * reach_limit(),
{
    let mut w: i128 = 0;
    let ghost all = spans(c@);
    proof {
        lemma_widest(all.subrange(0, 0), -reach_limit(), reach_limit());
    }
    for d in 0..c.len()
        invariant
            all == spans(c@),
            within(all, -reach_limit(), reach_limit()),
            w == widest(all.subrange(0, d as int)),
            0 <= w <= 2 * reach_limit(),
    {
        proof {
            assert(all.subrange(0, d + 1).drop_last() =~= all.subrange(0, d as int));
            assert(all.subrange(0, d + 1).last() == all[d as int]);
            assert(all[d as int].1 == c@[d as int].1);
        }
        let here: i128 = c[d].1 - c[d].0;
        if here > w {
            w = here;
        }
    }
    assert(all.subrange(0, c.len() as int) =~= all);
    w
}

/// Builds the contour of a node from its width and the merged contour of
/// its children, which is moved left by `centre`.
pub(crate) fn crown(width: u32, merged: &Vec<(i128, i128)>, centre: i128) -> (out: Vec<(i128, i128)>)
    requires
        within(spans(merged@), -2 * reach_limit(), 2 * reach_limit()),
        0 <= centre <= 2 * reach_limit(),
    ensures
        spans(out@) == seq![leaf_span(width as int)] + moved_left(spans(merged@), centre as int),
{
    let mut out: Vec<(i128, i128)> = Vec::new();
    let half: u32 = width / 2;
    out.push((-(half as i128), (width - half) as i128));
    let ghost want = seq![leaf_span(width as int)] + moved_left(spans(merged@), centre as int);
    for d in 0..merged.len()
        invariant
            want == seq![leaf_span(width as int)] + moved_left(spans(merged@), centre as int),
            within(spans(merged@), -2 * reach_limit(), 2 * reach_limit()),
            0 <= centre <= 2 * reach_limit(),
            out@.len() == d + 1,
            forall|k: int| 0 <= k < d + 1 ==> (#[trigger] out@[k]).0 == want[k].0 && out@[k].1 == want[k].1,
    {
        proof {
            assert(spans(merged@)[d as int].1 == merged@[d as int].1);
            assert(want[d + 1] == moved_left(spans(merged@), centre as int)[d as int]);
        }
        let p: (i128, i128) = merged[d];
        out.push((p.0 - centre, p.1 - centre));
    }
    assert(spans(out@) =~= want);
    out
}

} // verus!
