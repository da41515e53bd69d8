//! How far a contour can reach: no further than the widths and gaps of
//! the nodes under it add up to.

use vstd::prelude::*;
use crate::layout::tree::centre_of;
use crate::layout::tree::contour;
use crate::layout::tree::fits;
use crate::layout::tree::group;
use crate::layout::tree::leaf_span;
use crate::layout::tree::merge;
use crate::layout::tree::moved_left;
use crate::layout::tree::shared_levels;
use crate::layout::tree::shift_for;
use crate::layout::tree::shift_upto;
use crate::layout::tree::size;
use crate::layout::tree::size_all;
use crate::layout::tree::widest;
use crate::layout::tree::Tree;

verus! {

/// Whether every level of the contour starts at or right of `lo`, ends at
/// or left of `hi`, and does not end before it starts.
pub open spec fn within(c: Seq<(int, int)>, lo: int, hi: int) -> bool {
    forall|d: int|
        0 <= d < c.len() ==> lo <= (#[trigger] c[d]).0 && c[d].0 <= c[d].1 && c[d].1 <= hi
}

/// The shift that packs `next` beside `packed` is not negative and leaves
/// the gap on every level it looked at.
pub proof fn lemma_shift_clears(
    packed: Seq<(int, int)>,
    next: Seq<(int, int)>,
    gap: int,
    levels: int,
)
    requires
        0 <= levels <= shared_levels(packed, next),
    ensures
        0 <= shift_upto(packed, next, gap, levels),
        forall|d: int|
            0 <= d < levels ==> (#[trigger] packed[d]).1 + gap <= next[d].0 + shift_upto(
                packed,
                next,
                gap,
                levels,
            ),
    decreases levels,
{
    if levels > 0 {
        lemma_shift_clears(packed, next, gap, levels - 1);
    }
}

/// The shift that packs `next` beside `packed` is as small as it can be:
/// it is 0, or on one of the levels it looked at it leaves exactly the
/// gap.
pub proof fn lemma_shift_tight(
    packed: Seq<(int, int)>,
    next: Seq<(int, int)>,
    gap: int,
    levels: int,
)
    requires
        0 <= levels <= shared_levels(packed, next),
    ensures
        shift_upto(packed, next, gap, levels) == 0 || exists|d: int|
            0 <= d < levels && (#[trigger] packed[d]).1 + gap == next[d].0 + shift_upto(
                packed,
                next,
                gap,
                levels,
            ),
    decreases levels,
{
    if levels > 0 {
        lemma_shift_tight(packed, next, gap, levels - 1);
        let before = shift_upto(packed, next, gap, levels - 1);
        let now = shift_upto(packed, next, gap, levels);
        if now != 0 {
            if now == before {
                let d = choose|d: int|
                    0 <= d < levels - 1 && (#[trigger] packed[d]).1 + gap == next[d].0 + before;
                assert(packed[d].1 + gap == next[d].0 + now);
            } else {
                assert(packed[levels - 1].1 + gap == next[levels - 1].0 + now);
            }
        }
    }
}

/// The shift that packs `next` beside `packed` is no larger than the reach
/// of the two contours and one gap.
pub proof fn lemma_shift_upto(
    packed: Seq<(int, int)>,
    next: Seq<(int, int)>,
    gap: int,
    levels: int,
    hi: int,
    lo: int,
)
    requires
        0 <= levels <= shared_levels(packed, next),
        0 <= gap,
        0 <= hi,
        lo <= 0,
        forall|d: int| 0 <= d < packed.len() ==> (#[trigger] packed[d]).1 <= hi,
        forall|d: int| 0 <= d < next.len() ==> lo <= (#[trigger] next[d]).0,
    ensures
        0 <= shift_upto(packed, next, gap, levels) <= hi + gap - lo,
    decreases levels,
{
    if levels > 0 {
        lemma_shift_upto(packed, next, gap, levels - 1, hi, lo);
        assert(packed[levels - 1].1 <= hi);
        assert(lo <= next[levels - 1].0);
    }
}

/// Size distributes over the reach of one node.
pub proof fn lemma_reach_sum(a: nat, b: nat, reach: int)
    ensures
        (a + b) * reach == a * reach + b * reach,
        (1 + a) * reach == reach + a * reach,
{
    assert((a + b) * reach == a * reach + b * reach) by (nonlinear_arith);
    assert((1 + a) * reach == reach + a * reach) by (nonlinear_arith);
}

/// The reach of a packed row of subtrees. Returns how far the merged
/// contour reaches to the left and to the right of the first child's
/// centre: neither is negative, together they are no more than the nodes
/// of the row with one gap each, and every child's centre lies from 0 up
/// to the right reach.
pub proof fn lemma_group_extent(kids: Seq<Tree>, gap: int, max_width: int, max_height: int) -> (e: (
    int,
    int,
))
    requires
        0 <= gap,
        forall|i: int| 0 <= i < kids.len() ==> fits(#[trigger] kids[i], max_width, max_height),
    ensures
        0 <= e.0,
        0 <= e.1,
        e.0 + e.1 <= size_all(kids) * (max_width + gap),
        within(group(kids, gap).merged, -e.0, e.1),
        group(kids, gap).offsets.len() == kids.len(),
        forall|i: int| 0 <= i < kids.len() ==> 0 <= #[trigger] group(kids, gap).offsets[i] <= e.1,
    decreases kids,
{
    if kids.len() == 0 {
        assert(size_all(kids) * (max_width + gap) == 0) by (nonlinear_arith)
            requires
                size_all(kids) == 0,
        ;
        (0, 0)
    } else {
        let rest = kids.drop_last();
        assert forall|i: int| 0 <= i < rest.len() implies fits(
            #[trigger] rest[i],
            max_width,
            max_height,
        ) by {
            assert(rest[i] == kids[i]);
        }
        let (a, b) = lemma_group_extent(rest, gap, max_width, max_height);
        let (an, bn) = lemma_contour_extent(kids.last(), gap, max_width, max_height);
        let before = group(rest, gap);
        let next = contour(kids.last(), gap);
        lemma_shift_upto(before.merged, next, gap, shared_levels(before.merged, next), b, -an);
        let shift = shift_for(before.merged, next, gap);
        let left = if a >= an - shift {
            a
        } else {
            an - shift
        };
        let right = if b >= bn + shift {
            b
        } else {
            bn + shift
        };
        lemma_reach_sum(size_all(rest), size(kids.last()), max_width + gap);
        let g = group(kids, gap);
        assert(g.merged == merge(before.merged, next, shift));
        assert(g.offsets == before.offsets.push(shift));
        assert forall|i: int| 0 <= i < kids.len() implies 0 <= #[trigger] g.offsets[i]
            <= right by {
            if i < rest.len() {
                assert(g.offsets[i] == before.offsets[i]);
            }
        }
        (left, right)
    }
}

/// The reach of a subtree's contour. Returns how far it reaches to the
/// left and to the right of the root's centre: neither is negative, and
/// together they are no more than the widths of its nodes and one gap
/// between each two of them.
pub proof fn lemma_contour_extent(t: Tree, gap: int, max_width: int, max_height: int) -> (e: (
    int,
    int,
))
    requires
        0 <= gap,
        fits(t, max_width, max_height),
    ensures
        0 <= e.0,
        0 <= e.1,
        e.0 + e.1 <= size(t) * (max_width + gap) - gap,
        within(contour(t, gap), -e.0, e.1),
        contour(t, gap).len() > 0,
        contour(t, gap)[0] == leaf_span(t.width),
        forall|i: int|
            0 <= i < t.kids.len() ==> -e.0 <= #[trigger] group(t.kids, gap).offsets[i] - centre_of(
                group(t.kids, gap).offsets,
            ) <= e.1,
    decreases t,
{
    let (a, b) = lemma_group_extent(t.kids, gap, max_width, max_height);
    let g = group(t.kids, gap);
    let c = centre_of(g.offsets);
    if g.offsets.len() > 0 {
        assert(0 <= g.offsets[g.offsets.len() - 1] <= b);
    }
    assert(0 <= c <= b);
    let w = t.width;
    let left = if w / 2 >= a + c {
        w / 2
    } else {
        a + c
    };
    let right = if w - w / 2 >= b - c {
        w - w / 2
    } else {
        b - c
    };
    lemma_reach_sum(size_all(t.kids), 0, max_width + gap);
    assert(size(t) == 1 + size_all(t.kids));
    let out = contour(t, gap);
    assert(out == seq![leaf_span(w)] + moved_left(g.merged, c));
    assert forall|d: int| 0 <= d < out.len() implies -left <= (#[trigger] out[d]).0 && out[d].0
        <= out[d].1 && out[d].1 <= right by {
        if d > 0 {
            assert(out[d] == moved_left(g.merged, c)[d - 1]);
            assert(g.merged[d - 1].0 <= g.merged[d - 1].1);
        }
    }
    (left, right)
}

/// The widest level of a contour is no wider than the contour's reach,
/// and no narrower than any of its levels.
pub proof fn lemma_widest(c: Seq<(int, int)>, lo: int, hi: int)
    requires
        within(c, lo, hi),
        lo <= hi,
    ensures
        0 <= widest(c) <= hi - lo,
        forall|d: int| 0 <= d < c.len() ==> (#[trigger] c[d]).1 - c[d].0 <= widest(c),
    decreases c.len(),
{
    if c.len() > 0 {
        let rest = c.drop_last();
        assert forall|d: int| 0 <= d < rest.len() implies lo <= (#[trigger] rest[d]).0
            && rest[d].0 <= rest[d].1 && rest[d].1 <= hi by {
            assert(rest[d] == c[d]);
        }
        lemma_widest(rest, lo, hi);
        assert forall|d: int| 0 <= d < c.len() implies (#[trigger] c[d]).1 - c[d].0 <= widest(
            c,
        ) by {
            if d < rest.len() {
                assert(rest[d] == c[d]);
            }
        }
    }
}

} // verus!
