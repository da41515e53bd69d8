//! No two nodes on one level of a tree overlap.

use vstd::prelude::*;
use crate::layout::laws::lemma_row_packed;
use crate::layout::laws::lemma_siblings_apart;
use crate::layout::laws::level_covered;
use crate::layout::tree::centre_of;
use crate::layout::tree::contour;
use crate::layout::tree::group;
use crate::layout::tree::kid_offset;
use crate::layout::tree::leaf_span;
use crate::layout::tree::moved_left;
use crate::layout::tree::Tree;

verus! {

/// The subtree reached from `t` by stepping down to the child with the
/// first index of `path`, from there to the child with the second index,
/// and so on.
pub open spec fn descend(t: Tree, path: Seq<int>) -> Tree
    decreases path.len(),
{
    if path.len() == 0 {
        t
    } else {
        descend(t, path.drop_last()).kids[path.last()]
    }
}

/// Whether every step of `path` leads to a child that exists.
pub open spec fn on_path(t: Tree, path: Seq<int>) -> bool
    decreases path.len(),
{
    path.len() == 0 || (on_path(t, path.drop_last()) && 0 <= path.last() < descend(
        t,
        path.drop_last(),
    ).kids.len())
}

/// The centre of the node at the end of `path`, measured from the centre
/// of `t`.
pub open spec fn centre_at(t: Tree, gap: int, path: Seq<int>) -> int
    decreases path.len(),
{
    if path.len() == 0 {
        0
    } else {
        centre_at(t, gap, path.drop_last()) + kid_offset(
            descend(t, path.drop_last()),
            gap,
            path.last(),
        )
    }
}

/// Where the node at the end of `path` begins, measured from the centre of
/// `t`.
pub open spec fn left_of(t: Tree, gap: int, path: Seq<int>) -> int {
    centre_at(t, gap, path) - descend(t, path).width / 2
}

/// Where the node at the end of `path` ends, measured from the centre of
/// `t`.
pub open spec fn right_of(t: Tree, gap: int, path: Seq<int>) -> int {
    centre_at(t, gap, path) - descend(t, path).width / 2 + descend(t, path).width
}

/// A path that is walked in two parts leads to the same subtree and the
/// same centre as the whole path.
pub proof fn lemma_path_split(t: Tree, gap: int, first: Seq<int>, rest: Seq<int>)
    ensures
        descend(t, first + rest) == descend(descend(t, first), rest),
        on_path(t, first + rest) == (on_path(t, first) && on_path(descend(t, first), rest)),
        centre_at(t, gap, first + rest) == centre_at(t, gap, first) + centre_at(
            descend(t, first),
            gap,
            rest,
        ),
    decreases rest.len(),
{
    if rest.len() == 0 {
        assert(first + rest =~= first);
    } else {
        lemma_path_split(t, gap, first, rest.drop_last());
        assert((first + rest).drop_last() =~= first + rest.drop_last());
        assert((first + rest).last() == rest.last());
    }
}

/// The contour of a tree covers the contour of each of its subtrees: level
/// `e` of the subtree at the end of `path` lies within the level of the
/// tree that is `e` below the end of the path.
pub proof fn lemma_contour_covers(t: Tree, gap: int, path: Seq<int>, e: int)
    requires
        on_path(t, path),
        0 <= e < contour(descend(t, path), gap).len(),
    ensures
        path.len() + e < contour(t, gap).len(),
        contour(t, gap)[path.len() + e].0 <= centre_at(t, gap, path) + contour(
            descend(t, path),
            gap,
        )[e].0,
        centre_at(t, gap, path) + contour(descend(t, path), gap)[e].1 <= contour(
            t,
            gap,
        )[path.len() + e].1,
    decreases path.len(),
{
    if path.len() > 0 {
        let up = path.drop_last();
        let i = path.last();
        let q = descend(t, up);
        let v = q.kids[i];
        lemma_row_packed(q.kids, gap);
        assert(level_covered(q.kids, gap, i, e));
        let g = group(q.kids, gap);
        let c = centre_of(g.offsets);
        assert(contour(q, gap) == seq![leaf_span(q.width)] + moved_left(g.merged, c));
        assert(contour(q, gap)[e + 1] == moved_left(g.merged, c)[e]);
        lemma_contour_covers(t, gap, up, e + 1);
    }
}

/// No two nodes on one level of a tree overlap: where two paths of the
/// same length part, the node at the end of the path that turns to the
/// child further left ends at least one gap before the node at the end of
/// the other path begins.
pub proof fn lemma_level_apart(
    t: Tree,
    gap: int,
    shared: Seq<int>,
    i: int,
    j: int,
    left: Seq<int>,
    right: Seq<int>,
)
    requires
        i < j,
        left.len() == right.len(),
        on_path(t, shared.push(i) + left),
        on_path(t, shared.push(j) + right),
    ensures
        right_of(t, gap, shared.push(i) + left) + gap <= left_of(t, gap, shared.push(j) + right),
{
    let q = descend(t, shared);
    lemma_path_split(t, gap, shared.push(i), left);
    lemma_path_split(t, gap, shared.push(j), right);
    assert(shared.push(i).drop_last() =~= shared);
    assert(shared.push(j).drop_last() =~= shared);
    let a = q.kids[i];
    let b = q.kids[j];
    assert(descend(t, shared.push(i)) == a);
    assert(descend(t, shared.push(j)) == b);
    let va = descend(a, left);
    let vb = descend(b, right);
    assert(contour(va, gap)[0] == leaf_span(va.width));
    assert(contour(vb, gap)[0] == leaf_span(vb.width));
    lemma_contour_covers(a, gap, left, 0);
    lemma_contour_covers(b, gap, right, 0);
    lemma_siblings_apart(q, gap, i, j, left.len() as int);
}

} // verus!
