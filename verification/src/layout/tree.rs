//! The contour layout of a tree, as mathematics.
//!
//! A contour lists, level by level below a node, the horizontal extent of
//! the subtree at that level, measured from the centre of the node.

use vstd::prelude::*;
use crate::graph::NodeId;

verus! {

/// A laid-out subtree: the node at its root, that node's size, and the
/// subtrees of its children from left to right.
pub struct Tree {
    pub node: NodeId,
    pub width: int,
    pub height: int,
    pub kids: Seq<Tree>,
}

/// The children of one node after they were packed side by side: the
/// contour of the whole group and the centre of each child, both measured
/// from the centre of the first child.
pub struct Group {
    pub merged: Seq<(int, int)>,
    pub offsets: Seq<int>,
}

/// The extent of a node of width `w` around its own centre.
pub open spec fn leaf_span(w: int) -> (int, int) {
    (-(w / 2), w - w / 2)
}

/// The number of levels that two contours share.
pub open spec fn shared_levels(a: Seq<(int, int)>, b: Seq<(int, int)>) -> int {
    if a.len() <= b.len() {
        a.len() as int
    } else {
        b.len() as int
    }
}

/// The least shift, not below 0, that puts `next` at least `gap` to the
/// right of `packed` on each of the first `levels` levels.
pub open spec fn shift_upto(
    packed: Seq<(int, int)>,
    next: Seq<(int, int)>,
    gap: int,
    levels: int,
) -> int
    decreases levels,
{
    if levels <= 0 {
        0
    } else {
        let before = shift_upto(packed, next, gap, levels - 1);
        let need = packed[levels - 1].1 + gap - next[levels - 1].0;
        if need > before {
            need
        } else {
            before
        }
    }
}

/// The least shift, not below 0, that puts `next` at least `gap` to the
/// right of `packed` on every level that both have.
pub open spec fn shift_for(packed: Seq<(int, int)>, next: Seq<(int, int)>, gap: int) -> int {
    shift_upto(packed, next, gap, shared_levels(packed, next))
}

/// The contour of `packed` together with `next` moved right by `shift`.
pub open spec fn merge(packed: Seq<(int, int)>, next: Seq<(int, int)>, shift: int) -> Seq<
    (int, int),
> {
    Seq::new(
        if packed.len() >= next.len() {
            packed.len()
        } else {
            next.len()
        },
        |d: int|
            if d < packed.len() && d < next.len() {
                (
                    if packed[d].0 <= next[d].0 + shift {
                        packed[d].0
                    } else {
                        next[d].0 + shift
                    },
                    if packed[d].1 >= next[d].1 + shift {
                        packed[d].1
                    } else {
                        next[d].1 + shift
                    },
                )
            } else if d < packed.len() {
                packed[d]
            } else {
                (next[d].0 + shift, next[d].1 + shift)
            },
    )
}

/// A contour moved left by `by`.
pub open spec fn moved_left(c: Seq<(int, int)>, by: int) -> Seq<(int, int)> {
    Seq::new(c.len(), |d: int| (c[d].0 - by, c[d].1 - by))
}

/// Where the parent's centre lies, measured from the centre of its first
/// child: halfway to the centre of its last child.
pub open spec fn centre_of(offsets: Seq<int>) -> int {
    if offsets.len() == 0 {
        0
    } else {
        offsets.last() / 2
    }
}

/// Packs the subtrees `kids` from left to right, each as far left as the
/// gap to everything packed before it allows.
pub open spec fn group(kids: Seq<Tree>, gap: int) -> Group
    decreases kids,
{
    if kids.len() == 0 {
        Group { merged: Seq::empty(), offsets: Seq::empty() }
    } else {
        let before = group(kids.drop_last(), gap);
        let next = contour(kids.last(), gap);
        let shift = shift_for(before.merged, next, gap);
        Group { merged: merge(before.merged, next, shift), offsets: before.offsets.push(shift) }
    }
}

/// The contour of a subtree: the root's own extent on level 0, below it
/// the packed children, centred under the root.
pub open spec fn contour(t: Tree, gap: int) -> Seq<(int, int)>
    decreases t,
{
    let g = group(t.kids, gap);
    seq![leaf_span(t.width)] + moved_left(g.merged, centre_of(g.offsets))
}

/// The centre of child `i` of `t`, measured from the centre of `t`.
pub open spec fn kid_offset(t: Tree, gap: int, i: int) -> int {
    let g = group(t.kids, gap);
    g.offsets[i] - centre_of(g.offsets)
}

/// The widest level of a contour.
pub open spec fn widest(c: Seq<(int, int)>) -> int
    decreases c.len(),
{
    if c.len() == 0 {
        0
    } else {
        let rest = widest(c.drop_last());
        let w = c.last().1 - c.last().0;
        if w > rest {
            w
        } else {
            rest
        }
    }
}

/// The number of nodes in a subtree.
pub open spec fn size(t: Tree) -> nat
    decreases t,
{
    1 + size_all(t.kids)
}

/// The number of nodes in a row of subtrees.
pub open spec fn size_all(kids: Seq<Tree>) -> nat
    decreases kids,
{
    if kids.len() == 0 {
        0
    } else {
        size_all(kids.drop_last()) + size(kids.last())
    }
}

/// The number of levels of a subtree.
pub open spec fn levels(t: Tree) -> nat
    decreases t,
{
    1 + levels_all(t.kids)
}

/// The number of levels of the tallest subtree in a row.
pub open spec fn levels_all(kids: Seq<Tree>) -> nat
    decreases kids,
{
    if kids.len() == 0 {
        0
    } else {
        let rest = levels_all(kids.drop_last());
        let last = levels(kids.last());
        if last > rest {
            last
        } else {
            rest
        }
    }
}

/// Whether every node of the subtree has a width from 0 to `max_width`
/// and a height from 0 to `max_height`.
pub open spec fn fits(t: Tree, max_width: int, max_height: int) -> bool
    decreases t,
{
    &&& 0 <= t.width <= max_width
    &&& 0 <= t.height <= max_height
    &&& forall|i: int| 0 <= i < t.kids.len() ==> fits(#[trigger] t.kids[i], max_width, max_height)
}

/// The top-left corner of every node of subtree `t` when the centre of its
/// root is at `cx` and its top at `y`. Children sit `drop` below the
/// bottom of their parent.
pub open spec fn place(t: Tree, gap: int, drop: int, cx: int, y: int) -> Map<NodeId, (int, int)>
    decreases t, t.kids.len() + 1,
{
    map![t.node => (cx - t.width / 2, y)].union_prefer_right(
        place_kids(t, gap, drop, cx, y + t.height + drop, t.kids.len() as int),
    )
}

/// The corners of the nodes in the first `upto` child subtrees of `t`,
/// whose centre is at `cx`; `y` is the top of the children.
pub open spec fn place_kids(t: Tree, gap: int, drop: int, cx: int, y: int, upto: int) -> Map<
    NodeId,
    (int, int),
>
    decreases t, upto,
{
    if upto <= 0 || upto > t.kids.len() {
        Map::empty()
    } else {
        place_kids(t, gap, drop, cx, y, upto - 1).union_prefer_right(
            place(t.kids[upto - 1], gap, drop, cx + kid_offset(t, gap, upto - 1), y),
        )
    }
}

/// The width that a tree takes in the row of trees: that of the widest
/// level of its contour.
pub open spec fn tree_width(t: Tree, gap: int) -> int {
    widest(contour(t, gap))
}

/// How far right of the start the tree after `trees` begins: each tree
/// takes its width and one gap.
pub open spec fn cursor(trees: Seq<Tree>, gap: int) -> int
    decreases trees.len(),
{
    if trees.len() == 0 {
        0
    } else {
        cursor(trees.drop_last(), gap) + tree_width(trees.last(), gap) + gap
    }
}

/// The corners of the nodes in a row of trees whose top-left corner is
/// `start`: each tree is centred in the width it takes.
pub open spec fn place_forest(trees: Seq<Tree>, gap: int, drop: int, start: (int, int)) -> Map<
    NodeId,
    (int, int),
>
    decreases trees.len(),
{
    if trees.len() == 0 {
        Map::empty()
    } else {
        place_forest(trees.drop_last(), gap, drop, start).union_prefer_right(
            place(
                trees.last(),
                gap,
                drop,
                start.0 + cursor(trees.drop_last(), gap) + tree_width(trees.last(), gap) / 2,
                start.1,
            ),
        )
    }
}

/// The nodes of a subtree.
pub open spec fn nodes(t: Tree) -> Set<NodeId>
    decreases t,
{
    nodes_all(t.kids).insert(t.node)
}

/// The nodes of a row of subtrees.
pub open spec fn nodes_all(kids: Seq<Tree>) -> Set<NodeId>
    decreases kids,
{
    if kids.len() == 0 {
        Set::empty()
    } else {
        nodes_all(kids.drop_last()).union(nodes(kids.last()))
    }
}

/// Whether no node occurs twice in the subtree.
pub open spec fn distinct(t: Tree) -> bool
    decreases t,
{
    &&& forall|i: int| 0 <= i < t.kids.len() ==> !nodes(#[trigger] t.kids[i]).contains(t.node)
    &&& apart(t.kids)
    &&& forall|i: int| 0 <= i < t.kids.len() ==> distinct(#[trigger] t.kids[i])
}

/// Whether no two subtrees of the row share a node.
pub open spec fn apart(kids: Seq<Tree>) -> bool {
    forall|i: int, j: int|
        0 <= i < j < kids.len() ==> nodes(#[trigger] kids[i]).disjoint(nodes(#[trigger] kids[j]))
}

/// A node of a row of subtrees is a node of one of the subtrees.
pub proof fn lemma_nodes_all(kids: Seq<Tree>, x: NodeId)
    ensures
        nodes_all(kids).contains(x) <==> exists|i: int|
            0 <= i < kids.len() && nodes(#[trigger] kids[i]).contains(x),
    decreases kids.len(),
{
    if kids.len() > 0 {
        let rest = kids.drop_last();
        lemma_nodes_all(rest, x);
        if nodes_all(kids).contains(x) {
            if nodes_all(rest).contains(x) {
                let i = choose|i: int| 0 <= i < rest.len() && nodes(#[trigger] rest[i]).contains(x);
                assert(nodes(kids[i]).contains(x));
            } else {
                assert(nodes(kids[kids.len() - 1]).contains(x));
            }
        }
        if exists|i: int| 0 <= i < kids.len() && nodes(#[trigger] kids[i]).contains(x) {
            let i = choose|i: int| 0 <= i < kids.len() && nodes(#[trigger] kids[i]).contains(x);
            if i < rest.len() {
                assert(nodes(rest[i]).contains(x));
            }
        }
    }
}

} // verus!
