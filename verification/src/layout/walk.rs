//! The two walks over the forest: the first grows it and packs each row of
//! children, the second hands out positions from the roots down.

use vstd::prelude::*;
use crate::geometry::saturate;
use crate::geometry::Point;
use crate::geometry::Size;
use crate::graph::NodeId;
use crate::layout::contour::crown;
use crate::layout::contour::merge_contours;
use crate::layout::contour::reach_limit;
use crate::layout::contour::shift_between;
use crate::layout::contour::spans;
use crate::layout::extent::lemma_contour_extent;
use crate::layout::extent::lemma_group_extent;
use crate::layout::forest::added;
use crate::layout::forest::grow;
use crate::layout::forest::grow_row;
use crate::layout::forest::lemma_count_bound;
use crate::layout::forest::lemma_count_mark;
use crate::layout::forest::lemma_grow;
use crate::layout::forest::lemma_grow_row;
use crate::layout::forest::Net;
use crate::layout::tree::centre_of;
use crate::layout::tree::contour;
use crate::layout::tree::fits;
use crate::layout::tree::group;
use crate::layout::tree::kid_offset;
use crate::layout::tree::levels;
use crate::layout::tree::levels_all;
use crate::layout::tree::place;
use crate::layout::tree::place_kids;
use crate::layout::tree::size;
use crate::layout::tree::size_all;
use crate::layout::tree::Tree;

verus! {

/// The graph as the walks read it.
pub(crate) struct NetData {
    pub children: Vec<Vec<NodeId>>,
    pub sizes: Vec<Size>,
}

impl View for NetData {
    type V = Net;

    closed spec fn view(&self) -> Net {
        Net {
            children: Seq::new(self.children@.len(), |i: int| self.children@[i]@),
            sizes: self.sizes@,
        }
    }
}

impl NetData {
    /// What the view of the data is.
    pub(crate) proof fn lemma_view(&self)
        ensures
            self@.children.len() == self.children@.len(),
            forall|i: int|
                0 <= i < self.children@.len() ==> #[trigger] self@.children[i]
                    == self.children@[i]@,
            self@.sizes == self.sizes@,
    {
    }
}

/// What the first walk leaves for the second: the marks, and for each node
/// that was laid out its children with the offset of each child's centre
/// from its own.
pub(crate) struct Plan {
    pub seen: Vec<bool>,
    pub branches: Vec<Vec<(usize, i128)>>,
}

/// Whether `row` lists the children of `t` in order, each with the offset
/// that the layout gives it, and `t` has the size `size`.
pub open spec fn root_laid(t: Tree, gap: int, size: Size, row: Seq<(usize, i128)>) -> bool {
    &&& t.width == size.width
    &&& t.height == size.height
    &&& row.len() == t.kids.len()
    &&& forall|i: int|
        0 <= i < t.kids.len() ==> (#[trigger] row[i]).0 == t.kids[i].node.0 && row[i].1
            == kid_offset(t, gap, i) && -reach_limit() <= row[i].1 && row[i].1 <= reach_limit()
}

/// Whether `branches` holds the subtree `t`: for each of its nodes the
/// children in order, each with the offset that the layout gives it, and
/// whether each node has the size that the net gives it.
pub open spec fn laid(t: Tree, gap: int, net: Net, branches: Seq<Vec<(usize, i128)>>) -> bool
    decreases t,
{
    &&& t.node.0 < branches.len()
    &&& t.node.0 < net.sizes.len()
    &&& root_laid(t, gap, net.sizes[t.node.0 as int], branches[t.node.0 as int]@)
    &&& forall|i: int| 0 <= i < t.kids.len() ==> laid(#[trigger] t.kids[i], gap, net, branches)
}

/// A stored subtree is still stored after changes that leave the slots of
/// its nodes alone.
pub proof fn lemma_laid_kept(
    t: Tree,
    gap: int,
    net: Net,
    b0: Seq<Vec<(usize, i128)>>,
    b1: Seq<Vec<(usize, i128)>>,
    before: Seq<bool>,
    after: Seq<bool>,
)
    requires
        laid(t, gap, net, b0),
        added(t, before, after),
        b0.len() == b1.len(),
        forall|x: int|
            0 <= x < b0.len() && x < before.len() && !before[x] && after[x] ==> #[trigger] b1[x]
                == b0[x],
    ensures
        laid(t, gap, net, b1),
    decreases t,
{
    assert(b1[t.node.0 as int] == b0[t.node.0 as int]);
    assert forall|i: int| 0 <= i < t.kids.len() implies laid(
        #[trigger] t.kids[i],
        gap,
        net,
        b1,
    ) by {
        lemma_laid_kept(t.kids[i], gap, net, b0, b1, before, after);
    }
}

/// No subtree of a graph that fits in memory reaches beyond the limit.
pub proof fn lemma_reach(nodes: nat, gap: int)
    requires
        nodes <= usize::MAX,
        0 <= gap <= u32::MAX,
    ensures
        0 <= nodes * (u32::MAX + gap) <= reach_limit(),
{
    assert(0 <= nodes * (u32::MAX + gap) <= 0x2_0000_0000_0000_0000_0000_0000) by (nonlinear_arith)
        requires
            0 <= nodes <= 0xffff_ffff_ffff_ffff,
            0 <= gap <= 0xffff_ffff,
            u32::MAX == 0xffff_ffff,
    ;
}

/// What the first walk from node `u` has done when it returns: the subtree
/// `t` has grown from `u`, the marks are those after its growth, `c` is its
/// contour, it is stored in `b1`, and no slot but those of its nodes has
/// changed.
pub open spec fn walked(
    net: Net,
    gap: int,
    u: NodeId,
    depth: nat,
    seen0: Seq<bool>,
    b0: Seq<Vec<(usize, i128)>>,
    seen1: Seq<bool>,
    b1: Seq<Vec<(usize, i128)>>,
    c: Seq<(int, int)>,
    t: Tree,
) -> bool {
    &&& t == grow(net, u, seen0, depth).0
    &&& seen1 == grow(net, u, seen0, depth).1
    &&& c == contour(t, gap)
    &&& laid(t, gap, net, b1)
    &&& b1.len() == b0.len()
    &&& forall|x: int|
        0 <= x < b0.len() && !(!seen0[x] && seen1[x]) ==> #[trigger] b1[x] == b0[x]
}

/// First walk: grows the subtree under node `u`, packs each row of
/// children, and returns the contour of the subtree.
pub(crate) fn first_walk(net: &NetData, gap: u32, u: usize, depth: usize, plan: &mut Plan) -> (out: (
    Vec<(i128, i128)>,
    Ghost<Tree>,
))
    requires
        net@.wf(),
        old(plan).seen@.len() == net@.slots(),
        old(plan).branches@.len() == net@.slots(),
        u < net@.slots(),
        !old(plan).seen@[u as int],
    ensures
        final(plan).seen@.len() == net@.slots(),
        final(plan).branches@.len() == net@.slots(),
        walked(
            net@,
            gap as int,
            NodeId(u),
            depth as nat,
            old(plan).seen@,
            old(plan).branches@,
            final(plan).seen@,
            final(plan).branches@,
            spans(out.0@),
            out.1@,
        ),
    decreases depth,
{
    let ghost seen0 = plan.seen@;
    let ghost b0 = plan.branches@;
    let ghost n = net@.slots();
    plan.seen.set(u, true);
    let ghost seen1 = plan.seen@;
    let ghost cand = net@.children[u as int];
    let count: usize = net.children[u].len();
    let width: u32 = net.sizes[u].width;
    let mut merged: Vec<(i128, i128)> = Vec::new();
    let mut rows: Vec<(usize, i128)> = Vec::new();
    let mut last: i128 = 0;
    let ghost mut trees: Seq<Tree> = Seq::empty();
    proof {
        lemma_count_mark(seen0, u as int);
        assert(cand.subrange(0, 0) =~= Seq::<NodeId>::empty());
        assert(spans(merged@) =~= group(trees, gap as int).merged);
    }
    for k in 0..count
        invariant
            net@.wf(),
            n == net@.slots(),
            u < n,
            cand == net@.children[u as int],
            count == cand.len(),
            seen0.len() == n,
            b0.len() == n,
            !seen0[u as int],
            seen1 == seen0.update(u as int, true),
            plan.seen@.len() == n,
            plan.branches@.len() == n,
            grow_row(net@, cand.subrange(0, k as int), seen1, depth as nat) == (trees, plan.seen@),
            spans(merged@) == group(trees, gap as int).merged,
            rows@.len() == trees.len(),
            group(trees, gap as int).offsets.len() == trees.len(),
            forall|i: int|
                0 <= i < trees.len() ==> (#[trigger] rows@[i]).0 == trees[i].node.0 && rows@[i].1
                    == group(trees, gap as int).offsets[i],
            last == if trees.len() == 0 {
                0
            } else {
                group(trees, gap as int).offsets.last()
            },
            0 <= last <= reach_limit(),
            forall|i: int|
                0 <= i < trees.len() ==> laid(#[trigger] trees[i], gap as int, net@, plan.branches@),
            forall|x: int|
                0 <= x < n && !(!seen1[x] && plan.seen@[x]) ==> #[trigger] plan.branches@[x]
                    == b0[x],
    {
        let v: NodeId = net.children[u][k];
        let ghost prefix = cand.subrange(0, k as int);
        let ghost longer = cand.subrange(0, k + 1);
        proof {
            assert(longer.drop_last() =~= prefix);
            assert(longer.last() == v);
            lemma_grow_row(net@, prefix, seen1, depth as nat);
        }
        if depth > 0 && v.0 < plan.seen.len() && !plan.seen[v.0] {
            let ghost seen_k = plan.seen@;
            let ghost b_k = plan.branches@;
            let (c, Ghost(tv)) = first_walk(net, gap, v.0, depth - 1, plan);
            let ghost longer_trees = trees.push(tv);
            proof {
                lemma_grow(net@, v, seen_k, (depth - 1) as nat);
                lemma_grow_row(net@, longer, seen1, depth as nat);
                assert(grow_row(net@, longer, seen1, depth as nat) == (longer_trees, plan.seen@));
                lemma_count_bound(plan.seen@);
                lemma_count_bound(seen_k);
                let (a, b) = lemma_group_extent(
                    trees,
                    gap as int,
                    u32::MAX as int,
                    u32::MAX as int,
                );
                let (an, bn) = lemma_contour_extent(
                    tv,
                    gap as int,
                    u32::MAX as int,
                    u32::MAX as int,
                );
                lemma_reach(size_all(trees), gap as int);
                lemma_reach(size(tv), gap as int);
                assert(longer_trees.drop_last() =~= trees);
                assert(longer_trees.last() == tv);
                let (al, bl) = lemma_group_extent(
                    longer_trees,
                    gap as int,
                    u32::MAX as int,
                    u32::MAX as int,
                );
                lemma_reach(size_all(longer_trees), gap as int);
            }
            let shift: i128 = shift_between(&merged, &c, gap);
            merged = merge_contours(&merged, &c, shift);
            rows.push((v.0, shift));
            last = shift;
            proof {
                assert(group(longer_trees, gap as int).offsets == group(
                    trees,
                    gap as int,
                ).offsets.push(shift as int));
                assert(group(longer_trees, gap as int).offsets[trees.len() as int] == shift);
                assert forall|i: int| 0 <= i < longer_trees.len() implies laid(
                    #[trigger] longer_trees[i],
                    gap as int,
                    net@,
                    plan.branches@,
                ) by {
                    if i < trees.len() {
                        lemma_laid_kept(
                            trees[i],
                            gap as int,
                            net@,
                            b_k,
                            plan.branches@,
                            seen1,
                            seen_k,
                        );
                    }
                }
                assert forall|i: int| 0 <= i < longer_trees.len() implies (#[trigger] rows@[i]).0
                    == longer_trees[i].node.0 && rows@[i].1 == group(
                    longer_trees,
                    gap as int,
                ).offsets[i] by {
                    if i < trees.len() {
                        assert(longer_trees[i] == trees[i]);
                    }
                }
                trees = longer_trees;
            }
        }
    }
    let centre: i128 = last / 2;
    let slots: usize = plan.seen.len();
    let ghost t = grow(net@, NodeId(u), seen0, depth as nat).0;
    proof {
        assert(cand.subrange(0, count as int) =~= cand);
        assert(t.kids == trees);
        lemma_grow(net@, NodeId(u), seen0, depth as nat);
        lemma_grow_row(net@, cand, seen1, depth as nat);
        lemma_count_bound(plan.seen@);
        let (a, b) = lemma_group_extent(trees, gap as int, u32::MAX as int, u32::MAX as int);
        lemma_reach(size_all(trees), gap as int);
        let (at, bt) = lemma_contour_extent(t, gap as int, u32::MAX as int, u32::MAX as int);
        lemma_reach(size(t), gap as int);
        assert(centre == centre_of(group(trees, gap as int).offsets));
    }
    let out: Vec<(i128, i128)> = crown(width, &merged, centre);
    let mut branch: Vec<(usize, i128)> = Vec::new();
    for i in 0..rows.len()
        invariant
            t.kids == trees,
            rows@.len() == trees.len(),
            group(trees, gap as int).offsets.len() == trees.len(),
            centre == centre_of(group(trees, gap as int).offsets),
            forall|j: int|
                0 <= j < trees.len() ==> (#[trigger] rows@[j]).0 == trees[j].node.0 && rows@[j].1
                    == group(trees, gap as int).offsets[j],
            forall|j: int|
                0 <= j < trees.len() ==> -reach_limit() <= #[trigger] group(
                    trees,
                    gap as int,
                ).offsets[j] - centre <= reach_limit(),
            branch@.len() == i,
            forall|j: int|
                0 <= j < i ==> (#[trigger] branch@[j]).0 == trees[j].node.0 && branch@[j].1
                    == kid_offset(t, gap as int, j),
    {
        let row: (usize, i128) = rows[i];
        proof {
            assert(row.1 == group(trees, gap as int).offsets[i as int]);
        }
        branch.push((row.0, row.1 - centre));
    }
    let ghost b_end = plan.branches@;
    plan.branches.set(u, branch);
    proof {
        assert forall|i: int| 0 <= i < t.kids.len() implies laid(
            #[trigger] t.kids[i],
            gap as int,
            net@,
            plan.branches@,
        ) by {
            lemma_laid_kept(trees[i], gap as int, net@, b_end, plan.branches@, seen1, plan.seen@);
        }
    }
    (out, Ghost(t))
}

/// The deepest level, counted from a root at level 1, that the layout
/// grows.
pub const MAX_DEPTH: usize = 1024;

/// A computed corner pulled into the coordinate range.
pub open spec fn corner(p: (int, int)) -> Point {
    Point { x: crate::geometry::clamp_coord(p.0), y: crate::geometry::clamp_coord(p.1) }
}

/// No subtree in a row has more levels than the row.
pub proof fn lemma_levels_kid(kids: Seq<Tree>, i: int)
    requires
        0 <= i < kids.len(),
    ensures
        levels(kids[i]) <= levels_all(kids),
    decreases kids.len(),
{
    if i < kids.len() - 1 {
        lemma_levels_kid(kids.drop_last(), i);
    }
}

/// The positions after the nodes in `placed` were given theirs.
pub open spec fn overlaid(base: Seq<Option<Point>>, placed: Map<NodeId, (int, int)>) -> Seq<
    Option<Point>,
> {
    Seq::new(
        base.len(),
        |x: int|
            if placed.dom().contains(NodeId(x as usize)) {
                Some(corner(placed[NodeId(x as usize)]))
            } else {
                base[x]
            },
    )
}

/// Second walk: gives the root of subtree `t`, whose centre is at `cx` and
/// whose top is at `y`, and every node below it its position.
pub(crate) fn second_walk(
    net: &NetData,
    plan: &Plan,
    gap: Ghost<int>,
    drop: u32,
    u: usize,
    cx: i128,
    y: i128,
    positions: &mut Vec<Option<Point>>,
    t: Ghost<Tree>,
    level: Ghost<nat>,
)
    requires
        laid(t@, gap@, net@, plan.branches@),
        t@.node.0 == u,
        old(positions)@.len() == net@.slots(),
        plan.branches@.len() == net@.slots(),
        level@ + levels(t@) <= MAX_DEPTH + 1,
        -(3 + level@) * reach_limit() <= cx <= (3 + level@) * reach_limit(),
        -0x8000_0000_0000_0000 - level@ * 0x2_0000_0000 <= y <= 0x8000_0000_0000_0000 + level@
            * 0x2_0000_0000,
    ensures
        final(positions)@ == overlaid(
            old(positions)@,
            place(t@, gap@, drop as int, cx as int, y as int),
        ),
    decreases t@,
{
    let ghost base = positions@;
    let slots: usize = positions.len();
    let size: Size = net.sizes[u];
    let half: u32 = size.width / 2;
    let here = Point { x: saturate(cx - half as i128), y: saturate(y) };
    positions.set(u, Some(here));
    let below: i128 = y + size.height as i128 + drop as i128;
    let count: usize = plan.branches[u].len();
    let ghost root = map![t@.node => (cx - t@.width / 2, y as int)];
    proof {
        assert(root_laid(t@, gap@, net@.sizes[u as int], plan.branches@[u as int]@));
        assert(t@.node == NodeId(u));
        assert(t@.width / 2 == half);
        let first = root.union_prefer_right(
            place_kids(t@, gap@, drop as int, cx as int, below as int, 0),
        );
        assert(first =~= root);
        assert forall|x: int| 0 <= x < base.len() implies positions@[x] == overlaid(
            base,
            first,
        )[x] by {
            if x != u {
                assert(NodeId(x as usize) != t@.node);
            }
        }
        assert(positions@ =~= overlaid(base, first));
    }
    for i in 0..count
        invariant
            laid(t@, gap@, net@, plan.branches@),
            t@.node.0 == u,
            count == t@.kids.len(),
            positions@.len() == net@.slots(),
            base.len() == net@.slots(),
            base.len() == slots,
            plan.branches@.len() == net@.slots(),
            level@ + levels(t@) <= MAX_DEPTH + 1,
            -(3 + level@) * reach_limit() <= cx <= (3 + level@) * reach_limit(),
            -0x8000_0000_0000_0000 - (level@ + 1) * 0x2_0000_0000 <= below <= 0x8000_0000_0000_0000
                + (level@ + 1) * 0x2_0000_0000,
            root == map![t@.node => (cx - t@.width / 2, y as int)],
            positions@ == overlaid(
                base,
                root.union_prefer_right(
                    place_kids(t@, gap@, drop as int, cx as int, below as int, i as int),
                ),
            ),
    {
        let branch: (usize, i128) = plan.branches[u][i];
        let ghost kid = t@.kids[i as int];
        let ghost before = positions@;
        proof {
            lemma_levels_kid(t@.kids, i as int);
            assert(levels(t@) == 1 + levels_all(t@.kids));
            assert(branch.0 == kid.node.0);
            assert(branch.1 == kid_offset(t@, gap@, i as int));
        }
        second_walk(
            net,
            plan,
            gap,
            drop,
            branch.0,
            cx + branch.1,
            below,
            positions,
            Ghost(kid),
            Ghost(level@ + 1),
        );
        proof {
            let sofar = place_kids(t@, gap@, drop as int, cx as int, below as int, i as int);
            let sub = place(kid, gap@, drop as int, cx + branch.1, below as int);
            let next = place_kids(t@, gap@, drop as int, cx as int, below as int, i + 1);
            assert(next == sofar.union_prefer_right(sub));
            assert(root.union_prefer_right(next) =~= root.union_prefer_right(
                sofar,
            ).union_prefer_right(sub));
            assert(positions@ =~= overlaid(base, root.union_prefer_right(next)));
        }
    }
}

} // verus!
