//! What the layout guarantees.

use vstd::prelude::*;
use crate::graph::GraphView;
use crate::graph::NodeId;
use crate::layout::empty_slots;
use crate::layout::extent::lemma_contour_extent;
use crate::layout::extent::lemma_shift_clears;
use crate::layout::extent::lemma_shift_tight;
use crate::layout::extent::lemma_widest;
use crate::layout::children_of;
use crate::layout::counted_from;
use crate::layout::counted_into;
use crate::layout::forest::grow_row;
use crate::layout::forest::is_candidate;
use crate::layout::forest::is_child;
use crate::layout::forest::lemma_grow;
use crate::layout::forest::lemma_grow_row;
use crate::layout::forest::lemma_grow_row_marks;
use crate::layout::has_incoming;
use crate::layout::is_root;
use crate::seq_facts::lemma_filter_members;
use crate::layout::forest_of;
use crate::layout::layout_of;
use crate::layout::net_of;
use crate::layout::distinct::lemma_grow_row_distinct;
use crate::layout::distinct::lemma_path_node;
use crate::layout::distinct::lemma_place_at;
use crate::layout::distinct::lemma_place_forest_at;
use crate::layout::distinct::top_at;
use crate::layout::levels::centre_at;
use crate::layout::levels::descend;
use crate::layout::levels::lemma_level_apart;
use crate::layout::levels::left_of;
use crate::layout::levels::on_path;
use crate::layout::levels::right_of;
use crate::layout::reached;
use crate::layout::roots_below;
use crate::layout::size_of;
use crate::layout::tree::cursor;
use crate::layout::tree::tree_width;
use crate::layout::walk::MAX_DEPTH;
use crate::layout::LayoutConfig;
use crate::layout::NodeShape;
use crate::layout::tree::contour;
use crate::layout::tree::group;
use crate::layout::tree::kid_offset;
use crate::layout::tree::merge;
use crate::layout::tree::shared_levels;
use crate::layout::tree::shift_for;
use crate::layout::tree::Tree;

verus! {

/// Where level `d` of subtree `i` of a packed row begins, measured from
/// the centre of the first subtree.
pub open spec fn left_edge(kids: Seq<Tree>, gap: int, i: int, d: int) -> int {
    group(kids, gap).offsets[i] + contour(kids[i], gap)[d].0
}

/// Where level `d` of subtree `i` of a packed row ends, measured from the
/// centre of the first subtree.
pub open spec fn right_edge(kids: Seq<Tree>, gap: int, i: int, d: int) -> int {
    group(kids, gap).offsets[i] + contour(kids[i], gap)[d].1
}

/// Whether the merged contour of the packed row has level `d` and covers
/// level `d` of subtree `i` there.
pub open spec fn level_covered(kids: Seq<Tree>, gap: int, i: int, d: int) -> bool {
    &&& d < group(kids, gap).merged.len()
    &&& group(kids, gap).merged[d].0 <= left_edge(kids, gap, i, d)
    &&& right_edge(kids, gap, i, d) <= group(kids, gap).merged[d].1
}

/// In a packed row the merged contour covers every subtree on each of its
/// levels, and on every level that two subtrees share the later one begins
/// at least one gap after the earlier one ends.
pub proof fn lemma_row_packed(kids: Seq<Tree>, gap: int)
    ensures
        group(kids, gap).offsets.len() == kids.len(),
        forall|i: int, d: int|
            0 <= i < kids.len() && 0 <= d < contour(kids[i], gap).len() ==> #[trigger] level_covered(
                kids,
                gap,
                i,
                d,
            ),
        forall|i: int, j: int, d: int|
            0 <= i < j < kids.len() && 0 <= d < contour(kids[i], gap).len() && d < contour(
                kids[j],
                gap,
            ).len() ==> #[trigger] right_edge(kids, gap, i, d) + gap <= #[trigger] left_edge(
                kids,
                gap,
                j,
                d,
            ),
    decreases kids.len(),
{
    if kids.len() > 0 {
        let rest = kids.drop_last();
        lemma_row_packed(rest, gap);
        let before = group(rest, gap);
        let next = contour(kids.last(), gap);
        let shift = shift_for(before.merged, next, gap);
        lemma_shift_clears(before.merged, next, gap, shared_levels(before.merged, next));
        let g = group(kids, gap);
        let last = kids.len() - 1;
        assert(g.merged == merge(before.merged, next, shift));
        assert(g.offsets == before.offsets.push(shift));
        assert forall|i: int, d: int|
            0 <= i < kids.len() && 0 <= d < contour(kids[i], gap).len() implies #[trigger] level_covered(
            kids,
            gap,
            i,
            d,
        ) by {
            if i < last {
                assert(rest[i] == kids[i]);
                assert(level_covered(rest, gap, i, d));
                assert(right_edge(rest, gap, i, d) == right_edge(kids, gap, i, d));
                assert(left_edge(rest, gap, i, d) == left_edge(kids, gap, i, d));
            }
        }
        assert forall|i: int, j: int, d: int|
            0 <= i < j < kids.len() && 0 <= d < contour(kids[i], gap).len() && d < contour(
                kids[j],
                gap,
            ).len() implies #[trigger] right_edge(kids, gap, i, d) + gap <= #[trigger] left_edge(
            kids,
            gap,
            j,
            d,
        ) by {
            assert(rest[i] == kids[i]);
            assert(right_edge(rest, gap, i, d) == right_edge(kids, gap, i, d));
            assert(level_covered(rest, gap, i, d));
            if j < last {
                assert(rest[j] == kids[j]);
                assert(left_edge(rest, gap, j, d) == left_edge(kids, gap, j, d));
            } else {
                assert(before.merged[d].1 + gap <= next[d].0 + shift);
            }
        }
    }
}

/// The offset of subtree `j` in a packed row is the shift that packs it
/// beside the subtrees before it.
pub proof fn lemma_offset_at(kids: Seq<Tree>, gap: int, j: int)
    requires
        0 <= j < kids.len(),
    ensures
        group(kids, gap).offsets.len() == kids.len(),
        group(kids, gap).offsets[j] == shift_for(
            group(kids.subrange(0, j), gap).merged,
            contour(kids[j], gap),
            gap,
        ),
    decreases kids.len(),
{
    let rest = kids.drop_last();
    lemma_row_packed(kids, gap);
    lemma_row_packed(rest, gap);
    if j == kids.len() - 1 {
        assert(kids.subrange(0, j) =~= rest);
    } else {
        lemma_offset_at(rest, gap, j);
        assert(rest.subrange(0, j) =~= kids.subrange(0, j));
        assert(rest[j] == kids[j]);
        assert(group(kids, gap).offsets[j] == group(rest, gap).offsets[j]);
    }
}

/// Siblings are packed as tightly as the gap allows: the first child
/// stands at 0, and each later child either stands at 0 too or leaves, on
/// one of the levels that it shares with the children before it, exactly
/// one gap to them.
pub proof fn lemma_siblings_tight(t: Tree, gap: int, j: int)
    requires
        0 <= j < t.kids.len(),
    ensures
        group(t.kids, gap).offsets.len() == t.kids.len(),
        j == 0 ==> group(t.kids, gap).offsets[j] == 0,
        group(t.kids, gap).offsets[j] == 0 || exists|d: int|
            0 <= d < shared_levels(
                group(t.kids.subrange(0, j), gap).merged,
                contour(t.kids[j], gap),
            ) && (#[trigger] group(t.kids.subrange(0, j), gap).merged[d]).1 + gap == contour(
                t.kids[j],
                gap,
            )[d].0 + group(t.kids, gap).offsets[j],
{
    let before = group(t.kids.subrange(0, j), gap).merged;
    let next = contour(t.kids[j], gap);
    lemma_offset_at(t.kids, gap, j);
    lemma_shift_tight(before, next, gap, shared_levels(before, next));
}

/// A parent stands over the middle of its children: the centres of its
/// first and its last child lie as far to its left as to its right, but
/// for the one unit that halving may lose.
pub proof fn lemma_parent_centred(t: Tree, gap: int)
    requires
        t.kids.len() > 0,
    ensures
        0 <= kid_offset(t, gap, 0) + kid_offset(t, gap, t.kids.len() - 1) <= 1,
{
    let last = t.kids.len() - 1;
    lemma_siblings_tight(t, gap, 0);
    lemma_offset_at(t.kids, gap, last);
    let before = group(t.kids.subrange(0, last), gap).merged;
    let next = contour(t.kids[last], gap);
    lemma_shift_clears(before, next, gap, shared_levels(before, next));
}

/// Siblings never overlap: for any two children of a node, on every level
/// that their subtrees share, the subtree of the child further right
/// begins at least one gap after the subtree of the other ends.
pub proof fn lemma_siblings_apart(t: Tree, gap: int, i: int, j: int, d: int)
    requires
        0 <= i < j < t.kids.len(),
        0 <= d < contour(t.kids[i], gap).len(),
        d < contour(t.kids[j], gap).len(),
    ensures
        kid_offset(t, gap, i) + contour(t.kids[i], gap)[d].1 + gap <= kid_offset(t, gap, j)
            + contour(t.kids[j], gap)[d].0,
{
    lemma_row_packed(t.kids, gap);
    assert(right_edge(t.kids, gap, i, d) + gap <= left_edge(t.kids, gap, j, d));
}

/// Every node of the graph gets exactly one position, whatever the wires
/// are, and nothing else gets one.
pub proof fn lemma_layout_total<T>(g: GraphView<T>, config: LayoutConfig, shapes: Seq<NodeShape>)
    ensures
        forall|id: NodeId| layout_of(g, config, shapes).dom().contains(id) <==> g.contains(id),
{
}

/// Where the layout puts a node of the forest: the node at the end of
/// `path` in tree `k` lies as far right of the start as the trees before
/// its tree take, plus half the width that its own tree takes, plus the
/// offsets on the way down the path, less half its own width; and as far
/// below the start as the nodes above it reach. The corner is the one
/// before it is pulled into the coordinate range.
pub proof fn lemma_reached_at<T>(
    g: GraphView<T>,
    config: LayoutConfig,
    shapes: Seq<NodeShape>,
    k: int,
    path: Seq<int>,
)
    requires
        0 <= k < forest_of(g, config, shapes).len(),
        on_path(forest_of(g, config, shapes)[k], path),
    ensures
        reached(g, config, shapes).dom().contains(
            descend(forest_of(g, config, shapes)[k], path).node,
        ),
        reached(g, config, shapes)[descend(forest_of(g, config, shapes)[k], path).node] == (
            config.start_pos.x + cursor(
                forest_of(g, config, shapes).subrange(0, k),
                config.horizontal_spacing as int,
            ) + tree_width(forest_of(g, config, shapes)[k], config.horizontal_spacing as int) / 2
                + centre_at(forest_of(g, config, shapes)[k], config.horizontal_spacing as int, path)
                - descend(forest_of(g, config, shapes)[k], path).width / 2,
            config.start_pos.y + top_at(
                forest_of(g, config, shapes)[k],
                config.vertical_spacing as int,
                path,
            ),
        ),
{
    let net = net_of(g, config, shapes);
    let roots = roots_below(g, shapes, g.nodes.len() as int);
    let marks = empty_slots(g);
    let gap = config.horizontal_spacing as int;
    let drop = config.vertical_spacing as int;
    let start = (config.start_pos.x as int, config.start_pos.y as int);
    let trees = forest_of(g, config, shapes);
    lemma_grow_row_distinct(net, roots, marks, MAX_DEPTH as nat);
    lemma_path_node(trees[k], path);
    lemma_place_forest_at(trees, gap, drop, start, k, descend(trees[k], path).node);
    lemma_place_at(
        trees[k],
        gap,
        drop,
        start.0 + cursor(trees.subrange(0, k), gap) + tree_width(trees[k], gap) / 2,
        start.1,
        path,
    );
}

/// No two nodes on one level of a tree of the forest overlap: where two
/// paths of the same length part, the node at the end of the path that
/// turns to the child further left ends at least one gap before the node
/// at the end of the other path begins. The corners are those before they
/// are pulled into the coordinate range.
pub proof fn lemma_layout_level_apart<T>(
    g: GraphView<T>,
    config: LayoutConfig,
    shapes: Seq<NodeShape>,
    k: int,
    shared: Seq<int>,
    i: int,
    j: int,
    left: Seq<int>,
    right: Seq<int>,
)
    requires
        0 <= k < forest_of(g, config, shapes).len(),
        i < j,
        left.len() == right.len(),
        on_path(forest_of(g, config, shapes)[k], shared.push(i) + left),
        on_path(forest_of(g, config, shapes)[k], shared.push(j) + right),
    ensures
        reached(g, config, shapes)[descend(
            forest_of(g, config, shapes)[k],
            shared.push(i) + left,
        ).node].0 + descend(forest_of(g, config, shapes)[k], shared.push(i) + left).width
            + config.horizontal_spacing <= reached(g, config, shapes)[descend(
            forest_of(g, config, shapes)[k],
            shared.push(j) + right,
        ).node].0,
{
    let t = forest_of(g, config, shapes)[k];
    let gap = config.horizontal_spacing as int;
    lemma_reached_at(g, config, shapes, k, shared.push(i) + left);
    lemma_reached_at(g, config, shapes, k, shared.push(j) + right);
    lemma_level_apart(t, gap, shared, i, j, left, right);
    assert(right_of(t, gap, shared.push(i) + left) + gap <= left_of(
        t,
        gap,
        shared.push(j) + right,
    ));
}

/// The trees of the forest stand side by side: the root of each tree is
/// placed on the start line, and the root of the next tree begins at least
/// one gap after it ends. The corners are those before they are pulled
/// into the coordinate range.
pub proof fn lemma_trees_apart<T>(
    g: GraphView<T>,
    config: LayoutConfig,
    shapes: Seq<NodeShape>,
    k: int,
)
    requires
        0 <= k,
        k + 1 < forest_of(g, config, shapes).len(),
    ensures
        reached(g, config, shapes).dom().contains(forest_of(g, config, shapes)[k].node),
        reached(g, config, shapes).dom().contains(forest_of(g, config, shapes)[k + 1].node),
        reached(g, config, shapes)[forest_of(g, config, shapes)[k].node].1 == config.start_pos.y,
        reached(g, config, shapes)[forest_of(g, config, shapes)[k + 1].node].1
            == config.start_pos.y,
        forest_of(g, config, shapes)[k].width == size_of(
            config,
            shapes,
            forest_of(g, config, shapes)[k].node,
        ).width,
        reached(g, config, shapes)[forest_of(g, config, shapes)[k + 1].node].0 >= reached(
            g,
            config,
            shapes,
        )[forest_of(g, config, shapes)[k].node].0 + forest_of(g, config, shapes)[k].width
            + config.horizontal_spacing,
{
    let net = net_of(g, config, shapes);
    let roots = roots_below(g, shapes, g.nodes.len() as int);
    let marks = empty_slots(g);
    let gap = config.horizontal_spacing as int;
    let drop = config.vertical_spacing as int;
    let start = (config.start_pos.x as int, config.start_pos.y as int);
    let trees = forest_of(g, config, shapes);
    lemma_grow_row(net, roots, marks, MAX_DEPTH as nat);
    let root = Seq::<int>::empty();
    lemma_reached_at(g, config, shapes, k, root);
    lemma_reached_at(g, config, shapes, k + 1, root);
    let a = trees[k];
    let b = trees[k + 1];
    let (al, ar) = lemma_contour_extent(a, gap, u32::MAX as int, u32::MAX as int);
    lemma_widest(contour(a, gap), -al, ar);
    let (bl, br) = lemma_contour_extent(b, gap, u32::MAX as int, u32::MAX as int);
    lemma_widest(contour(b, gap), -bl, br);
    assert(contour(a, gap)[0].1 - contour(a, gap)[0].0 <= tree_width(a, gap));
    assert(contour(b, gap)[0].1 - contour(b, gap)[0].0 <= tree_width(b, gap));
    assert(trees.subrange(0, k + 1).drop_last() =~= trees.subrange(0, k));
    assert(trees.subrange(0, k + 1).last() == a);
    assert(cursor(trees.subrange(0, k + 1), gap) == cursor(trees.subrange(0, k), gap) + tree_width(
        a,
        gap,
    ) + gap);
}

/// A node that occurs in a children list has a counted wire that enters
/// it.
pub proof fn lemma_child_has_incoming<T>(
    g: GraphView<T>,
    config: LayoutConfig,
    shapes: Seq<NodeShape>,
    x: int,
)
    requires
        g.wf(),
        0 <= x < g.nodes.len(),
        is_child(net_of(g, config, shapes), x),
    ensures
        has_incoming(g, shapes, NodeId(x as usize)),
{
    let net = net_of(g, config, shapes);
    let (u, i) = choose|u: int, i: int|
        0 <= u < net.children.len() && 0 <= i < net.children[u].len() && (
        #[trigger] net.children[u][i]).0 == x;
    let from = NodeId(u as usize);
    let kept = g.wires.filter(counted_from(shapes, from));
    assert(net.children[u] == children_of(g, shapes, from));
    let w = kept[i];
    lemma_filter_members(g.wires, counted_from(shapes, from));
    assert(kept.contains(w));
    assert(w.in_pin.node == NodeId(x as usize));
    let into = counted_into(shapes, NodeId(x as usize));
    lemma_filter_members(g.wires, into);
    assert(into(w));
    assert(g.wires.filter(into).contains(w));
}

/// Whether `id` is a root in a slot below `upto`.
pub open spec fn root_under<T>(g: GraphView<T>, shapes: Seq<NodeShape>, id: NodeId, upto: int) -> bool {
    id.0 < upto && is_root(g, shapes, id)
}

/// The roots below `upto` are roots, and they lie in slots below `upto`.
pub proof fn lemma_roots_below<T>(g: GraphView<T>, shapes: Seq<NodeShape>, upto: int)
    requires
        upto <= g.nodes.len() <= usize::MAX,
    ensures
        forall|j: int|
            0 <= j < roots_below(g, shapes, upto).len() ==> root_under(
                g,
                shapes,
                #[trigger] roots_below(g, shapes, upto)[j],
                upto,
            ),
    decreases upto,
{
    if upto > 0 {
        lemma_roots_below(g, shapes, upto - 1);
        let rest = roots_below(g, shapes, upto - 1);
        let all = roots_below(g, shapes, upto);
        assert forall|j: int| 0 <= j < all.len() implies root_under(
            g,
            shapes,
            #[trigger] all[j],
            upto,
        ) by {
            if j < rest.len() {
                assert(root_under(g, shapes, rest[j], upto - 1));
            }
        }
    }
}

/// The trees of the forest that is grown from the roots below `upto` are
/// rooted in exactly these roots, in the same order.
pub proof fn lemma_forest_upto<T>(
    g: GraphView<T>,
    config: LayoutConfig,
    shapes: Seq<NodeShape>,
    upto: int,
)
    requires
        g.wf(),
        0 <= upto <= g.nodes.len(),
    ensures
        grow_row(
            net_of(g, config, shapes),
            roots_below(g, shapes, upto),
            empty_slots(g),
            MAX_DEPTH as nat,
        ).0.len() == roots_below(g, shapes, upto).len(),
        forall|k: int|
            0 <= k < roots_below(g, shapes, upto).len() ==> (#[trigger] grow_row(
                net_of(g, config, shapes),
                roots_below(g, shapes, upto),
                empty_slots(g),
                MAX_DEPTH as nat,
            ).0[k]).node == roots_below(g, shapes, upto)[k],
    decreases upto,
{
    let net = net_of(g, config, shapes);
    let marks = empty_slots(g);
    let depth = MAX_DEPTH as nat;
    if upto > 0 {
        lemma_forest_upto(g, config, shapes, upto - 1);
        let rest = roots_below(g, shapes, upto - 1);
        let r = NodeId((upto - 1) as usize);
        if is_root(g, shapes, r) {
            let roots = roots_below(g, shapes, upto);
            assert(roots == rest.push(r));
            assert(roots.drop_last() =~= rest);
            let before = grow_row(net, rest, marks, depth);
            lemma_grow_row_marks(net, rest, marks, depth);
            lemma_grow_row(net, rest, marks, depth);
            lemma_roots_below(g, shapes, upto - 1);
            if before.1[r.0 as int] {
                if is_child(net, r.0 as int) {
                    lemma_child_has_incoming(g, config, shapes, r.0 as int);
                }
                if is_candidate(rest, r.0 as int) {
                    let j = choose|j: int| 0 <= j < rest.len() && (#[trigger] rest[j]).0 == r.0;
                    assert(root_under(g, shapes, rest[j], upto - 1));
                }
                assert(false);
            }
            lemma_grow(net, r, before.1, (depth - 1) as nat);
        }
    }
}

/// The forest has one tree for each root of the graph, in ascending order
/// of the roots' ids: a node that no counted wire enters is never taken
/// into the tree of another node.
pub proof fn lemma_forest_is_roots<T>(g: GraphView<T>, config: LayoutConfig, shapes: Seq<NodeShape>)
    requires
        g.wf(),
    ensures
        forest_of(g, config, shapes).len() == roots_below(g, shapes, g.nodes.len() as int).len(),
        forall|k: int|
            0 <= k < forest_of(g, config, shapes).len() ==> (#[trigger] forest_of(
                g,
                config,
                shapes,
            )[k]).node == roots_below(g, shapes, g.nodes.len() as int)[k],
{
    lemma_forest_upto(g, config, shapes, g.nodes.len() as int);
}

/// Roots never overlap: each root of the graph is placed on the start
/// line, and the root with the next larger id begins at least one gap
/// after it ends. Two nodes without wires, laid out together, are such
/// roots. The corners are those before they are pulled into the
/// coordinate range.
pub proof fn lemma_roots_apart<T>(
    g: GraphView<T>,
    config: LayoutConfig,
    shapes: Seq<NodeShape>,
    k: int,
)
    requires
        g.wf(),
        0 <= k,
        k + 1 < roots_below(g, shapes, g.nodes.len() as int).len(),
    ensures
        reached(g, config, shapes).dom().contains(
            roots_below(g, shapes, g.nodes.len() as int)[k],
        ),
        reached(g, config, shapes).dom().contains(
            roots_below(g, shapes, g.nodes.len() as int)[k + 1],
        ),
        reached(g, config, shapes)[roots_below(g, shapes, g.nodes.len() as int)[k]].1
            == config.start_pos.y,
        reached(g, config, shapes)[roots_below(g, shapes, g.nodes.len() as int)[k + 1]].1
            == config.start_pos.y,
        reached(g, config, shapes)[roots_below(g, shapes, g.nodes.len() as int)[k + 1]].0
            >= reached(g, config, shapes)[roots_below(g, shapes, g.nodes.len() as int)[k]].0
            + size_of(config, shapes, roots_below(g, shapes, g.nodes.len() as int)[k]).width
            + config.horizontal_spacing,
{
    lemma_forest_is_roots(g, config, shapes);
    lemma_trees_apart(g, config, shapes, k);
    let trees = forest_of(g, config, shapes);
    assert(trees[k].node == roots_below(g, shapes, g.nodes.len() as int)[k]);
    assert(trees[k + 1].node == roots_below(g, shapes, g.nodes.len() as int)[k + 1]);
}

/// A graph without roots is not laid out: every node gets the start
/// position.
pub proof fn lemma_rootless_at_start<T>(
    g: GraphView<T>,
    config: LayoutConfig,
    shapes: Seq<NodeShape>,
    id: NodeId,
)
    requires
        g.wf(),
        roots_below(g, shapes, g.nodes.len() as int).len() == 0,
        g.contains(id),
    ensures
        layout_of(g, config, shapes)[id] == config.start_pos,
{
    lemma_forest_is_roots(g, config, shapes);
    let trees = forest_of(g, config, shapes);
    assert(trees.len() == 0);
}

} // verus!
