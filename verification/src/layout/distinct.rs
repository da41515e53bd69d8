//! Every node is placed once: the trees that grow from a graph share no
//! node, and a placement gives each node the corner that its place in the
//! tree asks for.

use vstd::prelude::*;
use crate::graph::NodeId;
use crate::layout::forest::added;
use crate::layout::forest::grow;
use crate::layout::forest::grow_row;
use crate::layout::forest::lemma_grow;
use crate::layout::forest::lemma_grow_row;
use crate::layout::forest::Net;
use crate::layout::levels::centre_at;
use crate::layout::levels::descend;
use crate::layout::levels::lemma_path_split;
use crate::layout::levels::on_path;
use crate::layout::tree::apart;
use crate::layout::tree::cursor;
use crate::layout::tree::distinct;
use crate::layout::tree::kid_offset;
use crate::layout::tree::lemma_nodes_all;
use crate::layout::tree::nodes;
use crate::layout::tree::nodes_all;
use crate::layout::tree::place;
use crate::layout::tree::place_forest;
use crate::layout::tree::place_kids;
use crate::layout::tree::tree_width;
use crate::layout::tree::Tree;

verus! {

/// A node of a subtree that was added between two states of the marks was
/// unmarked in the first and is marked in the second.
pub proof fn lemma_added_nodes(t: Tree, before: Seq<bool>, after: Seq<bool>, x: NodeId)
    requires
        added(t, before, after),
        nodes(t).contains(x),
    ensures
        x.0 < before.len(),
        !before[x.0 as int],
        after[x.0 as int],
    decreases t,
{
    if x != t.node {
        lemma_nodes_all(t.kids, x);
        let i = choose|i: int| 0 <= i < t.kids.len() && nodes(#[trigger] t.kids[i]).contains(x);
        lemma_added_nodes(t.kids[i], before, after, x);
    }
}

/// A subtree contains the node at the end of each of its paths.
pub proof fn lemma_path_node(t: Tree, path: Seq<int>)
    requires
        on_path(t, path),
    ensures
        nodes(t).contains(descend(t, path).node),
    decreases path.len(),
{
    if path.len() > 0 {
        let first = path[0];
        let rest = path.subrange(1, path.len() as int);
        assert(path =~= seq![first] + rest);
        lemma_path_split(t, 0, seq![first], rest);
        assert(seq![first].drop_last() =~= Seq::<int>::empty());
        assert(descend(t, seq![first]) == t.kids[first]);
        lemma_path_node(t.kids[first], rest);
        lemma_nodes_all(t.kids, descend(t, path).node);
    }
}

/// A grown subtree holds no node twice.
pub proof fn lemma_grow_distinct(net: Net, u: NodeId, seen: Seq<bool>, depth: nat)
    requires
        net.wf(),
        seen.len() == net.slots(),
        u.0 < seen.len(),
        !seen[u.0 as int],
    ensures
        distinct(grow(net, u, seen, depth).0),
    decreases depth, 1nat, 0nat,
{
    let seen1 = seen.update(u.0 as int, true);
    let t = grow(net, u, seen, depth).0;
    lemma_grow(net, u, seen, depth);
    lemma_grow_row_distinct(net, net.children[u.0 as int], seen1, depth);
    assert forall|i: int| 0 <= i < t.kids.len() implies !nodes(#[trigger] t.kids[i]).contains(
        t.node,
    ) by {
        if nodes(t.kids[i]).contains(t.node) {
            lemma_added_nodes(t.kids[i], seen1, grow(net, u, seen, depth).1, t.node);
        }
    }
}

/// The subtrees of a grown row hold no node twice and share no node.
pub proof fn lemma_grow_row_distinct(net: Net, cand: Seq<NodeId>, seen: Seq<bool>, depth: nat)
    requires
        net.wf(),
        seen.len() == net.slots(),
    ensures
        apart(grow_row(net, cand, seen, depth).0),
        forall|i: int|
            0 <= i < grow_row(net, cand, seen, depth).0.len() ==> distinct(
                #[trigger] grow_row(net, cand, seen, depth).0[i],
            ),
    decreases depth, 0nat, cand.len(),
{
    if cand.len() > 0 {
        let rest = cand.drop_last();
        lemma_grow_row_distinct(net, rest, seen, depth);
        lemma_grow_row(net, rest, seen, depth);
        let before = grow_row(net, rest, seen, depth);
        let v = cand.last();
        if depth == 0 || v.0 >= before.1.len() || before.1[v.0 as int] {
        } else {
            let sub = grow(net, v, before.1, (depth - 1) as nat);
            lemma_grow(net, v, before.1, (depth - 1) as nat);
            lemma_grow_distinct(net, v, before.1, (depth - 1) as nat);
            let out = grow_row(net, cand, seen, depth).0;
            assert(out == before.0.push(sub.0));
            assert forall|i: int, j: int| 0 <= i < j < out.len() implies nodes(
                #[trigger] out[i],
            ).disjoint(nodes(#[trigger] out[j])) by {
                if j < before.0.len() {
                    assert(out[i] == before.0[i]);
                    assert(out[j] == before.0[j]);
                } else {
                    assert(out[i] == before.0[i]);
                    assert forall|x: NodeId| nodes(out[i]).contains(x) implies !nodes(
                        out[j],
                    ).contains(x) by {
                        lemma_added_nodes(before.0[i], seen, before.1, x);
                        if nodes(sub.0).contains(x) {
                            lemma_added_nodes(sub.0, before.1, sub.1, x);
                        }
                    }
                }
            }
            assert forall|i: int| 0 <= i < out.len() implies distinct(#[trigger] out[i]) by {
                if i < before.0.len() {
                    assert(out[i] == before.0[i]);
                }
            }
        }
    }
}

/// A placement covers exactly the nodes of the subtree.
pub proof fn lemma_place_nodes(t: Tree, gap: int, drop: int, cx: int, y: int)
    ensures
        place(t, gap, drop, cx, y).dom() == nodes(t),
    decreases t, t.kids.len() + 1,
{
    lemma_place_kids_nodes(t, gap, drop, cx, y + t.height + drop, t.kids.len() as int);
    assert(t.kids.subrange(0, t.kids.len() as int) =~= t.kids);
    assert(place(t, gap, drop, cx, y).dom() =~= nodes(t));
}

/// The placement of the first `upto` children of a node covers exactly
/// the nodes of their subtrees.
pub proof fn lemma_place_kids_nodes(t: Tree, gap: int, drop: int, cx: int, y: int, upto: int)
    requires
        0 <= upto <= t.kids.len(),
    ensures
        place_kids(t, gap, drop, cx, y, upto).dom() == nodes_all(t.kids.subrange(0, upto)),
    decreases t, upto,
{
    if upto > 0 {
        lemma_place_kids_nodes(t, gap, drop, cx, y, upto - 1);
        lemma_place_nodes(t.kids[upto - 1], gap, drop, cx + kid_offset(t, gap, upto - 1), y);
        assert(t.kids.subrange(0, upto).drop_last() =~= t.kids.subrange(0, upto - 1));
        assert(t.kids.subrange(0, upto).last() == t.kids[upto - 1]);
        assert(place_kids(t, gap, drop, cx, y, upto).dom() =~= nodes_all(
            t.kids.subrange(0, upto),
        ));
    } else {
        assert(place_kids(t, gap, drop, cx, y, upto).dom() =~= nodes_all(
            t.kids.subrange(0, upto),
        ));
    }
}

/// The placement of a row of trees covers exactly the nodes of the trees.
pub proof fn lemma_place_forest_nodes(trees: Seq<Tree>, gap: int, drop: int, start: (int, int))
    ensures
        place_forest(trees, gap, drop, start).dom() == nodes_all(trees),
    decreases trees.len(),
{
    if trees.len() > 0 {
        lemma_place_forest_nodes(trees.drop_last(), gap, drop, start);
        lemma_place_nodes(
            trees.last(),
            gap,
            drop,
            start.0 + cursor(trees.drop_last(), gap) + tree_width(trees.last(), gap) / 2,
            start.1,
        );
    }
    assert(place_forest(trees, gap, drop, start).dom() =~= nodes_all(trees));
}

/// How far below the top of `t` the top of the node at the end of `path`
/// lies: each node on the way takes its height and one drop.
pub open spec fn top_at(t: Tree, drop: int, path: Seq<int>) -> int
    decreases path.len(),
{
    if path.len() == 0 {
        0
    } else {
        top_at(t, drop, path.drop_last()) + descend(t, path.drop_last()).height + drop
    }
}

/// The depth of a path that is walked in two parts is the sum of the
/// depths of the parts.
pub proof fn lemma_top_split(t: Tree, drop: int, first: Seq<int>, rest: Seq<int>)
    ensures
        top_at(t, drop, first + rest) == top_at(t, drop, first) + top_at(
            descend(t, first),
            drop,
            rest,
        ),
    decreases rest.len(),
{
    if rest.len() == 0 {
        assert(first + rest =~= first);
    } else {
        lemma_top_split(t, drop, first, rest.drop_last());
        lemma_path_split(t, 0, first, rest.drop_last());
        assert((first + rest).drop_last() =~= first + rest.drop_last());
    }
}

/// Among the children of a node in which no node occurs twice, a node of
/// the subtree of child `i` is placed where the placement of that subtree
/// puts it.
pub proof fn lemma_place_kids_at(
    t: Tree,
    gap: int,
    drop: int,
    cx: int,
    y: int,
    upto: int,
    i: int,
    x: NodeId,
)
    requires
        apart(t.kids),
        0 <= i < upto <= t.kids.len(),
        nodes(t.kids[i]).contains(x),
    ensures
        place_kids(t, gap, drop, cx, y, upto).dom().contains(x),
        place_kids(t, gap, drop, cx, y, upto)[x] == place(
            t.kids[i],
            gap,
            drop,
            cx + kid_offset(t, gap, i),
            y,
        )[x],
    decreases upto,
{
    lemma_place_nodes(t.kids[upto - 1], gap, drop, cx + kid_offset(t, gap, upto - 1), y);
    if i < upto - 1 {
        lemma_place_kids_at(t, gap, drop, cx, y, upto - 1, i, x);
        assert(nodes(t.kids[i]).disjoint(nodes(t.kids[upto - 1])));
    }
}

/// In a subtree in which no node occurs twice, the node at the end of a
/// path is placed where the path leads: as far right of the root's centre
/// as the offsets on the way add up to, less half its width, and as far
/// down as the nodes above it reach.
pub proof fn lemma_place_at(t: Tree, gap: int, drop: int, cx: int, y: int, path: Seq<int>)
    requires
        distinct(t),
        on_path(t, path),
    ensures
        place(t, gap, drop, cx, y).dom().contains(descend(t, path).node),
        place(t, gap, drop, cx, y)[descend(t, path).node] == (
            cx + centre_at(t, gap, path) - descend(t, path).width / 2,
            y + top_at(t, drop, path),
        ),
    decreases path.len(),
{
    let below = place_kids(t, gap, drop, cx, y + t.height + drop, t.kids.len() as int);
    lemma_place_kids_nodes(t, gap, drop, cx, y + t.height + drop, t.kids.len() as int);
    assert(t.kids.subrange(0, t.kids.len() as int) =~= t.kids);
    if path.len() == 0 {
        if below.dom().contains(t.node) {
            lemma_nodes_all(t.kids, t.node);
        }
    } else {
        let i = path[0];
        let rest = path.subrange(1, path.len() as int);
        assert(path =~= seq![i] + rest);
        lemma_path_split(t, gap, seq![i], rest);
        lemma_top_split(t, drop, seq![i], rest);
        assert(seq![i].drop_last() =~= Seq::<int>::empty());
        assert(descend(t, seq![i]) == t.kids[i]);
        assert(seq![i].last() == i);
        assert(descend(t, Seq::<int>::empty()) == t);
        assert(centre_at(t, gap, Seq::<int>::empty()) == 0);
        assert(top_at(t, drop, Seq::<int>::empty()) == 0);
        assert(centre_at(t, gap, seq![i]) == kid_offset(t, gap, i));
        assert(top_at(t, drop, seq![i]) == t.height + drop);
        let v = descend(t, path);
        lemma_path_node(t.kids[i], rest);
        lemma_place_at(
            t.kids[i],
            gap,
            drop,
            cx + kid_offset(t, gap, i),
            y + t.height + drop,
            rest,
        );
        lemma_place_kids_at(
            t,
            gap,
            drop,
            cx,
            y + t.height + drop,
            t.kids.len() as int,
            i,
            v.node,
        );
    }
}

/// In a row of trees that share no node, a node of tree `k` is placed
/// where the placement of that tree puts it.
pub proof fn lemma_place_forest_at(
    trees: Seq<Tree>,
    gap: int,
    drop: int,
    start: (int, int),
    k: int,
    x: NodeId,
)
    requires
        apart(trees),
        0 <= k < trees.len(),
        nodes(trees[k]).contains(x),
    ensures
        place_forest(trees, gap, drop, start).dom().contains(x),
        place_forest(trees, gap, drop, start)[x] == place(
            trees[k],
            gap,
            drop,
            start.0 + cursor(trees.subrange(0, k), gap) + tree_width(trees[k], gap) / 2,
            start.1,
        )[x],
    decreases trees.len(),
{
    let last = trees.len() - 1;
    lemma_place_nodes(
        trees[last],
        gap,
        drop,
        start.0 + cursor(trees.drop_last(), gap) + tree_width(trees[last], gap) / 2,
        start.1,
    );
    if k < last {
        let rest = trees.drop_last();
        assert forall|i: int, j: int| 0 <= i < j < rest.len() implies nodes(
            #[trigger] rest[i],
        ).disjoint(nodes(#[trigger] rest[j])) by {
            assert(rest[i] == trees[i]);
            assert(rest[j] == trees[j]);
        }
        assert(rest[k] == trees[k]);
        lemma_place_forest_at(rest, gap, drop, start, k, x);
        assert(rest.subrange(0, k) =~= trees.subrange(0, k));
        assert(nodes(trees[k]).disjoint(nodes(trees[last])));
    } else {
        assert(trees.subrange(0, k) =~= trees.drop_last());
    }
}

} // verus!
