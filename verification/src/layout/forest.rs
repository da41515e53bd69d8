//! From a graph to the forest that is laid out.
//!
//! The wires of a graph need not form a tree. The forest is grown depth
//! first: a node becomes the child of the first node that reaches it, and
//! no branch grows deeper than the depth that was asked for.

use vstd::prelude::*;
use crate::geometry::Size;
use crate::graph::NodeId;
use crate::layout::tree::fits;
use crate::layout::tree::levels;
use crate::layout::tree::levels_all;
use crate::layout::tree::size;
use crate::layout::tree::size_all;
use crate::layout::tree::Tree;

verus! {

/// What the walk reads of a graph: for each arena slot the nodes that the
/// counted wires from its node lead to, in wire order, and the size of
/// the node.
pub struct Net {
    pub children: Seq<Seq<NodeId>>,
    pub sizes: Seq<Size>,
}

impl Net {
    /// Both sequences have one entry for each arena slot.
    pub open spec fn wf(self) -> bool {
        self.children.len() == self.sizes.len()
    }

    /// The number of arena slots.
    pub open spec fn slots(self) -> nat {
        self.sizes.len()
    }
}

/// The number of marks set in `seen`.
pub open spec fn count_seen(seen: Seq<bool>) -> nat
    decreases seen.len(),
{
    if seen.len() == 0 {
        0
    } else {
        count_seen(seen.drop_last()) + if seen.last() {
            1nat
        } else {
            0nat
        }
    }
}

/// Whether every mark of `a` is also set in `b`.
pub open spec fn marks_kept(a: Seq<bool>, b: Seq<bool>) -> bool {
    &&& a.len() == b.len()
    &&& forall|i: int| 0 <= i < a.len() && a[i] ==> b[i]
}

/// Whether every node of the subtree names a slot that is unmarked in
/// `before` and marked in `after`.
pub open spec fn added(t: Tree, before: Seq<bool>, after: Seq<bool>) -> bool
    decreases t,
{
    &&& before.len() == after.len()
    &&& t.node.0 < before.len()
    &&& !before[t.node.0 as int]
    &&& after[t.node.0 as int]
    &&& forall|i: int| 0 <= i < t.kids.len() ==> added(#[trigger] t.kids[i], before, after)
}

/// The subtree that grows from node `u`, and the marks after it has grown.
/// `seen` marks the nodes that belong to a subtree already, `depth` is the
/// number of levels that may grow below `u`.
pub open spec fn grow(net: Net, u: NodeId, seen: Seq<bool>, depth: nat) -> (Tree, Seq<bool>)
    decreases depth, 1nat, 0nat,
{
    let row = grow_row(net, net.children[u.0 as int], seen.update(u.0 as int, true), depth);
    (
        Tree {
            node: u,
            width: net.sizes[u.0 as int].width as int,
            height: net.sizes[u.0 as int].height as int,
            kids: row.0,
        },
        row.1,
    )
}

/// The subtrees that grow from the candidates `cand`, taken from left to
/// right, and the marks after they have grown. A candidate that is marked
/// when its turn comes, or that names no slot, grows nothing; with
/// `depth` 0 nothing grows at all.
pub open spec fn grow_row(net: Net, cand: Seq<NodeId>, seen: Seq<bool>, depth: nat) -> (
    Seq<Tree>,
    Seq<bool>,
)
    decreases depth, 0nat, cand.len(),
{
    if cand.len() == 0 {
        (Seq::empty(), seen)
    } else {
        let before = grow_row(net, cand.drop_last(), seen, depth);
        let v = cand.last();
        if depth == 0 || v.0 >= before.1.len() || before.1[v.0 as int] {
            before
        } else {
            let sub = grow(net, v, before.1, (depth - 1) as nat);
            (before.0.push(sub.0), sub.1)
        }
    }
}

/// Setting a mark that was not set raises the count by one.
pub proof fn lemma_count_mark(seen: Seq<bool>, i: int)
    requires
        0 <= i < seen.len(),
        !seen[i],
    ensures
        count_seen(seen.update(i, true)) == count_seen(seen) + 1,
    decreases seen.len(),
{
    let marked = seen.update(i, true);
    if i == seen.len() - 1 {
        assert(marked.drop_last() =~= seen.drop_last());
    } else {
        assert(marked.drop_last() =~= seen.drop_last().update(i, true));
        lemma_count_mark(seen.drop_last(), i);
    }
}

/// There are no more marks than slots.
pub proof fn lemma_count_bound(seen: Seq<bool>)
    ensures
        count_seen(seen) <= seen.len(),
    decreases seen.len(),
{
    if seen.len() > 0 {
        lemma_count_bound(seen.drop_last());
    }
}

/// Nodes that were added between two states of the marks were also added
/// between any earlier and any later state.
pub proof fn lemma_added_widen(t: Tree, a: Seq<bool>, b: Seq<bool>, a0: Seq<bool>, b1: Seq<bool>)
    requires
        added(t, a, b),
        marks_kept(a0, a),
        marks_kept(b, b1),
    ensures
        added(t, a0, b1),
    decreases t,
{
    assert forall|i: int| 0 <= i < t.kids.len() implies added(#[trigger] t.kids[i], a0, b1) by {
        lemma_added_widen(t.kids[i], a, b, a0, b1);
    }
}

/// Whether the root of `t` names a slot of the net and has the size that
/// the net gives it.
pub open spec fn root_sized(t: Tree, net: Net) -> bool {
    &&& t.node.0 < net.slots()
    &&& t.width == net.sizes[t.node.0 as int].width
    &&& t.height == net.sizes[t.node.0 as int].height
}

/// What holds of a grown subtree: its root is `u`; no mark is lost; each
/// of its nodes was unmarked before and is marked afterwards, the nodes
/// below the root even after the root was marked; it marks exactly as
/// many nodes as it has; it has at most `depth + 1` levels; and the sizes
/// of its nodes fit in 32 bits.
pub proof fn lemma_grow(net: Net, u: NodeId, seen: Seq<bool>, depth: nat)
    requires
        net.wf(),
        seen.len() == net.slots(),
        u.0 < seen.len(),
        !seen[u.0 as int],
    ensures
        grow(net, u, seen, depth).0.node == u,
        root_sized(grow(net, u, seen, depth).0, net),
        marks_kept(seen, grow(net, u, seen, depth).1),
        added(grow(net, u, seen, depth).0, seen, grow(net, u, seen, depth).1),
        forall|i: int|
            0 <= i < grow(net, u, seen, depth).0.kids.len() ==> added(
                #[trigger] grow(net, u, seen, depth).0.kids[i],
                seen.update(u.0 as int, true),
                grow(net, u, seen, depth).1,
            ),
        count_seen(grow(net, u, seen, depth).1) == count_seen(seen) + size(
            grow(net, u, seen, depth).0,
        ),
        levels(grow(net, u, seen, depth).0) <= depth + 1,
        fits(grow(net, u, seen, depth).0, u32::MAX as int, u32::MAX as int),
    decreases depth, 1nat, 0nat,
{
    let seen1 = seen.update(u.0 as int, true);
    lemma_count_mark(seen, u.0 as int);
    lemma_grow_row(net, net.children[u.0 as int], seen1, depth);
    let row = grow_row(net, net.children[u.0 as int], seen1, depth);
    let t = grow(net, u, seen, depth).0;
    assert(t.kids == row.0);
    assert forall|i: int| 0 <= i < t.kids.len() implies added(#[trigger] t.kids[i], seen, row.1) by {
        lemma_added_widen(t.kids[i], seen1, row.1, seen, row.1);
    }
    assert(size(t) == 1 + size_all(row.0));
    assert(levels(t) == 1 + levels_all(row.0));
}

/// What holds of a grown row of subtrees, see [`lemma_grow`].
pub proof fn lemma_grow_row(net: Net, cand: Seq<NodeId>, seen: Seq<bool>, depth: nat)
    requires
        net.wf(),
        seen.len() == net.slots(),
    ensures
        marks_kept(seen, grow_row(net, cand, seen, depth).1),
        forall|i: int|
            0 <= i < grow_row(net, cand, seen, depth).0.len() ==> root_sized(
                #[trigger] grow_row(net, cand, seen, depth).0[i],
                net,
            ),
        forall|i: int|
            0 <= i < grow_row(net, cand, seen, depth).0.len() ==> added(
                #[trigger] grow_row(net, cand, seen, depth).0[i],
                seen,
                grow_row(net, cand, seen, depth).1,
            ),
        count_seen(grow_row(net, cand, seen, depth).1) == count_seen(seen) + size_all(
            grow_row(net, cand, seen, depth).0,
        ),
        levels_all(grow_row(net, cand, seen, depth).0) <= depth,
        forall|i: int|
            0 <= i < grow_row(net, cand, seen, depth).0.len() ==> fits(
                #[trigger] grow_row(net, cand, seen, depth).0[i],
                u32::MAX as int,
                u32::MAX as int,
            ),
    decreases depth, 0nat, cand.len(),
{
    if cand.len() > 0 {
        lemma_grow_row(net, cand.drop_last(), seen, depth);
        let before = grow_row(net, cand.drop_last(), seen, depth);
        let v = cand.last();
        if depth == 0 || v.0 >= before.1.len() || before.1[v.0 as int] {
        } else {
            lemma_grow(net, v, before.1, (depth - 1) as nat);
            let sub = grow(net, v, before.1, (depth - 1) as nat);
            let out = grow_row(net, cand, seen, depth);
            assert(out.0 == before.0.push(sub.0));
            assert(out.0.drop_last() =~= before.0);
            assert(out.0.last() == sub.0);
            assert forall|i: int| 0 <= i < out.0.len() implies added(
                #[trigger] out.0[i],
                seen,
                out.1,
            ) by {
                if i < before.0.len() {
                    lemma_added_widen(before.0[i], seen, before.1, seen, sub.1);
                } else {
                    lemma_added_widen(sub.0, before.1, sub.1, seen, sub.1);
                }
            }
        }
    }
}

/// Whether slot `x` occurs in the children list of some slot.
pub open spec fn is_child(net: Net, x: int) -> bool {
    exists|u: int, i: int|
        0 <= u < net.children.len() && 0 <= i < net.children[u].len() && (
        #[trigger] net.children[u][i]).0 == x
}

/// Whether slot `x` occurs among the candidates.
pub open spec fn is_candidate(cand: Seq<NodeId>, x: int) -> bool {
    exists|j: int| 0 <= j < cand.len() && (#[trigger] cand[j]).0 == x
}

/// A growing subtree marks only its root and children of other nodes.
pub proof fn lemma_grow_marks(net: Net, u: NodeId, seen: Seq<bool>, depth: nat)
    requires
        net.wf(),
        seen.len() == net.slots(),
        u.0 < seen.len(),
    ensures
        forall|x: int|
            0 <= x < seen.len() && #[trigger] grow(net, u, seen, depth).1[x] ==> seen[x] || x == u.0
                || is_child(net, x),
    decreases depth, 1nat, 0nat,
{
    let seen1 = seen.update(u.0 as int, true);
    let cand = net.children[u.0 as int];
    lemma_grow_row_marks(net, cand, seen1, depth);
    assert forall|x: int|
        0 <= x < seen.len() && #[trigger] grow(net, u, seen, depth).1[x] implies seen[x] || x == u.0
        || is_child(net, x) by {
        if !seen1[x] && !is_child(net, x) {
            let j = choose|j: int| 0 <= j < cand.len() && (#[trigger] cand[j]).0 == x;
            assert(net.children[u.0 as int][j].0 == x);
        }
    }
}

/// A growing row of subtrees marks only candidates and children of other
/// nodes.
pub proof fn lemma_grow_row_marks(net: Net, cand: Seq<NodeId>, seen: Seq<bool>, depth: nat)
    requires
        net.wf(),
        seen.len() == net.slots(),
    ensures
        grow_row(net, cand, seen, depth).1.len() == seen.len(),
        forall|x: int|
            0 <= x < seen.len() && #[trigger] grow_row(net, cand, seen, depth).1[x] ==> seen[x]
                || is_candidate(cand, x) || is_child(net, x),
    decreases depth, 0nat, cand.len(),
{
    if cand.len() > 0 {
        let rest = cand.drop_last();
        lemma_grow_row_marks(net, rest, seen, depth);
        lemma_grow_row(net, rest, seen, depth);
        let before = grow_row(net, rest, seen, depth);
        let v = cand.last();
        let out = grow_row(net, cand, seen, depth);
        if depth == 0 || v.0 >= before.1.len() || before.1[v.0 as int] {
        } else {
            lemma_grow_marks(net, v, before.1, (depth - 1) as nat);
            lemma_grow(net, v, before.1, (depth - 1) as nat);
        }
        assert forall|x: int| 0 <= x < seen.len() && #[trigger] out.1[x] implies seen[x]
            || is_candidate(cand, x) || is_child(net, x) by {
            if !seen[x] && !is_child(net, x) {
                if before.1[x] {
                    let j = choose|j: int| 0 <= j < rest.len() && (#[trigger] rest[j]).0 == x;
                    assert(cand[j].0 == x);
                } else {
                    assert(cand[cand.len() - 1].0 == x);
                }
            }
        }
    }
}

} // verus!
