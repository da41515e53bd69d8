//! Tree layout: positions for the nodes of a graph, parents above their
//! children, siblings packed side by side without overlap.
//!
//! Which wires count is decided by the shapes of the nodes: a wire counts
//! when its source node has an output pin and its target node an input pin.
//! A node that no such wire enters is a root. The forest is grown from the
//! roots in ascending order of their ids, depth first: a node becomes the
//! child of the first node that reaches it, and no tree grows deeper than
//! [`MAX_DEPTH`] levels. Nodes that no tree reaches stay at the start
//! position.

use vstd::prelude::*;
use crate::geometry::Point;
use crate::geometry::Size;
use crate::graph::GraphView;
use crate::graph::Node;
use crate::graph::NodeId;
use crate::graph::Wire;
use crate::layout::contour::widest_level;
use crate::layout::extent::lemma_contour_extent;
use crate::layout::extent::lemma_reach_sum;
use crate::layout::extent::lemma_widest;
use crate::layout::forest::grow_row;
use crate::layout::forest::lemma_count_bound;
use crate::layout::forest::lemma_grow;
use crate::layout::forest::lemma_grow_row;
use crate::layout::forest::Net;
use crate::layout::net::build_net;
use crate::layout::distinct::lemma_added_nodes;
use crate::layout::distinct::lemma_place_forest_nodes;
use crate::layout::tree::lemma_nodes_all;
use crate::layout::tree::nodes;
use crate::layout::tree::contour;
use crate::layout::tree::cursor;
use crate::layout::tree::place;
use crate::layout::tree::place_forest;
use crate::layout::tree::size;
use crate::layout::tree::size_all;
use crate::layout::tree::Tree;
use crate::layout::walk::corner;
use crate::layout::walk::first_walk;
use crate::layout::walk::laid;
use crate::layout::walk::lemma_reach;
use crate::layout::walk::overlaid;
use crate::layout::walk::second_walk;
use crate::layout::walk::Plan;
use crate::store::Treeize;

pub use crate::layout::walk::MAX_DEPTH;

pub mod contour;
pub mod distinct;
pub mod extent;
pub mod forest;
pub mod laws;
pub mod levels;
pub mod net;
pub mod tree;
pub mod walk;

verus! {

/// Configuration of the tree layout.
#[derive(Clone, Copy, Debug, PartialEq, Eq, Structural)]
pub struct LayoutConfig {
    /// Horizontal gap between neighbouring subtrees.
    pub horizontal_spacing: u32,
    /// Vertical gap between a node and its children.
    pub vertical_spacing: u32,
    /// Top-left corner of the layout.
    pub start_pos: Point,
}

impl Default for LayoutConfig {
    fn default() -> (c: Self)
        ensures
            c == (LayoutConfig {
                horizontal_spacing: 200,
                vertical_spacing: 150,
                start_pos: Point { x: 0, y: 0 },
            }),
    {
        LayoutConfig {
            horizontal_spacing: 200,
            vertical_spacing: 150,
            start_pos: Point { x: 0, y: 0 },
        }
    }
}

/// What the layout needs to know of one node: whether it has an output
/// pin, whether it has an input pin, and its size if it was measured.
#[derive(Clone, Copy, Debug, PartialEq, Eq)]
pub struct NodeShape {
    pub has_output: bool,
    pub has_input: bool,
    pub size: Option<Size>,
}

/// Whether the shapes give node `id` an output pin. A node without a shape
/// has none.
pub open spec fn has_output(shapes: Seq<NodeShape>, id: NodeId) -> bool {
    id.0 < shapes.len() && shapes[id.0 as int].has_output
}

/// Whether the shapes give node `id` an input pin. A node without a shape
/// has none.
pub open spec fn has_input(shapes: Seq<NodeShape>, id: NodeId) -> bool {
    id.0 < shapes.len() && shapes[id.0 as int].has_input
}

/// The size of node `id`: the measured one, or horizontal by vertical
/// spacing where none was measured.
pub open spec fn size_of(config: LayoutConfig, shapes: Seq<NodeShape>, id: NodeId) -> Size {
    if id.0 < shapes.len() && shapes[id.0 as int].size is Some {
        shapes[id.0 as int].size->0
    } else {
        Size { width: config.horizontal_spacing, height: config.vertical_spacing }
    }
}

/// Whether wire `w` counts for the layout.
pub open spec fn joins(shapes: Seq<NodeShape>, w: Wire) -> bool {
    has_output(shapes, w.out_pin.node) && has_input(shapes, w.in_pin.node)
}

/// Keeps the wires that count and leave node `u`.
pub open spec fn counted_from(shapes: Seq<NodeShape>, u: NodeId) -> spec_fn(Wire) -> bool {
    |w: Wire| joins(shapes, w) && w.out_pin.node == u
}

/// Keeps the wires that count and enter node `v`.
pub open spec fn counted_into(shapes: Seq<NodeShape>, v: NodeId) -> spec_fn(Wire) -> bool {
    |w: Wire| joins(shapes, w) && w.in_pin.node == v
}

/// The node a wire enters.
pub open spec fn target_node() -> spec_fn(Wire) -> NodeId {
    |w: Wire| w.in_pin.node
}

/// The nodes that the counted wires from `u` lead to, in wire order. A
/// node occurs once for each such wire.
pub open spec fn children_of<T>(g: GraphView<T>, shapes: Seq<NodeShape>, u: NodeId) -> Seq<NodeId> {
    g.wires.filter(counted_from(shapes, u)).map_values(target_node())
}

/// Whether a counted wire enters node `v`.
pub open spec fn has_incoming<T>(g: GraphView<T>, shapes: Seq<NodeShape>, v: NodeId) -> bool {
    g.wires.filter(counted_into(shapes, v)).len() > 0
}

/// Whether node `id` is a root: it is in the graph and no counted wire
/// enters it.
pub open spec fn is_root<T>(g: GraphView<T>, shapes: Seq<NodeShape>, id: NodeId) -> bool {
    g.contains(id) && !has_incoming(g, shapes, id)
}

/// The roots among the nodes in the slots below `upto`, ascending.
pub open spec fn roots_below<T>(g: GraphView<T>, shapes: Seq<NodeShape>, upto: int) -> Seq<NodeId>
    decreases upto,
{
    if upto <= 0 {
        Seq::empty()
    } else if is_root(g, shapes, NodeId((upto - 1) as usize)) {
        roots_below(g, shapes, upto - 1).push(NodeId((upto - 1) as usize))
    } else {
        roots_below(g, shapes, upto - 1)
    }
}

/// What the walk reads of graph `g`.
pub open spec fn net_of<T>(g: GraphView<T>, config: LayoutConfig, shapes: Seq<NodeShape>) -> Net {
    Net {
        children: Seq::new(g.nodes.len(), |u: int| children_of(g, shapes, NodeId(u as usize))),
        sizes: Seq::new(g.nodes.len(), |u: int| size_of(config, shapes, NodeId(u as usize))),
    }
}

/// The marks before the walk: the empty slots are marked, so that the walk
/// passes them by.
pub open spec fn empty_slots<T>(g: GraphView<T>) -> Seq<bool> {
    Seq::new(g.nodes.len(), |i: int| g.nodes[i] is None)
}

/// The forest that is laid out.
pub open spec fn forest_of<T>(g: GraphView<T>, config: LayoutConfig, shapes: Seq<NodeShape>) -> Seq<
    Tree,
> {
    grow_row(
        net_of(g, config, shapes),
        roots_below(g, shapes, g.nodes.len() as int),
        empty_slots(g),
        MAX_DEPTH as nat,
    ).0
}

/// The exact corner of every node that the forest reaches.
pub open spec fn reached<T>(g: GraphView<T>, config: LayoutConfig, shapes: Seq<NodeShape>) -> Map<
    NodeId,
    (int, int),
> {
    place_forest(
        forest_of(g, config, shapes),
        config.horizontal_spacing as int,
        config.vertical_spacing as int,
        (config.start_pos.x as int, config.start_pos.y as int),
    )
}

/// The layout of graph `g`: every node of the graph has one position;
/// that of a node which the forest reaches is its exact corner, pulled
/// into the coordinate range, that of any other node is the start
/// position.
pub open spec fn layout_of<T>(g: GraphView<T>, config: LayoutConfig, shapes: Seq<NodeShape>) -> Map<
    NodeId,
    Point,
> {
    Map::new(
        |id: NodeId| g.contains(id),
        |id: NodeId|
            if reached(g, config, shapes).dom().contains(id) {
                corner(reached(g, config, shapes)[id])
            } else {
                config.start_pos
            },
    )
}

/// Positions for the nodes of a graph, by node id.
pub struct NodePositions {
    slots: Vec<Option<Point>>,
}

impl View for NodePositions {
    type V = Map<NodeId, Point>;

    closed spec fn view(&self) -> Map<NodeId, Point> {
        Map::new(
            |id: NodeId| id.0 < self.slots@.len() && self.slots@[id.0 as int] is Some,
            |id: NodeId| self.slots@[id.0 as int]->0,
        )
    }
}

impl NodePositions {
    /// The position of node `id`, if it has one.
    pub fn get(&self, id: NodeId) -> (p: Option<Point>)
        ensures
            p == if self@.dom().contains(id) {
                Some(self@[id])
            } else {
                None
            },
    {
        if id.0 < self.slots.len() {
            self.slots[id.0]
        } else {
            None
        }
    }

    /// The nodes that have a position, each with its position, in
    /// ascending order of their ids.
    pub fn entries(&self) -> (out: Vec<(NodeId, Point)>)
        ensures
            forall|i: int|
                0 <= i < out@.len() ==> self@.dom().contains((#[trigger] out@[i]).0) && self@[out@[i].0]
                    == out@[i].1,
            forall|id: NodeId|
                self@.dom().contains(id) ==> exists|i: int|
                    0 <= i < out@.len() && (#[trigger] out@[i]).0 == id,
            forall|i: int, j: int| 0 <= i < j < out@.len() ==> out@[i].0.0 < out@[j].0.0,
    {
        let mut out: Vec<(NodeId, Point)> = Vec::new();
        for x in 0..self.slots.len()
            invariant
                forall|i: int|
                    0 <= i < out@.len() ==> self@.dom().contains((#[trigger] out@[i]).0)
                        && self@[out@[i].0] == out@[i].1 && out@[i].0.0 < x,
                forall|id: NodeId|
                    self@.dom().contains(id) && id.0 < x ==> exists|i: int|
                        0 <= i < out@.len() && (#[trigger] out@[i]).0 == id,
                forall|i: int, j: int| 0 <= i < j < out@.len() ==> out@[i].0.0 < out@[j].0.0,
        {
            let ghost before = out@;
            match self.slots[x] {
                Some(p) => {
                    out.push((NodeId(x), p));
                    assert forall|id: NodeId| self@.dom().contains(id) && id.0 < x + 1 implies exists|
                        i: int,
                    |
                        0 <= i < out@.len() && (#[trigger] out@[i]).0 == id by {
                        if id.0 < x {
                            let i = choose|i: int|
                                0 <= i < before.len() && (#[trigger] before[i]).0 == id;
                            assert(out@[i].0 == id);
                        } else {
                            assert(out@[before.len() as int].0 == id);
                        }
                    }
                },
                None => {},
            }
        }
        out
    }

    /// One more than the largest id that can have a position.
    pub fn slot_count(&self) -> (n: usize)
        ensures
            forall|id: NodeId| self@.dom().contains(id) ==> id.0 < n,
    {
        self.slots.len()
    }
}

impl<T> GraphView<T> {
    /// The graph after each node whose slot lies below `upto` and that has
    /// a position in `positions` was put there.
    pub open spec fn arranged_upto(self, positions: Map<NodeId, Point>, upto: int) -> Self {
        GraphView {
            nodes: Seq::new(
                self.nodes.len(),
                |i: int|
                    if i < upto && self.nodes[i] is Some && positions.dom().contains(
                        NodeId(i as usize),
                    ) {
                        Some(
                            Node {
                                value: self.nodes[i]->0.value,
                                pos: positions[NodeId(i as usize)],
                                open: self.nodes[i]->0.open,
                            },
                        )
                    } else {
                        self.nodes[i]
                    },
            ),
            ..self
        }
    }

    /// The graph after each node that has a position in `positions` was
    /// put there. Positions of nodes that are not in the graph are passed
    /// over.
    pub open spec fn arranged(self, positions: Map<NodeId, Point>) -> Self {
        self.arranged_upto(positions, self.nodes.len() as int)
    }
}

/// Computes the layout of the graph. See the module text for the forest
/// that is laid out, and [`layout_of`] for the positions.
pub fn layout_tree<T>(treeize: &Treeize<T>, config: LayoutConfig, shapes: &Vec<NodeShape>) -> (positions:
    NodePositions)
    requires
        treeize.wf(),
    ensures
        positions@ == layout_of(treeize@, config, shapes@),
        forall|id: NodeId| positions@.dom().contains(id) <==> treeize@.contains(id),
{
    let n: usize = treeize.slot_count();
    let gap: u32 = config.horizontal_spacing;
    let (net, incoming) = build_net(treeize, &config, shapes);
    let mut seen: Vec<bool> = Vec::new();
    let mut branches: Vec<Vec<(usize, i128)>> = Vec::new();
    let mut slots: Vec<Option<Point>> = Vec::new();
    for u in 0..n
        invariant
            n == treeize@.nodes.len(),
            seen@.len() == u,
            branches@.len() == u,
            slots@.len() == u,
            forall|i: int| 0 <= i < u ==> #[trigger] seen@[i] == (treeize@.nodes[i] is None),
            forall|i: int|
                0 <= i < u ==> #[trigger] slots@[i] == if treeize@.nodes[i] is Some {
                    Some(config.start_pos)
                } else {
                    None
                },
    {
        let live: bool = treeize.contains(NodeId(u));
        seen.push(!live);
        branches.push(Vec::new());
        slots.push(if live {
            Some(config.start_pos)
        } else {
            None
        });
    }
    let mut plan = Plan { seen, branches };
    let mut shift: i128 = 0;
    let ghost g = treeize@;
    let ghost base = slots@;
    let ghost marks = empty_slots(g);
    let ghost start = (config.start_pos.x as int, config.start_pos.y as int);
    let ghost mut trees: Seq<Tree> = Seq::empty();
    proof {
        assert(plan.seen@ =~= marks);
        assert(slots@ =~= overlaid(
            base,
            place_forest(trees, gap as int, config.vertical_spacing as int, start),
        ));
        assert(size_all(trees) * (u32::MAX + gap) == 0) by (nonlinear_arith)
            requires
                size_all(trees) == 0,
        ;
    }
    for r in 0..n
        invariant
            g == treeize@,
            n == g.nodes.len(),
            gap == config.horizontal_spacing,
            marks == empty_slots(g),
            start == (config.start_pos.x as int, config.start_pos.y as int),
            net@ == net_of(g, config, shapes@),
            net@.wf(),
            net@.slots() == n,
            incoming@.len() == n,
            forall|v: int|
                0 <= v < n ==> #[trigger] incoming@[v] == has_incoming(
                    g,
                    shapes@,
                    NodeId(v as usize),
                ),
            plan.seen@.len() == n,
            plan.branches@.len() == n,
            slots@.len() == n,
            base.len() == n,
            grow_row(net@, roots_below(g, shapes@, r as int), marks, MAX_DEPTH as nat) == (
                trees,
                plan.seen@,
            ),
            shift == cursor(trees, gap as int),
            0 <= shift <= size_all(trees) * (u32::MAX + gap),
            slots@ == overlaid(
                base,
                place_forest(trees, gap as int, config.vertical_spacing as int, start),
            ),
    {
        let ghost roots = roots_below(g, shapes@, r as int);
        let ghost longer = roots_below(g, shapes@, r + 1);
        proof {
            lemma_grow_row(net@, roots, marks, MAX_DEPTH as nat);
            lemma_count_bound(plan.seen@);
            lemma_reach(size_all(trees), gap as int);
        }
        if treeize.contains(NodeId(r)) && !incoming[r] {
            proof {
                assert(longer == roots.push(NodeId(r)));
                assert(longer.drop_last() =~= roots);
            }
            if !plan.seen[r] {
                let ghost seen_r = plan.seen@;
                let (c, Ghost(t)) = first_walk(&net, gap, r, MAX_DEPTH - 1, &mut plan);
                proof {
                    lemma_grow(net@, NodeId(r), seen_r, (MAX_DEPTH - 1) as nat);
                    lemma_count_bound(plan.seen@);
                    let (a, b) = lemma_contour_extent(
                        t,
                        gap as int,
                        u32::MAX as int,
                        u32::MAX as int,
                    );
                    lemma_reach(size(t), gap as int);
                    lemma_widest(contour(t, gap as int), -a, b);
                    lemma_reach_sum(size_all(trees), size(t), u32::MAX + gap);
                    assert(trees.push(t).drop_last() =~= trees);
                    lemma_reach(size_all(trees.push(t)), gap as int);
                }
                let wide: i128 = widest_level(&c);
                let cx: i128 = config.start_pos.x as i128 + shift + wide / 2;
                second_walk(
                    &net,
                    &plan,
                    Ghost(gap as int),
                    config.vertical_spacing,
                    r,
                    cx,
                    config.start_pos.y as i128,
                    &mut slots,
                    Ghost(t),
                    Ghost(0),
                );
                proof {
                    let sofar = place_forest(
                        trees,
                        gap as int,
                        config.vertical_spacing as int,
                        start,
                    );
                    let sub = place(
                        t,
                        gap as int,
                        config.vertical_spacing as int,
                        cx as int,
                        start.1,
                    );
                    assert(place_forest(
                        trees.push(t),
                        gap as int,
                        config.vertical_spacing as int,
                        start,
                    ) == sofar.union_prefer_right(sub));
                    assert(slots@ =~= overlaid(base, sofar.union_prefer_right(sub)));
                    trees = trees.push(t);
                }
                shift = shift + wide + gap as i128;
            }
        } else {
            proof {
                assert(longer == roots);
            }
        }
    }
    let positions = NodePositions { slots };
    proof {
        let placed = reached(g, config, shapes@);
        lemma_grow_row(net@, roots_below(g, shapes@, n as int), marks, MAX_DEPTH as nat);
        assert(trees == forest_of(g, config, shapes@));
        lemma_place_forest_nodes(trees, gap as int, config.vertical_spacing as int, start);
        assert forall|id: NodeId| placed.dom().contains(id) implies g.contains(id) by {
            lemma_nodes_all(trees, id);
            let i = choose|i: int| 0 <= i < trees.len() && nodes(#[trigger] trees[i]).contains(id);
            lemma_added_nodes(trees[i], marks, plan.seen@, id);
        }
        assert forall|id: NodeId| positions@.dom().contains(id) <==> g.contains(id) by {
            if id.0 < n {
                assert(NodeId(id.0 as int as usize) == id);
            }
        }
        assert(positions@ =~= layout_of(g, config, shapes@)) by {
            assert forall|id: NodeId| g.contains(id) implies positions@[id] == layout_of(
                g,
                config,
                shapes@,
            )[id] by {
                assert(NodeId(id.0 as int as usize) == id);
            }
        }
    }
    positions
}

/// Writes the positions into the graph. A position for a node that the
/// graph does not hold is passed over.
pub fn apply_layout<T>(treeize: &mut Treeize<T>, positions: &NodePositions)
    requires
        old(treeize).wf(),
    ensures
        final(treeize).wf(),
        final(treeize)@ == old(treeize)@.arranged(positions@),
{
    let ghost g = treeize@;
    let count: usize = positions.slots.len();
    let slots: usize = treeize.slot_count();
    proof {
        assert(g.arranged_upto(positions@, 0).nodes =~= g.nodes);
    }
    for x in 0..count
        invariant
            treeize.wf(),
            count == positions.slots@.len(),
            slots == g.nodes.len(),
            treeize@ == g.arranged_upto(positions@, x as int),
    {
        match positions.slots[x] {
            Some(p) => {
                let ghost before = treeize@;
                treeize.set_node_pos(NodeId(x), p);
                proof {
                    assert(positions@.dom().contains(NodeId(x)));
                    assert(positions@[NodeId(x)] == p);
                    assert(treeize@.nodes =~= g.arranged_upto(positions@, x + 1).nodes);
                }
            },
            None => {
                proof {
                    assert(!positions@.dom().contains(NodeId(x)));
                    assert(treeize@.nodes =~= g.arranged_upto(positions@, x + 1).nodes);
                }
            },
        }
    }
    proof {
        assert(g.arranged_upto(positions@, count as int).nodes =~= g.arranged(positions@).nodes);
    }
}

/// Computes the layout of the graph and writes it into the graph.
pub fn layout_and_apply<T>(treeize: &mut Treeize<T>, config: LayoutConfig, shapes: &Vec<NodeShape>)
    requires
        old(treeize).wf(),
    ensures
        final(treeize).wf(),
        final(treeize)@ == old(treeize)@.arranged(layout_of(old(treeize)@, config, shapes@)),
{
    let positions = layout_tree(treeize, config, shapes);
    apply_layout(treeize, &positions);
}

} // verus!
