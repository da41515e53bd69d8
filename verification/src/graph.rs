//! Graph storage: an arena of nodes, a wire list without repeats, and the
//! draw order.
//!
//! A node keeps the slot it was given for as long as the graph lives; a
//! slot is never handed out twice, so a stale [`NodeId`] can never come to
//! name a later node.

use vstd::prelude::*;
use crate::geometry::Point;
use crate::seq_facts::lemma_filter_members;
use crate::seq_facts::lemma_filter_no_duplicates;
use crate::seq_facts::lemma_filter_out_one;
use crate::seq_facts::lemma_filter_partition;
use crate::seq_facts::lemma_filter_push;

verus! {

/// Handle of a node: the number of its arena slot.
#[derive(Clone, Copy, Debug, PartialEq, Eq, Structural, PartialOrd, Ord, Hash)]
pub struct NodeId(pub usize);

/// Address of an output pin: the node and the output slot on it.
#[derive(Clone, Copy, Debug, PartialEq, Eq, Structural, PartialOrd, Ord, Hash)]
pub struct OutPinId {
    pub node: NodeId,
    pub output: usize,
}

/// Address of an input pin: the node and the input slot on it.
#[derive(Clone, Copy, Debug, PartialEq, Eq, Structural, PartialOrd, Ord, Hash)]
pub struct InPinId {
    pub node: NodeId,
    pub input: usize,
}

/// A directed connection from an output pin to an input pin.
#[derive(Clone, Copy, Debug, PartialEq, Eq, Structural, PartialOrd, Ord, Hash)]
pub struct Wire {
    pub out_pin: OutPinId,
    pub in_pin: InPinId,
}

/// The wire that leads from `out_pin` to `in_pin`.
pub fn wire_pins(out_pin: OutPinId, in_pin: InPinId) -> (w: Wire)
    ensures
        w == (Wire { out_pin, in_pin }),
{
    Wire { out_pin, in_pin }
}

/// A node: the caller's payload, a position and the expanded flag.
pub struct Node<T> {
    pub value: T,
    pub pos: Point,
    pub open: bool,
}

/// An input pin together with the output pins wired to it.
pub struct InPin {
    pub id: InPinId,
    pub remotes: Vec<OutPinId>,
}

/// An output pin together with the input pins wired to it.
pub struct OutPin {
    pub id: OutPinId,
    pub remotes: Vec<InPinId>,
}

/// Whether wire `w` starts or ends at node `id`.
pub open spec fn touches(w: Wire, id: NodeId) -> bool {
    w.out_pin.node == id || w.in_pin.node == id
}

/// Keeps the wires that do not touch node `id`.
pub open spec fn clear_of(id: NodeId) -> spec_fn(Wire) -> bool {
    |w: Wire| !touches(w, id)
}

/// Keeps the wires that touch node `id`.
pub open spec fn incident_to(id: NodeId) -> spec_fn(Wire) -> bool {
    |w: Wire| touches(w, id)
}

/// Keeps the wires other than `x`.
pub open spec fn other_than(x: Wire) -> spec_fn(Wire) -> bool {
    |w: Wire| w != x
}

/// Keeps the wires that do not leave output pin `pin`.
pub open spec fn not_from(pin: OutPinId) -> spec_fn(Wire) -> bool {
    |w: Wire| w.out_pin != pin
}

/// Keeps the wires that do not enter input pin `pin`.
pub open spec fn not_into(pin: InPinId) -> spec_fn(Wire) -> bool {
    |w: Wire| w.in_pin != pin
}

/// Keeps the node ids other than `id`.
pub open spec fn not_node(id: NodeId) -> spec_fn(NodeId) -> bool {
    |n: NodeId| n != id
}

/// Keeps the wires that enter input pin `pin`.
pub open spec fn enters(pin: InPinId) -> spec_fn(Wire) -> bool {
    |w: Wire| w.in_pin == pin
}

/// Keeps the wires that leave output pin `pin`.
pub open spec fn leaves(pin: OutPinId) -> spec_fn(Wire) -> bool {
    |w: Wire| w.out_pin == pin
}

/// The input pin a wire enters.
pub open spec fn wire_target() -> spec_fn(Wire) -> InPinId {
    |w: Wire| w.in_pin
}

/// The output pin a wire leaves.
pub open spec fn wire_source() -> spec_fn(Wire) -> OutPinId {
    |w: Wire| w.out_pin
}

/// The mathematical content of a graph.
pub struct GraphView<T> {
    /// The arena: slot `i` holds the node with id `i`, or nothing once that
    /// node was removed.
    pub nodes: Seq<Option<Node<T>>>,
    /// The wires, oldest first.
    pub wires: Seq<Wire>,
    /// The draw order, bottom first.
    pub draw_order: Seq<NodeId>,
}

impl<T> GraphView<T> {
    /// The graph without nodes.
    pub open spec fn empty() -> Self {
        GraphView { nodes: Seq::empty(), wires: Seq::empty(), draw_order: Seq::empty() }
    }

    /// Whether `id` names a node of the graph.
    pub open spec fn contains(self, id: NodeId) -> bool {
        id.0 < self.nodes.len() && self.nodes[id.0 as int] is Some
    }

    /// The node named by `id`.
    pub open spec fn node(self, id: NodeId) -> Node<T>
        recommends
            self.contains(id),
    {
        self.nodes[id.0 as int]->0
    }

    /// The id that the next inserted node gets.
    pub open spec fn next_id(self) -> NodeId {
        NodeId(self.nodes.len() as usize)
    }

    /// The invariant of the store: no wire occurs twice, every wire joins
    /// two nodes of the graph, and the draw order lists each node of the
    /// graph exactly once and nothing else.
    pub open spec fn wf(self) -> bool {
        &&& self.nodes.len() <= usize::MAX
        &&& self.wires.no_duplicates()
        &&& forall|i: int|
            0 <= i < self.wires.len() ==> self.contains((#[trigger] self.wires[i]).out_pin.node)
                && self.contains(self.wires[i].in_pin.node)
        &&& self.draw_order.no_duplicates()
        &&& forall|id: NodeId| #[trigger] self.draw_order.contains(id) <==> self.contains(id)
    }

    /// The graph after a node with the given payload was inserted at `pos`:
    /// it takes the next slot, is expanded, and goes on top of the draw
    /// order.
    pub open spec fn insert(self, pos: Point, value: T) -> Self {
        GraphView {
            nodes: self.nodes.push(Some(Node { value, pos, open: true })),
            wires: self.wires,
            draw_order: self.draw_order.push(self.next_id()),
        }
    }

    /// The graph after node `id` was removed: its slot is empty, every wire
    /// that touched it is gone, and it has left the draw order. A stale
    /// `id` changes nothing.
    pub open spec fn remove(self, id: NodeId) -> Self {
        if self.contains(id) {
            GraphView {
                nodes: self.nodes.update(id.0 as int, None),
                wires: self.wires.filter(clear_of(id)),
                draw_order: self.draw_order.filter(not_node(id)),
            }
        } else {
            self
        }
    }

    /// Whether connecting `from` to `to` adds a wire: both nodes exist and
    /// the wire is not there yet.
    pub open spec fn connects(self, from: OutPinId, to: InPinId) -> bool {
        self.contains(from.node) && self.contains(to.node) && !self.wires.contains(
            Wire { out_pin: from, in_pin: to },
        )
    }

    /// The graph after `from` was connected to `to`.
    pub open spec fn connect(self, from: OutPinId, to: InPinId) -> Self {
        if self.connects(from, to) {
            GraphView { wires: self.wires.push(Wire { out_pin: from, in_pin: to }), ..self }
        } else {
            self
        }
    }

    /// The graph after the wire from `from` to `to` was taken out.
    pub open spec fn disconnect(self, from: OutPinId, to: InPinId) -> Self {
        GraphView {
            wires: self.wires.filter(other_than(Wire { out_pin: from, in_pin: to })),
            ..self
        }
    }

    /// The graph after every wire that leaves `pin` was taken out.
    pub open spec fn drop_outputs(self, pin: OutPinId) -> Self {
        GraphView { wires: self.wires.filter(not_from(pin)), ..self }
    }

    /// The graph after every wire that enters `pin` was taken out.
    pub open spec fn drop_inputs(self, pin: InPinId) -> Self {
        GraphView { wires: self.wires.filter(not_into(pin)), ..self }
    }

    /// The graph after node `id` was expanded or collapsed.
    pub open spec fn open_node(self, id: NodeId, open: bool) -> Self {
        if self.contains(id) {
            let n = self.node(id);
            GraphView {
                nodes: self.nodes.update(
                    id.0 as int,
                    Some(Node { value: n.value, pos: n.pos, open }),
                ),
                ..self
            }
        } else {
            self
        }
    }

    /// The graph after node `id` was put at `pos`.
    pub open spec fn place(self, id: NodeId, pos: Point) -> Self {
        if self.contains(id) {
            let n = self.node(id);
            GraphView {
                nodes: self.nodes.update(
                    id.0 as int,
                    Some(Node { value: n.value, pos, open: n.open }),
                ),
                ..self
            }
        } else {
            self
        }
    }

    /// The graph after node `id` was moved by `(dx, dy)`, saturating.
    pub open spec fn shift(self, id: NodeId, dx: i64, dy: i64) -> Self {
        if self.contains(id) {
            self.place(id, self.node(id).pos.offset_spec(dx, dy))
        } else {
            self
        }
    }

    /// The graph after the payload of node `id` was replaced.
    pub open spec fn with_value(self, id: NodeId, value: T) -> Self {
        if self.contains(id) {
            let n = self.node(id);
            GraphView {
                nodes: self.nodes.update(
                    id.0 as int,
                    Some(Node { value, pos: n.pos, open: n.open }),
                ),
                ..self
            }
        } else {
            self
        }
    }

    /// The graph after node `id` was replaced by `node`.
    pub open spec fn with_node(self, id: NodeId, node: Node<T>) -> Self {
        if self.contains(id) {
            GraphView { nodes: self.nodes.update(id.0 as int, Some(node)), ..self }
        } else {
            self
        }
    }

    /// The graph after node `id` was brought to the top of the draw order.
    pub open spec fn to_top(self, id: NodeId) -> Self {
        if self.contains(id) {
            GraphView { draw_order: self.draw_order.filter(not_node(id)).push(id), ..self }
        } else {
            self
        }
    }

    /// The ids of the nodes that occupy the slots below `upto`, ascending.
    pub open spec fn ids_below(self, upto: int) -> Seq<NodeId>
        decreases upto,
    {
        if upto <= 0 {
            Seq::empty()
        } else if upto <= self.nodes.len() && self.nodes[upto - 1] is Some {
            self.ids_below(upto - 1).push(NodeId((upto - 1) as usize))
        } else {
            self.ids_below(upto - 1)
        }
    }

    /// The ids of all nodes of the graph, ascending.
    pub open spec fn node_ids(self) -> Seq<NodeId> {
        self.ids_below(self.nodes.len() as int)
    }

    /// The output pins wired to input pin `pin`, in wire order.
    pub open spec fn in_remotes(self, pin: InPinId) -> Seq<OutPinId> {
        self.wires.filter(enters(pin)).map_values(wire_source())
    }

    /// The input pins wired to output pin `pin`, in wire order.
    pub open spec fn out_remotes(self, pin: OutPinId) -> Seq<InPinId> {
        self.wires.filter(leaves(pin)).map_values(wire_target())
    }
}

impl<T> GraphView<T> {
    /// Taking wires out by any rule keeps the store's invariant.
    pub proof fn lemma_filter_wires_wf(self, keep: spec_fn(Wire) -> bool)
        requires
            self.wf(),
        ensures
            (GraphView { wires: self.wires.filter(keep), ..self }).wf(),
    {
        let out = self.wires.filter(keep);
        lemma_filter_no_duplicates(self.wires, keep);
        lemma_filter_members(self.wires, keep);
        assert forall|i: int| 0 <= i < out.len() implies self.contains(
            (#[trigger] out[i]).out_pin.node,
        ) && self.contains(out[i].in_pin.node) by {
            assert(out.contains(out[i]));
            let k = choose|k: int| 0 <= k < self.wires.len() && self.wires[k] == out[i];
            assert(self.contains(self.wires[k].out_pin.node));
        }
    }

    /// Disconnecting shortens the wire list by one if the wire was there.
    pub proof fn lemma_disconnect_len(self, from: OutPinId, to: InPinId)
        requires
            self.wf(),
        ensures
            self.disconnect(from, to).wires.len() == self.wires.len() - if self.wires.contains(
                Wire { out_pin: from, in_pin: to },
            ) {
                1int
            } else {
                0int
            },
    {
        let w = Wire { out_pin: from, in_pin: to };
        lemma_filter_out_one(self.wires, w, other_than(w));
    }

    /// Inserting a node keeps the store's invariant.
    pub proof fn lemma_insert_wf(self, pos: Point, value: T)
        requires
            self.wf(),
            self.nodes.len() < usize::MAX,
        ensures
            self.insert(pos, value).wf(),
    {
        let next = self.insert(pos, value);
        let id = self.next_id();
        assert(!self.contains(id));
        assert forall|i: int| 0 <= i < next.wires.len() implies next.contains(
            (#[trigger] next.wires[i]).out_pin.node,
        ) && next.contains(next.wires[i].in_pin.node) by {
            assert(self.contains(self.wires[i].out_pin.node));
            assert(self.contains(self.wires[i].in_pin.node));
        }
        assert forall|x: NodeId| #[trigger] next.draw_order.contains(x) <==> next.contains(x) by {
            if next.draw_order.contains(x) {
                let j = choose|j: int| 0 <= j < next.draw_order.len() && next.draw_order[j] == x;
                if j < self.draw_order.len() {
                    assert(self.draw_order[j] == x);
                    assert(self.draw_order.contains(x));
                }
            }
            if next.contains(x) {
                if x == id {
                    assert(next.draw_order[self.draw_order.len() as int] == x);
                } else {
                    assert(self.contains(x));
                    assert(self.draw_order.contains(x));
                    let j = choose|j: int| 0 <= j < self.draw_order.len() && self.draw_order[j] == x;
                    assert(next.draw_order[j] == x);
                }
            }
        }
        assert forall|i: int, j: int|
            0 <= i < next.draw_order.len() && 0 <= j < next.draw_order.len() && i != j implies next.draw_order[i]
            != next.draw_order[j] by {
            if i == self.draw_order.len() {
                assert(self.draw_order.contains(self.draw_order[j]));
            } else if j == self.draw_order.len() {
                assert(self.draw_order.contains(self.draw_order[i]));
            }
        }
    }

    /// Removing a node keeps the store's invariant.
    pub proof fn lemma_remove_wf(self, id: NodeId)
        requires
            self.wf(),
        ensures
            self.remove(id).wf(),
    {
        if self.contains(id) {
            let next = self.remove(id);
            self.lemma_filter_wires_wf(clear_of(id));
            lemma_filter_members(self.wires, clear_of(id));
            lemma_filter_no_duplicates(self.draw_order, not_node(id));
            lemma_filter_members(self.draw_order, not_node(id));
            assert forall|i: int| 0 <= i < next.wires.len() implies next.contains(
                (#[trigger] next.wires[i]).out_pin.node,
            ) && next.contains(next.wires[i].in_pin.node) by {
                let w = next.wires[i];
                assert(next.wires.contains(w));
                assert(!touches(w, id));
                let k = choose|k: int| 0 <= k < self.wires.len() && self.wires[k] == w;
                assert(self.contains(self.wires[k].out_pin.node));
            }
            assert forall|x: NodeId| #[trigger] next.draw_order.contains(x) <==> next.contains(
                x,
            ) by {
                assert(self.draw_order.contains(x) <==> self.contains(x));
            }
        }
    }

    /// Connecting two pins keeps the store's invariant.
    pub proof fn lemma_connect_wf(self, from: OutPinId, to: InPinId)
        requires
            self.wf(),
        ensures
            self.connect(from, to).wf(),
    {
        if self.connects(from, to) {
            let w = Wire { out_pin: from, in_pin: to };
            let next = self.connect(from, to);
            assert forall|i: int, j: int|
                0 <= i < next.wires.len() && 0 <= j < next.wires.len() && i != j implies next.wires[i]
                != next.wires[j] by {
                if i == self.wires.len() {
                    assert(self.wires.contains(self.wires[j]));
                } else if j == self.wires.len() {
                    assert(self.wires.contains(self.wires[i]));
                }
            }
            assert forall|i: int| 0 <= i < next.wires.len() implies next.contains(
                (#[trigger] next.wires[i]).out_pin.node,
            ) && next.contains(next.wires[i].in_pin.node) by {
                if i < self.wires.len() {
                    assert(self.contains(self.wires[i].out_pin.node));
                }
            }
        }
    }

    /// Rewriting the node in an occupied slot keeps the store's invariant.
    pub proof fn lemma_update_wf(self, id: NodeId, node: Node<T>)
        requires
            self.wf(),
            self.contains(id),
        ensures
            (GraphView { nodes: self.nodes.update(id.0 as int, Some(node)), ..self }).wf(),
    {
        let next = GraphView { nodes: self.nodes.update(id.0 as int, Some(node)), ..self };
        assert forall|x: NodeId| next.contains(x) == self.contains(x) by {}
        assert forall|i: int| 0 <= i < next.wires.len() implies next.contains(
            (#[trigger] next.wires[i]).out_pin.node,
        ) && next.contains(next.wires[i].in_pin.node) by {
            assert(self.contains(self.wires[i].out_pin.node));
        }
        assert forall|x: NodeId| #[trigger] next.draw_order.contains(x) <==> next.contains(x) by {
            assert(self.draw_order.contains(x) <==> self.contains(x));
        }
    }

    /// Bringing a node to the top keeps the store's invariant.
    pub proof fn lemma_to_top_wf(self, id: NodeId)
        requires
            self.wf(),
        ensures
            self.to_top(id).wf(),
    {
        if self.contains(id) {
            let rest = self.draw_order.filter(not_node(id));
            let next = self.to_top(id);
            lemma_filter_no_duplicates(self.draw_order, not_node(id));
            lemma_filter_members(self.draw_order, not_node(id));
            assert forall|i: int, j: int|
                0 <= i < next.draw_order.len() && 0 <= j < next.draw_order.len() && i != j implies next.draw_order[i]
                != next.draw_order[j] by {
                if i == rest.len() {
                    assert(rest.contains(rest[j]));
                } else if j == rest.len() {
                    assert(rest.contains(rest[i]));
                }
            }
            assert forall|x: NodeId| #[trigger] next.draw_order.contains(x) <==> next.contains(
                x,
            ) by {
                assert(self.draw_order.contains(x) <==> self.contains(x));
                if next.draw_order.contains(x) {
                    let j = choose|j: int|
                        0 <= j < next.draw_order.len() && next.draw_order[j] == x;
                    if j < rest.len() {
                        assert(rest[j] == x);
                        assert(rest.contains(x));
                    }
                }
                if next.contains(x) {
                    if x == id {
                        assert(next.draw_order[rest.len() as int] == x);
                    } else {
                        assert(rest.contains(x));
                        let j = choose|j: int| 0 <= j < rest.len() && rest[j] == x;
                        assert(next.draw_order[j] == x);
                    }
                }
            }
            assert forall|i: int| 0 <= i < next.wires.len() implies next.contains(
                (#[trigger] next.wires[i]).out_pin.node,
            ) && next.contains(next.wires[i].in_pin.node) by {
                assert(self.contains(self.wires[i].out_pin.node));
            }
        }
    }
}

/// Connecting is idempotent: a second connect of the same two pins changes
/// nothing, and one disconnect after any number of connects leaves no wire
/// between the two pins, exactly as a disconnect without them would.
pub proof fn lemma_connect_idempotent<T>(g: GraphView<T>, from: OutPinId, to: InPinId)
    ensures
        g.connect(from, to).connect(from, to) == g.connect(from, to),
        !g.connect(from, to).connect(from, to).disconnect(from, to).wires.contains(
            Wire { out_pin: from, in_pin: to },
        ),
        g.connect(from, to).connect(from, to).disconnect(from, to) == g.disconnect(from, to),
{
    let w = Wire { out_pin: from, in_pin: to };
    let once = g.connect(from, to);
    if g.connects(from, to) {
        assert(once.wires[g.wires.len() as int] == w);
        assert(once.wires.contains(w));
        lemma_filter_push(g.wires, w, other_than(w));
    }
    assert(once.connect(from, to) == once);
    lemma_filter_members(once.wires, other_than(w));
}

/// Removal is complete: after node `id` is removed it is neither in the
/// graph nor in the draw order, the wires left are exactly the old ones
/// that did not touch it, as many fewer as touched it, and every other node
/// is as it was.
pub proof fn lemma_remove_complete<T>(g: GraphView<T>, id: NodeId)
    requires
        g.wf(),
        g.contains(id),
    ensures
        g.remove(id).wf(),
        !g.remove(id).contains(id),
        !g.remove(id).draw_order.contains(id),
        forall|w: Wire| #[trigger]
            g.remove(id).wires.contains(w) <==> g.wires.contains(w) && !touches(w, id),
        g.remove(id).wires.len() == g.wires.len() - g.wires.filter(incident_to(id)).len(),
        forall|x: NodeId| #[trigger] g.remove(id).contains(x) <==> g.contains(x) && x != id,
        forall|x: NodeId| #[trigger]
            g.remove(id).contains(x) ==> g.remove(id).nodes[x.0 as int] == g.nodes[x.0 as int],
        forall|x: NodeId|
            x != id ==> #[trigger] g.remove(id).draw_order.contains(x) == g.draw_order.contains(x),
{
    g.lemma_remove_wf(id);
    lemma_filter_members(g.wires, clear_of(id));
    lemma_filter_members(g.draw_order, not_node(id));
    lemma_filter_partition(g.wires, clear_of(id), incident_to(id));
}

/// The remotes of an input pin are the output pins of the wires that enter
/// it.
pub proof fn lemma_in_remotes<T>(g: GraphView<T>, pin: InPinId, from: OutPinId)
    ensures
        g.in_remotes(pin).contains(from) <==> g.wires.contains(Wire { out_pin: from, in_pin: pin }),
{
    let kept = g.wires.filter(enters(pin));
    let w = Wire { out_pin: from, in_pin: pin };
    lemma_filter_members(g.wires, enters(pin));
    if g.in_remotes(pin).contains(from) {
        let i = choose|i: int| 0 <= i < g.in_remotes(pin).len() && g.in_remotes(pin)[i] == from;
        assert(kept.contains(kept[i]));
        assert(kept[i] == w);
    }
    if g.wires.contains(w) {
        assert(kept.contains(w));
        let i = choose|i: int| 0 <= i < kept.len() && kept[i] == w;
        assert(g.in_remotes(pin)[i] == from);
    }
}

/// The remotes of an output pin are the input pins of the wires that leave
/// it.
pub proof fn lemma_out_remotes<T>(g: GraphView<T>, pin: OutPinId, to: InPinId)
    ensures
        g.out_remotes(pin).contains(to) <==> g.wires.contains(Wire { out_pin: pin, in_pin: to }),
{
    let kept = g.wires.filter(leaves(pin));
    let w = Wire { out_pin: pin, in_pin: to };
    lemma_filter_members(g.wires, leaves(pin));
    if g.out_remotes(pin).contains(to) {
        let i = choose|i: int| 0 <= i < g.out_remotes(pin).len() && g.out_remotes(pin)[i] == to;
        assert(kept.contains(kept[i]));
        assert(kept[i] == w);
    }
    if g.wires.contains(w) {
        assert(kept.contains(w));
        let i = choose|i: int| 0 <= i < kept.len() && kept[i] == w;
        assert(g.out_remotes(pin)[i] == to);
    }
}

} // verus!
