//! The executable graph store.

use vstd::prelude::*;
use crate::geometry::Point;
use crate::graph::clear_of;
use crate::graph::enters;
use crate::graph::leaves;
use crate::graph::not_from;
use crate::graph::not_into;
use crate::graph::not_node;
use crate::graph::other_than;
use crate::graph::wire_source;
use crate::graph::wire_target;
use crate::graph::GraphView;
use crate::graph::InPin;
use crate::graph::InPinId;
use crate::graph::Node;
use crate::graph::NodeId;
use crate::graph::OutPin;
use crate::graph::OutPinId;
use crate::graph::Wire;
use crate::seq_facts::lemma_filter_push;

verus! {

/// A graph of nodes with payload `T`, joined by wires between their pins.
pub struct Treeize<T> {
    nodes: Vec<Option<Node<T>>>,
    draw_order: Vec<NodeId>,
    wires: Vec<Wire>,
}

impl<T> View for Treeize<T> {
    type V = GraphView<T>;

    closed spec fn view(&self) -> GraphView<T> {
        GraphView { nodes: self.nodes@, wires: self.wires@, draw_order: self.draw_order@ }
    }
}

/// Which wires a sweep over the wire list keeps.
enum Keep {
    ClearOf(NodeId),
    OtherThan(Wire),
    NotFrom(OutPinId),
    NotInto(InPinId),
}

impl Keep {
    spec fn pred(self) -> spec_fn(Wire) -> bool {
        match self {
            Keep::ClearOf(id) => clear_of(id),
            Keep::OtherThan(w) => other_than(w),
            Keep::NotFrom(pin) => not_from(pin),
            Keep::NotInto(pin) => not_into(pin),
        }
    }

    fn keeps(&self, w: Wire) -> (b: bool)
        ensures
            b == (self.pred())(w),
    {
        match self {
            Keep::ClearOf(id) => !(w.out_pin.node == *id || w.in_pin.node == *id),
            Keep::OtherThan(x) => w != *x,
            Keep::NotFrom(pin) => w.out_pin != *pin,
            Keep::NotInto(pin) => w.in_pin != *pin,
        }
    }
}

impl<T> Treeize<T> {
    /// The store's invariant, see [`GraphView::wf`].
    pub open spec fn wf(&self) -> bool {
        self@.wf()
    }

    /// Creates a graph without nodes.
    pub fn new() -> (g: Self)
        ensures
            g.wf(),
            g@ == GraphView::<T>::empty(),
    {
        Treeize { nodes: Vec::new(), draw_order: Vec::new(), wires: Vec::new() }
    }

    /// Sweeps the wire list and keeps what `keep` keeps.
    fn retain_wires(&mut self, keep: Keep) -> (removed: usize)
        ensures
            final(self)@ == (GraphView {
                wires: old(self)@.wires.filter(keep.pred()),
                ..old(self)@
            }),
            removed == old(self)@.wires.len() - final(self)@.wires.len(),
    {
        let mut kept: Vec<Wire> = Vec::new();
        let n: usize = self.wires.len();
        let ghost all = self.wires@;
        for i in 0..n
            invariant
                n == all.len(),
                self.wires@ == all,
                kept@ == all.subrange(0, i as int).filter(keep.pred()),
                kept@.len() <= i,
        {
            let w: Wire = self.wires[i];
            proof {
                lemma_filter_push(all.subrange(0, i as int), w, keep.pred());
                assert(all.subrange(0, i + 1) =~= all.subrange(0, i as int).push(w));
            }
            if keep.keeps(w) {
                kept.push(w);
            }
        }
        assert(all.subrange(0, n as int) =~= all);
        let removed: usize = n - kept.len();
        self.wires = kept;
        removed
    }

    /// Takes `id` out of the draw order.
    fn unlist(&mut self, id: NodeId)
        ensures
            final(self)@ == (GraphView {
                draw_order: old(self)@.draw_order.filter(not_node(id)),
                ..old(self)@
            }),
    {
        let mut kept: Vec<NodeId> = Vec::new();
        let n: usize = self.draw_order.len();
        let ghost all = self.draw_order@;
        for i in 0..n
            invariant
                n == all.len(),
                self.draw_order@ == all,
                kept@ == all.subrange(0, i as int).filter(not_node(id)),
        {
            let x: NodeId = self.draw_order[i];
            proof {
                lemma_filter_push(all.subrange(0, i as int), x, not_node(id));
                assert(all.subrange(0, i + 1) =~= all.subrange(0, i as int).push(x));
            }
            if x != id {
                kept.push(x);
            }
        }
        assert(all.subrange(0, n as int) =~= all);
        self.draw_order = kept;
    }

    /// Whether `id` names a node of the graph.
    pub fn contains(&self, id: NodeId) -> (b: bool)
        ensures
            b == self@.contains(id),
    {
        id.0 < self.nodes.len() && self.nodes[id.0].is_some()
    }

    /// The number of arena slots handed out so far, removed nodes included.
    pub fn slot_count(&self) -> (n: usize)
        ensures
            n == self@.nodes.len(),
    {
        self.nodes.len()
    }

    /// Inserts a node with payload `node` at `pos`, expanded and on top of
    /// the draw order, and returns its id.
    pub fn insert_node(&mut self, pos: Point, node: T) -> (id: NodeId)
        requires
            old(self).wf(),
        ensures
            final(self).wf(),
            id == old(self)@.next_id(),
            final(self)@ == old(self)@.insert(pos, node),
    {
        let ghost before = self@;
        let ghost payload = node;
        let id = NodeId(self.nodes.len());
        self.nodes.push(Some(Node { value: node, pos, open: true }));
        self.draw_order.push(id);
        let slots: usize = self.nodes.len();
        proof {
            before.lemma_insert_wf(pos, payload);
        }
        id
    }

    /// Removes node `id` with every wire that touches it and returns its
    /// payload; `None`, and no change, when `id` is stale.
    pub fn remove_node(&mut self, id: NodeId) -> (value: Option<T>)
        requires
            old(self).wf(),
        ensures
            final(self).wf(),
            final(self)@ == old(self)@.remove(id),
            value == if old(self)@.contains(id) {
                Some(old(self)@.node(id).value)
            } else {
                None
            },
    {
        if !self.contains(id) {
            return None;
        }
        proof {
            self@.lemma_remove_wf(id);
        }
        let slot = &mut self.nodes[id.0];
        let taken = slot.take();
        self.retain_wires(Keep::ClearOf(id));
        self.unlist(id);
        match taken {
            Some(n) => Some(n.value),
            None => None,
        }
    }

    /// The payload of node `id`, `None` when `id` is stale.
    pub fn get_node(&self, id: NodeId) -> (value: Option<&T>)
        ensures
            value == if self@.contains(id) {
                Some(&self@.node(id).value)
            } else {
                None
            },
    {
        if id.0 < self.nodes.len() {
            match &self.nodes[id.0] {
                Some(n) => Some(&n.value),
                None => None,
            }
        } else {
            None
        }
    }

    /// The whole node `id`, `None` when `id` is stale.
    pub fn get_node_info(&self, id: NodeId) -> (node: Option<&Node<T>>)
        ensures
            node == if self@.contains(id) {
                Some(&self@.node(id))
            } else {
                None
            },
    {
        if id.0 < self.nodes.len() {
            self.nodes[id.0].as_ref()
        } else {
            None
        }
    }

    /// Mutable access to the payload of node `id`, `None` when `id` is
    /// stale. Whatever the caller writes becomes the node's payload;
    /// nothing else in the graph changes.
    pub fn get_node_mut(&mut self, id: NodeId) -> (value: Option<&mut T>)
        requires
            old(self).wf(),
        ensures
            final(self).wf(),
            value is Some == old(self)@.contains(id),
            value matches Some(v) ==> *v == old(self)@.node(id).value && final(self)@ == old(
                self,
            )@.with_value(id, *final(v)),
            value is None ==> final(self)@ == old(self)@,
    {
        if !self.contains(id) {
            return None;
        }
        proof {
            let g = self@;
            assert forall|v: T| #[trigger] g.with_value(id, v).wf() by {
                let n = g.node(id);
                g.lemma_update_wf(id, Node { value: v, pos: n.pos, open: n.open });
            }
        }
        match &mut self.nodes[id.0] {
            Some(n) => Some(&mut n.value),
            None => None,
        }
    }

    /// Mutable access to the whole node `id`, `None` when `id` is stale.
    /// Whatever the caller writes becomes the node; nothing else in the
    /// graph changes.
    pub fn get_node_info_mut(&mut self, id: NodeId) -> (node: Option<&mut Node<T>>)
        requires
            old(self).wf(),
        ensures
            final(self).wf(),
            node is Some == old(self)@.contains(id),
            node matches Some(n) ==> *n == old(self)@.node(id) && final(self)@ == old(
                self,
            )@.with_node(id, *final(n)),
            node is None ==> final(self)@ == old(self)@,
    {
        if !self.contains(id) {
            return None;
        }
        proof {
            let g = self@;
            assert forall|n: Node<T>| #[trigger] g.with_node(id, n).wf() by {
                g.lemma_update_wf(id, n);
            }
        }
        self.nodes[id.0].as_mut()
    }

    /// The position of node `id`, `None` when `id` is stale.
    pub fn node_pos(&self, id: NodeId) -> (pos: Option<Point>)
        ensures
            pos == if self@.contains(id) {
                Some(self@.node(id).pos)
            } else {
                None
            },
    {
        match self.get_node_info(id) {
            Some(n) => Some(n.pos),
            None => None,
        }
    }

    /// Expands or collapses node `id`; returns whether the node exists.
    pub fn open_node(&mut self, id: NodeId, open: bool) -> (found: bool)
        requires
            old(self).wf(),
        ensures
            final(self).wf(),
            found == old(self)@.contains(id),
            final(self)@ == old(self)@.open_node(id, open),
    {
        if !self.contains(id) {
            return false;
        }
        proof {
            let n = self@.node(id);
            self@.lemma_update_wf(id, Node { value: n.value, pos: n.pos, open });
        }
        match &mut self.nodes[id.0] {
            Some(n) => {
                n.open = open;
            },
            None => {},
        }
        true
    }

    /// Puts node `id` at `pos`; returns whether the node exists.
    pub fn set_node_pos(&mut self, id: NodeId, pos: Point) -> (found: bool)
        requires
            old(self).wf(),
        ensures
            final(self).wf(),
            found == old(self)@.contains(id),
            final(self)@ == old(self)@.place(id, pos),
    {
        if !self.contains(id) {
            return false;
        }
        proof {
            let n = self@.node(id);
            self@.lemma_update_wf(id, Node { value: n.value, pos, open: n.open });
        }
        match &mut self.nodes[id.0] {
            Some(n) => {
                n.pos = pos;
            },
            None => {},
        }
        true
    }

    /// Moves node `id` by `(dx, dy)`, each coordinate saturating; returns
    /// whether the node exists.
    pub fn move_node(&mut self, id: NodeId, dx: i64, dy: i64) -> (found: bool)
        requires
            old(self).wf(),
        ensures
            final(self).wf(),
            found == old(self)@.contains(id),
            final(self)@ == old(self)@.shift(id, dx, dy),
    {
        match self.node_pos(id) {
            Some(p) => self.set_node_pos(id, p.offset(dx, dy)),
            None => false,
        }
    }

    /// Whether the wire from `from` to `to` exists.
    pub fn has_wire(&self, from: OutPinId, to: InPinId) -> (b: bool)
        ensures
            b == self@.wires.contains(Wire { out_pin: from, in_pin: to }),
    {
        let w = Wire { out_pin: from, in_pin: to };
        for i in 0..self.wires.len()
            invariant
                w == (Wire { out_pin: from, in_pin: to }),
                forall|j: int| 0 <= j < i ==> self.wires@[j] != w,
        {
            if self.wires[i] == w {
                assert(self.wires@[i as int] == w);
                return true;
            }
        }
        false
    }

    /// Connects `from` to `to`. Returns whether a wire was added: no wire
    /// is added when it exists already or when one of the nodes does not.
    pub fn connect(&mut self, from: OutPinId, to: InPinId) -> (added: bool)
        requires
            old(self).wf(),
        ensures
            final(self).wf(),
            added == old(self)@.connects(from, to),
            final(self)@ == old(self)@.connect(from, to),
    {
        if self.contains(from.node) && self.contains(to.node) && !self.has_wire(from, to) {
            proof {
                self@.lemma_connect_wf(from, to);
            }
            self.wires.push(Wire { out_pin: from, in_pin: to });
            true
        } else {
            false
        }
    }

    /// Takes out the wire from `from` to `to`. Returns whether there was
    /// one.
    pub fn disconnect(&mut self, from: OutPinId, to: InPinId) -> (removed: bool)
        requires
            old(self).wf(),
        ensures
            final(self).wf(),
            removed == old(self)@.wires.contains(Wire { out_pin: from, in_pin: to }),
            final(self)@ == old(self)@.disconnect(from, to),
    {
        let w = Wire { out_pin: from, in_pin: to };
        proof {
            self@.lemma_filter_wires_wf(other_than(w));
            self@.lemma_disconnect_len(from, to);
        }
        let removed: usize = self.retain_wires(Keep::OtherThan(w));
        removed > 0
    }

    /// Takes out every wire that leaves `pin` and returns how many there
    /// were.
    pub fn drop_outputs(&mut self, pin: OutPinId) -> (removed: usize)
        requires
            old(self).wf(),
        ensures
            final(self).wf(),
            final(self)@ == old(self)@.drop_outputs(pin),
            removed == old(self)@.wires.len() - final(self)@.wires.len(),
    {
        proof {
            self@.lemma_filter_wires_wf(not_from(pin));
        }
        self.retain_wires(Keep::NotFrom(pin))
    }

    /// Takes out every wire that enters `pin` and returns how many there
    /// were.
    pub fn drop_inputs(&mut self, pin: InPinId) -> (removed: usize)
        requires
            old(self).wf(),
        ensures
            final(self).wf(),
            final(self)@ == old(self)@.drop_inputs(pin),
            removed == old(self)@.wires.len() - final(self)@.wires.len(),
    {
        proof {
            self@.lemma_filter_wires_wf(not_into(pin));
        }
        self.retain_wires(Keep::NotInto(pin))
    }

    /// The number of wires.
    pub fn wire_count(&self) -> (n: usize)
        ensures
            n == self@.wires.len(),
    {
        self.wires.len()
    }

    /// The wire at position `i` of the wire list.
    pub fn wire_at(&self, i: usize) -> (w: Wire)
        requires
            i < self@.wires.len(),
        ensures
            w == self@.wires[i as int],
    {
        self.wires[i]
    }

    /// All wires as pin pairs, oldest first.
    pub fn wires(&self) -> (out: Vec<(OutPinId, InPinId)>)
        ensures
            out@.len() == self@.wires.len(),
            forall|i: int|
                0 <= i < out@.len() ==> #[trigger] out@[i] == (
                    self@.wires[i].out_pin,
                    self@.wires[i].in_pin,
                ),
    {
        let mut out: Vec<(OutPinId, InPinId)> = Vec::new();
        for i in 0..self.wires.len()
            invariant
                out@.len() == i,
                forall|j: int|
                    0 <= j < i ==> #[trigger] out@[j] == (
                        self.wires@[j].out_pin,
                        self.wires@[j].in_pin,
                    ),
        {
            let w: Wire = self.wires[i];
            out.push((w.out_pin, w.in_pin));
        }
        out
    }

    /// The ids of all nodes, ascending.
    pub fn node_ids(&self) -> (ids: Vec<NodeId>)
        ensures
            ids@ == self@.node_ids(),
    {
        let mut ids: Vec<NodeId> = Vec::new();
        for i in 0..self.nodes.len()
            invariant
                ids@ == self@.ids_below(i as int),
        {
            if self.nodes[i].is_some() {
                ids.push(NodeId(i));
            }
        }
        ids
    }

    /// The draw order, bottom first.
    pub fn draw_order(&self) -> (order: Vec<NodeId>)
        ensures
            order@ == self@.draw_order,
    {
        let mut order: Vec<NodeId> = Vec::new();
        for i in 0..self.draw_order.len()
            invariant
                order@ == self.draw_order@.subrange(0, i as int),
        {
            order.push(self.draw_order[i]);
            assert(self.draw_order@.subrange(0, i + 1) =~= self.draw_order@.subrange(
                0,
                i as int,
            ).push(self.draw_order@[i as int]));
        }
        assert(self.draw_order@.subrange(0, self.draw_order@.len() as int) =~= self.draw_order@);
        order
    }

    /// Brings node `id` to the top of the draw order; returns whether the
    /// node exists.
    pub fn node_to_top(&mut self, id: NodeId) -> (found: bool)
        requires
            old(self).wf(),
        ensures
            final(self).wf(),
            found == old(self)@.contains(id),
            final(self)@ == old(self)@.to_top(id),
    {
        if !self.contains(id) {
            return false;
        }
        proof {
            self@.lemma_to_top_wf(id);
        }
        self.unlist(id);
        self.draw_order.push(id);
        true
    }

    /// The input pin `pin` with the output pins wired to it, in wire order.
    pub fn in_pin(&self, pin: InPinId) -> (p: InPin)
        ensures
            p.id == pin,
            p.remotes@ == self@.in_remotes(pin),
    {
        let mut remotes: Vec<OutPinId> = Vec::new();
        let ghost all = self.wires@;
        for i in 0..self.wires.len()
            invariant
                all == self.wires@,
                remotes@ == all.subrange(0, i as int).filter(enters(pin)).map_values(
                    wire_source(),
                ),
        {
            let w: Wire = self.wires[i];
            proof {
                lemma_filter_push(all.subrange(0, i as int), w, enters(pin));
                assert(all.subrange(0, i + 1) =~= all.subrange(0, i as int).push(w));
                let f = all.subrange(0, i as int).filter(enters(pin));
                assert(f.push(w).map_values(wire_source()) =~= f.map_values(wire_source()).push(
                    w.out_pin,
                ));
            }
            if w.in_pin == pin {
                remotes.push(w.out_pin);
            }
        }
        assert(all.subrange(0, all.len() as int) =~= all);
        InPin { id: pin, remotes }
    }

    /// The output pin `pin` with the input pins wired to it, in wire order.
    pub fn out_pin(&self, pin: OutPinId) -> (p: OutPin)
        ensures
            p.id == pin,
            p.remotes@ == self@.out_remotes(pin),
    {
        let mut remotes: Vec<InPinId> = Vec::new();
        let ghost all = self.wires@;
        for i in 0..self.wires.len()
            invariant
                all == self.wires@,
                remotes@ == all.subrange(0, i as int).filter(leaves(pin)).map_values(
                    wire_target(),
                ),
        {
            let w: Wire = self.wires[i];
            proof {
                lemma_filter_push(all.subrange(0, i as int), w, leaves(pin));
                assert(all.subrange(0, i + 1) =~= all.subrange(0, i as int).push(w));
                let f = all.subrange(0, i as int).filter(leaves(pin));
                assert(f.push(w).map_values(wire_target()) =~= f.map_values(wire_target()).push(
                    w.in_pin,
                ));
            }
            if w.out_pin == pin {
                remotes.push(w.in_pin);
            }
        }
        assert(all.subrange(0, all.len() as int) =~= all);
        OutPin { id: pin, remotes }
    }
}

impl<T> Default for Treeize<T> {
    fn default() -> (g: Self)
        ensures
            g.wf(),
            g@ == GraphView::<T>::empty(),
    {
        Treeize::new()
    }
}

} // verus!
