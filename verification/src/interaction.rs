//! The interaction step: what a pointer event does to the interaction
//! state, and which mutations of the graph it asks for.
//!
//! Every step first drops from the state what refers to nodes that have
//! left the graph, so that a drag from a pin of a removed node ends and a
//! removed node is never selected.

use vstd::prelude::*;
use crate::effect::Effect;
use crate::effect::Effects;
use crate::geometry::Point;
use crate::geometry::Rect;
use crate::graph::GraphView;
use crate::graph::InPinId;
use crate::graph::NodeId;
use crate::graph::OutPinId;
use crate::graph::enters;
use crate::graph::leaves;
use crate::seq_facts::lemma_filter_members;
use crate::seq_facts::lemma_filter_no_duplicates;
use crate::state::live_in_pin;
use crate::state::live_node;
use crate::state::live_out_pin;
use crate::state::not_in_pin;
use crate::state::not_out_pin;
use crate::state::not_this;
use crate::state::AnyPin;
use crate::state::Bundle;
use crate::state::NewWires;
use crate::state::StateView;
use crate::state::TreeizeState;
use crate::store::Treeize;

verus! {

/// The modifier keys that the interaction reads.
#[derive(Clone, Copy, Debug, PartialEq, Eq, Structural)]
pub struct Modifiers {
    pub shift: bool,
    pub command: bool,
}

/// What the pointer did.
#[allow(inconsistent_fields)]
#[derive(Clone, Copy, Debug, PartialEq, Eq)]
pub enum Event {
    /// A drag with the primary button began on an input pin.
    InputDragStarted { pin: InPinId },
    /// A drag with the primary button began on an output pin.
    OutputDragStarted { pin: OutPinId },
    /// The pointer is over an input pin.
    InputHovered { pin: InPinId },
    /// The pointer is over an output pin.
    OutputHovered { pin: OutPinId },
    /// The secondary button was clicked on an input pin.
    InputSecondaryClicked { pin: InPinId },
    /// The secondary button was clicked on an output pin.
    OutputSecondaryClicked { pin: OutPinId },
    /// A drag ended. `hovered` is the pin under the pointer, if any; `menu`
    /// says whether the pointer is over empty canvas and a menu for
    /// dropped wires is offered.
    DragReleased { hovered: Option<AnyPin>, menu: bool },
    /// The secondary button is down.
    SecondaryDown,
    /// A node was clicked or dragged with the primary button.
    NodeClicked { node: NodeId },
    /// The empty canvas was clicked with the primary button.
    CanvasClicked,
    /// A drag over the empty canvas reached `pos`.
    CanvasDragged { pos: Point },
}

/// The request to connect an output pin to input pin `to`.
pub open spec fn connect_into<T>(to: InPinId) -> spec_fn(OutPinId) -> Effect<T> {
    |from: OutPinId| Effect::Connect { from, to }
}

/// The request to connect output pin `from` to an input pin.
pub open spec fn connect_from<T>(from: OutPinId) -> spec_fn(InPinId) -> Effect<T> {
    |to: InPinId| Effect::Connect { from, to }
}

/// What a drag that begins on input pin `pin` does. With the command key
/// on a pin that has wires, the drag picks the wires up: it goes on from
/// the output pins at their other ends, and unless shift is held too the
/// wires are dropped from the pin. Otherwise a new wire is dragged from
/// the pin.
pub open spec fn input_drag<T>(s: StateView, g: GraphView<T>, pin: InPinId, m: Modifiers) -> (
    StateView,
    Seq<Effect<T>>,
) {
    if !g.contains(pin.node) {
        (s, Seq::empty())
    } else if m.command && g.in_remotes(pin).len() > 0 {
        (
            s.start_out(g.in_remotes(pin)),
            if m.shift {
                Seq::empty()
            } else {
                seq![Effect::DropInputs { pin }]
            },
        )
    } else {
        (s.start_in(seq![pin]), Seq::empty())
    }
}

/// What a drag that begins on output pin `pin` does, see [`input_drag`].
pub open spec fn output_drag<T>(s: StateView, g: GraphView<T>, pin: OutPinId, m: Modifiers) -> (
    StateView,
    Seq<Effect<T>>,
) {
    if !g.contains(pin.node) {
        (s, Seq::empty())
    } else if m.command && g.out_remotes(pin).len() > 0 {
        (
            s.start_in(g.out_remotes(pin)),
            if m.shift {
                Seq::empty()
            } else {
                seq![Effect::DropOutputs { pin }]
            },
        )
    } else {
        (s.start_out(seq![pin]), Seq::empty())
    }
}

/// What the end of a drag does. Over a pin of the other kind every pin of
/// the bundle is connected to it. Over empty canvas with a menu on offer
/// the bundle stays and waits for the menu. In every other case the bundle
/// is discarded.
pub open spec fn released<T>(s: StateView, hovered: Option<AnyPin>, menu: bool) -> (
    StateView,
    Seq<Effect<T>>,
) {
    match (s.new_wires, hovered) {
        (Some(Bundle::In(pins)), Some(AnyPin::Out(from))) => (
            s.without_wires(),
            pins.map_values(connect_from(from)),
        ),
        (Some(Bundle::Out(pins)), Some(AnyPin::In(to))) => (
            s.without_wires(),
            pins.map_values(connect_into(to)),
        ),
        (Some(b), None) if menu => (StateView { menu: true, ..s }, Seq::empty()),
        _ => (s.without_wires(), Seq::empty()),
    }
}

/// What one event does to a state that was pruned already: the state after
/// it and the mutations of the graph that it asks for.
pub open spec fn react<T>(s: StateView, g: GraphView<T>, event: Event, m: Modifiers) -> (
    StateView,
    Seq<Effect<T>>,
) {
    match event {
        Event::InputDragStarted { pin } => input_drag(s, g, pin, m),
        Event::OutputDragStarted { pin } => output_drag(s, g, pin, m),
        Event::InputHovered { pin } => (
            if !g.contains(pin.node) {
                s
            } else if m.shift && !m.command {
                s.add_in(pin)
            } else if !m.shift && m.command {
                s.remove_in(pin)
            } else {
                s
            },
            Seq::empty(),
        ),
        Event::OutputHovered { pin } => (
            if !g.contains(pin.node) {
                s
            } else if m.shift && !m.command {
                s.add_out(pin)
            } else if !m.shift && m.command {
                s.remove_out(pin)
            } else {
                s
            },
            Seq::empty(),
        ),
        Event::InputSecondaryClicked { pin } => if s.new_wires is Some {
            (s.remove_in(pin), Seq::empty())
        } else {
            (s, seq![Effect::DropInputs { pin }])
        },
        Event::OutputSecondaryClicked { pin } => if s.new_wires is Some {
            (s.remove_out(pin), Seq::empty())
        } else {
            (s, seq![Effect::DropOutputs { pin }])
        },
        Event::DragReleased { hovered, menu } => released(s, hovered, menu),
        Event::SecondaryDown => (
            if s.new_wires is Some {
                s.without_wires()
            } else {
                s
            },
            Seq::empty(),
        ),
        Event::NodeClicked { node } => (
            if !g.contains(node) {
                s
            } else if m.shift {
                s.select_one(m.command, node)
            } else if m.command {
                s.deselect_one(node)
            } else {
                s
            },
            Seq::empty(),
        ),
        Event::CanvasClicked => (
            if m.command {
                StateView { selected: Seq::empty(), ..s }
            } else {
                s
            },
            Seq::empty(),
        ),
        Event::CanvasDragged { pos } => (
            if m.shift || s.rect is Some {
                s.rect_dragged(pos)
            } else {
                s
            },
            Seq::empty(),
        ),
    }
}

/// One interaction step: prune, then react.
pub open spec fn step<T>(s: StateView, g: GraphView<T>, event: Event, m: Modifiers) -> (
    StateView,
    Seq<Effect<T>>,
) {
    react(s.pruned(g), g, event, m)
}

/// The ids in `rects` whose rectangle the selection rectangle `rect`
/// takes: with `contained` those that lie inside it, without those that
/// it touches.
pub open spec fn taken(rects: Seq<(NodeId, Rect)>, rect: Rect, contained: bool) -> Seq<NodeId>
    decreases rects.len(),
{
    if rects.len() == 0 {
        Seq::empty()
    } else {
        let before = taken(rects.drop_last(), rect, contained);
        let (id, r) = rects.last();
        if (contained && rect.contains_rect_spec(r)) || (!contained && rect.intersects_spec(r)) {
            before.push(id)
        } else {
            before
        }
    }
}

/// What the end of a rectangle selection does: with the command key the
/// taken nodes are deselected; with shift they are added to the
/// selection; without either they replace it. The rectangle is gone
/// afterwards.
pub open spec fn rect_released(
    s: StateView,
    rects: Seq<(NodeId, Rect)>,
    contained: bool,
    m: Modifiers,
) -> StateView {
    match s.rect {
        None => s,
        Some((a, b)) => {
            let chosen = taken(rects, Rect::from_two_pos_spec(a, b), contained);
            let next = if m.command {
                s.deselect_many(chosen)
            } else {
                s.select_many(!m.shift, chosen)
            };
            StateView { rect: None, ..next }
        },
    }
}

impl<T> GraphView<T> {
    /// The graph after each of the nodes `nodes` was moved by `(dx, dy)`.
    pub open spec fn shift_all(self, nodes: Seq<NodeId>, dx: i64, dy: i64) -> Self
        decreases nodes.len(),
    {
        if nodes.len() == 0 {
            self
        } else {
            self.shift_all(nodes.drop_last(), dx, dy).shift(nodes.last(), dx, dy)
        }
    }

    /// The graph after node `node` was dragged by `(dx, dy)`: a selected
    /// node takes the whole selection along, any other node moves alone.
    pub open spec fn dragged(self, selected: Seq<NodeId>, node: NodeId, dx: i64, dy: i64) -> Self {
        if !self.contains(node) {
            self
        } else if selected.contains(node) {
            self.shift_all(selected, dx, dy)
        } else {
            self.shift(node, dx, dy)
        }
    }
}

/// Whether the state refers only to nodes of `g`: every selected node and
/// every pin from which a new wire is dragged is on a node of `g`.
pub open spec fn refers_only_to<T>(s: StateView, g: GraphView<T>) -> bool {
    &&& forall|id: NodeId| s.selected.contains(id) ==> g.contains(id)
    &&& match s.new_wires {
        Some(Bundle::In(pins)) => forall|i: int|
            0 <= i < pins.len() ==> g.contains((#[trigger] pins[i]).node),
        Some(Bundle::Out(pins)) => forall|i: int|
            0 <= i < pins.len() ==> g.contains((#[trigger] pins[i]).node),
        None => true,
    }
}

/// A pruned state refers only to nodes of the graph.
pub proof fn lemma_pruned_refers<T>(s: StateView, g: GraphView<T>)
    requires
        s.wf(),
    ensures
        s.pruned(g).wf(),
        refers_only_to(s.pruned(g), g),
{
    lemma_filter_members(s.selected, live_node(g));
    lemma_filter_no_duplicates(s.selected, live_node(g));
    match s.new_wires {
        Some(Bundle::In(pins)) => {
            lemma_filter_members(pins, live_in_pin(g));
            let kept = pins.filter(live_in_pin(g));
            assert forall|i: int| 0 <= i < kept.len() implies g.contains(
                (#[trigger] kept[i]).node,
            ) by {
                assert(kept.contains(kept[i]));
            }
        },
        Some(Bundle::Out(pins)) => {
            lemma_filter_members(pins, live_out_pin(g));
            let kept = pins.filter(live_out_pin(g));
            assert forall|i: int| 0 <= i < kept.len() implies g.contains(
                (#[trigger] kept[i]).node,
            ) by {
                assert(kept.contains(kept[i]));
            }
        },
        None => {},
    }
}

/// The pins at the other ends of the wires of a pin are on nodes of the
/// graph.
pub proof fn lemma_remotes_live<T>(g: GraphView<T>)
    requires
        g.wf(),
    ensures
        forall|pin: InPinId, i: int|
            0 <= i < g.in_remotes(pin).len() ==> g.contains(
                (#[trigger] g.in_remotes(pin)[i]).node,
            ),
        forall|pin: OutPinId, i: int|
            0 <= i < g.out_remotes(pin).len() ==> g.contains(
                (#[trigger] g.out_remotes(pin)[i]).node,
            ),
{
    assert forall|pin: InPinId, i: int| 0 <= i < g.in_remotes(pin).len() implies g.contains(
        (#[trigger] g.in_remotes(pin)[i]).node,
    ) by {
        lemma_filter_members(g.wires, enters(pin));
        let kept = g.wires.filter(enters(pin));
        assert(kept.contains(kept[i]));
        let k = choose|k: int| 0 <= k < g.wires.len() && g.wires[k] == kept[i];
        assert(g.contains(g.wires[k].out_pin.node));
    }
    assert forall|pin: OutPinId, i: int| 0 <= i < g.out_remotes(pin).len() implies g.contains(
        (#[trigger] g.out_remotes(pin)[i]).node,
    ) by {
        lemma_filter_members(g.wires, leaves(pin));
        let kept = g.wires.filter(leaves(pin));
        assert(kept.contains(kept[i]));
        let k = choose|k: int| 0 <= k < g.wires.len() && g.wires[k] == kept[i];
        assert(g.contains(g.wires[k].in_pin.node));
    }
}

/// After an interaction step the state refers only to nodes of the graph:
/// a node that was removed is no longer selected, and a drag from one of
/// its pins has ended or goes on without that pin.
pub proof fn lemma_step_forgets_removed<T>(s: StateView, g: GraphView<T>, event: Event, m: Modifiers)
    requires
        s.wf(),
        g.wf(),
    ensures
        step(s, g, event, m).0.wf(),
        refers_only_to(step(s, g, event, m).0, g),
{
    let p = s.pruned(g);
    lemma_pruned_refers(s, g);
    lemma_remotes_live(g);
    let next = step(s, g, event, m).0;
    match event {
        Event::InputHovered { pin } => {
            if let Some(Bundle::In(pins)) = p.new_wires {
                assert forall|i: int| 0 <= i < pins.len() + 1 && g.contains(
                    pin.node,
                ) implies g.contains((#[trigger] pins.push(pin)[i]).node) by {
                    if i < pins.len() {
                        assert(g.contains(pins[i].node));
                    }
                }
                lemma_filter_members(pins, not_in_pin(pin));
                let kept = pins.filter(not_in_pin(pin));
                assert forall|i: int| 0 <= i < kept.len() implies g.contains(
                    (#[trigger] kept[i]).node,
                ) by {
                    assert(kept.contains(kept[i]));
                }
            }
        },
        Event::OutputHovered { pin } => {
            if let Some(Bundle::Out(pins)) = p.new_wires {
                assert forall|i: int| 0 <= i < pins.len() + 1 && g.contains(
                    pin.node,
                ) implies g.contains((#[trigger] pins.push(pin)[i]).node) by {
                    if i < pins.len() {
                        assert(g.contains(pins[i].node));
                    }
                }
                lemma_filter_members(pins, not_out_pin(pin));
                let kept = pins.filter(not_out_pin(pin));
                assert forall|i: int| 0 <= i < kept.len() implies g.contains(
                    (#[trigger] kept[i]).node,
                ) by {
                    assert(kept.contains(kept[i]));
                }
            }
        },
        Event::InputSecondaryClicked { pin } => {
            if let Some(Bundle::In(pins)) = p.new_wires {
                lemma_filter_members(pins, not_in_pin(pin));
                let kept = pins.filter(not_in_pin(pin));
                assert forall|i: int| 0 <= i < kept.len() implies g.contains(
                    (#[trigger] kept[i]).node,
                ) by {
                    assert(kept.contains(kept[i]));
                }
            }
        },
        Event::OutputSecondaryClicked { pin } => {
            if let Some(Bundle::Out(pins)) = p.new_wires {
                lemma_filter_members(pins, not_out_pin(pin));
                let kept = pins.filter(not_out_pin(pin));
                assert forall|i: int| 0 <= i < kept.len() implies g.contains(
                    (#[trigger] kept[i]).node,
                ) by {
                    assert(kept.contains(kept[i]));
                }
            }
        },
        Event::NodeClicked { node } => {
            lemma_filter_members(p.selected, not_this(node));
            lemma_filter_no_duplicates(p.selected, not_this(node));
            let rest = p.selected.filter(not_this(node));
            assert forall|i: int, j: int|
                0 <= i < rest.len() + 1 && 0 <= j < rest.len() + 1 && i != j implies rest.push(
                node,
            )[i] != rest.push(node)[j] by {
                if i == rest.len() {
                    assert(rest.contains(rest[j]));
                } else if j == rest.len() {
                    assert(rest.contains(rest[i]));
                }
            }
            assert forall|id: NodeId| rest.push(node).contains(id) implies rest.contains(id) || id
                == node by {
                let j = choose|j: int| 0 <= j < rest.len() + 1 && rest.push(node)[j] == id;
                if j < rest.len() {
                    assert(rest[j] == id);
                }
            }
            assert forall|id: NodeId| next.selected.contains(id) implies g.contains(id) by {
                if g.contains(node) {
                    if m.shift && m.command {
                        let one = seq![node];
                        let j = choose|j: int| 0 <= j < one.len() && one[j] == id;
                        assert(one[j] == node);
                    } else if m.shift {
                        assert(rest.contains(id) || id == node);
                    } else if m.command {
                        assert(rest.contains(id));
                    }
                }
            }
        },
        _ => {},
    }
}

impl TreeizeState {
    /// One interaction step: drops what refers to nodes that have left the
    /// graph, lets the event act on the state, and returns the mutations
    /// of the graph that the event asks for, in the order in which they
    /// are to be applied.
    pub fn consume_input<T>(&mut self, graph: &Treeize<T>, event: Event, modifiers: Modifiers) -> (effects:
        Effects<T>)
        requires
            old(self).wf(),
        ensures
            final(self).wf(),
            final(self)@ == step(old(self)@, graph@, event, modifiers).0,
            effects@ == step(old(self)@, graph@, event, modifiers).1,
    {
        self.prune(graph);
        let mut effects: Effects<T> = Effects::new();
        match event {
            Event::InputDragStarted { pin } => {
                if graph.contains(pin.node) {
                    let found = graph.in_pin(pin);
                    if modifiers.command && found.remotes.len() > 0 {
                        self.start_new_wires_out(&found.remotes);
                        if !modifiers.shift {
                            effects.drop_inputs(pin);
                        }
                    } else {
                        self.start_new_wire_in(pin);
                    }
                }
            },
            Event::OutputDragStarted { pin } => {
                if graph.contains(pin.node) {
                    let found = graph.out_pin(pin);
                    if modifiers.command && found.remotes.len() > 0 {
                        self.start_new_wires_in(&found.remotes);
                        if !modifiers.shift {
                            effects.drop_outputs(pin);
                        }
                    } else {
                        self.start_new_wire_out(pin);
                    }
                }
            },
            Event::InputHovered { pin } => {
                if graph.contains(pin.node) {
                    if modifiers.shift && !modifiers.command {
                        self.add_new_wire_in(pin);
                    } else if !modifiers.shift && modifiers.command {
                        self.remove_new_wire_in(pin);
                    }
                }
            },
            Event::OutputHovered { pin } => {
                if graph.contains(pin.node) {
                    if modifiers.shift && !modifiers.command {
                        self.add_new_wire_out(pin);
                    } else if !modifiers.shift && modifiers.command {
                        self.remove_new_wire_out(pin);
                    }
                }
            },
            Event::InputSecondaryClicked { pin } => {
                if self.has_new_wires() {
                    self.remove_new_wire_in(pin);
                } else {
                    effects.drop_inputs(pin);
                }
            },
            Event::OutputSecondaryClicked { pin } => {
                if self.has_new_wires() {
                    self.remove_new_wire_out(pin);
                } else {
                    effects.drop_outputs(pin);
                }
            },
            Event::DragReleased { hovered, menu } => {
                let ghost before = self@;
                let wires = self.take_new_wires();
                match (wires, hovered) {
                    (Some(NewWires::In(pins)), Some(AnyPin::Out(from))) => {
                        for i in 0..pins.len()
                            invariant
                                effects@ == pins@.subrange(0, i as int).map_values(
                                    connect_from::<T>(from),
                                ),
                        {
                            proof {
                                assert(pins@.subrange(0, i + 1).map_values(connect_from::<T>(from))
                                    =~= pins@.subrange(0, i as int).map_values(
                                    connect_from::<T>(from),
                                ).push(Effect::Connect { from, to: pins@[i as int] }));
                            }
                            effects.connect(from, pins[i]);
                        }
                        assert(pins@.subrange(0, pins@.len() as int) =~= pins@);
                    },
                    (Some(NewWires::Out(pins)), Some(AnyPin::In(to))) => {
                        for i in 0..pins.len()
                            invariant
                                effects@ == pins@.subrange(0, i as int).map_values(
                                    connect_into::<T>(to),
                                ),
                        {
                            proof {
                                assert(pins@.subrange(0, i + 1).map_values(connect_into::<T>(to))
                                    =~= pins@.subrange(0, i as int).map_values(
                                    connect_into::<T>(to),
                                ).push(Effect::Connect { from: pins@[i as int], to }));
                            }
                            effects.connect(pins[i], to);
                        }
                        assert(pins@.subrange(0, pins@.len() as int) =~= pins@);
                    },
                    (Some(bundle), None) => {
                        if menu {
                            self.set_new_wires_menu(bundle);
                        }
                    },
                    _ => {},
                }
            },
            Event::SecondaryDown => {
                if self.has_new_wires() {
                    let _ = self.take_new_wires();
                }
            },
            Event::NodeClicked { node } => {
                if graph.contains(node) {
                    if modifiers.shift {
                        self.select_one_node(modifiers.command, node);
                    } else if modifiers.command {
                        self.deselect_one_node(node);
                    }
                }
            },
            Event::CanvasClicked => {
                if modifiers.command {
                    self.deselect_all_nodes();
                }
            },
            Event::CanvasDragged { pos } => {
                if self.is_rect_selection() {
                    self.update_rect_selection(pos);
                } else if modifiers.shift {
                    self.start_rect_selection(pos);
                }
            },
        }
        effects
    }

    /// Ends the rectangle selection. `rects` holds the rectangle of each
    /// node that was drawn; `contained` says whether a node has to lie
    /// inside the selection rectangle or only to touch it.
    pub fn finish_rect_selection(
        &mut self,
        rects: &Vec<(NodeId, Rect)>,
        contained: bool,
        modifiers: Modifiers,
    )
        requires
            old(self).wf(),
        ensures
            final(self).wf(),
            final(self)@ == rect_released(old(self)@, rects@, contained, modifiers),
    {
        match self.rect_selection() {
            None => {},
            Some(rect) => {
                let mut chosen: Vec<NodeId> = Vec::new();
                proof {
                    assert(rects@.subrange(0, 0) =~= Seq::<(NodeId, Rect)>::empty());
                }
                for i in 0..rects.len()
                    invariant
                        chosen@ == taken(rects@.subrange(0, i as int), rect, contained),
                {
                    proof {
                        assert(rects@.subrange(0, i + 1).drop_last() =~= rects@.subrange(
                            0,
                            i as int,
                        ));
                        assert(rects@.subrange(0, i + 1).last() == rects@[i as int]);
                    }
                    let entry: (NodeId, Rect) = rects[i];
                    let hit: bool = if contained {
                        rect.contains_rect(&entry.1)
                    } else {
                        rect.intersects(&entry.1)
                    };
                    if hit {
                        chosen.push(entry.0);
                    }
                }
                assert(rects@.subrange(0, rects@.len() as int) =~= rects@);
                if modifiers.command {
                    self.deselect_many_nodes(&chosen);
                } else {
                    self.select_many_nodes(!modifiers.shift, &chosen);
                }
                self.stop_rect_selection();
            },
        }
    }

    /// Moves what a drag of node `node` by `(dx, dy)` moves: the whole
    /// selection if the node is selected, the node alone if not.
    pub fn drag_node<T>(&self, graph: &mut Treeize<T>, node: NodeId, dx: i64, dy: i64)
        requires
            old(graph).wf(),
        ensures
            final(graph).wf(),
            final(graph)@ == old(graph)@.dragged(self@.selected, node, dx, dy),
    {
        if graph.contains(node) {
            if self.is_selected(node) {
                let ghost g = graph@;
                let nodes = self.selected_nodes();
                proof {
                    assert(nodes@.subrange(0, 0) =~= Seq::<NodeId>::empty());
                }
                for i in 0..nodes.len()
                    invariant
                        graph.wf(),
                        graph@ == g.shift_all(nodes@.subrange(0, i as int), dx, dy),
                {
                    proof {
                        assert(nodes@.subrange(0, i + 1).drop_last() =~= nodes@.subrange(
                            0,
                            i as int,
                        ));
                        assert(nodes@.subrange(0, i + 1).last() == nodes@[i as int]);
                    }
                    graph.move_node(nodes[i], dx, dy);
                }
                assert(nodes@.subrange(0, nodes@.len() as int) =~= nodes@);
            } else {
                graph.move_node(node, dx, dy);
            }
        }
    }
}

} // verus!
