//! Interaction state: the wires being dragged, the selected nodes and the
//! selection rectangle.

use vstd::prelude::*;
use crate::geometry::Point;
use crate::geometry::Rect;
use crate::graph::GraphView;
use crate::graph::InPinId;
use crate::graph::NodeId;
use crate::graph::OutPinId;
use crate::seq_facts::lemma_filter_members;
use crate::seq_facts::lemma_filter_no_duplicates;
use crate::seq_facts::lemma_filter_push;
use crate::store::Treeize;

verus! {

/// A pin of either kind.
#[derive(Clone, Copy, Debug, PartialEq, Eq, Structural, Hash)]
pub enum AnyPin {
    In(InPinId),
    Out(OutPinId),
}

/// The pins from which new wires are being dragged. All pins of a bundle
/// are of one kind.
#[derive(Debug, PartialEq, Eq)]
pub enum NewWires {
    In(Vec<InPinId>),
    Out(Vec<OutPinId>),
}

/// The mathematical content of a bundle of new wires.
pub enum Bundle {
    In(Seq<InPinId>),
    Out(Seq<OutPinId>),
}

impl View for NewWires {
    type V = Bundle;

    open spec fn view(&self) -> Bundle {
        match self {
            NewWires::In(pins) => Bundle::In(pins@),
            NewWires::Out(pins) => Bundle::Out(pins@),
        }
    }
}

/// The view of an optional bundle.
pub open spec fn bundle_of(w: Option<NewWires>) -> Option<Bundle> {
    match w {
        Some(w) => Some(w@),
        None => None,
    }
}

/// Keeps the node ids that do not occur in `nodes`.
pub open spec fn not_among(nodes: Seq<NodeId>) -> spec_fn(NodeId) -> bool {
    |n: NodeId| !nodes.contains(n)
}

/// Keeps the node ids other than `id`.
pub open spec fn not_this(id: NodeId) -> spec_fn(NodeId) -> bool {
    |n: NodeId| n != id
}

/// Keeps the input pins other than `pin`.
pub open spec fn not_in_pin(pin: InPinId) -> spec_fn(InPinId) -> bool {
    |p: InPinId| p != pin
}

/// Keeps the output pins other than `pin`.
pub open spec fn not_out_pin(pin: OutPinId) -> spec_fn(OutPinId) -> bool {
    |p: OutPinId| p != pin
}

/// Keeps the input pins that are not on node `id`.
pub open spec fn in_pin_off(id: NodeId) -> spec_fn(InPinId) -> bool {
    |p: InPinId| p.node != id
}

/// Keeps the output pins that are not on node `id`.
pub open spec fn out_pin_off(id: NodeId) -> spec_fn(OutPinId) -> bool {
    |p: OutPinId| p.node != id
}

/// Keeps the node ids of nodes of `g`.
pub open spec fn live_node<T>(g: GraphView<T>) -> spec_fn(NodeId) -> bool {
    |n: NodeId| g.contains(n)
}

/// Keeps the input pins on nodes of `g`.
pub open spec fn live_in_pin<T>(g: GraphView<T>) -> spec_fn(InPinId) -> bool {
    |p: InPinId| g.contains(p.node)
}

/// Keeps the output pins on nodes of `g`.
pub open spec fn live_out_pin<T>(g: GraphView<T>) -> spec_fn(OutPinId) -> bool {
    |p: OutPinId| g.contains(p.node)
}

/// `selected` with the ids of `nodes` added at the end, each once and in
/// the order of its first occurrence.
pub open spec fn with_all(selected: Seq<NodeId>, nodes: Seq<NodeId>) -> Seq<NodeId>
    decreases nodes.len(),
{
    if nodes.len() == 0 {
        selected
    } else {
        let before = with_all(selected, nodes.drop_last());
        if before.contains(nodes.last()) {
            before
        } else {
            before.push(nodes.last())
        }
    }
}

/// Adding nodes to a selection leaves no node selected twice, and selects
/// exactly the nodes that were selected or are added.
pub proof fn lemma_with_all(selected: Seq<NodeId>, nodes: Seq<NodeId>)
    requires
        selected.no_duplicates(),
    ensures
        with_all(selected, nodes).no_duplicates(),
        forall|x: NodeId| #[trigger]
            with_all(selected, nodes).contains(x) <==> selected.contains(x) || nodes.contains(x),
    decreases nodes.len(),
{
    if nodes.len() > 0 {
        let rest = nodes.drop_last();
        let last = nodes.last();
        lemma_with_all(selected, rest);
        let before = with_all(selected, rest);
        let out = with_all(selected, nodes);
        if !before.contains(last) {
            assert forall|i: int, j: int|
                0 <= i < out.len() && 0 <= j < out.len() && i != j implies out[i] != out[j] by {
                if i == before.len() {
                    assert(before.contains(before[j]));
                } else if j == before.len() {
                    assert(before.contains(before[i]));
                }
            }
        }
        assert forall|x: NodeId| #[trigger]
            out.contains(x) <==> selected.contains(x) || nodes.contains(x) by {
            if out.contains(x) {
                let j = choose|j: int| 0 <= j < out.len() && out[j] == x;
                if j < before.len() {
                    assert(before[j] == x);
                    assert(before.contains(x));
                    if rest.contains(x) {
                        let k = choose|k: int| 0 <= k < rest.len() && rest[k] == x;
                        assert(nodes[k] == x);
                    }
                } else {
                    assert(nodes[nodes.len() - 1] == x);
                }
            }
            if selected.contains(x) {
                assert(before.contains(x));
                let j = choose|j: int| 0 <= j < before.len() && before[j] == x;
                assert(out[j] == x);
            }
            if nodes.contains(x) {
                let k = choose|k: int| 0 <= k < nodes.len() && nodes[k] == x;
                if k < rest.len() {
                    assert(rest[k] == x);
                    assert(before.contains(x));
                    let j = choose|j: int| 0 <= j < before.len() && before[j] == x;
                    assert(out[j] == x);
                } else if before.contains(x) {
                    let j = choose|j: int| 0 <= j < before.len() && before[j] == x;
                    assert(out[j] == x);
                } else {
                    assert(out[before.len() as int] == x);
                }
            }
        }
    }
}

/// The bundle without the pins on node `id`; no bundle when none is left.
pub open spec fn bundle_without(w: Option<Bundle>, id: NodeId) -> Option<Bundle> {
    match w {
        None => None,
        Some(Bundle::In(pins)) => {
            let kept = pins.filter(in_pin_off(id));
            if kept.len() == 0 {
                None
            } else {
                Some(Bundle::In(kept))
            }
        },
        Some(Bundle::Out(pins)) => {
            let kept = pins.filter(out_pin_off(id));
            if kept.len() == 0 {
                None
            } else {
                Some(Bundle::Out(kept))
            }
        },
    }
}

/// The mathematical content of the interaction state.
pub struct StateView {
    /// The bundle of new wires, if one is being dragged or waits for the
    /// menu.
    pub new_wires: Option<Bundle>,
    /// Whether the bundle waits for the dropped-wire menu.
    pub menu: bool,
    /// The anchor and the current corner of the selection rectangle.
    pub rect: Option<(Point, Point)>,
    /// The selected nodes in the order in which they were selected.
    pub selected: Seq<NodeId>,
}

impl StateView {
    /// Nothing dragged, nothing selected.
    pub open spec fn idle() -> Self {
        StateView { new_wires: None, menu: false, rect: None, selected: Seq::empty() }
    }

    /// The invariant: no node is selected twice, and only a bundle that
    /// exists waits for the menu.
    pub open spec fn wf(self) -> bool {
        &&& self.selected.no_duplicates()
        &&& self.menu ==> self.new_wires is Some
    }

    /// Whether new wires are dragged from input pins.
    pub open spec fn dragging_in(self) -> bool {
        self.new_wires matches Some(Bundle::In(_))
    }

    /// Whether new wires are dragged from output pins.
    pub open spec fn dragging_out(self) -> bool {
        self.new_wires matches Some(Bundle::Out(_))
    }

    /// The state after a drag from the given input pins began.
    pub open spec fn start_in(self, pins: Seq<InPinId>) -> Self {
        StateView { new_wires: Some(Bundle::In(pins)), menu: false, ..self }
    }

    /// The state after a drag from the given output pins began.
    pub open spec fn start_out(self, pins: Seq<OutPinId>) -> Self {
        StateView { new_wires: Some(Bundle::Out(pins)), menu: false, ..self }
    }

    /// The state after input pin `pin` joined the bundle: nothing changes
    /// unless wires are dragged from inputs and the pin is not among them.
    pub open spec fn add_in(self, pin: InPinId) -> Self {
        match self.new_wires {
            Some(Bundle::In(pins)) if !pins.contains(pin) => StateView {
                new_wires: Some(Bundle::In(pins.push(pin))),
                ..self
            },
            _ => self,
        }
    }

    /// The state after output pin `pin` joined the bundle.
    pub open spec fn add_out(self, pin: OutPinId) -> Self {
        match self.new_wires {
            Some(Bundle::Out(pins)) if !pins.contains(pin) => StateView {
                new_wires: Some(Bundle::Out(pins.push(pin))),
                ..self
            },
            _ => self,
        }
    }

    /// The state after input pin `pin` left the bundle.
    pub open spec fn remove_in(self, pin: InPinId) -> Self {
        match self.new_wires {
            Some(Bundle::In(pins)) => StateView {
                new_wires: Some(Bundle::In(pins.filter(not_in_pin(pin)))),
                ..self
            },
            _ => self,
        }
    }

    /// The state after output pin `pin` left the bundle.
    pub open spec fn remove_out(self, pin: OutPinId) -> Self {
        match self.new_wires {
            Some(Bundle::Out(pins)) => StateView {
                new_wires: Some(Bundle::Out(pins.filter(not_out_pin(pin)))),
                ..self
            },
            _ => self,
        }
    }

    /// The state after the bundle was taken away.
    pub open spec fn without_wires(self) -> Self {
        StateView { new_wires: None, menu: false, ..self }
    }

    /// The state after node `node` was selected. With `reset` it becomes
    /// the only selected node; without, it becomes the last selected one.
    pub open spec fn select_one(self, reset: bool, node: NodeId) -> Self {
        if reset {
            StateView { selected: seq![node], ..self }
        } else {
            StateView { selected: self.selected.filter(not_this(node)).push(node), ..self }
        }
    }

    /// The state after node `node` was deselected.
    pub open spec fn deselect_one(self, node: NodeId) -> Self {
        StateView { selected: self.selected.filter(not_this(node)), ..self }
    }

    /// The state after the nodes `nodes` were selected, with `reset` in
    /// place of the old selection, without in addition to it.
    pub open spec fn select_many(self, reset: bool, nodes: Seq<NodeId>) -> Self {
        StateView {
            selected: with_all(
                if reset {
                    Seq::empty()
                } else {
                    self.selected
                },
                nodes,
            ),
            ..self
        }
    }

    /// The state after the nodes `nodes` were deselected.
    pub open spec fn deselect_many(self, nodes: Seq<NodeId>) -> Self {
        StateView { selected: self.selected.filter(not_among(nodes)), ..self }
    }

    /// The state after node `id` left the graph: it is no longer selected,
    /// and no new wire is dragged from one of its pins. A bundle that
    /// loses its last pin is discarded.
    pub open spec fn forget(self, id: NodeId) -> Self {
        let left = bundle_without(self.new_wires, id);
        StateView {
            new_wires: left,
            menu: self.menu && left is Some,
            rect: self.rect,
            selected: self.selected.filter(not_this(id)),
        }
    }

    /// The state without what refers to nodes that are not in `g`: those
    /// nodes are not selected, and no new wire is dragged from their pins.
    /// A bundle that loses its last pin is discarded.
    pub open spec fn pruned<T>(self, g: GraphView<T>) -> Self {
        let left = match self.new_wires {
            None => None,
            Some(Bundle::In(pins)) => {
                let kept = pins.filter(live_in_pin(g));
                if kept.len() == 0 {
                    None
                } else {
                    Some(Bundle::In(kept))
                }
            },
            Some(Bundle::Out(pins)) => {
                let kept = pins.filter(live_out_pin(g));
                if kept.len() == 0 {
                    None
                } else {
                    Some(Bundle::Out(kept))
                }
            },
        };
        StateView {
            new_wires: left,
            menu: self.menu && left is Some,
            rect: self.rect,
            selected: self.selected.filter(live_node(g)),
        }
    }

    /// The state after a drag of the selection rectangle reached `pos`:
    /// the first drag sets the anchor, later ones move the other corner.
    pub open spec fn rect_dragged(self, pos: Point) -> Self {
        match self.rect {
            Some((anchor, _)) => StateView { rect: Some((anchor, pos)), ..self },
            None => StateView { rect: Some((pos, pos)), ..self },
        }
    }
}

/// The state of the interaction with one graph.
pub struct TreeizeState {
    new_wires: Option<NewWires>,
    new_wires_menu: bool,
    rect_selection: Option<(Point, Point)>,
    selected_nodes: Vec<NodeId>,
}

impl View for TreeizeState {
    type V = StateView;

    closed spec fn view(&self) -> StateView {
        StateView {
            new_wires: bundle_of(self.new_wires),
            menu: self.new_wires_menu,
            rect: self.rect_selection,
            selected: self.selected_nodes@,
        }
    }
}

/// The input pins in `pins` other than `pin`.
fn in_pins_without(pins: &Vec<InPinId>, pin: InPinId) -> (out: Vec<InPinId>)
    ensures
        out@ == pins@.filter(not_in_pin(pin)),
{
    let mut out: Vec<InPinId> = Vec::new();
    for i in 0..pins.len()
        invariant
            out@ == pins@.subrange(0, i as int).filter(not_in_pin(pin)),
    {
        proof {
            lemma_filter_push(pins@.subrange(0, i as int), pins@[i as int], not_in_pin(pin));
            assert(pins@.subrange(0, i + 1) =~= pins@.subrange(0, i as int).push(pins@[i as int]));
        }
        if pins[i] != pin {
            out.push(pins[i]);
        }
    }
    assert(pins@.subrange(0, pins@.len() as int) =~= pins@);
    out
}

/// The output pins in `pins` other than `pin`.
fn out_pins_without(pins: &Vec<OutPinId>, pin: OutPinId) -> (out: Vec<OutPinId>)
    ensures
        out@ == pins@.filter(not_out_pin(pin)),
{
    let mut out: Vec<OutPinId> = Vec::new();
    for i in 0..pins.len()
        invariant
            out@ == pins@.subrange(0, i as int).filter(not_out_pin(pin)),
    {
        proof {
            lemma_filter_push(pins@.subrange(0, i as int), pins@[i as int], not_out_pin(pin));
            assert(pins@.subrange(0, i + 1) =~= pins@.subrange(0, i as int).push(pins@[i as int]));
        }
        if pins[i] != pin {
            out.push(pins[i]);
        }
    }
    assert(pins@.subrange(0, pins@.len() as int) =~= pins@);
    out
}

/// The input pins in `pins` that are not on node `id`.
fn in_pins_off(pins: &Vec<InPinId>, id: NodeId) -> (out: Vec<InPinId>)
    ensures
        out@ == pins@.filter(in_pin_off(id)),
{
    let mut out: Vec<InPinId> = Vec::new();
    for i in 0..pins.len()
        invariant
            out@ == pins@.subrange(0, i as int).filter(in_pin_off(id)),
    {
        proof {
            lemma_filter_push(pins@.subrange(0, i as int), pins@[i as int], in_pin_off(id));
            assert(pins@.subrange(0, i + 1) =~= pins@.subrange(0, i as int).push(pins@[i as int]));
        }
        if pins[i].node != id {
            out.push(pins[i]);
        }
    }
    assert(pins@.subrange(0, pins@.len() as int) =~= pins@);
    out
}

/// The output pins in `pins` that are not on node `id`.
fn out_pins_off(pins: &Vec<OutPinId>, id: NodeId) -> (out: Vec<OutPinId>)
    ensures
        out@ == pins@.filter(out_pin_off(id)),
{
    let mut out: Vec<OutPinId> = Vec::new();
    for i in 0..pins.len()
        invariant
            out@ == pins@.subrange(0, i as int).filter(out_pin_off(id)),
    {
        proof {
            lemma_filter_push(pins@.subrange(0, i as int), pins@[i as int], out_pin_off(id));
            assert(pins@.subrange(0, i + 1) =~= pins@.subrange(0, i as int).push(pins@[i as int]));
        }
        if pins[i].node != id {
            out.push(pins[i]);
        }
    }
    assert(pins@.subrange(0, pins@.len() as int) =~= pins@);
    out
}

/// Whether `id` occurs in `nodes`.
pub fn contains_node(nodes: &Vec<NodeId>, id: NodeId) -> (b: bool)
    ensures
        b == nodes@.contains(id),
{
    for i in 0..nodes.len()
        invariant
            forall|j: int| 0 <= j < i ==> nodes@[j] != id,
    {
        if nodes[i] == id {
            assert(nodes@[i as int] == id);
            return true;
        }
    }
    false
}

/// Whether `pin` occurs in `pins`.
fn has_in_pin(pins: &Vec<InPinId>, pin: InPinId) -> (b: bool)
    ensures
        b == pins@.contains(pin),
{
    for i in 0..pins.len()
        invariant
            forall|j: int| 0 <= j < i ==> pins@[j] != pin,
    {
        if pins[i] == pin {
            assert(pins@[i as int] == pin);
            return true;
        }
    }
    false
}

/// Whether `pin` occurs in `pins`.
fn has_out_pin(pins: &Vec<OutPinId>, pin: OutPinId) -> (b: bool)
    ensures
        b == pins@.contains(pin),
{
    for i in 0..pins.len()
        invariant
            forall|j: int| 0 <= j < i ==> pins@[j] != pin,
    {
        if pins[i] == pin {
            assert(pins@[i as int] == pin);
            return true;
        }
    }
    false
}

/// A copy of a list of input pins.
fn copy_in_pins(pins: &Vec<InPinId>) -> (out: Vec<InPinId>)
    ensures
        out@ == pins@,
{
    let mut out: Vec<InPinId> = Vec::new();
    for i in 0..pins.len()
        invariant
            out@ == pins@.subrange(0, i as int),
    {
        out.push(pins[i]);
        assert(pins@.subrange(0, i + 1) =~= pins@.subrange(0, i as int).push(pins@[i as int]));
    }
    assert(pins@.subrange(0, pins@.len() as int) =~= pins@);
    out
}

/// A copy of a list of output pins.
fn copy_out_pins(pins: &Vec<OutPinId>) -> (out: Vec<OutPinId>)
    ensures
        out@ == pins@,
{
    let mut out: Vec<OutPinId> = Vec::new();
    for i in 0..pins.len()
        invariant
            out@ == pins@.subrange(0, i as int),
    {
        out.push(pins[i]);
        assert(pins@.subrange(0, i + 1) =~= pins@.subrange(0, i as int).push(pins@[i as int]));
    }
    assert(pins@.subrange(0, pins@.len() as int) =~= pins@);
    out
}

impl TreeizeState {
    /// The state's invariant, see [`StateView::wf`].
    pub open spec fn wf(&self) -> bool {
        self@.wf()
    }

    /// A state in which nothing is dragged and nothing is selected.
    pub fn new() -> (s: Self)
        ensures
            s.wf(),
            s@ == StateView::idle(),
    {
        TreeizeState {
            new_wires: None,
            new_wires_menu: false,
            rect_selection: None,
            selected_nodes: Vec::new(),
        }
    }

    /// Begins to drag a new wire from input pin `pin`.
    pub fn start_new_wire_in(&mut self, pin: InPinId)
        requires
            old(self).wf(),
        ensures
            final(self).wf(),
            final(self)@ == old(self)@.start_in(seq![pin]),
    {
        let mut pins: Vec<InPinId> = Vec::new();
        pins.push(pin);
        assert(pins@ =~= seq![pin]);
        self.new_wires = Some(NewWires::In(pins));
        self.new_wires_menu = false;
    }

    /// Begins to drag a new wire from output pin `pin`.
    pub fn start_new_wire_out(&mut self, pin: OutPinId)
        requires
            old(self).wf(),
        ensures
            final(self).wf(),
            final(self)@ == old(self)@.start_out(seq![pin]),
    {
        let mut pins: Vec<OutPinId> = Vec::new();
        pins.push(pin);
        assert(pins@ =~= seq![pin]);
        self.new_wires = Some(NewWires::Out(pins));
        self.new_wires_menu = false;
    }

    /// Begins to drag new wires from all of the input pins `pins`.
    pub fn start_new_wires_in(&mut self, pins: &Vec<InPinId>)
        requires
            old(self).wf(),
        ensures
            final(self).wf(),
            final(self)@ == old(self)@.start_in(pins@),
    {
        self.new_wires = Some(NewWires::In(copy_in_pins(pins)));
        self.new_wires_menu = false;
    }

    /// Begins to drag new wires from all of the output pins `pins`.
    pub fn start_new_wires_out(&mut self, pins: &Vec<OutPinId>)
        requires
            old(self).wf(),
        ensures
            final(self).wf(),
            final(self)@ == old(self)@.start_out(pins@),
    {
        self.new_wires = Some(NewWires::Out(copy_out_pins(pins)));
        self.new_wires_menu = false;
    }

    /// Adds input pin `pin` to the bundle dragged from input pins.
    pub fn add_new_wire_in(&mut self, pin: InPinId)
        requires
            old(self).wf(),
        ensures
            final(self).wf(),
            final(self)@ == old(self)@.add_in(pin),
    {
        match &mut self.new_wires {
            Some(NewWires::In(pins)) => {
                let found: bool = has_in_pin(pins, pin);
                if !found {
                    pins.push(pin);
                }
            },
            _ => {},
        }
    }

    /// Adds output pin `pin` to the bundle dragged from output pins.
    pub fn add_new_wire_out(&mut self, pin: OutPinId)
        requires
            old(self).wf(),
        ensures
            final(self).wf(),
            final(self)@ == old(self)@.add_out(pin),
    {
        match &mut self.new_wires {
            Some(NewWires::Out(pins)) => {
                let found: bool = has_out_pin(pins, pin);
                if !found {
                    pins.push(pin);
                }
            },
            _ => {},
        }
    }

    /// Takes input pin `pin` out of the bundle dragged from input pins.
    pub fn remove_new_wire_in(&mut self, pin: InPinId)
        requires
            old(self).wf(),
        ensures
            final(self).wf(),
            final(self)@ == old(self)@.remove_in(pin),
    {
        let kept: Option<Vec<InPinId>> = match &self.new_wires {
            Some(NewWires::In(pins)) => Some(in_pins_without(pins, pin)),
            _ => None,
        };
        match kept {
            Some(pins) => {
                self.new_wires = Some(NewWires::In(pins));
            },
            None => {},
        }
    }

    /// Takes output pin `pin` out of the bundle dragged from output pins.
    pub fn remove_new_wire_out(&mut self, pin: OutPinId)
        requires
            old(self).wf(),
        ensures
            final(self).wf(),
            final(self)@ == old(self)@.remove_out(pin),
    {
        let kept: Option<Vec<OutPinId>> = match &self.new_wires {
            Some(NewWires::Out(pins)) => Some(out_pins_without(pins, pin)),
            _ => None,
        };
        match kept {
            Some(pins) => {
                self.new_wires = Some(NewWires::Out(pins));
            },
            None => {},
        }
    }

    /// Whether a bundle of new wires exists.
    pub fn has_new_wires(&self) -> (b: bool)
        ensures
            b == (self@.new_wires is Some),
    {
        self.new_wires.is_some()
    }

    /// Whether new wires are dragged from input pins.
    pub fn has_new_wires_in(&self) -> (b: bool)
        ensures
            b == self@.dragging_in(),
    {
        match &self.new_wires {
            Some(NewWires::In(_)) => true,
            _ => false,
        }
    }

    /// Whether new wires are dragged from output pins.
    pub fn has_new_wires_out(&self) -> (b: bool)
        ensures
            b == self@.dragging_out(),
    {
        match &self.new_wires {
            Some(NewWires::Out(_)) => true,
            _ => false,
        }
    }

    /// The bundle of new wires, if there is one.
    pub fn new_wires(&self) -> (w: Option<&NewWires>)
        ensures
            match w {
                Some(w) => self@.new_wires == Some(w@),
                None => self@.new_wires is None,
            },
    {
        self.new_wires.as_ref()
    }

    /// Takes the bundle of new wires away and returns it.
    pub fn take_new_wires(&mut self) -> (w: Option<NewWires>)
        requires
            old(self).wf(),
        ensures
            final(self).wf(),
            bundle_of(w) == old(self)@.new_wires,
            final(self)@ == old(self)@.without_wires(),
    {
        self.new_wires_menu = false;
        self.new_wires.take()
    }

    /// Keeps `wires` as the bundle that waits for the dropped-wire menu.
    pub fn set_new_wires_menu(&mut self, wires: NewWires)
        requires
            old(self).wf(),
        ensures
            final(self).wf(),
            final(self)@ == (StateView { new_wires: Some(wires@), menu: true, ..old(self)@ }),
    {
        self.new_wires = Some(wires);
        self.new_wires_menu = true;
    }

    /// Takes the bundle that waits for the dropped-wire menu, if one does.
    /// A bundle that is still dragged stays.
    pub fn take_new_wires_menu(&mut self) -> (w: Option<NewWires>)
        requires
            old(self).wf(),
        ensures
            final(self).wf(),
            old(self)@.menu ==> bundle_of(w) == old(self)@.new_wires && final(self)@ == old(
                self,
            )@.without_wires(),
            !old(self)@.menu ==> w is None && final(self)@ == old(self)@,
    {
        if self.new_wires_menu {
            self.new_wires_menu = false;
            self.new_wires.take()
        } else {
            None
        }
    }

    /// The selected nodes in the order in which they were selected.
    pub fn selected_nodes(&self) -> (nodes: &Vec<NodeId>)
        ensures
            nodes@ == self@.selected,
    {
        &self.selected_nodes
    }

    /// Whether node `node` is selected.
    pub fn is_selected(&self, node: NodeId) -> (b: bool)
        ensures
            b == self@.selected.contains(node),
    {
        contains_node(&self.selected_nodes, node)
    }

    /// Takes `id` out of the selection.
    fn unselect(&mut self, id: NodeId)
        requires
            old(self).wf(),
        ensures
            final(self).wf(),
            final(self)@ == old(self)@.deselect_one(id),
    {
        let mut kept: Vec<NodeId> = Vec::new();
        let ghost all = self.selected_nodes@;
        proof {
            lemma_filter_no_duplicates(all, not_this(id));
        }
        for i in 0..self.selected_nodes.len()
            invariant
                all == self.selected_nodes@,
                kept@ == all.subrange(0, i as int).filter(not_this(id)),
        {
            proof {
                lemma_filter_push(all.subrange(0, i as int), all[i as int], not_this(id));
                assert(all.subrange(0, i + 1) =~= all.subrange(0, i as int).push(all[i as int]));
            }
            if self.selected_nodes[i] != id {
                kept.push(self.selected_nodes[i]);
            }
        }
        assert(all.subrange(0, all.len() as int) =~= all);
        self.selected_nodes = kept;
    }

    /// Selects node `node`: with `reset` as the only selected node,
    /// without as the last selected one.
    pub fn select_one_node(&mut self, reset: bool, node: NodeId)
        requires
            old(self).wf(),
        ensures
            final(self).wf(),
            final(self)@ == old(self)@.select_one(reset, node),
    {
        if reset {
            let mut only: Vec<NodeId> = Vec::new();
            only.push(node);
            assert(only@ =~= seq![node]);
            self.selected_nodes = only;
        } else {
            self.unselect(node);
            proof {
                let rest = self.selected_nodes@;
                lemma_filter_members(old(self)@.selected, not_this(node));
                assert forall|i: int, j: int|
                    0 <= i < rest.len() + 1 && 0 <= j < rest.len() + 1 && i != j implies rest.push(
                    node,
                )[i] != rest.push(node)[j] by {
                    if i == rest.len() {
                        assert(rest.contains(rest[j]));
                    } else if j == rest.len() {
                        assert(rest.contains(rest[i]));
                    }
                }
            }
            self.selected_nodes.push(node);
        }
    }

    /// Deselects node `node`.
    pub fn deselect_one_node(&mut self, node: NodeId)
        requires
            old(self).wf(),
        ensures
            final(self).wf(),
            final(self)@ == old(self)@.deselect_one(node),
    {
        self.unselect(node);
    }

    /// Selects the nodes `nodes`, with `reset` in place of the old
    /// selection, without in addition to it.
    pub fn select_many_nodes(&mut self, reset: bool, nodes: &Vec<NodeId>)
        requires
            old(self).wf(),
        ensures
            final(self).wf(),
            final(self)@ == old(self)@.select_many(reset, nodes@),
    {
        if reset {
            self.selected_nodes = Vec::new();
        }
        let ghost first = self.selected_nodes@;
        proof {
            assert(nodes@.subrange(0, 0) =~= Seq::<NodeId>::empty());
        }
        for i in 0..nodes.len()
            invariant
                self.wf(),
                self@.new_wires == old(self)@.new_wires,
                self@.menu == old(self)@.menu,
                self@.rect == old(self)@.rect,
                self.selected_nodes@ == with_all(first, nodes@.subrange(0, i as int)),
        {
            let ghost sofar = self.selected_nodes@;
            proof {
                assert(nodes@.subrange(0, i + 1).drop_last() =~= nodes@.subrange(0, i as int));
                assert(nodes@.subrange(0, i + 1).last() == nodes@[i as int]);
            }
            if !contains_node(&self.selected_nodes, nodes[i]) {
                proof {
                    let x = nodes@[i as int];
                    assert forall|a: int, b: int|
                        0 <= a < sofar.len() + 1 && 0 <= b < sofar.len() + 1 && a
                            != b implies sofar.push(x)[a] != sofar.push(x)[b] by {
                        if a == sofar.len() {
                            assert(sofar.contains(sofar[b]));
                        } else if b == sofar.len() {
                            assert(sofar.contains(sofar[a]));
                        }
                    }
                }
                self.selected_nodes.push(nodes[i]);
            }
        }
        assert(nodes@.subrange(0, nodes@.len() as int) =~= nodes@);
    }

    /// Deselects the nodes `nodes`.
    pub fn deselect_many_nodes(&mut self, nodes: &Vec<NodeId>)
        requires
            old(self).wf(),
        ensures
            final(self).wf(),
            final(self)@ == old(self)@.deselect_many(nodes@),
    {
        let mut kept: Vec<NodeId> = Vec::new();
        let ghost all = self.selected_nodes@;
        proof {
            lemma_filter_no_duplicates(all, not_among(nodes@));
        }
        for i in 0..self.selected_nodes.len()
            invariant
                all == self.selected_nodes@,
                kept@ == all.subrange(0, i as int).filter(not_among(nodes@)),
        {
            proof {
                lemma_filter_push(all.subrange(0, i as int), all[i as int], not_among(nodes@));
                assert(all.subrange(0, i + 1) =~= all.subrange(0, i as int).push(all[i as int]));
            }
            if !contains_node(nodes, self.selected_nodes[i]) {
                kept.push(self.selected_nodes[i]);
            }
        }
        assert(all.subrange(0, all.len() as int) =~= all);
        self.selected_nodes = kept;
    }

    /// Deselects every node.
    pub fn deselect_all_nodes(&mut self)
        requires
            old(self).wf(),
        ensures
            final(self).wf(),
            final(self)@ == (StateView { selected: Seq::empty(), ..old(self)@ }),
    {
        self.selected_nodes = Vec::new();
    }

    /// Tells the state that node `id` has left the graph.
    pub fn node_removed(&mut self, id: NodeId)
        requires
            old(self).wf(),
        ensures
            final(self).wf(),
            final(self)@ == old(self)@.forget(id),
            !final(self)@.selected.contains(id),
    {
        proof {
            lemma_filter_members(self@.selected, not_this(id));
        }
        self.unselect(id);
        let left: Option<NewWires> = match &self.new_wires {
            Some(NewWires::In(pins)) => {
                let kept: Vec<InPinId> = in_pins_off(pins, id);
                if kept.len() == 0 {
                    None
                } else {
                    Some(NewWires::In(kept))
                }
            },
            Some(NewWires::Out(pins)) => {
                let kept: Vec<OutPinId> = out_pins_off(pins, id);
                if kept.len() == 0 {
                    None
                } else {
                    Some(NewWires::Out(kept))
                }
            },
            None => None,
        };
        self.new_wires_menu = self.new_wires_menu && left.is_some();
        self.new_wires = left;
    }

    /// Drops from the state what refers to nodes that are not in `graph`.
    pub fn prune<T>(&mut self, graph: &Treeize<T>)
        requires
            old(self).wf(),
        ensures
            final(self).wf(),
            final(self)@ == old(self)@.pruned(graph@),
            forall|id: NodeId| final(self)@.selected.contains(id) ==> graph@.contains(id),
    {
        let ghost g = graph@;
        let mut kept: Vec<NodeId> = Vec::new();
        let ghost all = self.selected_nodes@;
        proof {
            lemma_filter_no_duplicates(all, live_node(g));
            lemma_filter_members(all, live_node(g));
        }
        for i in 0..self.selected_nodes.len()
            invariant
                g == graph@,
                all == self.selected_nodes@,
                kept@ == all.subrange(0, i as int).filter(live_node(g)),
        {
            proof {
                lemma_filter_push(all.subrange(0, i as int), all[i as int], live_node(g));
                assert(all.subrange(0, i + 1) =~= all.subrange(0, i as int).push(all[i as int]));
            }
            if graph.contains(self.selected_nodes[i]) {
                kept.push(self.selected_nodes[i]);
            }
        }
        assert(all.subrange(0, all.len() as int) =~= all);
        self.selected_nodes = kept;
        let left: Option<NewWires> = match &self.new_wires {
            Some(NewWires::In(pins)) => {
                let mut live: Vec<InPinId> = Vec::new();
                for i in 0..pins.len()
                    invariant
                        g == graph@,
                        live@ == pins@.subrange(0, i as int).filter(live_in_pin(g)),
                {
                    proof {
                        lemma_filter_push(
                            pins@.subrange(0, i as int),
                            pins@[i as int],
                            live_in_pin(g),
                        );
                        assert(pins@.subrange(0, i + 1) =~= pins@.subrange(0, i as int).push(
                            pins@[i as int],
                        ));
                    }
                    if graph.contains(pins[i].node) {
                        live.push(pins[i]);
                    }
                }
                assert(pins@.subrange(0, pins@.len() as int) =~= pins@);
                if live.len() == 0 {
                    None
                } else {
                    Some(NewWires::In(live))
                }
            },
            Some(NewWires::Out(pins)) => {
                let mut live: Vec<OutPinId> = Vec::new();
                for i in 0..pins.len()
                    invariant
                        g == graph@,
                        live@ == pins@.subrange(0, i as int).filter(live_out_pin(g)),
                {
                    proof {
                        lemma_filter_push(
                            pins@.subrange(0, i as int),
                            pins@[i as int],
                            live_out_pin(g),
                        );
                        assert(pins@.subrange(0, i + 1) =~= pins@.subrange(0, i as int).push(
                            pins@[i as int],
                        ));
                    }
                    if graph.contains(pins[i].node) {
                        live.push(pins[i]);
                    }
                }
                assert(pins@.subrange(0, pins@.len() as int) =~= pins@);
                if live.len() == 0 {
                    None
                } else {
                    Some(NewWires::Out(live))
                }
            },
            None => None,
        };
        self.new_wires_menu = self.new_wires_menu && left.is_some();
        self.new_wires = left;
    }

    /// Whether a selection rectangle is being dragged.
    pub fn is_rect_selection(&self) -> (b: bool)
        ensures
            b == (self@.rect is Some),
    {
        self.rect_selection.is_some()
    }

    /// Begins a selection rectangle at `pos`.
    pub fn start_rect_selection(&mut self, pos: Point)
        requires
            old(self).wf(),
        ensures
            final(self).wf(),
            final(self)@ == (StateView { rect: Some((pos, pos)), ..old(self)@ }),
    {
        self.rect_selection = Some((pos, pos));
    }

    /// Moves the free corner of the selection rectangle to `pos`; without
    /// a selection rectangle nothing changes.
    pub fn update_rect_selection(&mut self, pos: Point)
        requires
            old(self).wf(),
        ensures
            final(self).wf(),
            final(self)@ == (match old(self)@.rect {
                Some((anchor, _)) => StateView { rect: Some((anchor, pos)), ..old(self)@ },
                None => old(self)@,
            }),
    {
        match self.rect_selection {
            Some((anchor, _)) => {
                self.rect_selection = Some((anchor, pos));
            },
            None => {},
        }
    }

    /// Ends the selection rectangle.
    pub fn stop_rect_selection(&mut self)
        requires
            old(self).wf(),
        ensures
            final(self).wf(),
            final(self)@ == (StateView { rect: None, ..old(self)@ }),
    {
        self.rect_selection = None;
    }

    /// The selection rectangle, if one is being dragged.
    pub fn rect_selection(&self) -> (r: Option<Rect>)
        ensures
            r == match self@.rect {
                Some((a, b)) => Some(Rect::from_two_pos_spec(a, b)),
                None => None,
            },
    {
        match self.rect_selection {
            Some((a, b)) => Some(Rect::from_two_pos(a, b)),
            None => None,
        }
    }
}

impl Clone for NewWires {
    fn clone(&self) -> (w: Self)
        ensures
            w@ == self@,
    {
        match self {
            NewWires::In(pins) => NewWires::In(copy_in_pins(pins)),
            NewWires::Out(pins) => NewWires::Out(copy_out_pins(pins)),
        }
    }
}

impl Clone for TreeizeState {
    fn clone(&self) -> (s: Self)
        ensures
            s@ == self@,
    {
        let wires: Option<NewWires> = match &self.new_wires {
            Some(w) => Some(w.clone()),
            None => None,
        };
        let mut selected: Vec<NodeId> = Vec::new();
        for i in 0..self.selected_nodes.len()
            invariant
                selected@ == self.selected_nodes@.subrange(0, i as int),
        {
            selected.push(self.selected_nodes[i]);
            assert(self.selected_nodes@.subrange(0, i + 1) =~= self.selected_nodes@.subrange(
                0,
                i as int,
            ).push(self.selected_nodes@[i as int]));
        }
        assert(self.selected_nodes@.subrange(0, self.selected_nodes@.len() as int)
            =~= self.selected_nodes@);
        TreeizeState {
            new_wires: wires,
            new_wires_menu: self.new_wires_menu,
            rect_selection: self.rect_selection,
            selected_nodes: selected,
        }
    }
}

impl Default for TreeizeState {
    fn default() -> (s: Self)
        ensures
            s.wf(),
            s@ == StateView::idle(),
    {
        TreeizeState::new()
    }
}

} // verus!
