//! Deferred mutations: requests made while the graph is being walked,
//! applied in one pass afterwards.

use vstd::prelude::*;
use crate::geometry::Point;
use crate::graph::GraphView;
use crate::graph::InPinId;
use crate::graph::NodeId;
use crate::graph::OutPinId;
use crate::store::Treeize;

verus! {

/// One requested mutation of the graph.
#[allow(inconsistent_fields)]
pub enum Effect<T> {
    /// Adds a new node.
    InsertNode { pos: Point, node: T },
    /// Removes a node.
    RemoveNode { node: NodeId },
    /// Expands or collapses a node.
    OpenNode { node: NodeId, open: bool },
    /// Adds a wire between two pins.
    Connect { from: OutPinId, to: InPinId },
    /// Removes the wire between two pins.
    Disconnect { from: OutPinId, to: InPinId },
    /// Removes all wires that leave the output pin.
    DropOutputs { pin: OutPinId },
    /// Removes all wires that enter the input pin.
    DropInputs { pin: InPinId },
}

impl<T> GraphView<T> {
    /// The graph after one effect. An effect that names a node which is no
    /// longer there changes nothing.
    pub open spec fn apply(self, effect: Effect<T>) -> Self {
        match effect {
            Effect::InsertNode { pos, node } => self.insert(pos, node),
            Effect::RemoveNode { node } => self.remove(node),
            Effect::OpenNode { node, open } => self.open_node(node, open),
            Effect::Connect { from, to } => self.connect(from, to),
            Effect::Disconnect { from, to } => self.disconnect(from, to),
            Effect::DropOutputs { pin } => self.drop_outputs(pin),
            Effect::DropInputs { pin } => self.drop_inputs(pin),
        }
    }

    /// Whether the effect names a node that is not in the graph, so that
    /// it changes nothing.
    pub open spec fn orphans(self, effect: Effect<T>) -> bool {
        match effect {
            Effect::InsertNode { pos, node } => false,
            Effect::RemoveNode { node } => !self.contains(node),
            Effect::OpenNode { node, open } => !self.contains(node),
            Effect::Connect { from, to } => !self.contains(from.node) || !self.contains(to.node),
            Effect::Disconnect { from, to } => !self.contains(from.node) || !self.contains(
                to.node,
            ),
            Effect::DropOutputs { pin } => !self.contains(pin.node),
            Effect::DropInputs { pin } => !self.contains(pin.node),
        }
    }

    /// How many effects of a batch name a node that is not in the graph
    /// when their turn comes.
    pub open spec fn orphan_count(self, effects: Seq<Effect<T>>) -> nat
        decreases effects.len(),
    {
        if effects.len() == 0 {
            0
        } else {
            self.orphan_count(effects.drop_last()) + if self.apply_all(
                effects.drop_last(),
            ).orphans(effects.last()) {
                1nat
            } else {
                0nat
            }
        }
    }

    /// The graph after a batch of effects, applied first to last.
    pub open spec fn apply_all(self, effects: Seq<Effect<T>>) -> Self
        decreases effects.len(),
    {
        if effects.len() == 0 {
            self
        } else {
            self.apply_all(effects.drop_last()).apply(effects.last())
        }
    }
}

/// A batch of effects in the order in which they were requested.
pub struct Effects<T> {
    effects: Vec<Effect<T>>,
}

impl<T> View for Effects<T> {
    type V = Seq<Effect<T>>;

    closed spec fn view(&self) -> Seq<Effect<T>> {
        self.effects@
    }
}

impl<T> Effects<T> {
    /// An empty batch.
    pub fn new() -> (e: Self)
        ensures
            e@ == Seq::<Effect<T>>::empty(),
    {
        Effects { effects: Vec::new() }
    }

    /// Whether the batch holds no effect.
    pub fn is_empty(&self) -> (b: bool)
        ensures
            b == (self@.len() == 0),
    {
        self.effects.is_empty()
    }

    /// The effects of the batch, first requested first.
    pub fn into_vec(self) -> (effects: Vec<Effect<T>>)
        ensures
            effects@ == self@,
    {
        self.effects
    }

    /// Requests a new node.
    pub fn insert_node(&mut self, pos: Point, node: T)
        ensures
            final(self)@ == old(self)@.push(Effect::InsertNode { pos, node }),
    {
        self.effects.push(Effect::InsertNode { pos, node });
    }

    /// Requests the removal of a node.
    pub fn remove_node(&mut self, node: NodeId)
        ensures
            final(self)@ == old(self)@.push(Effect::RemoveNode { node }),
    {
        self.effects.push(Effect::RemoveNode { node });
    }

    /// Requests that a node be expanded or collapsed.
    pub fn open_node(&mut self, node: NodeId, open: bool)
        ensures
            final(self)@ == old(self)@.push(Effect::OpenNode { node, open }),
    {
        self.effects.push(Effect::OpenNode { node, open });
    }

    /// Requests a wire between two pins.
    pub fn connect(&mut self, from: OutPinId, to: InPinId)
        ensures
            final(self)@ == old(self)@.push(Effect::Connect { from, to }),
    {
        self.effects.push(Effect::Connect { from, to });
    }

    /// Requests the removal of the wire between two pins.
    pub fn disconnect(&mut self, from: OutPinId, to: InPinId)
        ensures
            final(self)@ == old(self)@.push(Effect::Disconnect { from, to }),
    {
        self.effects.push(Effect::Disconnect { from, to });
    }

    /// Requests the removal of all wires that enter the input pin.
    pub fn drop_inputs(&mut self, pin: InPinId)
        ensures
            final(self)@ == old(self)@.push(Effect::DropInputs { pin }),
    {
        self.effects.push(Effect::DropInputs { pin });
    }

    /// Requests the removal of all wires that leave the output pin.
    pub fn drop_outputs(&mut self, pin: OutPinId)
        ensures
            final(self)@ == old(self)@.push(Effect::DropOutputs { pin }),
    {
        self.effects.push(Effect::DropOutputs { pin });
    }
}

impl<T> Default for Effects<T> {
    fn default() -> (e: Self)
        ensures
            e@ == Seq::<Effect<T>>::empty(),
    {
        Effects::new()
    }
}

impl<T> Treeize<T> {
    /// Applies one effect.
    pub fn apply_effect(&mut self, effect: Effect<T>)
        requires
            old(self).wf(),
        ensures
            final(self).wf(),
            final(self)@ == old(self)@.apply(effect),
    {
        match effect {
            Effect::InsertNode { pos, node } => {
                self.insert_node(pos, node);
            },
            Effect::RemoveNode { node } => {
                self.remove_node(node);
            },
            Effect::OpenNode { node, open } => {
                self.open_node(node, open);
            },
            Effect::Connect { from, to } => {
                self.connect(from, to);
            },
            Effect::Disconnect { from, to } => {
                self.disconnect(from, to);
            },
            Effect::DropOutputs { pin } => {
                self.drop_outputs(pin);
            },
            Effect::DropInputs { pin } => {
                self.drop_inputs(pin);
            },
        }
    }

    /// Whether the effect names a node that is not in the graph.
    pub fn is_orphan(&self, effect: &Effect<T>) -> (b: bool)
        ensures
            b == self@.orphans(*effect),
    {
        match effect {
            Effect::InsertNode { .. } => false,
            Effect::RemoveNode { node } => !self.contains(*node),
            Effect::OpenNode { node, .. } => !self.contains(*node),
            Effect::Connect { from, to } => !self.contains(from.node) || !self.contains(to.node),
            Effect::Disconnect { from, to } => !self.contains(from.node) || !self.contains(
                to.node,
            ),
            Effect::DropOutputs { pin } => !self.contains(pin.node),
            Effect::DropInputs { pin } => !self.contains(pin.node),
        }
    }

    /// Applies a batch of effects in the order in which they were
    /// requested, and returns how many of them named a node that was not
    /// in the graph when their turn came.
    pub fn apply_effects_counted(&mut self, effects: Effects<T>) -> (skipped: usize)
        requires
            old(self).wf(),
        ensures
            final(self).wf(),
            final(self)@ == old(self)@.apply_all(effects@),
            skipped == old(self)@.orphan_count(effects@),
    {
        let ghost start = self@;
        let ghost all = effects@;
        let mut skipped: usize = 0;
        let total: usize = effects.effects.len();
        for effect in it: effects.effects
            invariant
                self.wf(),
                it.seq() == all,
                all.len() == total,
                self@ == start.apply_all(all.subrange(0, it.index() as int)),
                skipped == start.orphan_count(all.subrange(0, it.index() as int)),
                skipped <= it.index(),
        {
            proof {
                let i = it.index() as int;
                assert(all.subrange(0, i + 1).drop_last() =~= all.subrange(0, i));
                assert(all.subrange(0, i + 1).last() == all[i]);
            }
            if self.is_orphan(&effect) {
                assert(it.index() < all.len());
                skipped = skipped + 1;
            }
            self.apply_effect(effect);
        }
        assert(all.subrange(0, all.len() as int) =~= all);
        skipped
    }

    /// Applies a batch of effects in the order in which they were
    /// requested.
    pub fn apply_effects(&mut self, effects: Effects<T>)
        requires
            old(self).wf(),
        ensures
            final(self).wf(),
            final(self)@ == old(self)@.apply_all(effects@),
    {
        let ghost start = self@;
        let ghost all = effects@;
        for effect in it: effects.effects
            invariant
                self.wf(),
                it.seq() == all,
                self@ == start.apply_all(all.subrange(0, it.index() as int)),
        {
            proof {
                let i = it.index() as int;
                assert(all.subrange(0, i + 1).drop_last() =~= all.subrange(0, i));
                assert(all.subrange(0, i + 1).last() == all[i]);
            }
            self.apply_effect(effect);
        }
        assert(all.subrange(0, all.len() as int) =~= all);
    }
}

} // verus!
