//! Reading a graph for the walk: children lists, sizes and roots.

use vstd::prelude::*;
use crate::geometry::Size;
use crate::graph::NodeId;
use crate::graph::Wire;
use crate::layout::counted_from;
use crate::layout::counted_into;
use crate::layout::has_incoming;
use crate::layout::has_input;
use crate::layout::has_output;
use crate::layout::net_of;
use crate::layout::size_of;
use crate::layout::target_node;
use crate::layout::walk::NetData;
use crate::layout::LayoutConfig;
use crate::layout::NodeShape;
use crate::seq_facts::lemma_filter_push;
use crate::store::Treeize;

verus! {

/// Whether the shapes give node `id` an output pin.
pub fn shape_has_output(shapes: &Vec<NodeShape>, id: NodeId) -> (b: bool)
    ensures
        b == has_output(shapes@, id),
{
    id.0 < shapes.len() && shapes[id.0].has_output
}

/// Whether the shapes give node `id` an input pin.
pub fn shape_has_input(shapes: &Vec<NodeShape>, id: NodeId) -> (b: bool)
    ensures
        b == has_input(shapes@, id),
{
    id.0 < shapes.len() && shapes[id.0].has_input
}

/// The size of node `id`: the measured one, or the spacing.
pub fn get_size(config: &LayoutConfig, shapes: &Vec<NodeShape>, id: NodeId) -> (s: Size)
    ensures
        s == size_of(*config, shapes@, id),
{
    if id.0 < shapes.len() {
        match shapes[id.0].size {
            Some(s) => s,
            None => Size { width: config.horizontal_spacing, height: config.vertical_spacing },
        }
    } else {
        Size { width: config.horizontal_spacing, height: config.vertical_spacing }
    }
}

/// Reads the graph: the children lists and sizes for the walk, and for
/// each slot whether a counted wire enters its node.
pub(crate) fn build_net<T>(graph: &Treeize<T>, config: &LayoutConfig, shapes: &Vec<NodeShape>) -> (out: (
    NetData,
    Vec<bool>,
))
    requires
        graph.wf(),
    ensures
        out.0@ == net_of(graph@, *config, shapes@),
        out.0@.wf(),
        out.1@.len() == graph@.nodes.len(),
        forall|v: int|
            0 <= v < graph@.nodes.len() ==> #[trigger] out.1@[v] == has_incoming(
                graph@,
                shapes@,
                NodeId(v as usize),
            ),
{
    let n: usize = graph.slot_count();
    let mut sizes: Vec<Size> = Vec::new();
    let mut children: Vec<Vec<NodeId>> = Vec::new();
    let mut incoming: Vec<bool> = Vec::new();
    let ghost wires = graph@.wires;
    for u in 0..n
        invariant
            sizes@.len() == u,
            children@.len() == u,
            incoming@.len() == u,
            forall|i: int|
                0 <= i < u ==> #[trigger] sizes@[i] == size_of(*config, shapes@, NodeId(i as usize)),
            forall|i: int| 0 <= i < u ==> (#[trigger] children@[i])@ == Seq::<NodeId>::empty(),
            forall|i: int| 0 <= i < u ==> !(#[trigger] incoming@[i]),
    {
        sizes.push(get_size(config, shapes, NodeId(u)));
        children.push(Vec::new());
        incoming.push(false);
    }
    proof {
        reveal(Seq::filter);
        assert(wires.subrange(0, 0) =~= Seq::<Wire>::empty());
        assert forall|i: int| 0 <= i < n implies (#[trigger] children@[i])@ == wires.subrange(
            0,
            0,
        ).filter(counted_from(shapes@, NodeId(i as usize))).map_values(target_node()) by {
            assert(wires.subrange(0, 0).filter(
                counted_from(shapes@, NodeId(i as usize)),
            ).map_values(target_node()) =~= Seq::<NodeId>::empty());
        }
    }
    let count: usize = graph.wire_count();
    for k in 0..count
        invariant
            graph.wf(),
            wires == graph@.wires,
            count == wires.len(),
            n == graph@.nodes.len(),
            sizes@.len() == n,
            children@.len() == n,
            incoming@.len() == n,
            forall|i: int|
                0 <= i < n ==> #[trigger] sizes@[i] == size_of(*config, shapes@, NodeId(i as usize)),
            forall|i: int|
                0 <= i < n ==> (#[trigger] children@[i])@ == wires.subrange(0, k as int).filter(
                    counted_from(shapes@, NodeId(i as usize)),
                ).map_values(target_node()),
            forall|i: int|
                0 <= i < n ==> #[trigger] incoming@[i] == (wires.subrange(0, k as int).filter(
                    counted_into(shapes@, NodeId(i as usize)),
                ).len() > 0),
    {
        let w: Wire = graph.wire_at(k);
        let ghost before = wires.subrange(0, k as int);
        let ghost kids0 = children@;
        let ghost inc0 = incoming@;
        proof {
            assert(wires.subrange(0, k + 1) =~= before.push(w));
            assert(graph@.contains(wires[k as int].out_pin.node));
            assert(graph@.contains(wires[k as int].in_pin.node));
        }
        if shape_has_output(shapes, w.out_pin.node) && shape_has_input(shapes, w.in_pin.node) {
            children[w.out_pin.node.0].push(w.in_pin.node);
            incoming.set(w.in_pin.node.0, true);
        }
        proof {
            assert forall|i: int| 0 <= i < n implies (#[trigger] children@[i])@ == before.push(
                w,
            ).filter(counted_from(shapes@, NodeId(i as usize))).map_values(target_node()) by {
                let keep = counted_from(shapes@, NodeId(i as usize));
                lemma_filter_push(before, w, keep);
                if keep(w) {
                    assert(i == w.out_pin.node.0);
                    assert(before.filter(keep).push(w).map_values(target_node())
                        =~= before.filter(keep).map_values(target_node()).push(w.in_pin.node));
                } else {
                    assert(children@[i] == kids0[i]);
                }
            }
            assert forall|i: int| 0 <= i < n implies #[trigger] incoming@[i] == (before.push(
                w,
            ).filter(counted_into(shapes@, NodeId(i as usize))).len() > 0) by {
                let keep = counted_into(shapes@, NodeId(i as usize));
                lemma_filter_push(before, w, keep);
                if keep(w) {
                    assert(i == w.in_pin.node.0);
                } else {
                    assert(incoming@[i] == inc0[i]);
                }
            }
        }
    }
    let net = NetData { children, sizes };
    proof {
        assert(wires.subrange(0, count as int) =~= wires);
        let want = net_of(graph@, *config, shapes@);
        net.lemma_view();
        assert(net@.children =~= want.children);
        assert(net@.sizes =~= want.sizes);
    }
    (net, incoming)
}

} // verus!
