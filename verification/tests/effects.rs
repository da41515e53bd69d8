use treeize::effect::{Effect, Effects};
use treeize::geometry::Point;
use treeize::graph::{InPinId, NodeId, OutPinId};
use treeize::store::Treeize;

fn out0(node: NodeId) -> OutPinId {
    OutPinId { node, output: 0 }
}

fn in0(node: NodeId) -> InPinId {
    InPinId { node, input: 0 }
}

fn origin() -> Point {
    Point { x: 0, y: 0 }
}

#[test]
fn new_batch_is_empty() {
    let mut fx: Effects<u8> = Effects::new();
    assert!(fx.is_empty());
    fx.open_node(NodeId(0), false);
    assert!(!fx.is_empty());
    let d: Effects<u8> = Effects::default();
    assert!(d.is_empty());
}

#[test]
fn effects_apply_in_submission_order() {
    let mut g: Treeize<u8> = Treeize::new();
    let mut fx: Effects<u8> = Effects::new();
    fx.insert_node(Point { x: 1, y: 1 }, 10);
    fx.insert_node(Point { x: 2, y: 2 }, 20);
    fx.connect(out0(NodeId(0)), in0(NodeId(1)));
    fx.open_node(NodeId(1), false);
    g.apply_effects(fx);
    assert_eq!(g.node_ids(), vec![NodeId(0), NodeId(1)]);
    assert_eq!(g.wires(), vec![(out0(NodeId(0)), in0(NodeId(1)))]);
    assert!(g.get_node_info(NodeId(0)).unwrap().open);
    assert!(!g.get_node_info(NodeId(1)).unwrap().open);
    assert_eq!(g.node_pos(NodeId(1)), Some(Point { x: 2, y: 2 }));
    assert_eq!(g.draw_order(), vec![NodeId(0), NodeId(1)]);
}

#[test]
fn effects_on_a_node_removed_earlier_in_the_batch_are_skipped() {
    let mut g: Treeize<u8> = Treeize::new();
    let a = g.insert_node(origin(), 1);
    let b = g.insert_node(origin(), 2);
    let mut fx: Effects<u8> = Effects::new();
    fx.remove_node(b);
    fx.connect(out0(a), in0(b));
    fx.open_node(b, false);
    fx.remove_node(b);
    fx.drop_inputs(in0(b));
    fx.drop_outputs(out0(b));
    fx.disconnect(out0(a), in0(b));
    g.apply_effects(fx);
    assert!(g.contains(a));
    assert!(!g.contains(b));
    assert!(g.wires().is_empty());
}

#[test]
fn single_effects() {
    let mut g: Treeize<u8> = Treeize::new();
    g.apply_effect(Effect::InsertNode { pos: origin(), node: 1 });
    g.apply_effect(Effect::InsertNode { pos: origin(), node: 2 });
    g.apply_effect(Effect::InsertNode { pos: origin(), node: 3 });
    let (a, b, c) = (NodeId(0), NodeId(1), NodeId(2));
    g.apply_effect(Effect::Connect { from: out0(a), to: in0(b) });
    g.apply_effect(Effect::Connect { from: out0(a), to: in0(b) });
    g.apply_effect(Effect::Connect { from: out0(a), to: in0(c) });
    g.apply_effect(Effect::Connect { from: out0(b), to: in0(c) });
    assert_eq!(g.wire_count(), 3);
    g.apply_effect(Effect::DropOutputs { pin: out0(a) });
    assert_eq!(g.wires(), vec![(out0(b), in0(c))]);
    g.apply_effect(Effect::Connect { from: out0(a), to: in0(c) });
    g.apply_effect(Effect::DropInputs { pin: in0(c) });
    assert!(g.wires().is_empty());
    g.apply_effect(Effect::Connect { from: out0(a), to: in0(c) });
    g.apply_effect(Effect::Disconnect { from: out0(a), to: in0(c) });
    assert!(g.wires().is_empty());
    g.apply_effect(Effect::OpenNode { node: a, open: false });
    assert!(!g.get_node_info(a).unwrap().open);
    g.apply_effect(Effect::RemoveNode { node: a });
    assert!(!g.contains(a));
    g.apply_effect(Effect::RemoveNode { node: NodeId(40) });
    assert_eq!(g.node_ids(), vec![b, c]);
}

#[test]
fn empty_batch_changes_nothing() {
    let mut g: Treeize<u8> = Treeize::new();
    let a = g.insert_node(Point { x: 3, y: 4 }, 1);
    g.apply_effects(Effects::new());
    assert_eq!(g.node_ids(), vec![a]);
    assert_eq!(g.node_pos(a), Some(Point { x: 3, y: 4 }));
}

#[test]
fn orphaned_effects_are_counted() {
    let mut g: Treeize<u8> = Treeize::new();
    let a = g.insert_node(origin(), 1);
    let b = g.insert_node(origin(), 2);
    let mut fx: Effects<u8> = Effects::new();
    fx.connect(out0(a), in0(b));
    fx.remove_node(b);
    fx.connect(out0(a), in0(b));
    fx.open_node(b, false);
    fx.insert_node(origin(), 3);
    fx.open_node(NodeId(2), false);
    fx.drop_inputs(in0(NodeId(9)));
    assert!(g.is_orphan(&Effect::RemoveNode { node: NodeId(9) }));
    assert!(!g.is_orphan(&Effect::RemoveNode { node: b }));
    assert_eq!(g.apply_effects_counted(fx), 3);
    assert_eq!(g.node_ids(), vec![a, NodeId(2)]);
    assert!(g.wires().is_empty());
    assert_eq!(g.apply_effects_counted(Effects::new()), 0);
}
