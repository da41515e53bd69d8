use treeize::geometry::Point;
use treeize::graph::{wire_pins, InPinId, NodeId, OutPinId, Wire};
use treeize::store::Treeize;

fn out_pin(node: NodeId, output: usize) -> OutPinId {
    OutPinId { node, output }
}

fn in_pin(node: NodeId, input: usize) -> InPinId {
    InPinId { node, input }
}

fn at(x: i64, y: i64) -> Point {
    Point { x, y }
}

#[test]
fn connect_disconnect_connect_again() {
    let mut g: Treeize<&'static str> = Treeize::new();
    let a = g.insert_node(at(0, 0), "a");
    let b = g.insert_node(at(10, 0), "b");
    assert!(g.connect(out_pin(a, 0), in_pin(b, 0)));
    assert!(g.disconnect(out_pin(a, 0), in_pin(b, 0)));
    assert!(g.wires().is_empty());
    assert!(g.connect(out_pin(a, 0), in_pin(b, 0)));
    assert_eq!(g.wires(), vec![(out_pin(a, 0), in_pin(b, 0))]);
}

#[test]
fn connect_is_idempotent() {
    let mut g: Treeize<u8> = Treeize::new();
    let a = g.insert_node(at(0, 0), 1);
    let b = g.insert_node(at(0, 0), 2);
    assert!(g.connect(out_pin(a, 0), in_pin(b, 0)));
    assert!(!g.connect(out_pin(a, 0), in_pin(b, 0)));
    assert_eq!(g.wire_count(), 1);
    assert!(g.disconnect(out_pin(a, 0), in_pin(b, 0)));
    assert!(!g.has_wire(out_pin(a, 0), in_pin(b, 0)));
    assert!(!g.disconnect(out_pin(a, 0), in_pin(b, 0)));
    assert_eq!(g.wire_count(), 0);
}

#[test]
fn insert_assigns_fresh_ids_and_appends_to_draw_order() {
    let mut g: Treeize<u8> = Treeize::default();
    assert_eq!(g.slot_count(), 0);
    let a = g.insert_node(at(1, 2), 10);
    let b = g.insert_node(at(3, 4), 20);
    assert_eq!(a, NodeId(0));
    assert_eq!(b, NodeId(1));
    assert!(g.contains(a));
    assert!(!g.contains(NodeId(2)));
    assert_eq!(g.get_node(a), Some(&10));
    assert_eq!(g.get_node(NodeId(5)), None);
    assert_eq!(g.node_pos(b), Some(at(3, 4)));
    let info = g.get_node_info(b).unwrap();
    assert!(info.open);
    assert_eq!(info.value, 20);
    assert_eq!(g.draw_order(), vec![a, b]);
    assert_eq!(g.node_ids(), vec![a, b]);
}

#[test]
fn ids_are_not_reused_after_removal() {
    let mut g: Treeize<u8> = Treeize::new();
    let a = g.insert_node(at(0, 0), 1);
    assert_eq!(g.remove_node(a), Some(1));
    let b = g.insert_node(at(0, 0), 2);
    assert_ne!(a, b);
    assert!(!g.contains(a));
    assert_eq!(g.get_node(a), None);
    assert_eq!(g.node_ids(), vec![b]);
    assert_eq!(g.slot_count(), 2);
}

#[test]
fn remove_drops_incident_wires_and_draw_order_entry() {
    let mut g: Treeize<u8> = Treeize::new();
    let a = g.insert_node(at(0, 0), 1);
    let n = g.insert_node(at(0, 0), 2);
    let c = g.insert_node(at(0, 0), 3);
    g.connect(out_pin(a, 0), in_pin(n, 0));
    g.connect(out_pin(n, 0), in_pin(c, 0));
    g.connect(out_pin(a, 0), in_pin(c, 0));
    g.connect(out_pin(n, 1), in_pin(n, 0));
    assert_eq!(g.wire_count(), 4);
    assert_eq!(g.remove_node(n), Some(2));
    assert_eq!(g.wires(), vec![(out_pin(a, 0), in_pin(c, 0))]);
    assert_eq!(g.draw_order(), vec![a, c]);
    assert!(!g.contains(n));
    assert_eq!(g.remove_node(n), None);
    assert_eq!(g.wire_count(), 1);
}

#[test]
fn stale_handles_are_no_ops() {
    let mut g: Treeize<u8> = Treeize::new();
    let a = g.insert_node(at(0, 0), 1);
    let ghost = NodeId(7);
    assert!(!g.connect(out_pin(a, 0), in_pin(ghost, 0)));
    assert!(!g.connect(out_pin(ghost, 0), in_pin(a, 0)));
    assert!(!g.open_node(ghost, false));
    assert!(!g.set_node_pos(ghost, at(1, 1)));
    assert!(!g.move_node(ghost, 1, 1));
    assert!(!g.node_to_top(ghost));
    assert!(g.get_node_mut(ghost).is_none());
    assert_eq!(g.wire_count(), 0);
    assert_eq!(g.draw_order(), vec![a]);
}

#[test]
fn self_loops_and_multi_wires_are_allowed() {
    let mut g: Treeize<u8> = Treeize::new();
    let a = g.insert_node(at(0, 0), 1);
    let b = g.insert_node(at(0, 0), 2);
    assert!(g.connect(out_pin(a, 0), in_pin(a, 0)));
    assert!(g.connect(out_pin(a, 0), in_pin(b, 0)));
    assert!(g.connect(out_pin(a, 0), in_pin(b, 1)));
    assert!(g.connect(out_pin(b, 0), in_pin(b, 0)));
    assert_eq!(g.wire_count(), 4);
    assert_eq!(g.out_pin(out_pin(a, 0)).remotes, vec![in_pin(a, 0), in_pin(b, 0), in_pin(b, 1)]);
    assert_eq!(g.in_pin(in_pin(b, 0)).remotes, vec![out_pin(a, 0), out_pin(b, 0)]);
    assert_eq!(g.in_pin(in_pin(b, 0)).id, in_pin(b, 0));
    assert!(g.in_pin(in_pin(b, 5)).remotes.is_empty());
}

#[test]
fn drop_outputs_and_inputs() {
    let mut g: Treeize<u8> = Treeize::new();
    let a = g.insert_node(at(0, 0), 1);
    let b = g.insert_node(at(0, 0), 2);
    let c = g.insert_node(at(0, 0), 3);
    g.connect(out_pin(a, 0), in_pin(b, 0));
    g.connect(out_pin(a, 0), in_pin(c, 0));
    g.connect(out_pin(a, 1), in_pin(c, 0));
    g.connect(out_pin(b, 0), in_pin(c, 0));
    assert_eq!(g.drop_outputs(out_pin(a, 0)), 2);
    assert_eq!(g.wires(), vec![(out_pin(a, 1), in_pin(c, 0)), (out_pin(b, 0), in_pin(c, 0))]);
    assert_eq!(g.drop_outputs(out_pin(a, 0)), 0);
    assert_eq!(g.drop_inputs(in_pin(c, 0)), 2);
    assert!(g.wires().is_empty());
    assert_eq!(g.drop_inputs(in_pin(c, 0)), 0);
}

#[test]
fn open_move_and_payload() {
    let mut g: Treeize<String> = Treeize::new();
    let a = g.insert_node(at(5, 5), "x".to_string());
    assert!(g.open_node(a, false));
    assert!(!g.get_node_info(a).unwrap().open);
    assert!(g.set_node_pos(a, at(-1, 9)));
    assert_eq!(g.node_pos(a), Some(at(-1, 9)));
    assert!(g.move_node(a, 10, -20));
    assert_eq!(g.node_pos(a), Some(at(9, -11)));
    assert!(g.move_node(a, i64::MAX, i64::MIN));
    assert_eq!(g.node_pos(a), Some(at(i64::MAX, i64::MIN)));
    g.get_node_mut(a).unwrap().push('y');
    assert_eq!(g.get_node(a).map(|s| s.as_str()), Some("xy"));
    let info = g.get_node_info_mut(a).unwrap();
    info.pos = at(1, 2);
    info.open = true;
    info.value.push('z');
    assert_eq!(g.node_pos(a), Some(at(1, 2)));
    assert!(g.get_node_info(a).unwrap().open);
    assert_eq!(g.get_node(a).map(|s| s.as_str()), Some("xyz"));
    assert!(g.get_node_info_mut(NodeId(3)).is_none());
}

#[test]
fn node_to_top_moves_to_the_end() {
    let mut g: Treeize<u8> = Treeize::new();
    let a = g.insert_node(at(0, 0), 1);
    let b = g.insert_node(at(0, 0), 2);
    let c = g.insert_node(at(0, 0), 3);
    assert!(g.node_to_top(a));
    assert_eq!(g.draw_order(), vec![b, c, a]);
    assert!(g.node_to_top(a));
    assert_eq!(g.draw_order(), vec![b, c, a]);
    g.remove_node(c);
    assert_eq!(g.draw_order(), vec![b, a]);
}

#[test]
fn wire_pins_builds_the_pair() {
    let w = wire_pins(out_pin(NodeId(1), 2), in_pin(NodeId(3), 4));
    assert_eq!(w, Wire { out_pin: out_pin(NodeId(1), 2), in_pin: in_pin(NodeId(3), 4) });
    let mut g: Treeize<u8> = Treeize::new();
    let a = g.insert_node(at(0, 0), 1);
    g.connect(out_pin(a, 0), in_pin(a, 1));
    assert_eq!(g.wire_at(0), wire_pins(out_pin(a, 0), in_pin(a, 1)));
}

#[test]
fn crate_root_names_the_graph_types() {
    let mut g: treeize::Treeize<u8> = treeize::Treeize::new();
    let a: treeize::NodeId = g.insert_node(at(0, 0), 1);
    let pin = treeize::OutPinId { node: a, output: 0 };
    let into = treeize::InPinId { node: a, input: 0 };
    assert!(g.connect(pin, into));
    assert_eq!(g.wire_at(0), treeize::wire_pins(pin, into));
    let shown: treeize::OutPin = g.out_pin(pin);
    assert_eq!(shown.remotes, vec![into]);
    let mut fx: treeize::ui::Effects<u8> = treeize::ui::Effects::new();
    fx.remove_node(a);
    g.apply_effects(fx);
    assert!(!g.contains(a));
}
