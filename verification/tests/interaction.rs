use treeize::effect::Effects;
use treeize::geometry::{Point, Rect};
use treeize::graph::{InPinId, NodeId, OutPinId};
use treeize::interaction::{Event, Modifiers};
use treeize::state::{AnyPin, NewWires, TreeizeState};
use treeize::store::Treeize;

fn out0(node: NodeId) -> OutPinId {
    OutPinId { node, output: 0 }
}

fn in0(node: NodeId) -> InPinId {
    InPinId { node, input: 0 }
}

fn origin() -> Point {
    Point { x: 0, y: 0 }
}

fn plain() -> Modifiers {
    Modifiers { shift: false, command: false }
}

fn shift() -> Modifiers {
    Modifiers { shift: true, command: false }
}

fn command() -> Modifiers {
    Modifiers { shift: false, command: true }
}

fn both() -> Modifiers {
    Modifiers { shift: true, command: true }
}

fn three_nodes() -> (Treeize<u8>, NodeId, NodeId, NodeId) {
    let mut g: Treeize<u8> = Treeize::new();
    let a = g.insert_node(origin(), 1);
    let b = g.insert_node(origin(), 2);
    let c = g.insert_node(origin(), 3);
    (g, a, b, c)
}

fn apply(g: &mut Treeize<u8>, fx: Effects<u8>) {
    g.apply_effects(fx);
}

#[test]
fn new_state_is_idle() {
    let s = TreeizeState::new();
    assert!(!s.has_new_wires());
    assert!(!s.has_new_wires_in());
    assert!(!s.has_new_wires_out());
    assert!(s.new_wires().is_none());
    assert!(s.selected_nodes().is_empty());
    assert!(!s.is_rect_selection());
    assert_eq!(s.rect_selection(), None);
    let d = TreeizeState::default();
    assert!(!d.has_new_wires());
}

#[test]
fn drag_from_output_to_input_connects() {
    let (mut g, a, b, _) = three_nodes();
    let mut s = TreeizeState::new();
    let fx = s.consume_input(&g, Event::OutputDragStarted { pin: out0(a) }, plain());
    assert!(fx.is_empty());
    assert!(s.has_new_wires_out());
    assert_eq!(s.new_wires(), Some(&NewWires::Out(vec![out0(a)])));
    let fx = s.consume_input(
        &g,
        Event::DragReleased { hovered: Some(AnyPin::In(in0(b))), menu: false },
        plain(),
    );
    assert!(!s.has_new_wires());
    apply(&mut g, fx);
    assert_eq!(g.wires(), vec![(out0(a), in0(b))]);
}

#[test]
fn drag_from_input_to_output_connects() {
    let (mut g, a, b, _) = three_nodes();
    let mut s = TreeizeState::new();
    s.consume_input(&g, Event::InputDragStarted { pin: in0(b) }, plain());
    assert!(s.has_new_wires_in());
    let fx = s.consume_input(
        &g,
        Event::DragReleased { hovered: Some(AnyPin::Out(out0(a))), menu: false },
        plain(),
    );
    apply(&mut g, fx);
    assert_eq!(g.wires(), vec![(out0(a), in0(b))]);
}

#[test]
fn release_over_pin_of_same_kind_discards() {
    let (mut g, a, b, _) = three_nodes();
    let mut s = TreeizeState::new();
    s.consume_input(&g, Event::OutputDragStarted { pin: out0(a) }, plain());
    let fx = s.consume_input(
        &g,
        Event::DragReleased { hovered: Some(AnyPin::Out(out0(b))), menu: true },
        plain(),
    );
    assert!(fx.is_empty());
    assert!(!s.has_new_wires());
    apply(&mut g, fx);
    assert!(g.wires().is_empty());
}

#[test]
fn release_over_canvas_keeps_bundle_for_menu_or_discards() {
    let (g, a, _, _) = three_nodes();
    let mut s = TreeizeState::new();
    s.consume_input(&g, Event::OutputDragStarted { pin: out0(a) }, plain());
    let fx = s.consume_input(&g, Event::DragReleased { hovered: None, menu: true }, plain());
    assert!(fx.is_empty());
    assert!(s.has_new_wires());
    assert_eq!(s.take_new_wires_menu(), Some(NewWires::Out(vec![out0(a)])));
    assert!(!s.has_new_wires());
    assert_eq!(s.take_new_wires_menu(), None);

    s.consume_input(&g, Event::OutputDragStarted { pin: out0(a) }, plain());
    assert_eq!(s.take_new_wires_menu(), None);
    assert!(s.has_new_wires());
    let fx = s.consume_input(&g, Event::DragReleased { hovered: None, menu: false }, plain());
    assert!(fx.is_empty());
    assert!(!s.has_new_wires());
}

#[test]
fn secondary_button_cancels_the_drag() {
    let (mut g, a, _, _) = three_nodes();
    let mut s = TreeizeState::new();
    s.consume_input(&g, Event::OutputDragStarted { pin: out0(a) }, plain());
    let fx = s.consume_input(&g, Event::SecondaryDown, plain());
    assert!(fx.is_empty());
    assert!(!s.has_new_wires());
    apply(&mut g, fx);
    assert!(g.wires().is_empty());
    let fx = s.consume_input(&g, Event::SecondaryDown, plain());
    assert!(fx.is_empty());
}

#[test]
fn command_drag_picks_up_existing_wires() {
    let (mut g, a, b, c) = three_nodes();
    g.connect(out0(a), in0(c));
    g.connect(out0(b), in0(c));
    let mut s = TreeizeState::new();
    let fx = s.consume_input(&g, Event::InputDragStarted { pin: in0(c) }, command());
    assert_eq!(s.new_wires(), Some(&NewWires::Out(vec![out0(a), out0(b)])));
    apply(&mut g, fx);
    assert!(g.wires().is_empty());
    let target = in0(a);
    let fx = s.consume_input(
        &g,
        Event::DragReleased { hovered: Some(AnyPin::In(target)), menu: false },
        plain(),
    );
    apply(&mut g, fx);
    assert_eq!(g.wires(), vec![(out0(a), target), (out0(b), target)]);
}

#[test]
fn command_shift_drag_keeps_existing_wires() {
    let (mut g, a, b, c) = three_nodes();
    g.connect(out0(a), in0(b));
    g.connect(out0(a), in0(c));
    let mut s = TreeizeState::new();
    let fx = s.consume_input(&g, Event::OutputDragStarted { pin: out0(a) }, both());
    assert!(fx.is_empty());
    assert_eq!(s.new_wires(), Some(&NewWires::In(vec![in0(b), in0(c)])));
    apply(&mut g, fx);
    assert_eq!(g.wire_count(), 2);
}

#[test]
fn command_drag_on_unconnected_pin_starts_a_plain_drag() {
    let (g, a, _, _) = three_nodes();
    let mut s = TreeizeState::new();
    let fx = s.consume_input(&g, Event::OutputDragStarted { pin: out0(a) }, command());
    assert!(fx.is_empty());
    assert_eq!(s.new_wires(), Some(&NewWires::Out(vec![out0(a)])));
}

#[test]
fn hover_modifiers_add_and_remove_pins() {
    let (mut g, a, b, c) = three_nodes();
    let mut s = TreeizeState::new();
    s.consume_input(&g, Event::OutputDragStarted { pin: out0(a) }, plain());
    s.consume_input(&g, Event::OutputHovered { pin: out0(b) }, shift());
    s.consume_input(&g, Event::OutputHovered { pin: out0(b) }, shift());
    assert_eq!(s.new_wires(), Some(&NewWires::Out(vec![out0(a), out0(b)])));
    s.consume_input(&g, Event::OutputHovered { pin: out0(a) }, command());
    assert_eq!(s.new_wires(), Some(&NewWires::Out(vec![out0(b)])));
    s.consume_input(&g, Event::OutputHovered { pin: out0(a) }, plain());
    s.consume_input(&g, Event::OutputHovered { pin: out0(a) }, both());
    s.consume_input(&g, Event::InputHovered { pin: in0(a) }, shift());
    assert_eq!(s.new_wires(), Some(&NewWires::Out(vec![out0(b)])));
    s.consume_input(&g, Event::OutputHovered { pin: out0(a) }, shift());
    let fx = s.consume_input(
        &g,
        Event::DragReleased { hovered: Some(AnyPin::In(in0(c))), menu: false },
        plain(),
    );
    apply(&mut g, fx);
    assert_eq!(g.wires(), vec![(out0(b), in0(c)), (out0(a), in0(c))]);
}

#[test]
fn secondary_click_on_a_pin() {
    let (mut g, a, b, c) = three_nodes();
    g.connect(out0(a), in0(c));
    g.connect(out0(b), in0(c));
    g.connect(out0(a), in0(b));
    let mut s = TreeizeState::new();
    let fx = s.consume_input(&g, Event::InputSecondaryClicked { pin: in0(c) }, plain());
    apply(&mut g, fx);
    assert_eq!(g.wires(), vec![(out0(a), in0(b))]);
    let fx = s.consume_input(&g, Event::OutputSecondaryClicked { pin: out0(a) }, plain());
    apply(&mut g, fx);
    assert!(g.wires().is_empty());

    g.connect(out0(a), in0(c));
    s.consume_input(&g, Event::InputDragStarted { pin: in0(b) }, plain());
    s.consume_input(&g, Event::InputHovered { pin: in0(c) }, shift());
    let fx = s.consume_input(&g, Event::InputSecondaryClicked { pin: in0(c) }, plain());
    assert!(fx.is_empty());
    assert_eq!(s.new_wires(), Some(&NewWires::In(vec![in0(b)])));
    assert_eq!(g.wire_count(), 1);
}

#[test]
fn removed_drag_source_ends_the_drag() {
    let (mut g, a, b, _) = three_nodes();
    let mut s = TreeizeState::new();
    s.consume_input(&g, Event::OutputDragStarted { pin: out0(a) }, plain());
    assert!(s.has_new_wires());
    g.remove_node(a);
    let fx = s.consume_input(
        &g,
        Event::DragReleased { hovered: Some(AnyPin::In(in0(b))), menu: false },
        plain(),
    );
    assert!(fx.is_empty());
    assert!(!s.has_new_wires());
    apply(&mut g, fx);
    assert!(g.wires().is_empty());
}

#[test]
fn removed_node_leaves_a_larger_bundle() {
    let (mut g, a, b, c) = three_nodes();
    let mut s = TreeizeState::new();
    s.start_new_wires_out(&vec![out0(a), out0(b)]);
    g.remove_node(a);
    let fx = s.consume_input(&g, Event::OutputHovered { pin: out0(c) }, plain());
    assert!(fx.is_empty());
    assert_eq!(s.new_wires(), Some(&NewWires::Out(vec![out0(b)])));
}

#[test]
fn removal_notification_clears_selection_and_drag() {
    let (mut g, a, b, _) = three_nodes();
    let mut s = TreeizeState::new();
    s.select_many_nodes(true, &vec![a, b]);
    s.start_new_wire_in(in0(a));
    g.remove_node(a);
    s.node_removed(a);
    assert_eq!(s.selected_nodes(), &vec![b]);
    assert!(!s.is_selected(a));
    assert!(!s.has_new_wires());
}

#[test]
fn prune_drops_removed_nodes_from_selection() {
    let (mut g, a, b, c) = three_nodes();
    let mut s = TreeizeState::new();
    s.select_many_nodes(true, &vec![a, b, c]);
    g.remove_node(b);
    s.prune(&g);
    assert_eq!(s.selected_nodes(), &vec![a, c]);
    g.remove_node(a);
    s.consume_input(&g, Event::CanvasClicked, plain());
    assert_eq!(s.selected_nodes(), &vec![c]);
}

#[test]
fn node_click_selection() {
    let (g, a, b, c) = three_nodes();
    let mut s = TreeizeState::new();
    s.consume_input(&g, Event::NodeClicked { node: a }, plain());
    assert!(s.selected_nodes().is_empty());
    s.consume_input(&g, Event::NodeClicked { node: a }, shift());
    s.consume_input(&g, Event::NodeClicked { node: b }, shift());
    s.consume_input(&g, Event::NodeClicked { node: a }, shift());
    assert_eq!(s.selected_nodes(), &vec![b, a]);
    s.consume_input(&g, Event::NodeClicked { node: b }, command());
    assert_eq!(s.selected_nodes(), &vec![a]);
    s.consume_input(&g, Event::NodeClicked { node: c }, both());
    assert_eq!(s.selected_nodes(), &vec![c]);
    s.consume_input(&g, Event::NodeClicked { node: NodeId(9) }, shift());
    assert_eq!(s.selected_nodes(), &vec![c]);
    s.consume_input(&g, Event::CanvasClicked, plain());
    assert_eq!(s.selected_nodes(), &vec![c]);
    s.consume_input(&g, Event::CanvasClicked, command());
    assert!(s.selected_nodes().is_empty());
}

#[test]
fn selection_primitives() {
    let mut s = TreeizeState::new();
    let (a, b, c) = (NodeId(0), NodeId(1), NodeId(2));
    s.select_one_node(false, a);
    s.select_one_node(false, b);
    s.select_many_nodes(false, &vec![b, c, c, a]);
    assert_eq!(s.selected_nodes(), &vec![a, b, c]);
    s.deselect_many_nodes(&vec![a, c, NodeId(7)]);
    assert_eq!(s.selected_nodes(), &vec![b]);
    s.select_many_nodes(true, &vec![c, a]);
    assert_eq!(s.selected_nodes(), &vec![c, a]);
    s.deselect_one_node(c);
    s.deselect_one_node(c);
    assert_eq!(s.selected_nodes(), &vec![a]);
    s.select_one_node(true, b);
    assert_eq!(s.selected_nodes(), &vec![b]);
    s.deselect_all_nodes();
    assert!(s.selected_nodes().is_empty());
}

#[test]
fn rect_selection_intersecting_and_contained() {
    let (g, a, b, c) = three_nodes();
    let rects = vec![
        (a, Rect { min: Point { x: 0, y: 0 }, max: Point { x: 10, y: 10 } }),
        (b, Rect { min: Point { x: 20, y: 0 }, max: Point { x: 40, y: 10 } }),
        (c, Rect { min: Point { x: 100, y: 100 }, max: Point { x: 110, y: 110 } }),
    ];
    let mut s = TreeizeState::new();
    s.consume_input(&g, Event::CanvasDragged { pos: Point { x: 30, y: 12 } }, plain());
    assert!(!s.is_rect_selection());
    s.consume_input(&g, Event::CanvasDragged { pos: Point { x: 30, y: 12 } }, shift());
    assert!(s.is_rect_selection());
    s.consume_input(&g, Event::CanvasDragged { pos: Point { x: -5, y: -5 } }, plain());
    assert_eq!(
        s.rect_selection(),
        Some(Rect { min: Point { x: -5, y: -5 }, max: Point { x: 30, y: 12 } })
    );
    s.finish_rect_selection(&rects, false, plain());
    assert!(!s.is_rect_selection());
    assert_eq!(s.selected_nodes(), &vec![a, b]);

    s.start_rect_selection(Point { x: -5, y: -5 });
    s.update_rect_selection(Point { x: 30, y: 12 });
    s.finish_rect_selection(&rects, true, plain());
    assert_eq!(s.selected_nodes(), &vec![a]);

    s.start_rect_selection(Point { x: 90, y: 90 });
    s.update_rect_selection(Point { x: 120, y: 120 });
    s.finish_rect_selection(&rects, true, shift());
    assert_eq!(s.selected_nodes(), &vec![a, c]);

    s.start_rect_selection(Point { x: 0, y: 0 });
    s.update_rect_selection(Point { x: 1, y: 1 });
    s.finish_rect_selection(&rects, false, command());
    assert_eq!(s.selected_nodes(), &vec![c]);

    s.finish_rect_selection(&rects, false, plain());
    assert_eq!(s.selected_nodes(), &vec![c]);
    s.update_rect_selection(Point { x: 1, y: 1 });
    assert!(!s.is_rect_selection());
    s.start_rect_selection(Point { x: 1, y: 1 });
    s.stop_rect_selection();
    assert!(!s.is_rect_selection());
}

#[test]
fn dragging_a_selected_node_moves_the_selection() {
    let (mut g, a, b, c) = three_nodes();
    let mut s = TreeizeState::new();
    s.select_many_nodes(true, &vec![a, b]);
    s.drag_node(&mut g, a, 5, -3);
    assert_eq!(g.node_pos(a), Some(Point { x: 5, y: -3 }));
    assert_eq!(g.node_pos(b), Some(Point { x: 5, y: -3 }));
    assert_eq!(g.node_pos(c), Some(Point { x: 0, y: 0 }));
    s.drag_node(&mut g, c, 1, 1);
    assert_eq!(g.node_pos(a), Some(Point { x: 5, y: -3 }));
    assert_eq!(g.node_pos(c), Some(Point { x: 1, y: 1 }));
    s.drag_node(&mut g, NodeId(11), 1, 1);
    assert_eq!(g.node_pos(c), Some(Point { x: 1, y: 1 }));
}

#[test]
fn bundle_primitives() {
    let mut s = TreeizeState::new();
    let (p, q) = (in0(NodeId(0)), in0(NodeId(1)));
    s.add_new_wire_in(p);
    assert!(!s.has_new_wires());
    s.start_new_wire_in(p);
    s.add_new_wire_in(q);
    s.add_new_wire_in(q);
    s.add_new_wire_out(out0(NodeId(0)));
    s.remove_new_wire_out(out0(NodeId(0)));
    assert_eq!(s.new_wires(), Some(&NewWires::In(vec![p, q])));
    s.remove_new_wire_in(p);
    assert_eq!(s.new_wires(), Some(&NewWires::In(vec![q])));
    assert_eq!(s.take_new_wires(), Some(NewWires::In(vec![q])));
    assert_eq!(s.take_new_wires(), None);
    s.start_new_wires_in(&vec![p, q]);
    assert!(s.has_new_wires_in());
    s.start_new_wire_out(out0(NodeId(2)));
    assert!(s.has_new_wires_out());
    s.set_new_wires_menu(NewWires::In(vec![p]));
    assert!(s.has_new_wires_in());
    assert_eq!(s.take_new_wires_menu(), Some(NewWires::In(vec![p])));
}
