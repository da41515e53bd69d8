use treeize::geometry::{Point, Size};
use treeize::graph::{InPinId, NodeId, OutPinId};
use treeize::layout::{
    apply_layout, layout_and_apply, layout_tree, LayoutConfig, NodeShape, MAX_DEPTH,
};
use treeize::store::Treeize;

fn out0(node: NodeId) -> OutPinId {
    OutPinId { node, output: 0 }
}

fn in0(node: NodeId) -> InPinId {
    InPinId { node, input: 0 }
}

fn both() -> NodeShape {
    NodeShape { has_output: true, has_input: true, size: None }
}

fn config() -> LayoutConfig {
    LayoutConfig { horizontal_spacing: 200, vertical_spacing: 150, start_pos: Point { x: 0, y: 0 } }
}

fn origin() -> Point {
    Point { x: 0, y: 0 }
}

#[test]
fn default_config_values() {
    let c = LayoutConfig::default();
    assert_eq!(c.horizontal_spacing, 200);
    assert_eq!(c.vertical_spacing, 150);
    assert_eq!(c.start_pos, Point { x: 0, y: 0 });
}

#[test]
fn root_with_two_children() {
    let mut g: Treeize<u8> = Treeize::new();
    let r = g.insert_node(origin(), 0);
    let c1 = g.insert_node(origin(), 1);
    let c2 = g.insert_node(origin(), 2);
    assert!(g.connect(out0(r), in0(c1)));
    assert!(g.connect(out0(r), in0(c2)));
    let shapes = vec![both(), both(), both()];
    let pos = layout_tree(&g, config(), &shapes);
    let pr = pos.get(r).unwrap();
    let first = pos.get(c1).unwrap();
    let second = pos.get(c2).unwrap();
    assert_eq!(second.x - first.x, 400);
    assert_eq!(first.y, pr.y + 150 + 150);
    assert_eq!(second.y, pr.y + 150 + 150);
    assert_eq!(pr, Point { x: 200, y: 0 });
    assert_eq!(first, Point { x: 0, y: 300 });
    assert_eq!(second, Point { x: 400, y: 300 });
}

#[test]
fn two_isolated_nodes_are_packed_side_by_side() {
    let mut g: Treeize<u8> = Treeize::new();
    let a = g.insert_node(Point { x: 7, y: 9 }, 0);
    let b = g.insert_node(Point { x: -3, y: 4 }, 1);
    let shapes = vec![both(), both()];
    let cfg = LayoutConfig {
        horizontal_spacing: 200,
        vertical_spacing: 150,
        start_pos: Point { x: 10, y: 20 },
    };
    let pos = layout_tree(&g, cfg, &shapes);
    assert_eq!(pos.get(a), Some(Point { x: 10, y: 20 }));
    assert_eq!(pos.get(b), Some(Point { x: 410, y: 20 }));
}

#[test]
fn measured_sizes_are_used() {
    let mut g: Treeize<u8> = Treeize::new();
    let r = g.insert_node(origin(), 0);
    let c1 = g.insert_node(origin(), 1);
    let c2 = g.insert_node(origin(), 2);
    g.connect(out0(r), in0(c1));
    g.connect(out0(r), in0(c2));
    let shapes = vec![
        NodeShape { has_output: true, has_input: true, size: Some(Size { width: 100, height: 40 }) },
        NodeShape { has_output: true, has_input: true, size: Some(Size { width: 60, height: 30 }) },
        NodeShape { has_output: true, has_input: true, size: Some(Size { width: 80, height: 30 }) },
    ];
    let cfg = LayoutConfig { horizontal_spacing: 10, vertical_spacing: 5, start_pos: origin() };
    let pos = layout_tree(&g, cfg, &shapes);
    // children: c1 spans -30..30, c2 is shifted by 30 + 10 + 40 = 80 and spans 40..120;
    // the parent's centre is 40 right of c1's; the widest level is 150 wide.
    assert_eq!(pos.get(r), Some(Point { x: 25, y: 0 }));
    assert_eq!(pos.get(c1), Some(Point { x: 5, y: 45 }));
    assert_eq!(pos.get(c2), Some(Point { x: 75, y: 45 }));
}

#[test]
fn deep_subtrees_do_not_collide() {
    // a -> b -> {d, e} and a -> c: the row of b's children is wider than b itself,
    // so c has to clear d and e, not only b.
    let mut g: Treeize<u8> = Treeize::new();
    let a = g.insert_node(origin(), 0);
    let b = g.insert_node(origin(), 1);
    let c = g.insert_node(origin(), 2);
    let d = g.insert_node(origin(), 3);
    let e = g.insert_node(origin(), 4);
    g.connect(out0(a), in0(b));
    g.connect(out0(b), in0(d));
    g.connect(out0(b), in0(e));
    g.connect(out0(a), in0(c));
    g.connect(out0(c), in0(NodeId(99)));
    let shapes = vec![both(); 5];
    let f = g.insert_node(origin(), 5);
    g.connect(out0(c), in0(f));
    let shapes6 = vec![both(); 6];
    let _ = shapes;
    let cfg = LayoutConfig { horizontal_spacing: 10, vertical_spacing: 10, start_pos: origin() };
    let pos = layout_tree(&g, cfg, &shapes6);
    let pe = pos.get(e).unwrap();
    let pf = pos.get(f).unwrap();
    let pd = pos.get(d).unwrap();
    assert_eq!(pd.y, pe.y);
    assert_eq!(pe.y, pf.y);
    // default width is the horizontal spacing, 10
    assert_eq!(pe.x - pd.x, 20);
    assert!(pf.x >= pe.x + 10 + 10);
    assert_eq!(pf.x - pe.x, 20);
}

#[test]
fn rootless_cycle_stays_at_start() {
    let mut g: Treeize<u8> = Treeize::new();
    let a = g.insert_node(Point { x: 1, y: 1 }, 0);
    let b = g.insert_node(Point { x: 2, y: 2 }, 1);
    g.connect(out0(a), in0(b));
    g.connect(out0(b), in0(a));
    let shapes = vec![both(), both()];
    let cfg = LayoutConfig { horizontal_spacing: 200, vertical_spacing: 150, start_pos: Point { x: 5, y: 6 } };
    let pos = layout_tree(&g, cfg, &shapes);
    assert_eq!(pos.get(a), Some(Point { x: 5, y: 6 }));
    assert_eq!(pos.get(b), Some(Point { x: 5, y: 6 }));
}

#[test]
fn cycle_below_a_root_terminates() {
    let mut g: Treeize<u8> = Treeize::new();
    let r = g.insert_node(origin(), 0);
    let a = g.insert_node(origin(), 1);
    let b = g.insert_node(origin(), 2);
    g.connect(out0(r), in0(a));
    g.connect(out0(a), in0(b));
    g.connect(out0(b), in0(a));
    let shapes = vec![both(); 3];
    let pos = layout_tree(&g, config(), &shapes);
    assert_eq!(pos.get(r), Some(Point { x: 0, y: 0 }));
    assert_eq!(pos.get(a), Some(Point { x: 0, y: 300 }));
    assert_eq!(pos.get(b), Some(Point { x: 0, y: 600 }));
}

#[test]
fn every_live_node_gets_a_position() {
    let mut g: Treeize<u8> = Treeize::new();
    let a = g.insert_node(origin(), 0);
    let b = g.insert_node(origin(), 1);
    let c = g.insert_node(origin(), 2);
    g.connect(out0(a), in0(b));
    assert_eq!(g.remove_node(b), Some(1));
    let shapes = vec![both(); 3];
    let pos = layout_tree(&g, config(), &shapes);
    assert!(pos.get(a).is_some());
    assert!(pos.get(b).is_none());
    assert!(pos.get(c).is_some());
    assert!(pos.get(NodeId(17)).is_none());
    assert_eq!(pos.slot_count(), 3);
}

#[test]
fn wires_through_missing_pins_do_not_count() {
    let mut g: Treeize<u8> = Treeize::new();
    let a = g.insert_node(origin(), 0);
    let b = g.insert_node(origin(), 1);
    g.connect(out0(a), in0(b));
    // b has no input pin: the wire does not count, both nodes are roots.
    let shapes = vec![both(), NodeShape { has_output: true, has_input: false, size: None }];
    let pos = layout_tree(&g, config(), &shapes);
    assert_eq!(pos.get(a), Some(Point { x: 0, y: 0 }));
    assert_eq!(pos.get(b), Some(Point { x: 400, y: 0 }));
    // no shapes at all: no wire counts
    let none: Vec<NodeShape> = Vec::new();
    let pos = layout_tree(&g, config(), &none);
    assert_eq!(pos.get(b), Some(Point { x: 400, y: 0 }));
}

#[test]
fn node_with_two_parents_goes_to_the_first() {
    let mut g: Treeize<u8> = Treeize::new();
    let p = g.insert_node(origin(), 0);
    let q = g.insert_node(origin(), 1);
    let k = g.insert_node(origin(), 2);
    g.connect(out0(p), in0(k));
    g.connect(out0(q), in0(k));
    let shapes = vec![both(); 3];
    let pos = layout_tree(&g, config(), &shapes);
    assert_eq!(pos.get(p), Some(Point { x: 0, y: 0 }));
    assert_eq!(pos.get(k), Some(Point { x: 0, y: 300 }));
    assert_eq!(pos.get(q), Some(Point { x: 400, y: 0 }));
}

#[test]
fn apply_layout_writes_positions() {
    let mut g: Treeize<u8> = Treeize::new();
    let a = g.insert_node(Point { x: 7, y: 9 }, 0);
    let b = g.insert_node(Point { x: -3, y: 4 }, 1);
    let shapes = vec![both(), both()];
    let pos = layout_tree(&g, config(), &shapes);
    g.remove_node(a);
    apply_layout(&mut g, &pos);
    assert_eq!(g.node_pos(a), None);
    assert_eq!(g.node_pos(b), Some(Point { x: 400, y: 0 }));
    let mut h: Treeize<u8> = Treeize::new();
    let x = h.insert_node(Point { x: 7, y: 9 }, 0);
    let y = h.insert_node(Point { x: 7, y: 9 }, 1);
    h.connect(out0(x), in0(y));
    layout_and_apply(&mut h, config(), &shapes);
    assert_eq!(h.node_pos(x), Some(Point { x: 0, y: 0 }));
    assert_eq!(h.node_pos(y), Some(Point { x: 0, y: 300 }));
}

#[test]
fn positions_saturate_at_the_coordinate_range() {
    let mut g: Treeize<u8> = Treeize::new();
    let a = g.insert_node(origin(), 0);
    let b = g.insert_node(origin(), 1);
    let shapes = vec![both(), both()];
    let cfg = LayoutConfig {
        horizontal_spacing: 200,
        vertical_spacing: 150,
        start_pos: Point { x: i64::MAX - 100, y: i64::MIN },
    };
    let pos = layout_tree(&g, cfg, &shapes);
    assert_eq!(pos.get(a), Some(Point { x: i64::MAX - 100, y: i64::MIN }));
    assert_eq!(pos.get(b), Some(Point { x: i64::MAX, y: i64::MIN }));
}

#[test]
fn trees_grow_no_deeper_than_the_guard() {
    let mut g: Treeize<u32> = Treeize::new();
    let count = MAX_DEPTH + 6;
    for i in 0..count {
        g.insert_node(Point { x: 9, y: 9 }, i as u32);
    }
    for i in 0..count - 1 {
        assert!(g.connect(out0(NodeId(i)), in0(NodeId(i + 1))));
    }
    let shapes = vec![both(); count];
    let cfg = LayoutConfig { horizontal_spacing: 10, vertical_spacing: 5, start_pos: Point { x: 3, y: 4 } };
    let pos = layout_tree(&g, cfg, &shapes);
    // each level lies one height and one drop below the one above it
    assert_eq!(pos.get(NodeId(0)), Some(Point { x: 3, y: 4 }));
    assert_eq!(pos.get(NodeId(1)), Some(Point { x: 3, y: 14 }));
    let last = MAX_DEPTH - 1;
    assert_eq!(pos.get(NodeId(last)), Some(Point { x: 3, y: 4 + 10 * last as i64 }));
    // what lies deeper stays at the start
    for i in MAX_DEPTH..count {
        assert_eq!(pos.get(NodeId(i)), Some(Point { x: 3, y: 4 }), "node {}", i);
    }
}

#[test]
fn roots_with_measured_sizes_stand_side_by_side() {
    let mut g: Treeize<u8> = Treeize::new();
    let a = g.insert_node(origin(), 0);
    let b = g.insert_node(origin(), 1);
    let c = g.insert_node(origin(), 2);
    let sized = |w: u32, h: u32| NodeShape {
        has_output: true,
        has_input: true,
        size: Some(Size { width: w, height: h }),
    };
    let shapes = vec![sized(31, 10), sized(0, 10), sized(8, 10)];
    let cfg = LayoutConfig { horizontal_spacing: 7, vertical_spacing: 5, start_pos: Point { x: -100, y: 50 } };
    let pos = layout_tree(&g, cfg, &shapes);
    assert_eq!(pos.get(a), Some(Point { x: -100, y: 50 }));
    assert_eq!(pos.get(b), Some(Point { x: -100 + 31 + 7, y: 50 }));
    assert_eq!(pos.get(c), Some(Point { x: -100 + 31 + 7 + 0 + 7, y: 50 }));
    assert_eq!(
        pos.entries(),
        vec![
            (a, Point { x: -100, y: 50 }),
            (b, Point { x: -62, y: 50 }),
            (c, Point { x: -55, y: 50 }),
        ]
    );
}

#[test]
fn nodes_on_one_level_keep_the_gap() {
    // r -> {a, b}; a -> {c, d}; b -> {e, f}
    let mut g: Treeize<u8> = Treeize::new();
    let ids: Vec<NodeId> = (0..7).map(|i| g.insert_node(origin(), i)).collect();
    for (from, to) in [(0, 1), (0, 2), (1, 3), (1, 4), (2, 5), (2, 6)] {
        g.connect(out0(ids[from]), in0(ids[to]));
    }
    let shapes = vec![both(); 7];
    let cfg = LayoutConfig { horizontal_spacing: 20, vertical_spacing: 10, start_pos: origin() };
    let pos = layout_tree(&g, cfg, &shapes);
    let x = |i: usize| pos.get(ids[i]).unwrap().x;
    let y = |i: usize| pos.get(ids[i]).unwrap().y;
    // the default width is the horizontal spacing
    for pair in [[3, 4], [4, 5], [5, 6], [1, 2]] {
        assert!(x(pair[0]) + 20 + 20 <= x(pair[1]), "{:?}", pair);
        assert_eq!(y(pair[0]), y(pair[1]));
    }
    assert_eq!(x(4) + 40, x(5));
    assert_eq!([x(3), x(4), x(5), x(6)], [0, 40, 80, 120]);
    assert_eq!([x(1), x(2)], [20, 100]);
    assert_eq!(x(0), 60);
    assert_eq!([y(0), y(1), y(3)], [0, 20, 40]);
}
