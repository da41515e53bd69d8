use treeize::geometry::Point;
use treeize::wire::{
    adjust_frame_size, hit_curve, hit_wire, hovered_wire, wire_curve, Curve, CurvePoint, WireSpan,
};

fn at(x: i64, y: i64) -> Point {
    Point { x, y }
}

fn cp(x: i128, y: i128) -> CurvePoint {
    CurvePoint { x, y }
}

#[test]
fn frame_size_scaling() {
    // the pins are 600 apart: a sixth is 100
    let (a, b) = (at(0, 0), at(100, 600));
    assert_eq!(adjust_frame_size(30, false, false, a, b), 30);
    assert_eq!(adjust_frame_size(30, true, false, a, b), 100);
    assert_eq!(adjust_frame_size(30, false, true, a, b), 30);
    assert_eq!(adjust_frame_size(30, true, true, a, b), 100);
    assert_eq!(adjust_frame_size(300, false, true, a, b), 100);
    assert_eq!(adjust_frame_size(300, true, false, a, b), 300);
    assert_eq!(adjust_frame_size(300, true, true, a, b), 100);
    assert_eq!(adjust_frame_size(300, false, true, a, a), 0);
    assert_eq!(adjust_frame_size(7, true, true, at(i64::MIN, 0), at(i64::MAX, 0)), u64::MAX / 6);
    // the larger of the two distances counts
    assert_eq!(adjust_frame_size(300, false, true, at(0, 0), at(-1200, 5)), 200);
}

#[test]
fn wire_curve_control_points() {
    let c = wire_curve(50, at(10, 20), at(110, 320));
    assert_eq!(c.start, cp(10, 20));
    assert_eq!(c.lead, cp(10, 70));
    assert_eq!(c.trail, cp(110, 270));
    assert_eq!(c.end, cp(110, 320));
    let c = wire_curve(u64::MAX, at(0, i64::MAX), at(0, i64::MIN));
    assert_eq!(c.lead.y, i64::MAX as i128 + u64::MAX as i128);
    assert_eq!(c.trail.y, i64::MIN as i128 - u64::MAX as i128);
}

#[test]
fn straight_vertical_wire() {
    let (from, to) = (at(0, 0), at(0, 300));
    for y in 0i64..=300 {
        assert!(hit_wire(50, false, true, from, to, at(0, y), 4, 20), "y = {}", y);
        assert!(hit_wire(50, false, true, from, to, at(3, y), 4, 20), "y = {}", y);
        assert!(hit_wire(50, false, true, from, to, at(-3, y), 4, 20), "y = {}", y);
        assert!(!hit_wire(50, false, true, from, to, at(5, y), 4, 20), "y = {}", y);
        assert!(!hit_wire(50, false, true, from, to, at(-5, y), 4, 20), "y = {}", y);
    }
    assert!(!hit_wire(50, false, true, from, to, at(0, 305), 4, 20));
    assert!(!hit_wire(50, false, true, from, to, at(0, -5), 4, 20));
    assert!(hit_wire(50, false, true, from, to, at(0, 304), 4, 20));
    assert!(hit_wire(50, false, true, from, to, at(0, -4), 4, 20));
}

#[test]
fn curved_wire_passes_through_its_midpoint() {
    // control points (0,0) (0,100) (200,200) (200,300): the midpoint is (100,150)
    let (from, to) = (at(0, 0), at(200, 300));
    assert!(hit_wire(100, false, false, from, to, at(100, 150), 2, 20));
    assert!(hit_wire(100, false, false, from, to, at(0, 0), 2, 20));
    assert!(hit_wire(100, false, false, from, to, at(200, 300), 2, 20));
    // the chord does not lie on the curve near the ends
    assert!(!hit_wire(100, false, false, from, to, at(40, 60), 2, 20));
    // the curve leaves the output pin downwards: at a tenth of the way it has moved 30 down
    // and not yet 6 to the right
    assert!(hit_wire(100, false, false, from, to, at(6, 30), 3, 20));
    assert!(hit_wire(100, false, false, from, to, at(194, 270), 3, 20));
    assert!(!hit_wire(100, false, false, from, to, at(20, 30), 3, 20));
}

#[test]
fn thin_wires_use_the_minimum_hit_width() {
    let (from, to) = (at(0, 0), at(0, 300));
    for y in 0i64..=300 {
        assert!(hit_wire(50, false, true, from, to, at(1, y), 0, 20), "y = {}", y);
        assert!(hit_wire(50, false, true, from, to, at(1, y), 1, 20), "y = {}", y);
        assert!(!hit_wire(50, false, true, from, to, at(3, y), 0, 20), "y = {}", y);
        assert!(!hit_wire(50, false, true, from, to, at(3, y), 2, 20), "y = {}", y);
    }
    assert!(hit_wire(50, false, true, from, to, at(2, 0), 0, 20));
    assert!(hit_wire(50, false, true, from, to, at(3, 0), 3, 20));
}

#[test]
fn smoothness_scales_the_number_of_samples() {
    let (from, to) = (at(0, 0), at(0, 300));
    // with smoothness 0 the curve has one step: only its two ends are sampled
    assert!(hit_wire(50, false, true, from, to, at(0, 0), 4, 0));
    assert!(hit_wire(50, false, true, from, to, at(0, 300), 4, 0));
    assert!(!hit_wire(50, false, true, from, to, at(0, 150), 4, 0));
    assert!(hit_wire(50, false, true, from, to, at(0, 150), 4, 20));
    // at a twentieth of the usual smoothness there are eight steps
    assert!(hit_wire(50, false, true, from, to, at(0, 150), 4, 1));
    assert!(!hit_wire(50, false, true, from, to, at(0, 125), 4, 1));
}

#[test]
fn hit_test_is_the_same_from_either_end() {
    let c = Curve { start: cp(0, 0), lead: cp(0, 100), trail: cp(200, 200), end: cp(200, 300) };
    let r = Curve { start: c.end, lead: c.trail, trail: c.lead, end: c.start };
    for x in -10i64..=210 {
        for y in [-5i64, 0, 30, 60, 100, 150, 200, 270, 300, 305] {
            let p = at(x, y);
            assert_eq!(hit_curve(&c, p, 3, 20), hit_curve(&r, p, 3, 20), "at {:?}", p);
        }
    }
    let (from, to) = (at(-40, 10), at(160, 410));
    for x in -60i64..=180 {
        for y in [0i64, 10, 100, 210, 300, 410, 420] {
            assert_eq!(
                hit_wire(80, true, true, from, to, at(x, y), 3, 20),
                hit_wire(80, true, true, at(-160, -410), at(40, -10), at(-x, -y), 3, 20),
                "at {} {}",
                x,
                y
            );
        }
    }
}

#[test]
fn extreme_coordinates_are_handled() {
    let from = at(i64::MIN, i64::MIN);
    let to = at(i64::MAX, i64::MAX);
    assert!(hit_wire(u32::MAX, true, true, from, to, from, u32::MAX, 255));
    assert!(hit_wire(u32::MAX, true, true, from, to, to, 0, 255));
    assert!(!hit_wire(u32::MAX, true, true, from, to, at(0, i64::MAX), 0, 255));
    assert!(hit_wire(0, false, false, from, from, from, 0, 0));
}

#[test]
fn the_first_wire_under_the_pointer_wins() {
    let a = WireSpan { from: at(0, 0), to: at(0, 300), frame_size: 50 };
    let b = WireSpan { from: at(100, 0), to: at(100, 300), frame_size: 50 };
    let c = WireSpan { from: at(0, 100), to: at(0, 200), frame_size: 50 };
    let wires = vec![b, a, c];
    assert_eq!(hovered_wire(&wires, false, true, at(0, 150), 4, 20), Some(1));
    assert_eq!(hovered_wire(&wires, false, true, at(100, 150), 4, 20), Some(0));
    assert_eq!(hovered_wire(&wires, false, true, at(50, 150), 4, 20), None);
    let wires = vec![c, a];
    assert_eq!(hovered_wire(&wires, false, true, at(0, 150), 4, 20), Some(0));
    assert_eq!(hovered_wire(&wires, false, true, at(0, 50), 4, 20), Some(1));
    assert_eq!(hovered_wire(&Vec::new(), false, true, at(0, 50), 4, 20), None);
}

#[test]
fn long_wires_are_hit_all_along() {
    let (from, to) = (at(0, 0), at(0, 30_000));
    for y in (0i64..=30_000).step_by(997) {
        assert!(hit_wire(50, false, false, from, to, at(1, y), 1, 20), "y = {}", y);
        assert!(!hit_wire(50, false, false, from, to, at(4, y), 1, 20), "y = {}", y);
    }
    assert!(!hit_wire(50, false, false, from, to, at(-1000, 15_000), 1, 20));
    assert!(!hit_wire(50, false, false, from, to, at(0, 30_100), 1, 20));
}
