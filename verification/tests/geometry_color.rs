use egui::Color32;
use treeize::color::{channel_midpoint, mix_colors};
use treeize::geometry::{saturate, Point, Rect};

#[test]
fn mix_colors_takes_channel_midpoints() {
    let a = Color32::from_rgba_premultiplied(10, 20, 30, 40);
    let b = Color32::from_rgba_premultiplied(20, 41, 255, 0);
    let m = mix_colors(a, b);
    assert_eq!((m.r(), m.g(), m.b(), m.a()), (15, 30, 142, 20));
    assert_ne!(m, a);
    assert_ne!(m, b);
    assert_eq!(mix_colors(a, a), a);
    assert_eq!(mix_colors(a, b), mix_colors(b, a));
}

#[test]
fn channel_midpoint_rounds_down() {
    assert_eq!(channel_midpoint(0, 0), 0);
    assert_eq!(channel_midpoint(0, 1), 0);
    assert_eq!(channel_midpoint(1, 2), 1);
    assert_eq!(channel_midpoint(255, 255), 255);
    assert_eq!(channel_midpoint(255, 0), 127);
    assert_eq!(channel_midpoint(254, 255), 254);
}

#[test]
fn saturating_coordinates() {
    assert_eq!(saturate(5), 5);
    assert_eq!(saturate(i64::MAX as i128 + 1), i64::MAX);
    assert_eq!(saturate(i64::MIN as i128 - 1), i64::MIN);
    assert_eq!(saturate(i128::MAX), i64::MAX);
    assert_eq!(saturate(i128::MIN), i64::MIN);
    let p = Point { x: i64::MAX - 1, y: i64::MIN + 1 };
    assert_eq!(p.offset(1, -1), Point { x: i64::MAX, y: i64::MIN });
    assert_eq!(p.offset(5, -5), Point { x: i64::MAX, y: i64::MIN });
    assert_eq!(p.offset(-5, 5), Point { x: i64::MAX - 6, y: i64::MIN + 6 });
    assert_eq!(Point::zero(), Point { x: 0, y: 0 });
}

#[test]
fn rectangles() {
    let r = Rect::from_two_pos(Point { x: 10, y: -5 }, Point { x: -10, y: 5 });
    assert_eq!(r, Rect { min: Point { x: -10, y: -5 }, max: Point { x: 10, y: 5 } });
    assert!(r.contains(Point { x: 10, y: 5 }));
    assert!(r.contains(Point { x: -10, y: -5 }));
    assert!(!r.contains(Point { x: 11, y: 0 }));
    let inner = Rect { min: Point { x: 0, y: 0 }, max: Point { x: 10, y: 5 } };
    let across = Rect { min: Point { x: 5, y: 0 }, max: Point { x: 15, y: 2 } };
    let apart = Rect { min: Point { x: 11, y: 0 }, max: Point { x: 15, y: 2 } };
    let corner = Rect { min: Point { x: 10, y: 5 }, max: Point { x: 15, y: 9 } };
    assert!(r.contains_rect(&inner));
    assert!(!r.contains_rect(&across));
    assert!(!inner.contains_rect(&r));
    assert!(r.intersects(&inner));
    assert!(r.intersects(&across));
    assert!(across.intersects(&r));
    assert!(!r.intersects(&apart));
    assert!(r.intersects(&corner));
}
