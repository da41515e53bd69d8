use treeize::style::{heights_at, NodeLayout, NodeLayoutKind};

#[test]
fn compact_is_the_default_layout() {
    assert_eq!(NodeLayoutKind::default(), NodeLayoutKind::Compact);
    let l = NodeLayout::default();
    assert_eq!(l, NodeLayout::compact());
    assert_eq!(l.kind, NodeLayoutKind::Compact);
    assert_eq!(l.min_pin_row_height, 0);
    assert!(!l.equal_pin_row_heights);
    assert_eq!(NodeLayout::from(NodeLayoutKind::Compact), l);
}

#[test]
fn pin_row_heights() {
    let rows = [10u32, 30, 5];
    let opposite = [20u32, 10];
    assert_eq!(heights_at(&rows, &opposite, 0, 0), (10, 20));
    assert_eq!(heights_at(&rows, &opposite, 0, 1), (30, 30));
    assert_eq!(heights_at(&rows, &opposite, 0, 2), (5, 5));
    assert_eq!(heights_at(&rows, &opposite, 8, 2), (5, 8));
    assert_eq!(heights_at(&rows, &opposite, 8, 3), (0, 8));
    assert_eq!(heights_at(&opposite, &rows, 0, 2), (0, 5));
    let l = NodeLayout { kind: NodeLayoutKind::Compact, min_pin_row_height: 25, equal_pin_row_heights: false };
    assert_eq!(l.input_heights(&rows, &opposite, 0), (10, 25));
    assert_eq!(l.output_heights(&rows, &opposite, 0), (20, 25));
    assert_eq!(l.output_heights(&rows, &opposite, 1), (10, 30));
}

fn is_send_sync<T: Send + Sync>() {}

#[test]
fn plain_types_are_send_sync() {
    is_send_sync::<NodeLayout>();
    is_send_sync::<NodeLayoutKind>();
    is_send_sync::<treeize::state::TreeizeState>();
    is_send_sync::<treeize::store::Treeize<u8>>();
    is_send_sync::<treeize::layout::LayoutConfig>();
}
