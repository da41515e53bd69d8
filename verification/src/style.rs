//! How the parts of a node are laid out, and the heights of its pin rows.

use vstd::prelude::*;

verus! {

/// Controls how header, pins and body are placed in the node.
#[derive(Clone, Copy, Debug, PartialEq, Eq, Structural, Hash)]
pub enum NodeLayoutKind {
    /// Input pins on the top edge, the body below the header, output pins
    /// on the bottom edge.
    Compact,
}

impl Default for NodeLayoutKind {
    fn default() -> (k: Self)
        ensures
            k == NodeLayoutKind::Compact,
    {
        NodeLayoutKind::Compact
    }
}

/// Controls how node elements are laid out.
#[derive(Clone, Copy, Debug, PartialEq, Eq, Structural, Hash)]
pub struct NodeLayout {
    /// The method of laying out node elements.
    pub kind: NodeLayoutKind,
    /// The least height of a pin row, in layout units.
    pub min_pin_row_height: u32,
    /// Whether all pin rows get the height of the tallest one.
    pub equal_pin_row_heights: bool,
}

impl NodeLayout {
    /// The compact layout with flexible pin row heights.
    pub fn compact() -> (l: Self)
        ensures
            l == (NodeLayout {
                kind: NodeLayoutKind::Compact,
                min_pin_row_height: 0,
                equal_pin_row_heights: false,
            }),
    {
        NodeLayout {
            kind: NodeLayoutKind::Compact,
            min_pin_row_height: 0,
            equal_pin_row_heights: false,
        }
    }

    /// The heights of row `idx` on the input side: `rows` are the measured
    /// input rows, `opposite` the measured output rows.
    pub fn input_heights(self, inputs: &[u32], outputs: &[u32], idx: usize) -> (h: (u32, u32))
        ensures
            h == row_heights(inputs@, outputs@, self.min_pin_row_height, idx as int),
    {
        heights_at(inputs, outputs, self.min_pin_row_height, idx)
    }

    /// The heights of row `idx` on the output side.
    pub fn output_heights(self, inputs: &[u32], outputs: &[u32], idx: usize) -> (h: (u32, u32))
        ensures
            h == row_heights(outputs@, inputs@, self.min_pin_row_height, idx as int),
    {
        heights_at(outputs, inputs, self.min_pin_row_height, idx)
    }
}

impl Default for NodeLayout {
    fn default() -> (l: Self)
        ensures
            l == (NodeLayout {
                kind: NodeLayoutKind::Compact,
                min_pin_row_height: 0,
                equal_pin_row_heights: false,
            }),
    {
        NodeLayout::compact()
    }
}

impl From<NodeLayoutKind> for NodeLayout {
    fn from(kind: NodeLayoutKind) -> (l: Self) {
        NodeLayout { kind, min_pin_row_height: 0, equal_pin_row_heights: false }
    }
}

impl vstd::std_specs::convert::FromSpecImpl<NodeLayoutKind> for NodeLayout {
    open spec fn obeys_from_spec() -> bool {
        true
    }

    open spec fn from_spec(kind: NodeLayoutKind) -> Self {
        NodeLayout { kind, min_pin_row_height: 0, equal_pin_row_heights: false }
    }
}

/// The larger of two heights.
pub open spec fn taller(a: u32, b: u32) -> u32 {
    if a >= b {
        a
    } else {
        b
    }
}

/// The inner and the outer height of pin row `idx`. The inner height is
/// the row's own measured height, 0 for a row that was not measured. The
/// outer height is at least the inner one, at least the measured height of
/// the row with the same index on the opposite side, and at least
/// `min_outer`.
pub open spec fn row_heights(rows: Seq<u32>, opposite: Seq<u32>, min_outer: u32, idx: int) -> (
    u32,
    u32,
) {
    let inner = if 0 <= idx < rows.len() {
        rows[idx]
    } else {
        0
    };
    let outer = if 0 <= idx < opposite.len() {
        taller(opposite[idx], inner)
    } else {
        inner
    };
    (inner, taller(outer, min_outer))
}

/// Computes [`row_heights`].
pub fn heights_at(rows: &[u32], opposite: &[u32], min_outer: u32, idx: usize) -> (h: (u32, u32))
    ensures
        h == row_heights(rows@, opposite@, min_outer, idx as int),
{
    let inner: u32 = if idx < rows.len() {
        rows[idx]
    } else {
        0
    };
    let outer: u32 = if idx < opposite.len() {
        let o: u32 = opposite[idx];
        if o >= inner {
            o
        } else {
            inner
        }
    } else {
        inner
    };
    (
        inner,
        if outer >= min_outer {
            outer
        } else {
            min_outer
        },
    )
}

} // verus!
