//! Integer plane geometry: points, sizes and axis-aligned rectangles.
//!
//! Coordinates are whole layout units. Positions saturate at the ends of
//! the `i64` range instead of wrapping.

use vstd::prelude::*;

verus! {

/// A position in layout units.
#[derive(Clone, Copy, Debug, PartialEq, Eq, Structural, Hash)]
pub struct Point {
    pub x: i64,
    pub y: i64,
}

/// Width and height of a node in layout units.
#[derive(Clone, Copy, Debug, PartialEq, Eq, Structural, Hash)]
pub struct Size {
    pub width: u32,
    pub height: u32,
}

/// The value of `v` pulled into the `i64` range.
pub open spec fn clamp_coord(v: int) -> i64 {
    if v < i64::MIN {
        i64::MIN
    } else if v > i64::MAX {
        i64::MAX
    } else {
        v as i64
    }
}

/// Pulls a wide coordinate into the `i64` range.
pub fn saturate(v: i128) -> (r: i64)
    ensures
        r == clamp_coord(v as int),
{
    if v < i64::MIN as i128 {
        i64::MIN
    } else if v > i64::MAX as i128 {
        i64::MAX
    } else {
        v as i64
    }
}

impl Point {
    /// The origin.
    pub fn zero() -> (p: Point)
        ensures
            p == (Point { x: 0, y: 0 }),
    {
        Point { x: 0, y: 0 }
    }

    /// This point moved by `(dx, dy)`, each coordinate saturating.
    pub open spec fn offset_spec(self, dx: i64, dy: i64) -> Point {
        Point { x: clamp_coord(self.x + dx), y: clamp_coord(self.y + dy) }
    }

    /// Moves the point by `(dx, dy)`; a coordinate that would leave the
    /// `i64` range stops at its end.
    pub fn offset(self, dx: i64, dy: i64) -> (p: Point)
        ensures
            p == self.offset_spec(dx, dy),
    {
        Point {
            x: saturate(self.x as i128 + dx as i128),
            y: saturate(self.y as i128 + dy as i128),
        }
    }
}

/// An axis-aligned rectangle, both corners included.
#[derive(Clone, Copy, Debug, PartialEq, Eq, Structural, Hash)]
pub struct Rect {
    pub min: Point,
    pub max: Point,
}

impl Rect {
    /// Whether `p` lies inside the rectangle or on its border.
    pub open spec fn contains_spec(self, p: Point) -> bool {
        self.min.x <= p.x && p.x <= self.max.x && self.min.y <= p.y && p.y <= self.max.y
    }

    /// Whether both corners of `other` lie inside this rectangle.
    pub open spec fn contains_rect_spec(self, other: Rect) -> bool {
        self.contains_spec(other.min) && self.contains_spec(other.max)
    }

    /// Whether the two rectangles share at least one point.
    pub open spec fn intersects_spec(self, other: Rect) -> bool {
        self.min.x <= other.max.x && other.min.x <= self.max.x && self.min.y <= other.max.y
            && other.min.y <= self.max.y
    }

    /// The rectangle spanned by two arbitrary corners.
    pub open spec fn from_two_pos_spec(a: Point, b: Point) -> Rect {
        Rect {
            min: Point { x: if a.x <= b.x { a.x } else { b.x }, y: if a.y <= b.y { a.y } else { b.y } },
            max: Point { x: if a.x <= b.x { b.x } else { a.x }, y: if a.y <= b.y { b.y } else { a.y } },
        }
    }

    /// Builds the rectangle spanned by two arbitrary corners.
    pub fn from_two_pos(a: Point, b: Point) -> (r: Rect)
        ensures
            r == Rect::from_two_pos_spec(a, b),
    {
        Rect {
            min: Point { x: if a.x <= b.x { a.x } else { b.x }, y: if a.y <= b.y { a.y } else { b.y } },
            max: Point { x: if a.x <= b.x { b.x } else { a.x }, y: if a.y <= b.y { b.y } else { a.y } },
        }
    }

    pub fn contains(&self, p: Point) -> (b: bool)
        ensures
            b == self.contains_spec(p),
    {
        self.min.x <= p.x && p.x <= self.max.x && self.min.y <= p.y && p.y <= self.max.y
    }

    pub fn contains_rect(&self, other: &Rect) -> (b: bool)
        ensures
            b == self.contains_rect_spec(*other),
    {
        self.contains(other.min) && self.contains(other.max)
    }

    pub fn intersects(&self, other: &Rect) -> (b: bool)
        ensures
            b == self.intersects_spec(*other),
    {
        self.min.x <= other.max.x && other.min.x <= self.max.x && self.min.y <= other.max.y
            && other.min.y <= self.max.y
    }
}

} // verus!
