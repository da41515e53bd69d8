//! Wire geometry: the curve between two pins and the test whether the
//! pointer is on it.
//!
//! A wire is a cubic curve with four control points. It leaves the output
//! pin downwards and enters the input pin from above; how far the two
//! inner control points lie from the pins is the frame size. The curve is
//! sampled at equally spaced parameters, each sample rounded to a whole
//! unit, and the pointer is on the wire when it is close enough to one of
//! the samples.

use vstd::prelude::*;
use crate::geometry::Point;

verus! {

/// The pointer is on a wire if it is no further from it than the width of
/// the wire, or than this where the wire is thinner.
pub const MIN_HIT_WIDTH: u32 = 2;

/// The largest number of steps into which a curve is divided.
pub const MAX_STEPS: u32 = 65536;

/// No coordinate of a curve that is tested lies further from 0 than this.
pub open spec fn coord_limit() -> int {
    0x4_0000_0000_0000_0000
}

/// A cubic curve: its two end points and the two control points between
/// them.
pub struct Bezier {
    pub start: (int, int),
    pub lead: (int, int),
    pub trail: (int, int),
    pub end: (int, int),
}

/// A control point of a curve.
#[derive(Clone, Copy, Debug, PartialEq, Eq, Structural)]
pub struct CurvePoint {
    pub x: i128,
    pub y: i128,
}

/// A cubic curve in machine integers.
#[derive(Clone, Copy, Debug, PartialEq, Eq, Structural)]
pub struct Curve {
    pub start: CurvePoint,
    pub lead: CurvePoint,
    pub trail: CurvePoint,
    pub end: CurvePoint,
}

impl View for Curve {
    type V = Bezier;

    open spec fn view(&self) -> Bezier {
        Bezier {
            start: (self.start.x as int, self.start.y as int),
            lead: (self.lead.x as int, self.lead.y as int),
            trail: (self.trail.x as int, self.trail.y as int),
            end: (self.end.x as int, self.end.y as int),
        }
    }
}

/// The coordinates of a point as integers.
pub open spec fn pt(p: Point) -> (int, int) {
    (p.x as int, p.y as int)
}

/// Whether `v` lies within the coordinate limit.
pub open spec fn in_limit(v: int) -> bool {
    -coord_limit() <= v <= coord_limit()
}

impl Bezier {
    /// Whether every coordinate lies within the coordinate limit.
    pub open spec fn bounded(self) -> bool {
        &&& in_limit(self.start.0) && in_limit(self.start.1)
        &&& in_limit(self.lead.0) && in_limit(self.lead.1)
        &&& in_limit(self.trail.0) && in_limit(self.trail.1)
        &&& in_limit(self.end.0) && in_limit(self.end.1)
    }

    /// The same curve run through from its other end.
    pub open spec fn reversed(self) -> Bezier {
        Bezier { start: self.end, lead: self.trail, trail: self.lead, end: self.start }
    }

    /// The curve mirrored in the origin.
    pub open spec fn negated(self) -> Bezier {
        Bezier {
            start: (-self.start.0, -self.start.1),
            lead: (-self.lead.0, -self.lead.1),
            trail: (-self.trail.0, -self.trail.1),
            end: (-self.end.0, -self.end.1),
        }
    }
}

/// The distance between two coordinates.
pub open spec fn dist(a: int, b: int) -> int {
    if a >= b {
        a - b
    } else {
        b - a
    }
}

/// How far apart two points are: the larger of their horizontal and their
/// vertical distance.
pub open spec fn span(a: (int, int), b: (int, int)) -> int {
    if dist(a.0, b.0) >= dist(a.1, b.1) {
        dist(a.0, b.0)
    } else {
        dist(a.1, b.1)
    }
}

/// The frame size for a wire between two pins: a sixth of their distance
/// takes the place of the configured size where the wire is scaled up and
/// the sixth is larger, and where it is scaled down and the sixth is
/// smaller.
pub open spec fn scaled_frame(
    frame_size: int,
    upscale: bool,
    downscale: bool,
    from: (int, int),
    to: (int, int),
) -> int {
    let sixth = span(from, to) / 6;
    let up = if upscale && sixth > frame_size {
        sixth
    } else {
        frame_size
    };
    if downscale && sixth < up {
        sixth
    } else {
        up
    }
}

/// The curve of a wire from the output pin at `from` to the input pin at
/// `to`: it leaves `from` downwards and enters `to` from above, with the
/// inner control points `frame` away from the pins.
pub open spec fn wire_curve_spec(frame: int, from: (int, int), to: (int, int)) -> Bezier {
    Bezier { start: from, lead: (from.0, from.1 + frame), trail: (to.0, to.1 - frame), end: to }
}

/// The weight of control point `k` at step `i` of `n`, times `n` cubed.
pub open spec fn weight(k: int, i: int, n: int) -> int {
    if k == 0 {
        (n - i) * (n - i) * (n - i)
    } else if k == 1 {
        3 * i * (n - i) * (n - i)
    } else if k == 2 {
        3 * i * i * (n - i)
    } else {
        i * i * i
    }
}

/// One coordinate of the curve at step `i` of `n`, times `n` cubed.
pub open spec fn blend(c0: int, c1: int, c2: int, c3: int, i: int, n: int) -> int {
    weight(0, i, n) * c0 + weight(1, i, n) * c1 + weight(2, i, n) * c2 + weight(3, i, n) * c3
}

/// `a` divided by the positive `d`, rounded towards 0.
pub open spec fn towards_zero(a: int, d: int) -> int {
    if a >= 0 {
        a / d
    } else {
        -((-a) / d)
    }
}

/// The point of the curve at step `i` of `n`, each coordinate rounded
/// towards 0 to a whole unit.
pub open spec fn sample(c: Bezier, i: int, n: int) -> (int, int) {
    (
        towards_zero(blend(c.start.0, c.lead.0, c.trail.0, c.end.0, i, n), n * n * n),
        towards_zero(blend(c.start.1, c.lead.1, c.trail.1, c.end.1, i, n), n * n * n),
    )
}

/// Whether `p` is no further than `reach` from the point `s`.
pub open spec fn within_reach(p: (int, int), s: (int, int), reach: int) -> bool {
    (p.0 - s.0) * (p.0 - s.0) + (p.1 - s.1) * (p.1 - s.1) <= reach * reach
}

/// Whether `p` is no further than `reach` from the sampled point of the
/// curve at step `i` of `n`.
pub open spec fn near(c: Bezier, p: (int, int), reach: int, i: int, n: int) -> bool {
    within_reach(p, sample(c, i, n), reach)
}

/// Whether `p` is no further than `reach` from one of the `n + 1` sampled
/// points of the curve.
pub open spec fn hits(c: Bezier, p: (int, int), reach: int, n: int) -> bool {
    exists|i: int| 0 <= i <= n && near(c, p, reach, i, n)
}

/// The least of four coordinates.
pub open spec fn least(a: int, b: int, c: int, d: int) -> int {
    let ab = if a <= b {
        a
    } else {
        b
    };
    let cd = if c <= d {
        c
    } else {
        d
    };
    if ab <= cd {
        ab
    } else {
        cd
    }
}

/// The greatest of four coordinates.
pub open spec fn greatest(a: int, b: int, c: int, d: int) -> int {
    let ab = if a >= b {
        a
    } else {
        b
    };
    let cd = if c >= d {
        c
    } else {
        d
    };
    if ab >= cd {
        ab
    } else {
        cd
    }
}

/// Whether `p` is no further than `reach`, along each axis, from the
/// rectangle that holds the four control points. The curve never leaves
/// that rectangle.
pub open spec fn in_box(c: Bezier, p: (int, int), reach: int) -> bool {
    &&& least(c.start.0, c.lead.0, c.trail.0, c.end.0) - reach <= p.0
    &&& p.0 <= greatest(c.start.0, c.lead.0, c.trail.0, c.end.0) + reach
    &&& least(c.start.1, c.lead.1, c.trail.1, c.end.1) - reach <= p.1
    &&& p.1 <= greatest(c.start.1, c.lead.1, c.trail.1, c.end.1) + reach
}

/// The length of the polygon through the four control points, each side
/// measured along the axes. The curve is never longer.
pub open spec fn rim(c: Bezier) -> int {
    dist(c.start.0, c.lead.0) + dist(c.start.1, c.lead.1) + dist(c.lead.0, c.trail.0) + dist(
        c.lead.1,
        c.trail.1,
    ) + dist(c.trail.0, c.end.0) + dist(c.trail.1, c.end.1)
}

/// The number of steps into which the curve is divided: at smoothness 20
/// two for each time that the reach goes into the rim, so that
/// neighbouring samples are no more than half the reach apart;
/// proportionally more or fewer at other values, rounded up; at least 1
/// and at most [`MAX_STEPS`].
pub open spec fn steps_for(c: Bezier, reach: int, smoothness: int) -> int {
    let want = (rim(c) * smoothness + 10 * reach - 1) / (10 * reach);
    if want < 1 {
        1
    } else if want > MAX_STEPS {
        MAX_STEPS as int
    } else {
        want
    }
}

/// How close to a wire of width `width` the pointer has to be.
pub open spec fn hit_reach(width: int) -> int {
    if width >= MIN_HIT_WIDTH {
        width
    } else {
        MIN_HIT_WIDTH as int
    }
}

/// Whether the pointer at `pos` is on the curve drawn with width `width`.
/// `smoothness` is in twentieths.
pub open spec fn hit_curve_spec(c: Bezier, pos: (int, int), width: int, smoothness: int) -> bool {
    hits(c, pos, hit_reach(width), steps_for(c, hit_reach(width), smoothness))
}

/// Whether the pointer at `pos` is on the wire between two pins.
pub open spec fn hit_wire_spec(
    frame_size: int,
    upscale: bool,
    downscale: bool,
    from: (int, int),
    to: (int, int),
    pos: (int, int),
    width: int,
    smoothness: int,
) -> bool {
    hit_curve_spec(
        wire_curve_spec(scaled_frame(frame_size, upscale, downscale, from, to), from, to),
        pos,
        width,
        smoothness,
    )
}

/// A product is no further from 0 than the product of the bounds of its
/// factors.
pub proof fn lemma_product_bound(a: int, b: int, am: int, bm: int)
    requires
        -am <= a <= am,
        -bm <= b <= bm,
    ensures
        -(am * bm) <= a * b <= am * bm,
{
    assert(-(am * bm) <= a * b <= am * bm) by (nonlinear_arith)
        requires
            -am <= a <= am,
            -bm <= b <= bm,
    ;
}

/// A number further from 0 than `l` has a square larger than that of `l`,
/// and no square is negative.
pub proof fn lemma_square_order(a: int, b: int, l: int)
    requires
        0 <= l,
    ensures
        a * a >= 0,
        (a > l || a < -l) ==> a * a + b * b > l * l,
{
    assert(a * a >= 0) by (nonlinear_arith);
    assert(b * b >= 0) by (nonlinear_arith);
    assert((a > l || a < -l) ==> a * a > l * l) by (nonlinear_arith)
        requires
            0 <= l,
    ;
}

/// The weights of a step are not negative and add up to `n` cubed.
pub proof fn lemma_weights(i: int, n: int)
    requires
        0 <= i <= n,
    ensures
        weight(0, i, n) >= 0,
        weight(1, i, n) >= 0,
        weight(2, i, n) >= 0,
        weight(3, i, n) >= 0,
        weight(0, i, n) + weight(1, i, n) + weight(2, i, n) + weight(3, i, n) == n * n * n,
{
    let j = n - i;
    assert(j * j * j >= 0) by (nonlinear_arith)
        requires
            j >= 0,
    ;
    assert(3 * i * j * j >= 0) by (nonlinear_arith)
        requires
            j >= 0,
            i >= 0,
    ;
    assert(3 * i * i * j >= 0) by (nonlinear_arith)
        requires
            j >= 0,
            i >= 0,
    ;
    assert(i * i * i >= 0) by (nonlinear_arith)
        requires
            i >= 0,
    ;
    assert(j * j * j + 3 * i * j * j + 3 * i * i * j + i * i * i == (i + j) * (i + j) * (i + j))
        by (nonlinear_arith);
}

/// A blend of four coordinates lies between the least and the greatest of
/// them, each times `n` cubed.
pub proof fn lemma_blend_between(c0: int, c1: int, c2: int, c3: int, i: int, n: int)
    requires
        0 <= i <= n,
    ensures
        least(c0, c1, c2, c3) * (n * n * n) <= blend(c0, c1, c2, c3, i, n) <= greatest(
            c0,
            c1,
            c2,
            c3,
        ) * (n * n * n),
{
    lemma_weights(i, n);
    let lo = least(c0, c1, c2, c3);
    let hi = greatest(c0, c1, c2, c3);
    let w0 = weight(0, i, n);
    let w1 = weight(1, i, n);
    let w2 = weight(2, i, n);
    let w3 = weight(3, i, n);
    assert(lo * w0 <= w0 * c0 <= hi * w0) by (nonlinear_arith)
        requires
            w0 >= 0,
            lo <= c0 <= hi,
    ;
    assert(lo * w1 <= w1 * c1 <= hi * w1) by (nonlinear_arith)
        requires
            w1 >= 0,
            lo <= c1 <= hi,
    ;
    assert(lo * w2 <= w2 * c2 <= hi * w2) by (nonlinear_arith)
        requires
            w2 >= 0,
            lo <= c2 <= hi,
    ;
    assert(lo * w3 <= w3 * c3 <= hi * w3) by (nonlinear_arith)
        requires
            w3 >= 0,
            lo <= c3 <= hi,
    ;
    assert(lo * w0 + lo * w1 + lo * w2 + lo * w3 == lo * (w0 + w1 + w2 + w3))
        by (nonlinear_arith);
    assert(hi * w0 + hi * w1 + hi * w2 + hi * w3 == hi * (w0 + w1 + w2 + w3))
        by (nonlinear_arith);
}

/// A number between two multiples of `d` has a quotient between the two
/// factors.
pub proof fn lemma_towards_zero_between(a: int, d: int, lo: int, hi: int)
    requires
        0 < d,
        lo * d <= a <= hi * d,
    ensures
        lo <= towards_zero(a, d) <= hi,
{
    if a >= 0 {
        assert(hi >= 0) by (nonlinear_arith)
            requires
                0 <= hi * d,
                0 < d,
        ;
        vstd::arithmetic::div_mod::lemma_div_by_multiple(hi, d);
        vstd::arithmetic::div_mod::lemma_div_is_ordered(a, hi * d, d);
        vstd::arithmetic::div_mod::lemma_div_pos_is_pos(a, d);
        if lo > 0 {
            vstd::arithmetic::div_mod::lemma_div_by_multiple(lo, d);
            vstd::arithmetic::div_mod::lemma_div_is_ordered(lo * d, a, d);
        }
    } else {
        assert((-lo) * d == -(lo * d)) by (nonlinear_arith);
        assert((-hi) * d == -(hi * d)) by (nonlinear_arith);
        assert(-lo >= 0) by (nonlinear_arith)
            requires
                0 <= (-lo) * d,
                0 < d,
        ;
        vstd::arithmetic::div_mod::lemma_div_by_multiple(-lo, d);
        vstd::arithmetic::div_mod::lemma_div_is_ordered(-a, (-lo) * d, d);
        vstd::arithmetic::div_mod::lemma_div_pos_is_pos(-a, d);
        if hi < 0 {
            vstd::arithmetic::div_mod::lemma_div_by_multiple(-hi, d);
            vstd::arithmetic::div_mod::lemma_div_is_ordered((-hi) * d, -a, d);
        }
    }
}

/// Rounding towards 0 commutes with mirroring in 0.
pub proof fn lemma_towards_zero_negated(a: int, d: int)
    requires
        0 < d,
    ensures
        towards_zero(-a, d) == -towards_zero(a, d),
{
    if a == 0 {
        vstd::arithmetic::div_mod::lemma_div_by_multiple(0, d);
        assert(0 * d == 0);
    }
}

/// Every sampled point lies in the rectangle that holds the four control
/// points.
pub proof fn lemma_sample_in_box(c: Bezier, i: int, n: int)
    requires
        1 <= n,
        0 <= i <= n,
    ensures
        least(c.start.0, c.lead.0, c.trail.0, c.end.0) <= sample(c, i, n).0 <= greatest(
            c.start.0,
            c.lead.0,
            c.trail.0,
            c.end.0,
        ),
        least(c.start.1, c.lead.1, c.trail.1, c.end.1) <= sample(c, i, n).1 <= greatest(
            c.start.1,
            c.lead.1,
            c.trail.1,
            c.end.1,
        ),
{
    let cube = n * n * n;
    assert(cube > 0) by (nonlinear_arith)
        requires
            cube == n * n * n,
            n >= 1,
    ;
    lemma_blend_between(c.start.0, c.lead.0, c.trail.0, c.end.0, i, n);
    lemma_blend_between(c.start.1, c.lead.1, c.trail.1, c.end.1, i, n);
    lemma_towards_zero_between(
        blend(c.start.0, c.lead.0, c.trail.0, c.end.0, i, n),
        cube,
        least(c.start.0, c.lead.0, c.trail.0, c.end.0),
        greatest(c.start.0, c.lead.0, c.trail.0, c.end.0),
    );
    lemma_towards_zero_between(
        blend(c.start.1, c.lead.1, c.trail.1, c.end.1, i, n),
        cube,
        least(c.start.1, c.lead.1, c.trail.1, c.end.1),
        greatest(c.start.1, c.lead.1, c.trail.1, c.end.1),
    );
}

/// A pointer that is on the curve is near the rectangle that holds the
/// control points.
pub proof fn lemma_hit_in_box(c: Bezier, p: (int, int), reach: int, n: int)
    requires
        1 <= n,
        0 <= reach,
        hits(c, p, reach, n),
    ensures
        in_box(c, p, reach),
{
    let i = choose|i: int| 0 <= i <= n && near(c, p, reach, i, n);
    lemma_sample_in_box(c, i, n);
    let s = sample(c, i, n);
    lemma_square_order(p.0 - s.0, p.1 - s.1, reach);
    lemma_square_order(p.1 - s.1, p.0 - s.0, reach);
}

/// The distance between two coordinates.
fn gap_between(a: i128, b: i128) -> (d: u128)
    requires
        in_limit(a as int),
        in_limit(b as int),
    ensures
        d == dist(a as int, b as int),
        d <= 2 * coord_limit(),
{
    if a >= b {
        (a - b) as u128
    } else {
        (b - a) as u128
    }
}

/// The frame size for a wire between two pins, see [`scaled_frame`].
pub fn adjust_frame_size(frame_size: u32, upscale: bool, downscale: bool, from: Point, to: Point) -> (frame:
    u64)
    ensures
        frame == scaled_frame(frame_size as int, upscale, downscale, pt(from), pt(to)),
{
    let dx: u128 = gap_between(from.x as i128, to.x as i128);
    let dy: u128 = gap_between(from.y as i128, to.y as i128);
    let far: u128 = if dx >= dy {
        dx
    } else {
        dy
    };
    let sixth: u64 = (far / 6) as u64;
    let up: u64 = if upscale && sixth > frame_size as u64 {
        sixth
    } else {
        frame_size as u64
    };
    if downscale && sixth < up {
        sixth
    } else {
        up
    }
}

/// The curve of a wire between two pins, see [`wire_curve_spec`].
pub fn wire_curve(frame: u64, from: Point, to: Point) -> (c: Curve)
    ensures
        c@ == wire_curve_spec(frame as int, pt(from), pt(to)),
        c@.bounded(),
{
    Curve {
        start: CurvePoint { x: from.x as i128, y: from.y as i128 },
        lead: CurvePoint { x: from.x as i128, y: from.y as i128 + frame as i128 },
        trail: CurvePoint { x: to.x as i128, y: to.y as i128 - frame as i128 },
        end: CurvePoint { x: to.x as i128, y: to.y as i128 },
    }
}

/// One coordinate of the sampled point at step `i` of `n`.
fn sample_at(c0: i128, c1: i128, c2: i128, c3: i128, i: i128, n: i128) -> (s: i128)
    requires
        1 <= n <= MAX_STEPS,
        0 <= i <= n,
        in_limit(c0 as int),
        in_limit(c1 as int),
        in_limit(c2 as int),
        in_limit(c3 as int),
    ensures
        s == towards_zero(
            blend(c0 as int, c1 as int, c2 as int, c3 as int, i as int, n as int),
            n * n * n,
        ),
        in_limit(s as int),
{
    let j: i128 = n - i;
    proof {
        lemma_product_bound(j as int, j as int, 0x1_0000, 0x1_0000);
        lemma_product_bound(j * j, j as int, 0x1_0000_0000, 0x1_0000);
        lemma_product_bound(i as int, i as int, 0x1_0000, 0x1_0000);
        lemma_product_bound(i * i, i as int, 0x1_0000_0000, 0x1_0000);
        lemma_product_bound(3 * i, j as int, 0x3_0000, 0x1_0000);
        lemma_product_bound(3 * i * j, j as int, 0x3_0000_0000, 0x1_0000);
        lemma_product_bound(3 * i, i as int, 0x3_0000, 0x1_0000);
        lemma_product_bound(3 * i * i, j as int, 0x3_0000_0000, 0x1_0000);
        lemma_product_bound(n as int, n as int, 0x1_0000, 0x1_0000);
        lemma_product_bound(n * n, n as int, 0x1_0000_0000, 0x1_0000);
        assert(n * n * n >= 1) by (nonlinear_arith)
            requires
                n >= 1,
        ;
    }
    let w0: i128 = j * j * j;
    let w1: i128 = 3 * i * j * j;
    let w2: i128 = 3 * i * i * j;
    let w3: i128 = i * i * i;
    let cube: i128 = n * n * n;
    proof {
        lemma_product_bound(w0 as int, c0 as int, 0x3_0000_0000_0000, coord_limit());
        lemma_product_bound(w1 as int, c1 as int, 0x3_0000_0000_0000, coord_limit());
        lemma_product_bound(w2 as int, c2 as int, 0x3_0000_0000_0000, coord_limit());
        lemma_product_bound(w3 as int, c3 as int, 0x3_0000_0000_0000, coord_limit());
    }
    let total: i128 = w0 * c0 + w1 * c1 + w2 * c2 + w3 * c3;
    proof {
        lemma_blend_between(c0 as int, c1 as int, c2 as int, c3 as int, i as int, n as int);
        lemma_towards_zero_between(
            total as int,
            cube as int,
            least(c0 as int, c1 as int, c2 as int, c3 as int),
            greatest(c0 as int, c1 as int, c2 as int, c3 as int),
        );
    }
    if total >= 0 {
        total / cube
    } else {
        -((-total) / cube)
    }
}

/// The number of steps for the curve, see [`steps_for`].
fn steps_of(curve: &Curve, reach: u32, smoothness: u8) -> (n: u32)
    requires
        curve@.bounded(),
        reach >= 1,
    ensures
        n == steps_for(curve@, reach as int, smoothness as int),
        1 <= n <= MAX_STEPS,
{
    let rim: u128 = gap_between(curve.start.x, curve.lead.x) + gap_between(
        curve.start.y,
        curve.lead.y,
    ) + gap_between(curve.lead.x, curve.trail.x) + gap_between(curve.lead.y, curve.trail.y)
        + gap_between(curve.trail.x, curve.end.x) + gap_between(curve.trail.y, curve.end.y);
    proof {
        lemma_product_bound(rim as int, smoothness as int, 12 * coord_limit(), 255);
    }
    let unit: u128 = 10 * reach as u128;
    let want: u128 = (rim * smoothness as u128 + unit - 1) / unit;
    if want < 1 {
        1
    } else if want > MAX_STEPS as u128 {
        MAX_STEPS
    } else {
        want as u32
    }
}

/// The least of four coordinates.
fn least_of(a: i128, b: i128, c: i128, d: i128) -> (m: i128)
    ensures
        m == least(a as int, b as int, c as int, d as int),
{
    let ab: i128 = if a <= b {
        a
    } else {
        b
    };
    let cd: i128 = if c <= d {
        c
    } else {
        d
    };
    if ab <= cd {
        ab
    } else {
        cd
    }
}

/// The greatest of four coordinates.
fn greatest_of(a: i128, b: i128, c: i128, d: i128) -> (m: i128)
    ensures
        m == greatest(a as int, b as int, c as int, d as int),
{
    let ab: i128 = if a >= b {
        a
    } else {
        b
    };
    let cd: i128 = if c >= d {
        c
    } else {
        d
    };
    if ab >= cd {
        ab
    } else {
        cd
    }
}

/// Whether the pointer is near the rectangle that holds the control
/// points, see [`in_box`].
fn near_box(curve: &Curve, pos: Point, reach: u32) -> (b: bool)
    requires
        curve@.bounded(),
    ensures
        b == in_box(curve@, pt(pos), reach as int),
{
    let r: i128 = reach as i128;
    let x: i128 = pos.x as i128;
    let y: i128 = pos.y as i128;
    least_of(curve.start.x, curve.lead.x, curve.trail.x, curve.end.x) - r <= x && x <= greatest_of(
        curve.start.x,
        curve.lead.x,
        curve.trail.x,
        curve.end.x,
    ) + r && least_of(curve.start.y, curve.lead.y, curve.trail.y, curve.end.y) - r <= y && y
        <= greatest_of(curve.start.y, curve.lead.y, curve.trail.y, curve.end.y) + r
}

/// Whether the pointer at `pos` is on the curve drawn with width `width`:
/// whether it is within reach of one of the sampled points. `smoothness`
/// is in twentieths and scales the number of samples.
pub fn hit_curve(curve: &Curve, pos: Point, width: u32, smoothness: u8) -> (hit: bool)
    requires
        curve@.bounded(),
    ensures
        hit == hit_curve_spec(curve@, pt(pos), width as int, smoothness as int),
{
    let reach: u32 = if width >= MIN_HIT_WIDTH {
        width
    } else {
        MIN_HIT_WIDTH
    };
    let n: i128 = steps_of(curve, reach, smoothness) as i128;
    if !near_box(curve, pos, reach) {
        proof {
            if hits(curve@, pt(pos), reach as int, n as int) {
                lemma_hit_in_box(curve@, pt(pos), reach as int, n as int);
            }
        }
        return false;
    }
    let limit: i128 = reach as i128;
    proof {
        lemma_product_bound(limit as int, limit as int, 0xffff_ffff, 0xffff_ffff);
    }
    let mut i: i128 = 0;
    while i <= n
        invariant
            curve@.bounded(),
            reach == hit_reach(width as int),
            n == steps_for(curve@, reach as int, smoothness as int),
            1 <= n <= MAX_STEPS,
            0 <= i <= n + 1,
            limit == reach,
            0 <= limit * limit <= 0xffff_ffffint * 0xffff_ffffint,
            forall|k: int| 0 <= k < i ==> !near(curve@, pt(pos), reach as int, k, n as int),
        decreases n + 1 - i,
    {
        let sx: i128 = sample_at(curve.start.x, curve.lead.x, curve.trail.x, curve.end.x, i, n);
        let sy: i128 = sample_at(curve.start.y, curve.lead.y, curve.trail.y, curve.end.y, i, n);
        let dx: i128 = pos.x as i128 - sx;
        let dy: i128 = pos.y as i128 - sy;
        proof {
            lemma_square_order(dx as int, dy as int, limit as int);
            lemma_square_order(dy as int, dx as int, limit as int);
        }
        if -limit <= dx && dx <= limit && -limit <= dy && dy <= limit {
            proof {
                lemma_product_bound(dx as int, dx as int, 0xffff_ffff, 0xffff_ffff);
                lemma_product_bound(dy as int, dy as int, 0xffff_ffff, 0xffff_ffff);
            }
            if dx * dx + dy * dy <= limit * limit {
                assert(near(curve@, pt(pos), reach as int, i as int, n as int));
                return true;
            }
        }
        assert(!near(curve@, pt(pos), reach as int, i as int, n as int));
        i = i + 1;
    }
    false
}

/// Whether the pointer at `pos` is on the wire from the output pin at
/// `from` to the input pin at `to`, drawn with width `width`.
pub fn hit_wire(
    frame_size: u32,
    upscale: bool,
    downscale: bool,
    from: Point,
    to: Point,
    pos: Point,
    width: u32,
    smoothness: u8,
) -> (hit: bool)
    ensures
        hit == hit_wire_spec(
            frame_size as int,
            upscale,
            downscale,
            pt(from),
            pt(to),
            pt(pos),
            width as int,
            smoothness as int,
        ),
{
    let frame: u64 = adjust_frame_size(frame_size, upscale, downscale, from, to);
    let curve: Curve = wire_curve(frame, from, to);
    hit_curve(&curve, pos, width, smoothness)
}

/// A wire as the hit test reads it: where its two pins are, and the frame
/// size that its style gives it.
#[derive(Clone, Copy, Debug, PartialEq, Eq, Structural)]
pub struct WireSpan {
    pub from: Point,
    pub to: Point,
    pub frame_size: u32,
}

/// Whether the pointer at `pos` is on the wire `w`.
pub open spec fn hit_span(
    w: WireSpan,
    upscale: bool,
    downscale: bool,
    pos: Point,
    width: int,
    smoothness: int,
) -> bool {
    hit_wire_spec(
        w.frame_size as int,
        upscale,
        downscale,
        pt(w.from),
        pt(w.to),
        pt(pos),
        width,
        smoothness,
    )
}

/// The wire under the pointer: of the wires that the pointer is on, the
/// one that comes first in `wires`. The answer depends on nothing but the
/// arguments.
pub fn hovered_wire(
    wires: &Vec<WireSpan>,
    upscale: bool,
    downscale: bool,
    pos: Point,
    width: u32,
    smoothness: u8,
) -> (found: Option<usize>)
    ensures
        match found {
            Some(i) => i < wires@.len() && hit_span(
                wires@[i as int],
                upscale,
                downscale,
                pos,
                width as int,
                smoothness as int,
            ) && forall|j: int|
                0 <= j < i ==> !hit_span(
                    #[trigger] wires@[j],
                    upscale,
                    downscale,
                    pos,
                    width as int,
                    smoothness as int,
                ),
            None => forall|j: int|
                0 <= j < wires@.len() ==> !hit_span(
                    #[trigger] wires@[j],
                    upscale,
                    downscale,
                    pos,
                    width as int,
                    smoothness as int,
                ),
        },
{
    for i in 0..wires.len()
        invariant
            forall|j: int|
                0 <= j < i ==> !hit_span(
                    #[trigger] wires@[j],
                    upscale,
                    downscale,
                    pos,
                    width as int,
                    smoothness as int,
                ),
    {
        let w: WireSpan = wires[i];
        if hit_wire(w.frame_size, upscale, downscale, w.from, w.to, pos, width, smoothness) {
            return Some(i);
        }
    }
    None
}

/// The weights at step `i` are those at step `n - i` in the other order.
pub proof fn lemma_weight_reversed(i: int, n: int)
    ensures
        weight(0, i, n) == weight(3, n - i, n),
        weight(1, i, n) == weight(2, n - i, n),
        weight(2, i, n) == weight(1, n - i, n),
        weight(3, i, n) == weight(0, n - i, n),
{
    let j = n - i;
    assert(n - j == i);
    assert(3 * i * j * j == 3 * j * j * i) by (nonlinear_arith);
    assert(3 * i * i * j == 3 * j * i * i) by (nonlinear_arith);
}

/// The reversed curve passes through the same sampled points in the other
/// order.
pub proof fn lemma_sample_reversed(c: Bezier, i: int, n: int)
    ensures
        sample(c.reversed(), i, n) == sample(c, n - i, n),
{
    lemma_weight_reversed(i, n);
}

/// A point is near the same sampled points of a curve and of its
/// reversal.
pub proof fn lemma_hits_reversed(c: Bezier, p: (int, int), reach: int, n: int)
    ensures
        hits(c.reversed(), p, reach, n) == hits(c, p, reach, n),
{
    if hits(c.reversed(), p, reach, n) {
        let i = choose|i: int| 0 <= i <= n && near(c.reversed(), p, reach, i, n);
        lemma_sample_reversed(c, i, n);
        assert(near(c, p, reach, n - i, n));
    }
    if hits(c, p, reach, n) {
        let i = choose|i: int| 0 <= i <= n && near(c, p, reach, i, n);
        lemma_sample_reversed(c, n - i, n);
        assert(n - (n - i) == i);
        assert(near(c.reversed(), p, reach, n - i, n));
    }
}

/// The hit test does not depend on the end from which the curve is run
/// through: the curve with its control points in the opposite order gives
/// the same answer for every pointer position.
pub proof fn lemma_hit_reversed(c: Bezier, pos: (int, int), width: int, smoothness: int)
    ensures
        hit_curve_spec(c.reversed(), pos, width, smoothness) == hit_curve_spec(
            c,
            pos,
            width,
            smoothness,
        ),
{
    assert(rim(c.reversed()) == rim(c));
    lemma_hits_reversed(c, pos, hit_reach(width), steps_for(c, hit_reach(width), smoothness));
}

/// Mirroring the coordinates in 0 mirrors their blend.
pub proof fn lemma_blend_negated(c0: int, c1: int, c2: int, c3: int, i: int, n: int)
    ensures
        blend(-c0, -c1, -c2, -c3, i, n) == -blend(c0, c1, c2, c3, i, n),
{
    let w0 = weight(0, i, n);
    let w1 = weight(1, i, n);
    let w2 = weight(2, i, n);
    let w3 = weight(3, i, n);
    assert(w0 * (-c0) == -(w0 * c0)) by (nonlinear_arith);
    assert(w1 * (-c1) == -(w1 * c1)) by (nonlinear_arith);
    assert(w2 * (-c2) == -(w2 * c2)) by (nonlinear_arith);
    assert(w3 * (-c3) == -(w3 * c3)) by (nonlinear_arith);
}

/// A point is near a sampled point exactly if its mirror image is near
/// the same sampled point of the mirrored curve.
pub proof fn lemma_near_negated(c: Bezier, p: (int, int), reach: int, i: int, n: int)
    requires
        1 <= n,
    ensures
        near(c.negated(), (-p.0, -p.1), reach, i, n) == near(c, p, reach, i, n),
{
    lemma_blend_negated(c.start.0, c.lead.0, c.trail.0, c.end.0, i, n);
    lemma_blend_negated(c.start.1, c.lead.1, c.trail.1, c.end.1, i, n);
    let cube = n * n * n;
    assert(cube > 0) by (nonlinear_arith)
        requires
            cube == n * n * n,
            n >= 1,
    ;
    lemma_towards_zero_negated(blend(c.start.0, c.lead.0, c.trail.0, c.end.0, i, n), cube);
    lemma_towards_zero_negated(blend(c.start.1, c.lead.1, c.trail.1, c.end.1, i, n), cube);
    let s = sample(c, i, n);
    let m = sample(c.negated(), i, n);
    assert(m.0 == -s.0);
    assert(m.1 == -s.1);
    let dx = p.0 - s.0;
    let dy = p.1 - s.1;
    let ex = (-p.0) - m.0;
    let ey = (-p.1) - m.1;
    assert(ex * ex == dx * dx) by (nonlinear_arith)
        requires
            ex == -dx,
    ;
    assert(ey * ey == dy * dy) by (nonlinear_arith)
        requires
            ey == -dy,
    ;
}

/// The hit test gives the same answer for a curve and a pointer as for
/// their mirror images in the origin.
pub proof fn lemma_hit_negated(c: Bezier, pos: (int, int), width: int, smoothness: int)
    ensures
        hit_curve_spec(c.negated(), (-pos.0, -pos.1), width, smoothness) == hit_curve_spec(
            c,
            pos,
            width,
            smoothness,
        ),
{
    assert(rim(c.negated()) == rim(c));
    let reach = hit_reach(width);
    let n = steps_for(c, reach, smoothness);
    let q = (-pos.0, -pos.1);
    if hits(c.negated(), q, reach, n) {
        let i = choose|i: int| 0 <= i <= n && near(c.negated(), q, reach, i, n);
        lemma_near_negated(c, pos, reach, i, n);
    }
    if hits(c, pos, reach, n) {
        let i = choose|i: int| 0 <= i <= n && near(c, pos, reach, i, n);
        lemma_near_negated(c, pos, reach, i, n);
    }
}

/// The hit test is the same from either end of a wire: the wire whose
/// pins are the mirror images of the two pins, taken in the opposite
/// order, is hit by the mirror image of the pointer exactly if the wire
/// itself is hit by the pointer.
pub proof fn lemma_hit_wire_mirrored(
    frame_size: int,
    upscale: bool,
    downscale: bool,
    from: (int, int),
    to: (int, int),
    pos: (int, int),
    width: int,
    smoothness: int,
)
    ensures
        hit_wire_spec(
            frame_size,
            upscale,
            downscale,
            (-to.0, -to.1),
            (-from.0, -from.1),
            (-pos.0, -pos.1),
            width,
            smoothness,
        ) == hit_wire_spec(frame_size, upscale, downscale, from, to, pos, width, smoothness),
{
    let frame = scaled_frame(frame_size, upscale, downscale, from, to);
    let back = scaled_frame(frame_size, upscale, downscale, (-to.0, -to.1), (-from.0, -from.1));
    assert(span((-to.0, -to.1), (-from.0, -from.1)) == span(from, to));
    assert(back == frame);
    let c = wire_curve_spec(frame, from, to);
    let mirrored = wire_curve_spec(frame, (-to.0, -to.1), (-from.0, -from.1));
    assert(mirrored == c.reversed().negated());
    lemma_hit_negated(c.reversed(), pos, width, smoothness);
    lemma_hit_reversed(c, pos, width, smoothness);
}

} // verus!
