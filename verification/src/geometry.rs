//! Lattice points and the exact predicates that the tessellators rest on.
//!
//! Coordinates are whole numbers of whatever sub-pixel unit the caller picks.
//! Every predicate is computed without rounding, in 128-bit arithmetic.

use crate::numeric::{
    integer_sqrt, isqrt, lemma_isqrt_bounds, lemma_round_div_exact, round_div, rounded_quotient,
};
use vstd::arithmetic::div_mod::{lemma_div_is_ordered, lemma_div_multiples_vanish};
use vstd::prelude::*;

verus! {

/// A point of the plane with whole-number coordinates.
#[derive(Clone, Copy, Debug, PartialEq, Eq, Structural)]
pub struct Point {
    pub x: i32,
    pub y: i32,
}

/// Why an outline could not be turned into triangles.
#[derive(Clone, Copy, Debug, PartialEq, Eq, Structural)]
pub enum TessellationError {
    /// No remaining corner can be cut off: the outline is clockwise,
    /// collapsed onto a line, or crosses itself.
    NoEar,
    /// A stroke was asked for an outline of fewer than three points.
    TooFewPoints,
    /// Two neighbouring points of a stroked outline coincide.
    ZeroLengthEdge,
    /// A coordinate, an index or a count does not fit in 32 bits.
    OutOfRange,
}

/// The perpendicular dot product `a.x * b.y - a.y * b.x` of two vectors.
pub open spec fn perp_dot(ax: int, ay: int, bx: int, by: int) -> int {
    ax * by - ay * bx
}

/// The perpendicular dot product of `last - now` and `next - now`. It is
/// negative at a counter-clockwise corner, positive at a clockwise (reflex)
/// one and zero where the three points lie on one line.
pub open spec fn turn(last: Point, now: Point, next: Point) -> int {
    perp_dot(last.x - now.x, last.y - now.y, next.x - now.x, next.y - now.y)
}

/// The perpendicular dot product of `p - a` and `b - a`. It is negative when
/// `p` lies strictly to the left of the directed line from `a` to `b`, and
/// zero when `p` lies on that line.
pub open spec fn side(a: Point, b: Point, p: Point) -> int {
    perp_dot(p.x - a.x, p.y - a.y, b.x - a.x, b.y - a.y)
}

/// `p` lies strictly inside the counter-clockwise triangle `a`, `b`, `c`.
pub open spec fn within_triangle_spec(a: Point, b: Point, c: Point, p: Point) -> bool {
    side(a, b, p) < 0 && side(b, c, p) < 0 && side(c, a, p) < 0
}

/// `p` lies on the closed segment from `a` to `b`.
pub open spec fn on_segment(a: Point, b: Point, p: Point) -> bool {
    &&& side(a, b, p) == 0
    &&& (a.x <= p.x <= b.x || b.x <= p.x <= a.x)
    &&& (a.y <= p.y <= b.y || b.y <= p.y <= a.y)
}

/// Twice the signed area of the triangle `a`, `b`, `c`, positive when the
/// three points run counter-clockwise.
pub open spec fn triangle_area2(a: Point, b: Point, c: Point) -> int {
    perp_dot(a.x as int, a.y as int, b.x as int, b.y as int) + perp_dot(
        b.x as int,
        b.y as int,
        c.x as int,
        c.y as int,
    ) + perp_dot(c.x as int, c.y as int, a.x as int, a.y as int)
}

/// The largest magnitude of a coordinate of a [`WidePoint`] that the
/// intersection helpers accept.
pub const WIDE: i64 = 0x2_0000_0000;

/// A point whose coordinates may leave the 32-bit lattice, such as a lattice
/// point moved by a stroke's half width.
#[derive(Clone, Copy, Debug, PartialEq, Eq, Structural)]
pub struct WidePoint {
    pub x: i64,
    pub y: i64,
}

/// A lattice point as a wide point.
pub open spec fn widen(p: Point) -> WidePoint {
    WidePoint { x: p.x as i64, y: p.y as i64 }
}

/// `p` keeps within the range that the intersection helpers accept.
pub open spec fn within_wide(p: WidePoint) -> bool {
    -WIDE <= p.x <= WIDE && -WIDE <= p.y <= WIDE
}

/// The perpendicular dot product of the directions of the line through `a`
/// and `b` and the line through `c` and `d`: zero exactly when the two are
/// parallel, or when one of them is given by the same point twice.
pub open spec fn line_det(a: WidePoint, b: WidePoint, c: WidePoint, d: WidePoint) -> int {
    perp_dot(b.x - a.x, b.y - a.y, d.x - c.x, d.y - c.y)
}

/// The perpendicular dot product of `c - a` and the direction of the second
/// line. Divided by [`line_det`] it says how many times `b - a` leads from
/// `a` to the meeting point.
pub open spec fn line_lead(a: WidePoint, b: WidePoint, c: WidePoint, d: WidePoint) -> int {
    perp_dot(c.x - a.x, c.y - a.y, d.x - c.x, d.y - c.y)
}

/// Where the line through `a` and `b` meets the line through `c` and `d`,
/// each coordinate rounded to the nearest whole number; nothing when the two
/// lines are parallel.
pub open spec fn meet(a: WidePoint, b: WidePoint, c: WidePoint, d: WidePoint) -> Option<
    (int, int),
> {
    let det = line_det(a, b, c, d);
    let lead = line_lead(a, b, c, d);
    if det == 0 {
        None
    } else {
        Some(
            (
                a.x + round_div((b.x - a.x) * lead, det),
                a.y + round_div((b.y - a.y) * lead, det),
            ),
        )
    }
}

/// `x` is a coordinate of the 32-bit lattice.
pub open spec fn in_lattice(x: int) -> bool {
    i32::MIN <= x <= i32::MAX
}

/// What [`intersect_lines`] returns: the rounded meeting point of the two
/// lines where they meet in one point and that point is on the lattice.
pub open spec fn intersection(a: Point, b: Point, c: Point, d: Point) -> Option<Point> {
    match meet(widen(a), widen(b), widen(c), widen(d)) {
        Some((x, y)) => if in_lattice(x) && in_lattice(y) {
            Some(Point { x: x as i32, y: y as i32 })
        } else {
            None
        },
        None => None,
    }
}

/// The component `v` of the vector `(v, w)` after the vector is rescaled to
/// length `h`, rounded toward zero: the whole part of `|v| * h / |(v, w)|`,
/// with the sign of `v`.
pub open spec fn rescaled(v: int, w: int, h: nat) -> int {
    let m = isqrt(((v * v) * (h * h) / (v * v + w * w)) as nat) as int;
    if v < 0 {
        -m
    } else {
        m
    }
}

/// The product of two bounded numbers is bounded by the product of the bounds.
pub proof fn lemma_product_bound(a: int, b: int, m: int, n: int)
    requires
        -m <= a <= m,
        -n <= b <= n,
    ensures
        -(m * n) <= a * b <= m * n,
{
    assert(-(m * n) <= a * b <= m * n) by (nonlinear_arith)
        requires
            -m <= a <= m,
            -n <= b <= n,
    ;
}

/// The perpendicular dot product of two vectors whose components are at most
/// twice `WIDE` in magnitude.
pub(crate) fn wide_perp_dot(ax: i64, ay: i64, bx: i64, by: i64) -> (r: i128)
    requires
        -2 * WIDE <= ax <= 2 * WIDE,
        -2 * WIDE <= ay <= 2 * WIDE,
        -2 * WIDE <= bx <= 2 * WIDE,
        -2 * WIDE <= by <= 2 * WIDE,
    ensures
        r == perp_dot(ax as int, ay as int, bx as int, by as int),
        -0x20_0000_0000_0000_0000 <= r <= 0x20_0000_0000_0000_0000,
{
    proof {
        lemma_product_bound(ax as int, by as int, 0x4_0000_0000, 0x4_0000_0000);
        lemma_product_bound(ay as int, bx as int, 0x4_0000_0000, 0x4_0000_0000);
    }
    let left: i128 = (ax as i128) * (by as i128);
    let right: i128 = (ay as i128) * (bx as i128);
    left - right
}

/// The sign test at a corner: see [`turn`].
pub fn turn_of(last: Point, now: Point, next: Point) -> (t: i128)
    ensures
        t == turn(last, now, next),
{
    wide_perp_dot(
        last.x as i64 - now.x as i64,
        last.y as i64 - now.y as i64,
        next.x as i64 - now.x as i64,
        next.y as i64 - now.y as i64,
    )
}

/// The sign test against a directed line: see [`side`].
pub fn side_of(a: Point, b: Point, p: Point) -> (s: i128)
    ensures
        s == side(a, b, p),
{
    wide_perp_dot(
        p.x as i64 - a.x as i64,
        p.y as i64 - a.y as i64,
        b.x as i64 - a.x as i64,
        b.y as i64 - a.y as i64,
    )
}

/// Whether `p` lies strictly inside the counter-clockwise triangle `a`, `b`,
/// `c`. Points on an edge, on the line through an edge, or at a corner are
/// outside; so is every point when the triangle runs clockwise.
pub fn within_triangle(a: Point, b: Point, c: Point, p: Point) -> (inside: bool)
    ensures
        inside == within_triangle_spec(a, b, c, p),
{
    side_of(a, b, p) < 0 && side_of(b, c, p) < 0 && side_of(c, a, p) < 0
}

/// The rounded meeting point of two lines through wide points: see [`meet`].
#[verifier::rlimit(40)]
pub(crate) fn meet_wide(a: WidePoint, b: WidePoint, c: WidePoint, d: WidePoint) -> (r: Option<
    (i128, i128),
>)
    requires
        within_wide(a),
        within_wide(b),
        within_wide(c),
        within_wide(d),
    ensures
        match r {
            Some((x, y)) => meet(a, b, c, d) == Some((x as int, y as int)),
            None => meet(a, b, c, d) is None,
        },
{
    let det = wide_perp_dot(b.x - a.x, b.y - a.y, d.x - c.x, d.y - c.y);
    if det == 0 {
        return None;
    }
    let lead = wide_perp_dot(c.x - a.x, c.y - a.y, d.x - c.x, d.y - c.y);
    proof {
        lemma_product_bound(
            b.x - a.x,
            lead as int,
            0x4_0000_0000,
            0x20_0000_0000_0000_0000,
        );
        lemma_product_bound(
            b.y - a.y,
            lead as int,
            0x4_0000_0000,
            0x20_0000_0000_0000_0000,
        );
    }
    let x = a.x as i128 + rounded_quotient(((b.x - a.x) as i128) * lead, det);
    let y = a.y as i128 + rounded_quotient(((b.y - a.y) as i128) * lead, det);
    Some((x, y))
}

/// Where the line through `a` and `b` meets the line through `c` and `d`.
///
/// The meeting point is computed exactly and each coordinate is then rounded
/// to the nearest lattice unit. Nothing is returned when the lines are
/// parallel (which includes a line given by the same point twice), or when
/// the meeting point lies off the 32-bit lattice.
pub fn intersect_lines(a: Point, b: Point, c: Point, d: Point) -> (r: Option<Point>)
    ensures
        r == intersection(a, b, c, d),
{
    let wa = WidePoint { x: a.x as i64, y: a.y as i64 };
    let wb = WidePoint { x: b.x as i64, y: b.y as i64 };
    let wc = WidePoint { x: c.x as i64, y: c.y as i64 };
    let wd = WidePoint { x: d.x as i64, y: d.y as i64 };
    match meet_wide(wa, wb, wc, wd) {
        Some((x, y)) => {
            if x >= i32::MIN as i128 && x <= i32::MAX as i128 && y >= i32::MIN as i128 && y
                <= i32::MAX as i128 {
                Some(Point { x: x as i32, y: y as i32 })
            } else {
                None
            }
        },
        None => None,
    }
}

/// The component `v` of the vector `(v, w)` rescaled to length `h`: see
/// [`rescaled`].
#[verifier::rlimit(40)]
pub(crate) fn rescale(v: i64, w: i64, h: u32) -> (r: i64)
    requires
        -0x1_0000_0000 <= v <= 0x1_0000_0000,
        -0x1_0000_0000 <= w <= 0x1_0000_0000,
        v != 0 || w != 0,
    ensures
        r == rescaled(v as int, w as int, h as nat),
        -h <= r <= h,
{
    let av: u128 = if v < 0 {
        (-v) as u128
    } else {
        v as u128
    };
    let aw: u128 = if w < 0 {
        (-w) as u128
    } else {
        w as u128
    };
    proof {
        lemma_product_bound(av as int, av as int, 0x1_0000_0000, 0x1_0000_0000);
        lemma_product_bound(aw as int, aw as int, 0x1_0000_0000, 0x1_0000_0000);
        lemma_product_bound(h as int, h as int, 0xffff_ffff, 0xffff_ffff);
        assert(av * av == v * v && aw * aw == w * w && av * av >= 0 && aw * aw >= 0 && h * h >= 0
            && (v != 0 ==> av * av > 0) && (w != 0 ==> aw * aw > 0)) by (nonlinear_arith)
            requires
                av == v || av == -v,
                aw == w || aw == -w,
        ;
    }
    let vv: u128 = av * av;
    let ww: u128 = aw * aw;
    let hh: u128 = (h as u128) * (h as u128);
    proof {
        lemma_product_bound(
            vv as int,
            hh as int,
            0x1_0000_0000_0000_0000,
            0xffff_fffe_0000_0001,
        );
    }
    let den: u128 = vv + ww;
    let q: u128 = (vv * hh) / den;
    let m = integer_sqrt(q);
    proof {
        assert(vv * hh <= den * hh) by (nonlinear_arith)
            requires
                vv <= den,
                hh >= 0,
        ;
        lemma_div_is_ordered((vv * hh) as int, (den * hh) as int, den as int);
        lemma_div_multiples_vanish(hh as int, den as int);
        lemma_isqrt_bounds(q as nat);
        assert(m <= h) by (nonlinear_arith)
            requires
                m * m <= q,
                q <= h * h,
                m >= 0,
                h >= 0,
        ;
        assert((v as int * v as int) * (h as nat * h as nat) == vv * hh);
    }
    if v < 0 {
        -(m as i64)
    } else {
        m as i64
    }
}

impl Point {
    /// The point with the given coordinates.
    pub fn new(x: i32, y: i32) -> (p: Point)
        ensures
            p == (Point { x, y }),
    {
        Point { x, y }
    }
}

/// The interior test is strict: a point on an edge of the triangle, or at one
/// of its corners, is not inside.
pub proof fn lemma_within_triangle_excludes_boundary(a: Point, b: Point, c: Point, p: Point)
    requires
        on_segment(a, b, p) || on_segment(b, c, p) || on_segment(c, a, p) || p == a || p == b || p
            == c,
    ensures
        !within_triangle_spec(a, b, c, p),
{
    assert(side(a, b, a) == 0) by (nonlinear_arith);
    assert(side(b, c, b) == 0) by (nonlinear_arith);
    assert(side(c, a, c) == 0) by (nonlinear_arith);
}

/// `p` lies on the line through `a` and `b`.
pub open spec fn on_line(a: WidePoint, b: WidePoint, x: int, y: int) -> bool {
    perp_dot(x - a.x, y - a.y, b.x - a.x, b.y - a.y) == 0
}

/// Where two lines that are not parallel cross in a whole-numbered point,
/// that point is their meeting point: nothing is lost to rounding.
#[verifier::rlimit(40)]
pub proof fn lemma_meet_exact(a: WidePoint, b: WidePoint, c: WidePoint, d: WidePoint, x: int, y: int)
    requires
        line_det(a, b, c, d) != 0,
        on_line(a, b, x, y),
        on_line(c, d, x, y),
    ensures
        meet(a, b, c, d) == Some((x, y)),
{
    let det = line_det(a, b, c, d);
    let lead = line_lead(a, b, c, d);
    let (ux, uy) = (x - a.x, y - a.y);
    let (px, py) = (b.x - a.x, b.y - a.y);
    let (qx, qy) = (d.x - c.x, d.y - c.y);
    let (wx, wy) = (c.x - a.x, c.y - a.y);
    assert(lead == ux * qy - uy * qx) by (nonlinear_arith)
        requires
            lead == wx * qy - wy * qx,
            (ux - wx) * qy - (uy - wy) * qx == 0,
    ;
    assert(px * lead == ux * det && py * lead == uy * det) by (nonlinear_arith)
        requires
            lead == ux * qy - uy * qx,
            det == px * qy - py * qx,
            ux * py - uy * px == 0,
    ;
    lemma_round_div_exact(ux, det);
    lemma_round_div_exact(uy, det);
}

/// A corner's turn is minus twice the signed area of its triangle, so a
/// corner that is not reflex spans a triangle of non-negative area.
pub proof fn lemma_turn_is_area(last: Point, now: Point, next: Point)
    ensures
        triangle_area2(last, now, next) == -turn(last, now, next),
{
    let (ax, ay) = (last.x as int, last.y as int);
    let (bx, by) = (now.x as int, now.y as int);
    let (cx, cy) = (next.x as int, next.y as int);
    assert((ax - bx) * (cy - by) - (ay - by) * (cx - bx) == -((ax * by - ay * bx) + (bx * cy - by
        * cx) + (cx * ay - cy * ax))) by (nonlinear_arith);
}

} // verus!
