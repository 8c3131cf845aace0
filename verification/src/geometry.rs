//! Geometry kernel: points, segments and the exact predicates on them.
//!
//! Coordinates are exact rationals (`Rat`).  Input segments carry integer
//! coordinates bounded by `COORD_LIMIT`; points produced by intersecting two
//! such segments stay within the `mid`-sized bounds below, and every
//! predicate here is proved exact, with overflow ruled out by those bounds.

use crate::rat::{
    cmp3, fraction_cmp, lemma_mul_bound, rat_le, rat_le_spec, rat_round_spec, rat_wf, Cmp, Rat,
};
use vstd::prelude::*;

verus! {

/// Bound on the absolute value of an input (integer) coordinate.
pub const COORD_LIMIT: i128 = 262144;

/// Bound on the numerator of a derived (intersection) coordinate.
pub const MID_NUM_LIMIT: i128 = 1152921504606846976;

/// Bound on the denominator of a derived (intersection) coordinate.
pub const MID_DEN_LIMIT: i128 = 1099511627776;

/// Which side of a directed segment a point falls on.
#[derive(Clone, Copy, PartialEq, Eq, Structural, Debug)]
pub enum Direction {
    Collinear,
    Clockwise,
    CounterClockwise,
}

/// A point of the plane, with exact rational coordinates.
#[derive(Clone, Copy, PartialEq, Eq, Structural, Debug)]
pub struct Point {
    pub x: Rat,
    pub y: Rat,
}

/// A closed line segment between two points.
#[derive(Clone, Copy, PartialEq, Eq, Structural, Debug)]
pub struct Segment {
    pub ini: Point,
    pub end: Point,
}

/// An integer coordinate within the input range.
pub open spec fn rat_small(r: Rat) -> bool {
    &&& r.den == 1
    &&& -(COORD_LIMIT as int) <= r.num <= COORD_LIMIT as int
}

/// A coordinate within the range of derived intersection points.
pub open spec fn rat_mid(r: Rat) -> bool {
    &&& 1 <= r.den <= MID_DEN_LIMIT as int
    &&& -(MID_NUM_LIMIT as int) <= r.num <= MID_NUM_LIMIT as int
}

pub open spec fn point_wf(p: Point) -> bool {
    rat_wf(p.x) && rat_wf(p.y)
}

pub open spec fn point_small(p: Point) -> bool {
    rat_small(p.x) && rat_small(p.y)
}

pub open spec fn point_mid(p: Point) -> bool {
    rat_mid(p.x) && rat_mid(p.y)
}

pub open spec fn seg_wf(s: Segment) -> bool {
    point_wf(s.ini) && point_wf(s.end)
}

/// An input segment: both endpoints integral and bounded.
pub open spec fn seg_small(s: Segment) -> bool {
    point_small(s.ini) && point_small(s.end)
}

/// A segment as the sweep keeps it: the start may have been moved to a
/// derived intersection point, the end is still an input point.
pub open spec fn seg_mid(s: Segment) -> bool {
    point_mid(s.ini) && point_small(s.end)
}

/// The numerator and denominator of the exact difference `a - b`.
pub open spec fn rv_sub(a: Rat, b: Rat) -> (int, int) {
    (a.num * b.den - b.num * a.den, a.den * b.den)
}

/// The product of two exact fractions given as pairs.
pub open spec fn rv_mul(a: (int, int), b: (int, int)) -> (int, int) {
    (a.0 * b.0, a.1 * b.1)
}

/// Numerator of the orientation value of `p` against `s`, over a positive
/// denominator: the sign of
/// `(s.end.y - s.ini.y)*(p.x - s.end.x) - (s.end.x - s.ini.x)*(p.y - s.end.y)`.
pub open spec fn orient_num(p: Point, s: Segment) -> int {
    let t1 = rv_mul(rv_sub(s.end.y, s.ini.y), rv_sub(p.x, s.end.x));
    let t2 = rv_mul(rv_sub(s.end.x, s.ini.x), rv_sub(p.y, s.end.y));
    t1.0 * t2.1 - t2.0 * t1.1
}

/// Exact orientation of `p` against `s`: the sign of `orient_num`.
pub open spec fn orient_spec(p: Point, s: Segment) -> Direction {
    if orient_num(p, s) == 0 {
        Direction::Collinear
    } else if orient_num(p, s) > 0 {
        Direction::Clockwise
    } else {
        Direction::CounterClockwise
    }
}

/// `p` lies on the (infinite) line through `s`.
pub open spec fn on_line_spec(p: Point, s: Segment) -> bool {
    orient_num(p, s) == 0
}

/// `p` lies within the closed axis-aligned bounding box of `s`.
pub open spec fn in_bbox_spec(p: Point, s: Segment) -> bool {
    &&& if rat_le_spec(s.ini.x, s.end.x) {
        rat_le_spec(s.ini.x, p.x) && rat_le_spec(p.x, s.end.x)
    } else {
        rat_le_spec(s.end.x, p.x) && rat_le_spec(p.x, s.ini.x)
    }
    &&& if rat_le_spec(s.ini.y, s.end.y) {
        rat_le_spec(s.ini.y, p.y) && rat_le_spec(p.y, s.end.y)
    } else {
        rat_le_spec(s.end.y, p.y) && rat_le_spec(p.y, s.ini.y)
    }
}

/// `p` lies on the closed segment `s` (assuming it is collinear-tested
/// separately, as `collinear_point_on_segment` documents).
pub open spec fn point_on_segment_spec(p: Point, s: Segment) -> bool {
    on_line_spec(p, s) && in_bbox_spec(p, s)
}

/// Orientation of a point against a segment, decided exactly.
///
/// Requires the segment's end to be an input point and the other two
/// points to be at most intersection-sized, which is how every caller
/// uses it; under those bounds no intermediate product overflows.
pub fn orientation(p: &Point, s: &Segment) -> (d: Direction)
    requires
        point_mid(*p),
        point_mid(s.ini),
        point_small(s.end),
    ensures
        d == orient_spec(*p, *s),
{
    proof {
        lemma_mul_bound(s.end.y.num as int, s.ini.y.den as int, COORD_LIMIT as int,
            MID_DEN_LIMIT as int);
        lemma_mul_bound(s.ini.y.num as int, s.end.y.den as int, MID_NUM_LIMIT as int, 1);
        lemma_mul_bound(s.end.y.den as int, s.ini.y.den as int, 1, MID_DEN_LIMIT as int);
        lemma_mul_bound(p.x.num as int, s.end.x.den as int, MID_NUM_LIMIT as int, 1);
        lemma_mul_bound(s.end.x.num as int, p.x.den as int, COORD_LIMIT as int,
            MID_DEN_LIMIT as int);
        lemma_mul_bound(p.x.den as int, s.end.x.den as int, MID_DEN_LIMIT as int, 1);
        lemma_mul_bound(s.end.x.num as int, s.ini.x.den as int, COORD_LIMIT as int,
            MID_DEN_LIMIT as int);
        lemma_mul_bound(s.ini.x.num as int, s.end.x.den as int, MID_NUM_LIMIT as int, 1);
        lemma_mul_bound(s.end.x.den as int, s.ini.x.den as int, 1, MID_DEN_LIMIT as int);
        lemma_mul_bound(p.y.num as int, s.end.y.den as int, MID_NUM_LIMIT as int, 1);
        lemma_mul_bound(s.end.y.num as int, p.y.den as int, COORD_LIMIT as int,
            MID_DEN_LIMIT as int);
        lemma_mul_bound(p.y.den as int, s.end.y.den as int, MID_DEN_LIMIT as int, 1);
    }
    let d1n: i128 = s.end.y.num * s.ini.y.den - s.ini.y.num * s.end.y.den;
    let d1d: i128 = s.end.y.den * s.ini.y.den;
    let d2n: i128 = p.x.num * s.end.x.den - s.end.x.num * p.x.den;
    let d2d: i128 = p.x.den * s.end.x.den;
    let d3n: i128 = s.end.x.num * s.ini.x.den - s.ini.x.num * s.end.x.den;
    let d3d: i128 = s.end.x.den * s.ini.x.den;
    let d4n: i128 = p.y.num * s.end.y.den - s.end.y.num * p.y.den;
    let d4d: i128 = p.y.den * s.end.y.den;
    proof {
        let big: int = MID_NUM_LIMIT as int + MID_NUM_LIMIT as int;
        lemma_mul_bound(d1n as int, d2n as int, big, big);
        lemma_mul_bound(d1d as int, d2d as int, MID_DEN_LIMIT as int, MID_DEN_LIMIT as int);
        lemma_mul_bound(d3n as int, d4n as int, big, big);
        lemma_mul_bound(d3d as int, d4d as int, MID_DEN_LIMIT as int, MID_DEN_LIMIT as int);
        assert(1 <= d1d * d2d) by (nonlinear_arith)
            requires
                1 <= d1d,
                1 <= d2d;
        assert(1 <= d3d * d4d) by (nonlinear_arith)
            requires
                1 <= d3d,
                1 <= d4d;
    }
    let t1n: i128 = d1n * d2n;
    let t1d: i128 = d1d * d2d;
    let t2n: i128 = d3n * d4n;
    let t2d: i128 = d3d * d4d;
    let c: Cmp = fraction_cmp(t1n, t1d, t2n, t2d);
    proof {
        assert(t1n * t2d - t2n * t1d == orient_num(*p, *s)) by (nonlinear_arith)
            requires
                t1n == d1n * d2n,
                t1d == d1d * d2d,
                t2n == d3n * d4n,
                t2d == d3d * d4d,
                d1n == rv_sub(s.end.y, s.ini.y).0,
                d1d == rv_sub(s.end.y, s.ini.y).1,
                d2n == rv_sub(p.x, s.end.x).0,
                d2d == rv_sub(p.x, s.end.x).1,
                d3n == rv_sub(s.end.x, s.ini.x).0,
                d3d == rv_sub(s.end.x, s.ini.x).1,
                d4n == rv_sub(p.y, s.end.y).0,
                d4d == rv_sub(p.y, s.end.y).1;
        assert(cmp3(t1n * t2d, t2n * t1d) == cmp3(orient_num(*p, *s), 0)) by (nonlinear_arith)
            requires
                t1n * t2d - t2n * t1d == orient_num(*p, *s);
    }
    match c {
        Cmp::Eq => Direction::Collinear,
        Cmp::Gt => Direction::Clockwise,
        Cmp::Lt => Direction::CounterClockwise,
    }
}

/// Whether a point known to be collinear with `s` lies on `s`: the
/// inclusive bounding-box test of the kernel.  (The collinearity
/// assumption is the caller's; the test itself is just the box.)
pub fn collinear_point_on_segment(p: &Point, s: &Segment) -> (r: bool)
    requires
        point_wf(*p),
        seg_wf(*s),
    ensures
        r == in_bbox_spec(*p, *s),
{
    let x_ok: bool = if rat_le(&s.ini.x, &s.end.x) {
        rat_le(&s.ini.x, &p.x) && rat_le(&p.x, &s.end.x)
    } else {
        rat_le(&s.end.x, &p.x) && rat_le(&p.x, &s.ini.x)
    };
    let y_ok: bool = if rat_le(&s.ini.y, &s.end.y) {
        rat_le(&s.ini.y, &p.y) && rat_le(&p.y, &s.end.y)
    } else {
        rat_le(&s.end.y, &p.y) && rat_le(&p.y, &s.ini.y)
    };
    x_ok && y_ok
}

/// Coefficient `a` of the line `a*x + b*y = c` through an input segment.
pub open spec fn line_a(s: Segment) -> int {
    s.end.y.num - s.ini.y.num
}

/// Coefficient `b` of the line through an input segment.
pub open spec fn line_b(s: Segment) -> int {
    s.ini.x.num - s.end.x.num
}

/// Constant `c` of the line through an input segment.
pub open spec fn line_c(s: Segment) -> int {
    line_a(s) * s.ini.x.num + line_b(s) * s.ini.y.num
}

/// Determinant of the two line equations; zero exactly for parallel lines.
pub open spec fn det_spec(s1: Segment, s2: Segment) -> int {
    line_a(s1) * line_b(s2) - line_a(s2) * line_b(s1)
}

/// The exact intersection point of the two (non-parallel) lines, by
/// Cramer's rule, with the denominator kept positive.
pub open spec fn cramer_point(s1: Segment, s2: Segment) -> Point {
    let d = det_spec(s1, s2);
    let xn = line_b(s2) * line_c(s1) - line_b(s1) * line_c(s2);
    let yn = line_a(s1) * line_c(s2) - line_a(s2) * line_c(s1);
    if d > 0 {
        Point { x: Rat { num: xn as i128, den: d as i128 }, y: Rat { num: yn as i128, den: d as i128 } }
    } else {
        Point {
            x: Rat { num: (-xn) as i128, den: (-d) as i128 },
            y: Rat { num: (-yn) as i128, den: (-d) as i128 },
        }
    }
}

/// Unfolds `orient_num` for a segment with integer coordinates: the
/// denominators of `s` are all 1, so only the point's remain.
proof fn lemma_orient_unfold(p: Point, s: Segment)
    requires
        seg_small(s),
    ensures
        orient_num(p, s) == (s.end.y.num - s.ini.y.num) * (p.x.num - s.end.x.num * p.x.den)
            * p.y.den - (s.end.x.num - s.ini.x.num) * (p.y.num - s.end.y.num * p.y.den) * p.x.den,
{
    let eyn = s.end.y.num as int;
    let iyn = s.ini.y.num as int;
    let exn = s.end.x.num as int;
    let ixn = s.ini.x.num as int;
    let pxn = p.x.num as int;
    let pxd = p.x.den as int;
    let pyn = p.y.num as int;
    let pyd = p.y.den as int;
    let u1 = rv_sub(s.end.y, s.ini.y);
    let u2 = rv_sub(p.x, s.end.x);
    let u3 = rv_sub(s.end.x, s.ini.x);
    let u4 = rv_sub(p.y, s.end.y);
    let t1 = rv_mul(u1, u2);
    let t2 = rv_mul(u3, u4);
    assert(orient_num(p, s) == t1.0 * t2.1 - t2.0 * t1.1);
    assert(u1.0 == eyn - iyn) by (nonlinear_arith)
        requires
            u1.0 == eyn * s.ini.y.den - iyn * s.end.y.den,
            s.ini.y.den == 1,
            s.end.y.den == 1;
    assert(u1.1 == 1) by (nonlinear_arith)
        requires
            u1.1 == s.end.y.den * s.ini.y.den,
            s.ini.y.den == 1,
            s.end.y.den == 1;
    assert(u2.0 == pxn - exn * pxd) by (nonlinear_arith)
        requires
            u2.0 == pxn * s.end.x.den - exn * pxd,
            s.end.x.den == 1;
    assert(u2.1 == pxd) by (nonlinear_arith)
        requires
            u2.1 == pxd * s.end.x.den,
            s.end.x.den == 1;
    assert(u3.0 == exn - ixn) by (nonlinear_arith)
        requires
            u3.0 == exn * s.ini.x.den - ixn * s.end.x.den,
            s.ini.x.den == 1,
            s.end.x.den == 1;
    assert(u3.1 == 1) by (nonlinear_arith)
        requires
            u3.1 == s.end.x.den * s.ini.x.den,
            s.ini.x.den == 1,
            s.end.x.den == 1;
    assert(u4.0 == pyn - eyn * pyd) by (nonlinear_arith)
        requires
            u4.0 == pyn * s.end.y.den - eyn * pyd,
            s.end.y.den == 1;
    assert(u4.1 == pyd) by (nonlinear_arith)
        requires
            u4.1 == pyd * s.end.y.den,
            s.end.y.den == 1;
    assert(t1.0 == (eyn - iyn) * (pxn - exn * pxd)) by (nonlinear_arith)
        requires
            t1.0 == u1.0 * u2.0,
            u1.0 == eyn - iyn,
            u2.0 == pxn - exn * pxd;
    assert(t1.1 == pxd) by (nonlinear_arith)
        requires
            t1.1 == u1.1 * u2.1,
            u1.1 == 1,
            u2.1 == pxd;
    assert(t2.0 == (exn - ixn) * (pyn - eyn * pyd)) by (nonlinear_arith)
        requires
            t2.0 == u3.0 * u4.0,
            u3.0 == exn - ixn,
            u4.0 == pyn - eyn * pyd;
    assert(t2.1 == pyd) by (nonlinear_arith)
        requires
            t2.1 == u3.1 * u4.1,
            u3.1 == 1,
            u4.1 == pyd;
    assert(t1.0 * t2.1 - t2.0 * t1.1 == (eyn - iyn) * (pxn - exn * pxd) * pyd - (exn - ixn) * (pyn
        - eyn * pyd) * pxd) by (nonlinear_arith)
        requires
            t1.0 == (eyn - iyn) * (pxn - exn * pxd),
            t1.1 == pxd,
            t2.0 == (exn - ixn) * (pyn - eyn * pyd),
            t2.1 == pyd;
}

/// The line of an input segment also passes through its end point.
proof fn lemma_line_through_end(s: Segment)
    requires
        seg_small(s),
    ensures
        line_a(s) * s.end.x.num + line_b(s) * s.end.y.num == line_c(s),
{
    assert(line_a(s) * s.end.x.num + line_b(s) * s.end.y.num == line_a(s) * s.ini.x.num + line_b(
        s) * s.ini.y.num) by (nonlinear_arith)
        requires
            line_a(s) == s.end.y.num - s.ini.y.num,
            line_b(s) == s.ini.x.num - s.end.x.num;
}

/// Bounds for the Cramer data of two input segments.
proof fn lemma_cramer_bounds(s1: Segment, s2: Segment)
    requires
        seg_small(s1),
        seg_small(s2),
    ensures
        -(MID_DEN_LIMIT as int) < det_spec(s1, s2) < MID_DEN_LIMIT as int,
        -(MID_NUM_LIMIT as int) < line_b(s2) * line_c(s1) - line_b(s1) * line_c(s2)
            < MID_NUM_LIMIT as int,
        -(MID_NUM_LIMIT as int) < line_a(s1) * line_c(s2) - line_a(s2) * line_c(s1)
            < MID_NUM_LIMIT as int,
        -274877906944 <= line_c(s1) <= 274877906944,
        -274877906944 <= line_c(s2) <= 274877906944,
        -524288 <= line_a(s1) <= 524288,
        -524288 <= line_b(s1) <= 524288,
        -524288 <= line_a(s2) <= 524288,
        -524288 <= line_b(s2) <= 524288,
{
    lemma_mul_bound(line_a(s1), s1.ini.x.num as int, 524288, 262144);
    lemma_mul_bound(line_b(s1), s1.ini.y.num as int, 524288, 262144);
    lemma_mul_bound(line_a(s2), s2.ini.x.num as int, 524288, 262144);
    lemma_mul_bound(line_b(s2), s2.ini.y.num as int, 524288, 262144);
    lemma_mul_bound(line_a(s1), line_b(s2), 524288, 524288);
    lemma_mul_bound(line_a(s2), line_b(s1), 524288, 524288);
    lemma_mul_bound(line_b(s2), line_c(s1), 524288, 274877906944);
    lemma_mul_bound(line_b(s1), line_c(s2), 524288, 274877906944);
    lemma_mul_bound(line_a(s1), line_c(s2), 524288, 274877906944);
    lemma_mul_bound(line_a(s2), line_c(s1), 524288, 274877906944);
}

/// The Cramer point is intersection-sized and lies on both lines.
pub proof fn lemma_cramer_on_line(s1: Segment, s2: Segment)
    requires
        seg_small(s1),
        seg_small(s2),
        det_spec(s1, s2) != 0,
    ensures
        point_mid(cramer_point(s1, s2)),
        on_line_spec(cramer_point(s1, s2), s1),
        on_line_spec(cramer_point(s1, s2), s2),
{
    let a1 = line_a(s1);
    let b1 = line_b(s1);
    let c1 = line_c(s1);
    let a2 = line_a(s2);
    let b2 = line_b(s2);
    let c2 = line_c(s2);
    let d = det_spec(s1, s2);
    let xn = b2 * c1 - b1 * c2;
    let yn = a1 * c2 - a2 * c1;
    let q = cramer_point(s1, s2);
    lemma_cramer_bounds(s1, s2);
    lemma_line_through_end(s1);
    lemma_line_through_end(s2);
    lemma_orient_unfold(q, s1);
    lemma_orient_unfold(q, s2);
    assert(point_mid(q));
    let qxn = q.x.num as int;
    let qyn = q.y.num as int;
    let qd = q.x.den as int;
    assert(q.y.den == qd);
    assert(a1 * xn + b1 * yn == c1 * d) by (nonlinear_arith)
        requires
            xn == b2 * c1 - b1 * c2,
            yn == a1 * c2 - a2 * c1,
            d == a1 * b2 - a2 * b1;
    assert(a2 * xn + b2 * yn == c2 * d) by (nonlinear_arith)
        requires
            xn == b2 * c1 - b1 * c2,
            yn == a1 * c2 - a2 * c1,
            d == a1 * b2 - a2 * b1;
    let ix1 = s1.ini.x.num as int;
    let iy1 = s1.ini.y.num as int;
    let ex1 = s1.end.x.num as int;
    let ey1 = s1.end.y.num as int;
    let ix2 = s2.ini.x.num as int;
    let iy2 = s2.ini.y.num as int;
    let ex2 = s2.end.x.num as int;
    let ey2 = s2.end.y.num as int;
    assert(a1 * (xn - ex1 * d) + b1 * (yn - ey1 * d) == 0) by (nonlinear_arith)
        requires
            a1 * ex1 + b1 * ey1 == c1,
            a1 * xn + b1 * yn == c1 * d;
    assert(a2 * (xn - ex2 * d) + b2 * (yn - ey2 * d) == 0) by (nonlinear_arith)
        requires
            a2 * ex2 + b2 * ey2 == c2,
            a2 * xn + b2 * yn == c2 * d;
    if d > 0 {
        assert(qxn == xn && qyn == yn && qd == d);
        assert((ey1 - iy1) * (qxn - ex1 * qd) * qd - (ex1 - ix1) * (qyn - ey1 * qd) * qd == 0)
            by (nonlinear_arith)
            requires
                ey1 - iy1 == a1,
                ix1 - ex1 == b1,
                a1 * (xn - ex1 * d) + b1 * (yn - ey1 * d) == 0,
                qxn == xn,
                qyn == yn,
                qd == d;
        assert((ey2 - iy2) * (qxn - ex2 * qd) * qd - (ex2 - ix2) * (qyn - ey2 * qd) * qd == 0)
            by (nonlinear_arith)
            requires
                ey2 - iy2 == a2,
                ix2 - ex2 == b2,
                a2 * (xn - ex2 * d) + b2 * (yn - ey2 * d) == 0,
                qxn == xn,
                qyn == yn,
                qd == d;
    } else {
        assert(qxn == -xn && qyn == -yn && qd == -d);
        assert((ey1 - iy1) * (qxn - ex1 * qd) * qd - (ex1 - ix1) * (qyn - ey1 * qd) * qd == 0)
            by (nonlinear_arith)
            requires
                ey1 - iy1 == a1,
                ix1 - ex1 == b1,
                a1 * (xn - ex1 * d) + b1 * (yn - ey1 * d) == 0,
                qxn == -xn,
                qyn == -yn,
                qd == -d;
        assert((ey2 - iy2) * (qxn - ex2 * qd) * qd - (ex2 - ix2) * (qyn - ey2 * qd) * qd == 0)
            by (nonlinear_arith)
            requires
                ey2 - iy2 == a2,
                ix2 - ex2 == b2,
                a2 * (xn - ex2 * d) + b2 * (yn - ey2 * d) == 0,
                qxn == -xn,
                qyn == -yn,
                qd == -d;
    }
    assert(on_line_spec(q, s1));
    assert(on_line_spec(q, s2));
}

/// For input segments, the two orientation values of the other segment's
/// endpoints differ exactly by the determinant.
pub proof fn lemma_orient_det(s1: Segment, s2: Segment)
    requires
        seg_small(s1),
        seg_small(s2),
    ensures
        orient_num(s2.ini, s1) - orient_num(s2.end, s1) == det_spec(s1, s2),
{
    let ix1 = s1.ini.x.num as int;
    let iy1 = s1.ini.y.num as int;
    let ex1 = s1.end.x.num as int;
    let ey1 = s1.end.y.num as int;
    let ix2 = s2.ini.x.num as int;
    let iy2 = s2.ini.y.num as int;
    let ex2 = s2.end.x.num as int;
    let ey2 = s2.end.y.num as int;
    lemma_orient_unfold(s2.ini, s1);
    lemma_orient_unfold(s2.end, s1);
    assert(orient_num(s2.ini, s1) - orient_num(s2.end, s1) == det_spec(s1, s2))
        by (nonlinear_arith)
        requires
            orient_num(s2.ini, s1) == (ey1 - iy1) * (ix2 - ex1 * 1) * 1 - (ex1 - ix1) * (iy2 - ey1
                * 1) * 1,
            orient_num(s2.end, s1) == (ey1 - iy1) * (ex2 - ex1 * 1) * 1 - (ex1 - ix1) * (ey2 - ey1
                * 1) * 1,
            det_spec(s1, s2) == (ey1 - iy1) * (ix2 - ex2) - (ey2 - iy2) * (ix1 - ex1);
}

/// The exact crossing point of the lines through two input segments.
///
/// Solves the two line equations by Cramer's rule; the caller must have
/// ruled parallel lines out, normally by consulting `orientation` first.
/// The result is the degenerate segment at the crossing point.
pub fn intersection_point(s1: &Segment, s2: &Segment) -> (r: Segment)
    requires
        seg_small(*s1),
        seg_small(*s2),
        det_spec(*s1, *s2) != 0,
    ensures
        r.ini == cramer_point(*s1, *s2),
        r.end == r.ini,
        point_mid(r.ini),
        on_line_spec(r.ini, *s1),
        on_line_spec(r.ini, *s2),
{
    proof {
        lemma_cramer_bounds(*s1, *s2);
        lemma_cramer_on_line(*s1, *s2);
        lemma_mul_bound(line_a(*s1), s1.ini.x.num as int, 524288, 262144);
        lemma_mul_bound(line_b(*s1), s1.ini.y.num as int, 524288, 262144);
        lemma_mul_bound(line_a(*s2), s2.ini.x.num as int, 524288, 262144);
        lemma_mul_bound(line_b(*s2), s2.ini.y.num as int, 524288, 262144);
        lemma_mul_bound(line_a(*s1), line_b(*s2), 524288, 524288);
        lemma_mul_bound(line_a(*s2), line_b(*s1), 524288, 524288);
        lemma_mul_bound(line_b(*s2), line_c(*s1), 524288, 274877906944);
        lemma_mul_bound(line_b(*s1), line_c(*s2), 524288, 274877906944);
        lemma_mul_bound(line_a(*s1), line_c(*s2), 524288, 274877906944);
        lemma_mul_bound(line_a(*s2), line_c(*s1), 524288, 274877906944);
    }
    let a1: i128 = s1.end.y.num - s1.ini.y.num;
    let b1: i128 = s1.ini.x.num - s1.end.x.num;
    let c1: i128 = a1 * s1.ini.x.num + b1 * s1.ini.y.num;
    let a2: i128 = s2.end.y.num - s2.ini.y.num;
    let b2: i128 = s2.ini.x.num - s2.end.x.num;
    let c2: i128 = a2 * s2.ini.x.num + b2 * s2.ini.y.num;
    let det: i128 = a1 * b2 - a2 * b1;
    let xn: i128 = b2 * c1 - b1 * c2;
    let yn: i128 = a1 * c2 - a2 * c1;
    let p: Point = if det > 0 {
        Point { x: Rat { num: xn, den: det }, y: Rat { num: yn, den: det } }
    } else {
        Point { x: Rat { num: -xn, den: -det }, y: Rat { num: -yn, den: -det } }
    };
    Segment { ini: p, end: p }
}

/// Two segments cross properly: each one's endpoints sit on opposite
/// (or one on, one off) sides of the other's line - the four-orientation
/// condition under which the kernel reports a single crossing point.
pub open spec fn proper_cross_spec(s1: Segment, s2: Segment) -> bool {
    &&& orient_spec(s2.ini, s1) != orient_spec(s2.end, s1)
    &&& orient_spec(s1.ini, s2) != orient_spec(s1.end, s2)
}

/// Exact test of `proper_cross_spec` on two input segments.
pub fn proper_cross(s1: &Segment, s2: &Segment) -> (r: bool)
    requires
        seg_small(*s1),
        seg_small(*s2),
    ensures
        r == proper_cross_spec(*s1, *s2),
{
    let o1: Direction = orientation(&s2.ini, s1);
    let o2: Direction = orientation(&s2.end, s1);
    let o3: Direction = orientation(&s1.ini, s2);
    let o4: Direction = orientation(&s1.end, s2);
    o1 != o2 && o3 != o4
}

/// The kernel's full segment/segment intersection, exactly as a spec:
/// a degenerate segment at the crossing point for a proper crossing, a
/// (possibly degenerate) overlap segment for collinear contact, nothing
/// otherwise.
pub open spec fn seg_inter_spec(s1: Segment, s2: Segment) -> Option<Segment> {
    let o1 = orient_spec(s2.ini, s1);
    let o2 = orient_spec(s2.end, s1);
    let o3 = orient_spec(s1.ini, s2);
    let o4 = orient_spec(s1.end, s2);
    if o1 != o2 && o3 != o4 {
        Some(Segment { ini: cramer_point(s1, s2), end: cramer_point(s1, s2) })
    } else {
        let c1 = o1 == Direction::Collinear && in_bbox_spec(s2.ini, s1);
        let c2 = o2 == Direction::Collinear && in_bbox_spec(s2.end, s1);
        let c3 = o3 == Direction::Collinear && in_bbox_spec(s1.ini, s2);
        let c4 = o4 == Direction::Collinear && in_bbox_spec(s1.end, s2);
        if c1 && c2 {
            Some(s2)
        } else if c3 && c4 {
            Some(s1)
        } else if c1 && c3 {
            Some(Segment { ini: s2.ini, end: s1.ini })
        } else if c1 && c4 {
            Some(Segment { ini: s2.ini, end: s1.end })
        } else if c2 && c3 {
            Some(Segment { ini: s2.end, end: s1.ini })
        } else if c2 && c4 {
            Some(Segment { ini: s2.end, end: s1.end })
        } else {
            None
        }
    }
}

/// Intersection of two input segments, exactly `seg_inter_spec`.
pub fn segments_intersection(s1: &Segment, s2: &Segment) -> (r: Option<Segment>)
    requires
        seg_small(*s1),
        seg_small(*s2),
    ensures
        r == seg_inter_spec(*s1, *s2),
        r matches Some(a) ==> point_mid(a.ini) && point_mid(a.end),
{
    let o1: Direction = orientation(&s2.ini, s1);
    let o2: Direction = orientation(&s2.end, s1);
    let o3: Direction = orientation(&s1.ini, s2);
    let o4: Direction = orientation(&s1.end, s2);
    if o1 != o2 && o3 != o4 {
        proof {
            lemma_orient_det(*s1, *s2);
        }
        let q: Segment = intersection_point(s1, s2);
        Some(q)
    } else {
        let c1: bool = o1 == Direction::Collinear && collinear_point_on_segment(&s2.ini, s1);
        let c2: bool = o2 == Direction::Collinear && collinear_point_on_segment(&s2.end, s1);
        let c3: bool = o3 == Direction::Collinear && collinear_point_on_segment(&s1.ini, s2);
        let c4: bool = o4 == Direction::Collinear && collinear_point_on_segment(&s1.end, s2);
        if c1 && c2 {
            Some(*s2)
        } else if c3 && c4 {
            Some(*s1)
        } else if c1 && c3 {
            Some(Segment { ini: s2.ini, end: s1.ini })
        } else if c1 && c4 {
            Some(Segment { ini: s2.ini, end: s1.end })
        } else if c2 && c3 {
            Some(Segment { ini: s2.end, end: s1.ini })
        } else if c2 && c4 {
            Some(Segment { ini: s2.end, end: s1.end })
        } else {
            None
        }
    }
}

/// A usable snapping grid: a positive rational step of input size.
pub open spec fn grid_ok(g: Rat) -> bool {
    &&& 1 <= g.num <= COORD_LIMIT as int
    &&& 1 <= g.den <= COORD_LIMIT as int
}

/// A coordinate snapped to the nearest multiple of the grid step:
/// `g * round(x / g)`, with rounding half away from zero.
pub open spec fn snap_spec(x: Rat, g: Rat) -> Rat {
    let k = rat_round_spec(x.num * g.den, x.den * g.num);
    Rat { num: (k * g.num) as i128, den: g.den }
}

/// Snap one coordinate to the grid.
fn rat_to_grid(x: &Rat, g: &Rat) -> (r: Rat)
    requires
        rat_mid(*x),
        grid_ok(*g),
    ensures
        r == snap_spec(*x, *g),
        rat_wf(r),
        -(MID_NUM_LIMIT as int) * COORD_LIMIT as int * COORD_LIMIT as int <= r.num
            <= MID_NUM_LIMIT as int * COORD_LIMIT as int * COORD_LIMIT as int,
{
    proof {
        lemma_mul_bound(x.num as int, g.den as int, MID_NUM_LIMIT as int, 262144);
        lemma_mul_bound(x.den as int, g.num as int, MID_DEN_LIMIT as int, 262144);
        assert(1 <= x.den * g.num) by (nonlinear_arith)
            requires
                1 <= x.den,
                1 <= g.num;
    }
    let tn: i128 = x.num * g.den;
    let td: i128 = x.den * g.num;
    let k: i128 = crate::rat::rat_round(&Rat { num: tn, den: td });
    proof {
        lemma_mul_bound(k as int, g.num as int, 302231454903657293676544, 262144);
    }
    Rat { num: k * g.num, den: g.den }
}

impl Point {
    /// The point snapped to the grid, coordinate by coordinate.
    pub fn to_grid(&self, grid: &Rat) -> (r: Point)
        requires
            point_mid(*self),
            grid_ok(*grid),
        ensures
            r.x == snap_spec(self.x, *grid),
            r.y == snap_spec(self.y, *grid),
            point_wf(r),
    {
        Point { x: rat_to_grid(&self.x, grid), y: rat_to_grid(&self.y, grid) }
    }
}

impl Segment {
    /// The segment snapped to the grid, end by end.
    pub fn to_grid(&self, grid: &Rat) -> (r: Segment)
        requires
            point_mid(self.ini),
            point_mid(self.end),
            grid_ok(*grid),
        ensures
            r.ini.x == snap_spec(self.ini.x, *grid),
            r.ini.y == snap_spec(self.ini.y, *grid),
            r.end.x == snap_spec(self.end.x, *grid),
            r.end.y == snap_spec(self.end.y, *grid),
            seg_wf(r),
    {
        Segment { ini: self.ini.to_grid(grid), end: self.end.to_grid(grid) }
    }

    /// The height of the (non-vertical) segment's line at `x`, as an
    /// exact rational; a vertical segment answers its start height.
    pub fn interpolate_y(&self, x: &Rat) -> (r: Rat)
        requires
            seg_small(*self),
            rat_mid(*x),
        ensures
            self.ini.x.num == self.end.x.num ==> r == self.ini.y,
            self.ini.x.num != self.end.x.num ==> r == interp_spec(*self, *x),
            rat_wf(r),
    {
        if self.ini.x.num == self.end.x.num {
            return self.ini.y;
        }
        proof {
            lemma_mul_bound(self.ini.y.num as int, (self.end.x.num - self.ini.x.num) as int,
                262144, 524288);
            lemma_mul_bound(
                (self.ini.y.num * (self.end.x.num - self.ini.x.num)) as int,
                x.den as int,
                137438953472,
                MID_DEN_LIMIT as int,
            );
            lemma_mul_bound(self.ini.x.num as int, x.den as int, 262144, MID_DEN_LIMIT as int);
            lemma_mul_bound(
                (self.end.y.num - self.ini.y.num) as int,
                (x.num - self.ini.x.num * x.den) as int,
                524288,
                MID_NUM_LIMIT as int + 288230376151711744int,
            );
            lemma_mul_bound((self.end.x.num - self.ini.x.num) as int, x.den as int, 524288,
                MID_DEN_LIMIT as int);
        }
        let dy: i128 = self.end.y.num - self.ini.y.num;
        let dx: i128 = self.end.x.num - self.ini.x.num;
        let n: i128 = self.ini.y.num * dx * x.den + dy * (x.num - self.ini.x.num * x.den);
        let d: i128 = dx * x.den;
        if dx > 0 {
            proof {
                assert(1 <= dx * x.den) by (nonlinear_arith)
                    requires
                        1 <= dx,
                        1 <= x.den;
            }
            Rat { num: n, den: d }
        } else {
            proof {
                assert(dx * x.den <= -1) by (nonlinear_arith)
                    requires
                        dx <= -1,
                        1 <= x.den;
            }
            Rat { num: -n, den: -d }
        }
    }

    /// The slope of the segment as an exact rational; a vertical
    /// segment, whose slope would be infinite, answers nothing.
    pub fn slope(&self) -> (r: Option<Rat>)
        requires
            seg_small(*self),
        ensures
            self.ini.x.num == self.end.x.num <==> r is None,
            r matches Some(v) ==> v == slope_val(*self) && rat_wf(v),
    {
        if self.ini.x.num == self.end.x.num {
            return None;
        }
        let dy: i128 = self.end.y.num - self.ini.y.num;
        let dx: i128 = self.end.x.num - self.ini.x.num;
        if dx > 0 {
            Some(Rat { num: dy, den: dx })
        } else {
            Some(Rat { num: -dy, den: -dx })
        }
    }
}

/// The interpolated height of a non-vertical input segment at `x`:
/// `ini.y + (end.y - ini.y) * (x - ini.x) / (end.x - ini.x)`, over the
/// common positive denominator.
pub open spec fn interp_spec(s: Segment, x: Rat) -> Rat {
    let dy = s.end.y.num - s.ini.y.num;
    let dx = s.end.x.num - s.ini.x.num;
    let n = s.ini.y.num * dx * x.den + dy * (x.num - s.ini.x.num * x.den);
    let d = dx * x.den;
    if dx > 0 {
        Rat { num: n as i128, den: d as i128 }
    } else {
        Rat { num: (-n) as i128, den: (-d) as i128 }
    }
}

/// The slope of a non-vertical input segment, with positive denominator.
pub open spec fn slope_val(s: Segment) -> Rat {
    let dy = s.end.y.num - s.ini.y.num;
    let dx = s.end.x.num - s.ini.x.num;
    if dx > 0 {
        Rat { num: dy as i128, den: dx as i128 }
    } else {
        Rat { num: (-dy) as i128, den: (-dx) as i128 }
    }
}

/// Rounding an exact multiple of the denominator recovers the factor.
proof fn lemma_round_of_multiple(a: int, d: int)
    requires
        1 <= d,
    ensures
        crate::rat::rat_round_spec(a * d, d) == a,
{
    vstd::arithmetic::div_mod::lemma_div_multiples_vanish(a, d);
    vstd::arithmetic::div_mod::lemma_mod_multiples_basic(a, d);
    assert(d * a == a * d) by (nonlinear_arith);
    if a * d >= 0 {
        assert((a * d) / d == a && (a * d) % d == 0);
    } else {
        assert(-(a * d) == (-a) * d) by (nonlinear_arith);
        assert(((-a) * d) / d == -a && ((-a) * d) % d == 0) by {
            vstd::arithmetic::div_mod::lemma_div_multiples_vanish(-a, d);
            vstd::arithmetic::div_mod::lemma_mod_multiples_basic(-a, d);
            assert(d * (-a) == (-a) * d) by (nonlinear_arith);
        }
    }
}

/// Grid snapping is idempotent: a snapped coordinate snaps to itself.
pub proof fn lemma_snap_idempotent(x: Rat, g: Rat)
    requires
        rat_mid(x),
        grid_ok(g),
    ensures
        snap_spec(snap_spec(x, g), g) == snap_spec(x, g),
{
    let k = crate::rat::rat_round_spec(x.num * g.den, x.den * g.num);
    let s = snap_spec(x, g);
    lemma_mul_bound(x.num as int, g.den as int, MID_NUM_LIMIT as int, 262144);
    lemma_mul_bound(x.den as int, g.num as int, MID_DEN_LIMIT as int, 262144);
    assert(1 <= x.den * g.num) by (nonlinear_arith)
        requires
            1 <= x.den,
            1 <= g.num;
    crate::rat::lemma_round_bound(x.num * g.den, x.den * g.num);
    lemma_mul_bound(k, g.num as int, 302231454903657293676544, 262144);
    assert(s.num == k * g.num && s.den == g.den);
    assert(s.num * g.den == (k * (g.num * g.den))) by (nonlinear_arith)
        requires
            s.num == k * g.num;
    assert(s.den * g.num == g.num * g.den) by (nonlinear_arith)
        requires
            s.den == g.den;
    assert(1 <= g.num * g.den) by (nonlinear_arith)
        requires
            1 <= g.num,
            1 <= g.den;
    lemma_round_of_multiple(k, g.num * g.den);
    assert(crate::rat::rat_round_spec(s.num * g.den, s.den * g.num) == k);
}

/// For a point with integer coordinates, the orientation value is the
/// line form of the segment evaluated at the point.
proof fn lemma_orient_int(p: Point, s: Segment)
    requires
        p.x.den == 1,
        p.y.den == 1,
        seg_small(s),
    ensures
        orient_num(p, s) == line_a(s) * p.x.num + line_b(s) * p.y.num - line_c(s),
{
    lemma_orient_unfold(p, s);
    lemma_line_through_end(s);
    let eyn = s.end.y.num as int;
    let iyn = s.ini.y.num as int;
    let exn = s.end.x.num as int;
    let ixn = s.ini.x.num as int;
    let pxn = p.x.num as int;
    let pyn = p.y.num as int;
    assert((eyn - iyn) * (pxn - exn * 1) * 1 - (exn - ixn) * (pyn - eyn * 1) * 1 == (eyn - iyn)
        * pxn + (ixn - exn) * pyn - ((eyn - iyn) * exn + (ixn - exn) * eyn)) by (nonlinear_arith);
    assert(orient_num(p, s) == (eyn - iyn) * pxn + (ixn - exn) * pyn - ((eyn - iyn) * exn + (ixn
        - exn) * eyn));
}

/// Both endpoints of an input segment lie on the segment itself.
pub proof fn lemma_endpoint_on_segment(s: Segment)
    requires
        seg_small(s),
    ensures
        point_on_segment_spec(s.ini, s),
        point_on_segment_spec(s.end, s),
{
    lemma_orient_int(s.ini, s);
    lemma_orient_int(s.end, s);
    lemma_line_through_end(s);
    assert(line_a(s) * s.ini.x.num + line_b(s) * s.ini.y.num == line_c(s));
}

/// Sign bound: opposite-or-zero orientation values multiply to at most
/// zero.
proof fn lemma_opposite_signs(x: int, y: int)
    by (nonlinear_arith)
    requires
        (x >= 0 && y <= 0) || (x <= 0 && y >= 0),
    ensures
        x * y <= 0,
{
}

/// From a sign-alternating quadratic, the stored fraction lies between
/// two integer bounds.
proof fn lemma_frac_between(w: int, d: int, lo: int, hi: int, qn: int, qd: int)
    by (nonlinear_arith)
    requires
        d != 0,
        (qn == w && qd == d && d > 0) || (qn == -w && qd == -d && d < 0),
        (w - lo * d) * (w - hi * d) <= 0,
        lo <= hi,
    ensures
        lo * qd <= qn,
        qn <= hi * qd,
{
}

/// Shifting the Cramer numerators by a point of the first line factors
/// through that point's value under the second line form.
#[verifier::rlimit(100)]
proof fn lemma_cramer_shift_x(a1: int, b1: int, c1: int, a2: int, b2: int, c2: int, u: int, v: int)
    by (nonlinear_arith)
    requires
        c1 == a1 * u + b1 * v,
    ensures
        (b2 * c1 - b1 * c2) - u * (a1 * b2 - a2 * b1) == b1 * (a2 * u + b2 * v - c2),
{
}

#[verifier::rlimit(100)]
proof fn lemma_cramer_shift_y(a1: int, b1: int, c1: int, a2: int, b2: int, c2: int, u: int, v: int)
    by (nonlinear_arith)
    requires
        c1 == a1 * u + b1 * v,
    ensures
        (a1 * c2 - a2 * c1) - v * (a1 * b2 - a2 * b1) == -(a1 * (a2 * u + b2 * v - c2)),
{
}

proof fn lemma_cramer_shift(a1: int, b1: int, c1: int, a2: int, b2: int, c2: int, u: int, v: int)
    requires
        c1 == a1 * u + b1 * v,
    ensures
        (b2 * c1 - b1 * c2) - u * (a1 * b2 - a2 * b1) == b1 * (a2 * u + b2 * v - c2),
        (a1 * c2 - a2 * c1) - v * (a1 * b2 - a2 * b1) == -(a1 * (a2 * u + b2 * v - c2)),
{
    lemma_cramer_shift_x(a1, b1, c1, a2, b2, c2, u, v);
    lemma_cramer_shift_y(a1, b1, c1, a2, b2, c2, u, v);
}

/// The crossing point lies within the first segment's bounding box,
/// from the sign change of its endpoints against the second line.
#[verifier::rlimit(100)]
proof fn lemma_cramer_in_bbox_first(s1: Segment, s2: Segment)
    requires
        seg_small(s1),
        seg_small(s2),
        det_spec(s1, s2) != 0,
        orient_spec(s1.ini, s2) != orient_spec(s1.end, s2),
    ensures
        in_bbox_spec(cramer_point(s1, s2), s1),
{
    let a1 = line_a(s1);
    let b1 = line_b(s1);
    let c1 = line_c(s1);
    let a2 = line_a(s2);
    let b2 = line_b(s2);
    let c2 = line_c(s2);
    let d = det_spec(s1, s2);
    let xn = b2 * c1 - b1 * c2;
    let yn = a1 * c2 - a2 * c1;
    lemma_cramer_bounds(s1, s2);
    lemma_line_through_end(s1);
    lemma_line_through_end(s2);
    let q = cramer_point(s1, s2);
    let qxn = q.x.num as int;
    let qyn = q.y.num as int;
    let qd = q.x.den as int;
    assert(q.y.den == qd && q.y.num == (if d > 0 { yn } else { -yn }));
    assert((qxn == xn && qyn == yn && qd == d && d > 0) || (qxn == -xn && qyn == -yn && qd == -d
        && d < 0));
    let px = s1.ini.x.num as int;
    let py = s1.ini.y.num as int;
    let qx = s1.end.x.num as int;
    let qy = s1.end.y.num as int;
    lemma_orient_int(s1.ini, s2);
    lemma_orient_int(s1.end, s2);
    let f2p = orient_num(s1.ini, s2);
    let f2q = orient_num(s1.end, s2);
    lemma_opposite_signs(f2p, f2q);
    lemma_cramer_shift(a1, b1, c1, a2, b2, c2, px, py);
    lemma_cramer_shift(a1, b1, c1, a2, b2, c2, qx, qy);
    assert(xn - px * d == b1 * f2p);
    assert(xn - qx * d == b1 * f2q);
    assert(yn - py * d == -(a1 * f2p));
    assert(yn - qy * d == -(a1 * f2q));
    assert((xn - px * d) * (xn - qx * d) <= 0) by (nonlinear_arith)
        requires
            xn - px * d == b1 * f2p,
            xn - qx * d == b1 * f2q,
            f2p * f2q <= 0;
    assert((yn - py * d) * (yn - qy * d) <= 0) by (nonlinear_arith)
        requires
            yn - py * d == -(a1 * f2p),
            yn - qy * d == -(a1 * f2q),
            f2p * f2q <= 0;
    if px <= qx {
        lemma_frac_between(xn, d, px, qx, qxn, qd);
    } else {
        assert((xn - qx * d) * (xn - px * d) == (xn - px * d) * (xn - qx * d))
            by (nonlinear_arith);
        lemma_frac_between(xn, d, qx, px, qxn, qd);
    }
    if py <= qy {
        lemma_frac_between(yn, d, py, qy, qyn, qd);
    } else {
        assert((yn - qy * d) * (yn - py * d) == (yn - py * d) * (yn - qy * d))
            by (nonlinear_arith);
        lemma_frac_between(yn, d, qy, py, qyn, qd);
    }
}

/// The crossing point lies within the second segment's bounding box,
/// from the sign change of its endpoints against the first line.
#[verifier::rlimit(100)]
proof fn lemma_cramer_in_bbox_second(s1: Segment, s2: Segment)
    requires
        seg_small(s1),
        seg_small(s2),
        det_spec(s1, s2) != 0,
        orient_spec(s2.ini, s1) != orient_spec(s2.end, s1),
    ensures
        in_bbox_spec(cramer_point(s1, s2), s2),
{
    let a1 = line_a(s1);
    let b1 = line_b(s1);
    let c1 = line_c(s1);
    let a2 = line_a(s2);
    let b2 = line_b(s2);
    let c2 = line_c(s2);
    let d = det_spec(s1, s2);
    let xn = b2 * c1 - b1 * c2;
    let yn = a1 * c2 - a2 * c1;
    lemma_cramer_bounds(s1, s2);
    lemma_line_through_end(s1);
    lemma_line_through_end(s2);
    let q = cramer_point(s1, s2);
    let qxn = q.x.num as int;
    let qyn = q.y.num as int;
    let qd = q.x.den as int;
    assert(q.y.den == qd && q.y.num == (if d > 0 { yn } else { -yn }));
    assert((qxn == xn && qyn == yn && qd == d && d > 0) || (qxn == -xn && qyn == -yn && qd == -d
        && d < 0));
    let px2 = s2.ini.x.num as int;
    let py2 = s2.ini.y.num as int;
    let qx2 = s2.end.x.num as int;
    let qy2 = s2.end.y.num as int;
    lemma_orient_int(s2.ini, s1);
    lemma_orient_int(s2.end, s1);
    let f1p = orient_num(s2.ini, s1);
    let f1q = orient_num(s2.end, s1);
    lemma_opposite_signs(f1p, f1q);
    lemma_cramer_shift(a2, b2, c2, a1, b1, c1, px2, py2);
    lemma_cramer_shift(a2, b2, c2, a1, b1, c1, qx2, qy2);
    assert(xn - px2 * d == -(b2 * f1p)) by (nonlinear_arith)
        requires
            (b1 * c2 - b2 * c1) - px2 * (a2 * b1 - a1 * b2) == b2 * (a1 * px2 + b1 * py2 - c1),
            xn == b2 * c1 - b1 * c2,
            d == a1 * b2 - a2 * b1,
            f1p == a1 * px2 + b1 * py2 - c1;
    assert(xn - qx2 * d == -(b2 * f1q)) by (nonlinear_arith)
        requires
            (b1 * c2 - b2 * c1) - qx2 * (a2 * b1 - a1 * b2) == b2 * (a1 * qx2 + b1 * qy2 - c1),
            xn == b2 * c1 - b1 * c2,
            d == a1 * b2 - a2 * b1,
            f1q == a1 * qx2 + b1 * qy2 - c1;
    assert(yn - py2 * d == a2 * f1p) by (nonlinear_arith)
        requires
            (a2 * c1 - a1 * c2) - py2 * (a2 * b1 - a1 * b2) == -(a2 * (a1 * px2 + b1 * py2 - c1)),
            yn == a1 * c2 - a2 * c1,
            d == a1 * b2 - a2 * b1,
            f1p == a1 * px2 + b1 * py2 - c1;
    assert(yn - qy2 * d == a2 * f1q) by (nonlinear_arith)
        requires
            (a2 * c1 - a1 * c2) - qy2 * (a2 * b1 - a1 * b2) == -(a2 * (a1 * qx2 + b1 * qy2 - c1)),
            yn == a1 * c2 - a2 * c1,
            d == a1 * b2 - a2 * b1,
            f1q == a1 * qx2 + b1 * qy2 - c1;
    assert((xn - px2 * d) * (xn - qx2 * d) <= 0) by (nonlinear_arith)
        requires
            xn - px2 * d == -(b2 * f1p),
            xn - qx2 * d == -(b2 * f1q),
            f1p * f1q <= 0;
    assert((yn - py2 * d) * (yn - qy2 * d) <= 0) by (nonlinear_arith)
        requires
            yn - py2 * d == a2 * f1p,
            yn - qy2 * d == a2 * f1q,
            f1p * f1q <= 0;
    if px2 <= qx2 {
        lemma_frac_between(xn, d, px2, qx2, qxn, qd);
    } else {
        assert((xn - qx2 * d) * (xn - px2 * d) == (xn - px2 * d) * (xn - qx2 * d))
            by (nonlinear_arith);
        lemma_frac_between(xn, d, qx2, px2, qxn, qd);
    }
    if py2 <= qy2 {
        lemma_frac_between(yn, d, py2, qy2, qyn, qd);
    } else {
        assert((yn - qy2 * d) * (yn - py2 * d) == (yn - py2 * d) * (yn - qy2 * d))
            by (nonlinear_arith);
        lemma_frac_between(yn, d, qy2, py2, qyn, qd);
    }
}

/// The crossing point of two properly crossing input segments lies in
/// both bounding boxes (and so, with `lemma_cramer_on_line`, on both
/// closed segments).
pub proof fn lemma_cramer_in_bbox(s1: Segment, s2: Segment)
    requires
        seg_small(s1),
        seg_small(s2),
        orient_spec(s2.ini, s1) != orient_spec(s2.end, s1),
        orient_spec(s1.ini, s2) != orient_spec(s1.end, s2),
    ensures
        det_spec(s1, s2) != 0,
        in_bbox_spec(cramer_point(s1, s2), s1),
        in_bbox_spec(cramer_point(s1, s2), s2),
{
    lemma_orient_det(s1, s2);
    lemma_cramer_in_bbox_first(s1, s2);
    lemma_cramer_in_bbox_second(s1, s2);
}

/// Soundness of the intersection kernel: whatever it returns lies, end
/// to end, on both closed input segments.
pub proof fn lemma_inter_sound(s1: Segment, s2: Segment)
    requires
        seg_small(s1),
        seg_small(s2),
        seg_inter_spec(s1, s2) is Some,
    ensures
        point_on_segment_spec(seg_inter_spec(s1, s2).unwrap().ini, s1),
        point_on_segment_spec(seg_inter_spec(s1, s2).unwrap().ini, s2),
        point_on_segment_spec(seg_inter_spec(s1, s2).unwrap().end, s1),
        point_on_segment_spec(seg_inter_spec(s1, s2).unwrap().end, s2),
{
    let o1 = orient_spec(s2.ini, s1);
    let o2 = orient_spec(s2.end, s1);
    let o3 = orient_spec(s1.ini, s2);
    let o4 = orient_spec(s1.end, s2);
    lemma_endpoint_on_segment(s1);
    lemma_endpoint_on_segment(s2);
    if o1 != o2 && o3 != o4 {
        lemma_orient_det(s1, s2);
        lemma_cramer_on_line(s1, s2);
        lemma_cramer_in_bbox(s1, s2);
    }
}

/// The mirrored direction: collinear stays, the two turns exchange.
pub open spec fn dir_flip(d: Direction) -> Direction {
    match d {
        Direction::Collinear => Direction::Collinear,
        Direction::Clockwise => Direction::CounterClockwise,
        Direction::CounterClockwise => Direction::Clockwise,
    }
}

/// Reversing a segment's ends mirrors every orientation of an integer
/// point against it.
proof fn lemma_orient_flip(p: Point, s: Segment)
    requires
        p.x.den == 1,
        p.y.den == 1,
        seg_small(s),
    ensures
        orient_spec(p, Segment { ini: s.end, end: s.ini }) == dir_flip(orient_spec(p, s)),
{
    let sw = Segment { ini: s.end, end: s.ini };
    lemma_orient_int(p, s);
    lemma_orient_int(p, sw);
    lemma_line_swap(s);
    assert(orient_num(p, sw) == -orient_num(p, s)) by (nonlinear_arith)
        requires
            orient_num(p, sw) == line_a(sw) * p.x.num + line_b(sw) * p.y.num - line_c(sw),
            orient_num(p, s) == line_a(s) * p.x.num + line_b(s) * p.y.num - line_c(s),
            line_a(sw) == -line_a(s),
            line_b(sw) == -line_b(s),
            line_c(sw) == -line_c(s);
}

/// Reversing a segment's ends negates its line coefficients.
proof fn lemma_line_swap(s: Segment)
    requires
        seg_small(s),
    ensures
        line_a(Segment { ini: s.end, end: s.ini }) == -line_a(s),
        line_b(Segment { ini: s.end, end: s.ini }) == -line_b(s),
        line_c(Segment { ini: s.end, end: s.ini }) == -line_c(s),
{
    let sw = Segment { ini: s.end, end: s.ini };
    lemma_line_through_end(s);
    assert(line_c(sw) == -line_c(s)) by (nonlinear_arith)
        requires
            line_c(sw) == line_a(sw) * s.end.x.num + line_b(sw) * s.end.y.num,
            line_a(sw) == -line_a(s),
            line_b(sw) == -line_b(s),
            line_a(s) * s.end.x.num + line_b(s) * s.end.y.num == line_c(s);
}

/// Two line-coefficient triples that are negations of each other (on
/// either side) give the opposite determinant and the same
/// sign-normalized Cramer point.
#[verifier::rlimit(100)]
proof fn lemma_cramer_negated(s1: Segment, s2: Segment, t1: Segment, t2: Segment)
    requires
        seg_small(s1),
        seg_small(s2),
        seg_small(t1),
        seg_small(t2),
        det_spec(s1, s2) != 0,
        line_a(t1) == -line_a(s1),
        line_b(t1) == -line_b(s1),
        line_c(t1) == -line_c(s1),
        line_a(t2) == line_a(s2),
        line_b(t2) == line_b(s2),
        line_c(t2) == line_c(s2),
    ensures
        det_spec(t1, t2) == -det_spec(s1, s2),
        cramer_point(t1, t2) == cramer_point(s1, s2),
{
    lemma_cramer_bounds(s1, s2);
    lemma_cramer_bounds(t1, t2);
    let a1 = line_a(s1);
    let b1 = line_b(s1);
    let c1 = line_c(s1);
    let a2 = line_a(s2);
    let b2 = line_b(s2);
    let c2 = line_c(s2);
    let d = det_spec(s1, s2);
    let xn = b2 * c1 - b1 * c2;
    let yn = a1 * c2 - a2 * c1;
    assert(det_spec(t1, t2) == -d) by (nonlinear_arith)
        requires
            det_spec(t1, t2) == line_a(t1) * line_b(t2) - line_a(t2) * line_b(t1),
            d == a1 * b2 - a2 * b1,
            line_a(t1) == -a1,
            line_b(t1) == -b1,
            line_a(t2) == a2,
            line_b(t2) == b2;
    assert(line_b(t2) * line_c(t1) - line_b(t1) * line_c(t2) == -xn) by (nonlinear_arith)
        requires
            xn == b2 * c1 - b1 * c2,
            line_b(t1) == -b1,
            line_c(t1) == -c1,
            line_b(t2) == b2,
            line_c(t2) == c2;
    assert(line_a(t1) * line_c(t2) - line_a(t2) * line_c(t1) == -yn) by (nonlinear_arith)
        requires
            yn == a1 * c2 - a2 * c1,
            line_a(t1) == -a1,
            line_c(t1) == -c1,
            line_a(t2) == a2,
            line_c(t2) == c2;
    if d > 0 {
        assert(cramer_point(s1, s2) == (Point {
            x: Rat { num: xn as i128, den: d as i128 },
            y: Rat { num: yn as i128, den: d as i128 },
        }));
        assert(cramer_point(t1, t2) == (Point {
            x: Rat { num: (-(-xn)) as i128, den: (-(-d)) as i128 },
            y: Rat { num: (-(-yn)) as i128, den: (-(-d)) as i128 },
        }));
        assert(-(-xn) == xn && -(-yn) == yn && -(-d) == d);
    } else {
        assert(cramer_point(s1, s2) == (Point {
            x: Rat { num: (-xn) as i128, den: (-d) as i128 },
            y: Rat { num: (-yn) as i128, den: (-d) as i128 },
        }));
        assert(cramer_point(t1, t2) == (Point {
            x: Rat { num: (-xn) as i128, den: (-d) as i128 },
            y: Rat { num: (-yn) as i128, den: (-d) as i128 },
        }));
    }
}

/// As `lemma_cramer_negated`, with the second triple negated instead.
#[verifier::rlimit(100)]
proof fn lemma_cramer_negated_snd(s1: Segment, s2: Segment, t1: Segment, t2: Segment)
    requires
        seg_small(s1),
        seg_small(s2),
        seg_small(t1),
        seg_small(t2),
        det_spec(s1, s2) != 0,
        line_a(t1) == line_a(s1),
        line_b(t1) == line_b(s1),
        line_c(t1) == line_c(s1),
        line_a(t2) == -line_a(s2),
        line_b(t2) == -line_b(s2),
        line_c(t2) == -line_c(s2),
    ensures
        det_spec(t1, t2) == -det_spec(s1, s2),
        cramer_point(t1, t2) == cramer_point(s1, s2),
{
    lemma_cramer_bounds(s1, s2);
    lemma_cramer_bounds(t1, t2);
    let a1 = line_a(s1);
    let b1 = line_b(s1);
    let c1 = line_c(s1);
    let a2 = line_a(s2);
    let b2 = line_b(s2);
    let c2 = line_c(s2);
    let d = det_spec(s1, s2);
    let xn = b2 * c1 - b1 * c2;
    let yn = a1 * c2 - a2 * c1;
    assert(det_spec(t1, t2) == -d) by (nonlinear_arith)
        requires
            det_spec(t1, t2) == line_a(t1) * line_b(t2) - line_a(t2) * line_b(t1),
            d == a1 * b2 - a2 * b1,
            line_a(t1) == a1,
            line_b(t1) == b1,
            line_a(t2) == -a2,
            line_b(t2) == -b2;
    assert(line_b(t2) * line_c(t1) - line_b(t1) * line_c(t2) == -xn) by (nonlinear_arith)
        requires
            xn == b2 * c1 - b1 * c2,
            line_b(t1) == b1,
            line_c(t1) == c1,
            line_b(t2) == -b2,
            line_c(t2) == -c2;
    assert(line_a(t1) * line_c(t2) - line_a(t2) * line_c(t1) == -yn) by (nonlinear_arith)
        requires
            yn == a1 * c2 - a2 * c1,
            line_a(t1) == a1,
            line_c(t1) == c1,
            line_a(t2) == -a2,
            line_c(t2) == -c2;
    if d > 0 {
        assert(cramer_point(s1, s2) == (Point {
            x: Rat { num: xn as i128, den: d as i128 },
            y: Rat { num: yn as i128, den: d as i128 },
        }));
        assert(cramer_point(t1, t2) == (Point {
            x: Rat { num: (-(-xn)) as i128, den: (-(-d)) as i128 },
            y: Rat { num: (-(-yn)) as i128, den: (-(-d)) as i128 },
        }));
        assert(-(-xn) == xn && -(-yn) == yn && -(-d) == d);
    } else {
        assert(cramer_point(s1, s2) == (Point {
            x: Rat { num: (-xn) as i128, den: (-d) as i128 },
            y: Rat { num: (-yn) as i128, den: (-d) as i128 },
        }));
        assert(cramer_point(t1, t2) == (Point {
            x: Rat { num: (-xn) as i128, den: (-d) as i128 },
            y: Rat { num: (-yn) as i128, den: (-d) as i128 },
        }));
    }
}

/// Normalizing the two segments moves neither the proper-crossing
/// verdict nor the crossing point: the engine's completeness clause,
/// stated over the normalized list, covers exactly the raw pairs'
/// crossings.
#[verifier::rlimit(100)]
pub proof fn lemma_norm_preserves_crossing(s1: Segment, s2: Segment)
    requires
        seg_small(s1),
        seg_small(s2),
        proper_cross_spec(s1, s2),
    ensures
        det_spec(s1, s2) != 0,
        proper_cross_spec(crate::problem::norm_seg(s1), crate::problem::norm_seg(s2)),
        cramer_point(crate::problem::norm_seg(s1), crate::problem::norm_seg(s2)) == cramer_point(
            s1,
            s2,
        ),
{
    lemma_orient_det(s1, s2);
    if orient_num(s2.ini, s1) == orient_num(s2.end, s1) {
        assert(orient_spec(s2.ini, s1) == orient_spec(s2.end, s1));
    }
    assert(det_spec(s1, s2) != 0);
    let n1 = crate::problem::norm_seg(s1);
    let n2 = crate::problem::norm_seg(s2);
    if n1 != s1 {
        lemma_orient_flip(n2.ini, s1);
        lemma_orient_flip(n2.end, s1);
    }
    if n2 != s2 {
        lemma_orient_flip(n1.ini, s2);
        lemma_orient_flip(n1.end, s2);
    }
    assert(orient_spec(n2.ini, n1) != orient_spec(n2.end, n1)) by {
        assert(n2.ini == s2.ini && n2.end == s2.end || n2.ini == s2.end && n2.end == s2.ini);
        assert(orient_spec(s2.ini, s1) != orient_spec(s2.end, s1));
    }
    assert(orient_spec(n1.ini, n2) != orient_spec(n1.end, n2)) by {
        assert(n1.ini == s1.ini && n1.end == s1.end || n1.ini == s1.end && n1.end == s1.ini);
        assert(orient_spec(s1.ini, s2) != orient_spec(s1.end, s2));
    }
    if n1 != s1 {
        lemma_line_swap(s1);
    }
    if n2 != s2 {
        lemma_line_swap(s2);
    }
    if n1 != s1 && n2 == s2 {
        lemma_cramer_negated(s1, s2, n1, n2);
    } else if n1 == s1 && n2 != s2 {
        lemma_cramer_negated_snd(s1, s2, n1, n2);
    } else if n1 != s1 && n2 != s2 {
        lemma_cramer_negated(s1, s2, n1, s2);
        lemma_cramer_negated_snd(n1, s2, n1, n2);
    }
}

} // verus!
