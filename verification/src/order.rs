//! The total value order on segments that keys the status tree.
//!
//! Segments are ordered by start height, then slope (vertical counts as
//! the steepest and sorts first; two verticals tie), then start x, then
//! end y, then end x.  The order is over exact rational values, so two
//! structurally different segments with the same values compare equal.

use crate::geometry::{point_mid, point_small, rv_sub, Segment};
use crate::rat::{cmp3, fraction_cmp, rat_eq_spec, rat_le_spec, Cmp, Rat};
use vstd::prelude::*;

verus! {

/// Keys stored in the status tree: start at most intersection-sized, end
/// an input point, and not directed leftwards.
pub open spec fn seg_key_wf(s: Segment) -> bool {
    &&& point_mid(s.ini)
    &&& point_small(s.end)
    &&& rat_le_spec(s.ini.x, s.end.x)
}

/// Three-way comparison of two rationals by value.
pub open spec fn rat_cmp_spec(x: Rat, y: Rat) -> Cmp {
    cmp3(x.num * y.den, y.num * x.den)
}

/// A vertical segment: equal x at both ends.
pub open spec fn seg_vertical(s: Segment) -> bool {
    rat_eq_spec(s.ini.x, s.end.x)
}

/// The slope of a non-vertical segment as an exact fraction with a
/// positive denominator (for keys, whose x extent is nonnegative).
pub open spec fn slope_frac(s: Segment) -> (int, int) {
    let dy = rv_sub(s.end.y, s.ini.y);
    let dx = rv_sub(s.end.x, s.ini.x);
    (dy.0 * dx.1, dy.1 * dx.0)
}

/// Three-way comparison of two non-vertical slopes.
pub open spec fn slope_cmp_spec(a: Segment, b: Segment) -> Cmp {
    cmp3(slope_frac(a).0 * slope_frac(b).1, slope_frac(b).0 * slope_frac(a).1)
}

/// The value order on segments that the sweep engine keys its status by.
pub open spec fn seg_cmp_spec(a: Segment, b: Segment) -> Cmp {
    let k1 = rat_cmp_spec(a.ini.y, b.ini.y);
    if k1 != Cmp::Eq {
        k1
    } else {
        let va = seg_vertical(a);
        let vb = seg_vertical(b);
        if va && !vb {
            Cmp::Lt
        } else if !va && vb {
            Cmp::Gt
        } else {
            let ks = if va && vb {
                Cmp::Eq
            } else {
                slope_cmp_spec(a, b)
            };
            if ks != Cmp::Eq {
                ks
            } else {
                let k3 = rat_cmp_spec(a.ini.x, b.ini.x);
                if k3 != Cmp::Eq {
                    k3
                } else {
                    let k4 = rat_cmp_spec(a.end.y, b.end.y);
                    if k4 != Cmp::Eq {
                        k4
                    } else {
                        rat_cmp_spec(a.end.x, b.end.x)
                    }
                }
            }
        }
    }
}

/// Strictly before in the value order.
pub open spec fn seg_lt(a: Segment, b: Segment) -> bool {
    seg_cmp_spec(a, b) == Cmp::Lt
}

/// Equivalent in the value order.
pub open spec fn seg_eqv(a: Segment, b: Segment) -> bool {
    seg_cmp_spec(a, b) == Cmp::Eq
}

/// Exact three-way comparison of two tree keys.
pub fn seg_compare(a: &Segment, b: &Segment) -> (r: Cmp)
    requires
        seg_key_wf(*a),
        seg_key_wf(*b),
    ensures
        r == seg_cmp_spec(*a, *b),
{
    let k1: Cmp = crate::rat::rat_cmp(&a.ini.y, &b.ini.y);
    if !matches!(k1, Cmp::Eq) {
        return k1;
    }
    let va: bool = crate::rat::rat_eq(&a.ini.x, &a.end.x);
    let vb: bool = crate::rat::rat_eq(&b.ini.x, &b.end.x);
    if va && !vb {
        return Cmp::Lt;
    }
    if !va && vb {
        return Cmp::Gt;
    }
    let ks: Cmp = if va && vb {
        Cmp::Eq
    } else {
        slope_compare(a, b)
    };
    if !matches!(ks, Cmp::Eq) {
        return ks;
    }
    let k3: Cmp = crate::rat::rat_cmp(&a.ini.x, &b.ini.x);
    if !matches!(k3, Cmp::Eq) {
        return k3;
    }
    let k4: Cmp = crate::rat::rat_cmp(&a.end.y, &b.end.y);
    if !matches!(k4, Cmp::Eq) {
        return k4;
    }
    crate::rat::rat_cmp(&a.end.x, &b.end.x)
}

/// Compare the slopes of two non-vertical tree keys exactly.
fn slope_compare(a: &Segment, b: &Segment) -> (r: Cmp)
    requires
        seg_key_wf(*a),
        seg_key_wf(*b),
        !seg_vertical(*a),
        !seg_vertical(*b),
    ensures
        r == slope_cmp_spec(*a, *b),
{
    let (an, ad) = slope_parts(a);
    let (bn, bd) = slope_parts(b);
    fraction_cmp(an, ad, bn, bd)
}

/// The slope fraction of a non-vertical tree key, with positive parts
/// small enough for further products.
fn slope_parts(s: &Segment) -> (r: (i128, i128))
    requires
        seg_key_wf(*s),
        !seg_vertical(*s),
    ensures
        r.0 == slope_frac(*s).0,
        r.1 == slope_frac(*s).1,
        1 <= r.1,
        r.0 != i128::MIN,
{
    proof {
        crate::rat::lemma_mul_bound(s.end.y.num as int, s.ini.y.den as int, 262144,
            1099511627776);
        crate::rat::lemma_mul_bound(s.ini.y.num as int, s.end.y.den as int,
            1152921504606846976, 1);
        crate::rat::lemma_mul_bound(s.end.x.num as int, s.ini.x.den as int, 262144,
            1099511627776);
        crate::rat::lemma_mul_bound(s.ini.x.num as int, s.end.x.den as int,
            1152921504606846976, 1);
        crate::rat::lemma_mul_bound(s.end.y.den as int, s.ini.y.den as int, 1, 1099511627776);
        crate::rat::lemma_mul_bound(s.end.x.den as int, s.ini.x.den as int, 1, 1099511627776);
    }
    let dyn_: i128 = s.end.y.num * s.ini.y.den - s.ini.y.num * s.end.y.den;
    let dyd: i128 = s.end.y.den * s.ini.y.den;
    let dxn: i128 = s.end.x.num * s.ini.x.den - s.ini.x.num * s.end.x.den;
    let dxd: i128 = s.end.x.den * s.ini.x.den;
    proof {
        assert(dxn > 0);
        let big: int = 1152921504606846976int + 1152921504606846976int + 288230376151711744int;
        crate::rat::lemma_mul_bound(dyn_ as int, dxd as int, big, 1099511627776);
        crate::rat::lemma_mul_bound(dyd as int, dxn as int, 1099511627776, big);
        assert(1 <= dyd * dxn) by (nonlinear_arith)
            requires
                1 <= dyd,
                1 <= dxn;
    }
    (dyn_ * dxd, dyd * dxn)
}

/// Transitivity and equality composition for fractions with positive
/// denominators.
proof fn lemma_frac_trans(n1: int, d1: int, n2: int, d2: int, n3: int, d3: int)
    by (nonlinear_arith)
    requires
        1 <= d1,
        1 <= d2,
        1 <= d3,
    ensures
        n1 * d2 < n2 * d1 && n2 * d3 < n3 * d2 ==> n1 * d3 < n3 * d1,
        n1 * d2 == n2 * d1 && n2 * d3 == n3 * d2 ==> n1 * d3 == n3 * d1,
        n1 * d2 < n2 * d1 && n2 * d3 == n3 * d2 ==> n1 * d3 < n3 * d1,
        n1 * d2 == n2 * d1 && n2 * d3 < n3 * d2 ==> n1 * d3 < n3 * d1,
{
}

/// The slope fraction of a non-vertical key has a positive denominator.
proof fn lemma_slope_den_pos(s: Segment)
    requires
        seg_key_wf(s),
        !seg_vertical(s),
    ensures
        1 <= slope_frac(s).1,
{
    assert(1 <= rv_sub(s.end.y, s.ini.y).1) by (nonlinear_arith)
        requires
            rv_sub(s.end.y, s.ini.y).1 == s.end.y.den * s.ini.y.den,
            1 <= s.end.y.den,
            1 <= s.ini.y.den;
    assert(1 <= rv_sub(s.end.x, s.ini.x).0);
    assert(1 <= slope_frac(s).1) by (nonlinear_arith)
        requires
            slope_frac(s).1 == rv_sub(s.end.y, s.ini.y).1 * rv_sub(s.end.x, s.ini.x).0,
            1 <= rv_sub(s.end.y, s.ini.y).1,
            1 <= rv_sub(s.end.x, s.ini.x).0;
}

/// Rational-coordinate denominators of a key are positive (for the
/// fraction lemmas below).
proof fn lemma_key_dens(s: Segment)
    requires
        seg_key_wf(s),
    ensures
        1 <= s.ini.x.den,
        1 <= s.ini.y.den,
        1 <= s.end.x.den,
        1 <= s.end.y.den,
{
}

/// Comparing in the opposite direction gives the opposite answer.
pub proof fn lemma_seg_cmp_flip(a: Segment, b: Segment)
    requires
        seg_key_wf(a),
        seg_key_wf(b),
    ensures
        seg_cmp_spec(a, b) == Cmp::Lt <==> seg_cmp_spec(b, a) == Cmp::Gt,
        seg_cmp_spec(a, b) == Cmp::Gt <==> seg_cmp_spec(b, a) == Cmp::Lt,
        seg_cmp_spec(a, b) == Cmp::Eq <==> seg_cmp_spec(b, a) == Cmp::Eq,
{
}

/// Every key compares equal to itself.
pub proof fn lemma_seg_cmp_refl(a: Segment)
    requires
        seg_key_wf(a),
    ensures
        seg_cmp_spec(a, a) == Cmp::Eq,
{
}

/// The strict order is transitive.
pub proof fn lemma_seg_lt_trans(a: Segment, b: Segment, c: Segment)
    requires
        seg_key_wf(a),
        seg_key_wf(b),
        seg_key_wf(c),
        seg_lt(a, b),
        seg_lt(b, c),
    ensures
        seg_lt(a, c),
{
    lemma_seg_order_cases(a, b, c);
}

/// Equivalence is transitive.
pub proof fn lemma_seg_eqv_trans(a: Segment, b: Segment, c: Segment)
    requires
        seg_key_wf(a),
        seg_key_wf(b),
        seg_key_wf(c),
        seg_eqv(a, b),
        seg_eqv(b, c),
    ensures
        seg_eqv(a, c),
{
    lemma_seg_order_cases(a, b, c);
}

/// A strict bound composes with equivalence on either side.
pub proof fn lemma_seg_lt_eqv(a: Segment, b: Segment, c: Segment)
    requires
        seg_key_wf(a),
        seg_key_wf(b),
        seg_key_wf(c),
    ensures
        seg_lt(a, b) && seg_eqv(b, c) ==> seg_lt(a, c),
        seg_eqv(a, b) && seg_lt(b, c) ==> seg_lt(a, c),
{
    lemma_seg_order_cases(a, b, c);
}

/// The combined composition facts for a triple of keys.
proof fn lemma_seg_order_cases(a: Segment, b: Segment, c: Segment)
    requires
        seg_key_wf(a),
        seg_key_wf(b),
        seg_key_wf(c),
    ensures
        seg_lt(a, b) && seg_lt(b, c) ==> seg_lt(a, c),
        seg_eqv(a, b) && seg_eqv(b, c) ==> seg_eqv(a, c),
        seg_lt(a, b) && seg_eqv(b, c) ==> seg_lt(a, c),
        seg_eqv(a, b) && seg_lt(b, c) ==> seg_lt(a, c),
{
    lemma_key_dens(a);
    lemma_key_dens(b);
    lemma_key_dens(c);
    lemma_frac_trans(a.ini.y.num as int, a.ini.y.den as int, b.ini.y.num as int,
        b.ini.y.den as int, c.ini.y.num as int, c.ini.y.den as int);
    lemma_frac_trans(a.ini.x.num as int, a.ini.x.den as int, b.ini.x.num as int,
        b.ini.x.den as int, c.ini.x.num as int, c.ini.x.den as int);
    lemma_frac_trans(a.end.y.num as int, a.end.y.den as int, b.end.y.num as int,
        b.end.y.den as int, c.end.y.num as int, c.end.y.den as int);
    lemma_frac_trans(a.end.x.num as int, a.end.x.den as int, b.end.x.num as int,
        b.end.x.den as int, c.end.x.num as int, c.end.x.den as int);
    if !seg_vertical(a) {
        lemma_slope_den_pos(a);
    }
    if !seg_vertical(b) {
        lemma_slope_den_pos(b);
    }
    if !seg_vertical(c) {
        lemma_slope_den_pos(c);
    }
    if !seg_vertical(a) && !seg_vertical(b) && !seg_vertical(c) {
        lemma_frac_trans(slope_frac(a).0, slope_frac(a).1, slope_frac(b).0, slope_frac(b).1,
            slope_frac(c).0, slope_frac(c).1);
    }
}

} // verus!
