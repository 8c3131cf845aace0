//! Exact rational numbers over `i128`.
//!
//! A `Rat` represents the value `num / den` with `den >= 1`.  Values are not
//! kept in lowest terms; equality and order are the equality and order of the
//! represented values, decided exactly.  Comparisons never overflow: they use
//! the classical continued-fraction descent instead of cross-multiplication.

use vstd::prelude::*;
use vstd::arithmetic::div_mod::{lemma_fundamental_div_mod, lemma_mod_bound};

verus! {

/// Three-way comparison result.
#[derive(Clone, Copy, PartialEq, Eq, Structural, Debug)]
pub enum Cmp {
    Lt,
    Eq,
    Gt,
}

/// An exact rational number: the value `num / den`.
#[derive(Clone, Copy, PartialEq, Eq, Structural, Debug)]
pub struct Rat {
    pub num: i128,
    pub den: i128,
}

/// Well-formed rational: positive denominator, and a numerator whose
/// negation still fits in `i128`.
pub open spec fn rat_wf(r: Rat) -> bool {
    &&& 1 <= r.den
    &&& r.num != i128::MIN
}

/// The sign of an integer: -1, 0 or 1.
pub open spec fn sign(x: int) -> int {
    if x < 0 {
        -1
    } else if x == 0 {
        0
    } else {
        1
    }
}

/// Three-way comparison of two integers as a `Cmp` value.
pub open spec fn cmp3(x: int, y: int) -> Cmp {
    if x < y {
        Cmp::Lt
    } else if x == y {
        Cmp::Eq
    } else {
        Cmp::Gt
    }
}

/// Value order: `a < b` as rational numbers (meaningful when both are
/// well-formed, so that denominators are positive).
pub open spec fn rat_lt_spec(a: Rat, b: Rat) -> bool {
    a.num * b.den < b.num * a.den
}

/// Value order: `a <= b` as rational numbers.
pub open spec fn rat_le_spec(a: Rat, b: Rat) -> bool {
    a.num * b.den <= b.num * a.den
}

/// Value equality: `a == b` as rational numbers.
pub open spec fn rat_eq_spec(a: Rat, b: Rat) -> bool {
    a.num * b.den == b.num * a.den
}

proof fn lemma_div_step_lt(an: int, ad: int, bn: int, bd: int, qa: int, ra: int, qb: int, rb: int)
    by (nonlinear_arith)
    requires
        1 <= ad,
        1 <= bd,
        an == ad * qa + ra,
        0 <= ra < ad,
        bn == bd * qb + rb,
        0 <= rb < bd,
        qa < qb,
    ensures
        an * bd < bn * ad,
{
}

proof fn lemma_div_step_rem(an: int, ad: int, bn: int, bd: int, qa: int, ra: int, qb: int, rb: int)
    by (nonlinear_arith)
    requires
        an == ad * qa + ra,
        bn == bd * qb + rb,
        qa == qb,
    ensures
        an * bd - bn * ad == ra * bd - rb * ad,
{
}

/// Compare two fractions with positive parts without overflow, by
/// comparing integer parts and recursing on the flipped remainders.
#[verifier::rlimit(50)]
fn fraction_cmp_pos(an: i128, ad: i128, bn: i128, bd: i128) -> (r: Cmp)
    requires
        1 <= an,
        1 <= ad,
        1 <= bn,
        1 <= bd,
    ensures
        r == cmp3(an * bd, bn * ad),
    decreases ad + bd,
{
    let qa: i128 = ((an as u128) / (ad as u128)) as i128;
    let ra: i128 = ((an as u128) % (ad as u128)) as i128;
    let qb: i128 = ((bn as u128) / (bd as u128)) as i128;
    let rb: i128 = ((bn as u128) % (bd as u128)) as i128;
    proof {
        lemma_fundamental_div_mod(an as int, ad as int);
        lemma_mod_bound(an as int, ad as int);
        lemma_fundamental_div_mod(bn as int, bd as int);
        lemma_mod_bound(bn as int, bd as int);
        assert(an as int / ad as int <= an) by (nonlinear_arith)
            requires
                1 <= an,
                1 <= ad,
                an == ad * (an as int / ad as int) + (an as int % ad as int),
                0 <= an as int % ad as int;
        assert(0 <= an as int / ad as int) by (nonlinear_arith)
            requires
                1 <= an,
                1 <= ad,
                an == ad * (an as int / ad as int) + (an as int % ad as int),
                (an as int % ad as int) < ad;
        assert(bn as int / bd as int <= bn) by (nonlinear_arith)
            requires
                1 <= bn,
                1 <= bd,
                bn == bd * (bn as int / bd as int) + (bn as int % bd as int),
                0 <= bn as int % bd as int;
        assert(0 <= bn as int / bd as int) by (nonlinear_arith)
            requires
                1 <= bn,
                1 <= bd,
                bn == bd * (bn as int / bd as int) + (bn as int % bd as int),
                (bn as int % bd as int) < bd;
        assert(qa == an as int / ad as int);
        assert(ra == an as int % ad as int);
        assert(qb == bn as int / bd as int);
        assert(rb == bn as int % bd as int);
    }
    if qa < qb {
        proof {
            lemma_div_step_lt(an as int, ad as int, bn as int, bd as int, qa as int, ra as int,
                qb as int, rb as int);
            assert(an * bd < bn * ad);
            assert(cmp3(an * bd, bn * ad) == Cmp::Lt);
        }
        Cmp::Lt
    } else if qa > qb {
        proof {
            lemma_div_step_lt(bn as int, bd as int, an as int, ad as int, qb as int, rb as int,
                qa as int, ra as int);
            assert(bn * ad < an * bd);
            assert(cmp3(an * bd, bn * ad) == Cmp::Gt);
        }
        Cmp::Gt
    } else {
        proof {
            lemma_div_step_rem(an as int, ad as int, bn as int, bd as int, qa as int, ra as int,
                qb as int, rb as int);
        }
        if ra == 0 && rb == 0 {
            proof {
                assert(ra * (bd as int) == 0 && rb * (ad as int) == 0) by (nonlinear_arith)
                    requires
                        ra == 0,
                        rb == 0;
                assert(cmp3(an * bd, bn * ad) == Cmp::Eq);
            }
            Cmp::Eq
        } else if ra == 0 {
            proof {
                assert(0 < rb * (ad as int)) by (nonlinear_arith)
                    requires
                        1 <= rb,
                        1 <= ad;
                assert(ra * (bd as int) == 0) by (nonlinear_arith)
                    requires
                        ra == 0;
                assert(cmp3(an * bd, bn * ad) == Cmp::Lt);
            }
            Cmp::Lt
        } else if rb == 0 {
            proof {
                assert(0 < ra * (bd as int)) by (nonlinear_arith)
                    requires
                        1 <= ra,
                        1 <= bd;
                assert(rb * (ad as int) == 0) by (nonlinear_arith)
                    requires
                        rb == 0;
                assert(cmp3(an * bd, bn * ad) == Cmp::Gt);
            }
            Cmp::Gt
        } else {
            // a/b vs c/d with equal integer parts reduces to ra/ad vs rb/bd,
            // which is the reverse of bd/rb vs ad/ra.
            let rec: Cmp = fraction_cmp_pos(bd, rb, ad, ra);
            proof {
                assert((bd as int) * (ra as int) == (ra as int) * (bd as int)) by (nonlinear_arith);
                assert((ad as int) * (rb as int) == (rb as int) * (ad as int)) by (nonlinear_arith);
                assert(rec == cmp3(an * bd, bn * ad));
            }
            rec
        }
    }
}

/// Exact three-way comparison of `an/ad` with `bn/bd`, for positive
/// denominators; equivalent to the sign of `an*bd - bn*ad`, computed
/// without ever forming those products.
pub fn fraction_cmp(an: i128, ad: i128, bn: i128, bd: i128) -> (r: Cmp)
    requires
        1 <= ad,
        1 <= bd,
        an != i128::MIN,
        bn != i128::MIN,
    ensures
        r == cmp3(an * bd, bn * ad),
{
    if an <= 0 && bn >= 0 {
        if an == 0 && bn == 0 {
            Cmp::Eq
        } else {
            proof {
                assert(an * bd <= 0 && 0 <= bn * ad && (an < 0 ==> an * bd < 0) && (bn > 0
                    ==> bn * ad > 0)) by (nonlinear_arith)
                    requires
                        an <= 0,
                        bn >= 0,
                        1 <= ad,
                        1 <= bd;
            }
            Cmp::Lt
        }
    } else if an >= 0 && bn <= 0 {
        proof {
            assert(bn * ad <= 0 && 0 <= an * bd && (bn < 0 ==> bn * ad < 0) && (an > 0 ==> an * bd
                > 0)) by (nonlinear_arith)
                requires
                    an >= 0,
                    bn <= 0,
                    1 <= ad,
                    1 <= bd;
        }
        Cmp::Gt
    } else if an > 0 {
        fraction_cmp_pos(an, ad, bn, bd)
    } else {
        // Both negative: a/b < c/d iff (-c)/d < (-a)/b.
        let rec: Cmp = fraction_cmp_pos(-bn, bd, -an, ad);
        proof {
            assert((-bn) * (ad as int) == -(bn * ad) && (-an) * (bd as int) == -(an * bd))
                by (nonlinear_arith);
        }
        rec
    }
}

/// Exact three-way comparison of two well-formed rationals by value.
pub fn rat_cmp(a: &Rat, b: &Rat) -> (r: Cmp)
    requires
        rat_wf(*a),
        rat_wf(*b),
    ensures
        (r == Cmp::Lt <==> rat_lt_spec(*a, *b)),
        (r == Cmp::Eq <==> rat_eq_spec(*a, *b)),
        (r == Cmp::Gt <==> rat_lt_spec(*b, *a)),
{
    fraction_cmp(a.num, a.den, b.num, b.den)
}

/// `a < b` by value.
pub fn rat_lt(a: &Rat, b: &Rat) -> (r: bool)
    requires
        rat_wf(*a),
        rat_wf(*b),
    ensures
        r == rat_lt_spec(*a, *b),
{
    matches!(rat_cmp(a, b), Cmp::Lt)
}

/// `a <= b` by value.
pub fn rat_le(a: &Rat, b: &Rat) -> (r: bool)
    requires
        rat_wf(*a),
        rat_wf(*b),
    ensures
        r == rat_le_spec(*a, *b),
{
    !matches!(rat_cmp(b, a), Cmp::Lt)
}

/// `a == b` by value.
pub fn rat_eq(a: &Rat, b: &Rat) -> (r: bool)
    requires
        rat_wf(*a),
        rat_wf(*b),
    ensures
        r == rat_eq_spec(*a, *b),
{
    matches!(rat_cmp(a, b), Cmp::Eq)
}

/// The rational with the given integer value.
pub fn rat_from_int(n: i128) -> (r: Rat)
    requires
        n != i128::MIN,
    ensures
        r == (Rat { num: n, den: 1 }),
        rat_wf(r),
{
    Rat { num: n, den: 1 }
}

/// Both `x * y` and its negation fit in `i128`.
pub open spec fn mul_fits(x: i128, y: i128) -> bool {
    -(i128::MAX as int) <= x * y <= i128::MAX as int
}

/// Bound on a product from bounds on its factors.
pub proof fn lemma_mul_bound(x: int, y: int, a: int, b: int)
    by (nonlinear_arith)
    requires
        -a <= x <= a,
        -b <= y <= b,
        0 <= a,
        0 <= b,
    ensures
        -(a * b) <= x * y <= a * b,
{
}

/// Exact sum.  The result is the textbook formula over a common
/// denominator; no reduction is performed.
pub fn rat_add(a: &Rat, b: &Rat) -> (r: Rat)
    requires
        rat_wf(*a),
        rat_wf(*b),
        mul_fits(a.num, b.den),
        mul_fits(b.num, a.den),
        mul_fits(a.den, b.den),
        -(i128::MAX as int) <= a.num * b.den + b.num * a.den <= i128::MAX as int,
    ensures
        r.num == a.num * b.den + b.num * a.den,
        r.den == a.den * b.den,
        rat_wf(r),
{
    proof {
        assert(1 <= a.den * b.den) by (nonlinear_arith)
            requires
                1 <= a.den,
                1 <= b.den;
    }
    Rat { num: a.num * b.den + b.num * a.den, den: a.den * b.den }
}

/// Exact difference, as `rat_add` but subtracting.
pub fn rat_sub(a: &Rat, b: &Rat) -> (r: Rat)
    requires
        rat_wf(*a),
        rat_wf(*b),
        mul_fits(a.num, b.den),
        mul_fits(b.num, a.den),
        mul_fits(a.den, b.den),
        -(i128::MAX as int) <= a.num * b.den - b.num * a.den <= i128::MAX as int,
    ensures
        r.num == a.num * b.den - b.num * a.den,
        r.den == a.den * b.den,
        rat_wf(r),
{
    proof {
        assert(1 <= a.den * b.den) by (nonlinear_arith)
            requires
                1 <= a.den,
                1 <= b.den;
    }
    Rat { num: a.num * b.den - b.num * a.den, den: a.den * b.den }
}

/// Exact product.
pub fn rat_mul(a: &Rat, b: &Rat) -> (r: Rat)
    requires
        rat_wf(*a),
        rat_wf(*b),
        mul_fits(a.num, b.num),
        mul_fits(a.den, b.den),
    ensures
        r.num == a.num * b.num,
        r.den == a.den * b.den,
        rat_wf(r),
{
    proof {
        assert(1 <= a.den * b.den) by (nonlinear_arith)
            requires
                1 <= a.den,
                1 <= b.den;
    }
    Rat { num: a.num * b.num, den: a.den * b.den }
}

/// Exact quotient, with the denominator kept positive.
pub fn rat_div(a: &Rat, b: &Rat) -> (r: Rat)
    requires
        rat_wf(*a),
        rat_wf(*b),
        b.num != 0,
        b.num != i128::MIN,
        mul_fits(a.num, b.den),
        mul_fits(a.den, b.num),
    ensures
        b.num > 0 ==> r.num == a.num * b.den && r.den == a.den * b.num,
        b.num < 0 ==> r.num == -(a.num * b.den) && r.den == -(a.den * b.num),
        rat_wf(r),
{
    let num: i128 = a.num * b.den;
    let den: i128 = a.den * b.num;
    if b.num > 0 {
        proof {
            assert(1 <= a.den * b.num) by (nonlinear_arith)
                requires
                    1 <= a.den,
                    1 <= b.num;
        }
        Rat { num, den }
    } else {
        proof {
            assert(a.den * b.num <= -1) by (nonlinear_arith)
                requires
                    1 <= a.den,
                    b.num <= -1;
        }
        Rat { num: -num, den: -den }
    }
}

/// Exact negation.
pub fn rat_neg(a: &Rat) -> (r: Rat)
    requires
        rat_wf(*a),
    ensures
        r.num == -a.num,
        r.den == a.den,
        rat_wf(r),
{
    Rat { num: -a.num, den: a.den }
}

/// Nearest integer to `m / d` for nonnegative `m`, ties rounded up.
pub open spec fn round_nn_spec(m: int, d: int) -> int {
    if 2 * (m % d) < d {
        m / d
    } else {
        m / d + 1
    }
}

/// Nearest integer to `n / d`, ties rounded away from zero; the
/// rounding rule of `f64::round` transported to exact rationals.
pub open spec fn rat_round_spec(n: int, d: int) -> int {
    if n >= 0 {
        round_nn_spec(n, d)
    } else {
        -round_nn_spec(-n, d)
    }
}

fn round_nn(m: i128, d: i128) -> (r: i128)
    requires
        0 <= m,
        1 <= d,
    ensures
        r == round_nn_spec(m as int, d as int),
        0 <= r <= m,
{
    let q: i128 = ((m as u128) / (d as u128)) as i128;
    let rem: i128 = ((m as u128) % (d as u128)) as i128;
    proof {
        lemma_fundamental_div_mod(m as int, d as int);
        lemma_mod_bound(m as int, d as int);
        assert(0 <= m as int / d as int <= m) by (nonlinear_arith)
            requires
                0 <= m,
                1 <= d,
                m == d * (m as int / d as int) + (m as int % d as int),
                0 <= (m as int % d as int) < d;
    }
    if rem < d - rem {
        q
    } else {
        proof {
            assert((m as int / d as int) < m || (m as int % d as int) == 0) by (nonlinear_arith)
                requires
                    0 <= m,
                    1 <= d,
                    m == d * (m as int / d as int) + (m as int % d as int),
                    0 <= (m as int % d as int) < d;
            assert(q < m || rem == 0);
            assert(rem >= d - rem);
            assert(rem > 0);
        }
        q + 1
    }
}

/// Round a well-formed rational to the nearest integer, ties away
/// from zero.
pub fn rat_round(a: &Rat) -> (r: i128)
    requires
        rat_wf(*a),
    ensures
        r == rat_round_spec(a.num as int, a.den as int),
        -a.num <= r <= a.num || a.num <= r <= -a.num,
{
    if a.num >= 0 {
        let k: i128 = round_nn(a.num, a.den);
        k
    } else {
        let k: i128 = round_nn(-a.num, a.den);
        -k
    }
}

/// The rounded value of a nonnegative fraction stays within `[0, m]`.
proof fn lemma_round_nn_bound(m: int, d: int)
    requires
        0 <= m,
        1 <= d,
    ensures
        0 <= round_nn_spec(m, d) <= m,
{
    lemma_fundamental_div_mod(m, d);
    lemma_mod_bound(m, d);
    assert(0 <= m / d <= m) by (nonlinear_arith)
        requires
            0 <= m,
            1 <= d,
            m == d * (m / d) + (m % d),
            0 <= (m % d) < d;
    if 2 * (m % d) < d {
    } else {
        assert((m % d) > 0);
        assert((m / d) < m) by (nonlinear_arith)
            requires
                0 <= m,
                1 <= d,
                m == d * (m / d) + (m % d),
                0 < (m % d) < d;
    }
}

/// Rounding never grows the magnitude: the result stays between zero
/// and the numerator-over-denominator's integer envelope.
pub proof fn lemma_round_bound(n: int, d: int)
    requires
        1 <= d,
    ensures
        n >= 0 ==> 0 <= rat_round_spec(n, d) <= n,
        n < 0 ==> n <= rat_round_spec(n, d) <= 0,
{
    if n >= 0 {
        lemma_round_nn_bound(n, d);
    } else {
        lemma_round_nn_bound(-n, d);
    }
}

/// All compositions of order facts across a middle value.
pub proof fn lemma_rat_order_trans(a: Rat, b: Rat, c: Rat)
    by (nonlinear_arith)
    requires
        rat_wf(a),
        rat_wf(b),
        rat_wf(c),
    ensures
        rat_lt_spec(a, b) && rat_lt_spec(b, c) ==> rat_lt_spec(a, c),
        rat_le_spec(a, b) && rat_le_spec(b, c) ==> rat_le_spec(a, c),
        rat_eq_spec(a, b) && rat_eq_spec(b, c) ==> rat_eq_spec(a, c),
        rat_lt_spec(a, b) && rat_eq_spec(b, c) ==> rat_lt_spec(a, c),
        rat_eq_spec(a, b) && rat_lt_spec(b, c) ==> rat_lt_spec(a, c),
        rat_le_spec(a, b) && rat_eq_spec(b, c) ==> rat_le_spec(a, c),
        rat_eq_spec(a, b) && rat_le_spec(b, c) ==> rat_le_spec(a, c),
{
}





} // verus!
