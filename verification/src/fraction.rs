//! Fractions of natural numbers as mathematical values: what an exact
//! fraction stands for, and the laws of its arithmetic.
//!
//! A fraction is a pair of a numerator and a denominator. Two pairs may
//! stand for the same number; `same` says when they do, and the lemmas of
//! this module show that comparison and arithmetic do not tell such pairs
//! apart.

use crate::euclid::gcd;
use crate::euclid::lemma_exact_quotient;
use crate::euclid::lemma_gcd_divides;
use crate::euclid::lemma_quotients_are_coprime;
use vstd::prelude::*;

verus! {

/// A numerator over a denominator. It stands for a number when the
/// denominator is not zero.
pub struct Fraction {
    pub num: nat,
    pub den: nat,
}

impl Fraction {
    /// The whole number `n` as a fraction.
    pub open spec fn whole(n: nat) -> Fraction {
        Fraction { num: n, den: 1 }
    }

    /// One half.
    pub open spec fn half() -> Fraction {
        Fraction { num: 1, den: 2 }
    }

    /// The fraction stands for a number: its denominator is not zero.
    pub open spec fn valid(self) -> bool {
        self.den > 0
    }

    /// Both fractions stand for the same number: `a/b == c/d` iff `a·d == c·b`.
    pub open spec fn same(self, other: Fraction) -> bool {
        self.num * other.den == other.num * self.den
    }

    /// This fraction stands for the smaller number: `a/b < c/d` iff `a·d < c·b`.
    pub open spec fn lt(self, other: Fraction) -> bool {
        self.num * other.den < other.num * self.den
    }

    /// `(a/b) + (c/d) = (a·d + c·b) / (b·d)`.
    pub open spec fn plus(self, other: Fraction) -> Fraction {
        Fraction {
            num: self.num * other.den + other.num * self.den,
            den: self.den * other.den,
        }
    }

    /// `(a/b) − (c/d) = (a·d − c·b) / (b·d)`, meant for `c/d` not above `a/b`.
    pub open spec fn minus(self, other: Fraction) -> Fraction {
        Fraction {
            num: (self.num * other.den - other.num * self.den) as nat,
            den: self.den * other.den,
        }
    }

    /// `(a/b) · (c/d) = (a·c) / (b·d)`.
    pub open spec fn times(self, other: Fraction) -> Fraction {
        Fraction { num: self.num * other.num, den: self.den * other.den }
    }

    /// `(a/b) / (c/d) = (a·d) / (b·c)`, meant for `c` not zero.
    pub open spec fn over(self, other: Fraction) -> Fraction {
        Fraction { num: self.num * other.den, den: self.den * other.num }
    }

    /// Numerator and denominator divided by their greatest common divisor.
    pub open spec fn reduced(self) -> Fraction {
        let g = gcd(self.num, self.den);
        Fraction { num: self.num / g, den: self.den / g }
    }
}

/// Sums, differences and products of fractions that stand for numbers stand
/// for numbers, and so does a quotient by a fraction that is not zero.
pub proof fn lemma_arithmetic_is_valid(a: Fraction, b: Fraction)
    requires
        a.valid(),
        b.valid(),
    ensures
        a.plus(b).valid(),
        a.minus(b).valid(),
        a.times(b).valid(),
        b.num > 0 ==> a.over(b).valid(),
{
    let (ad, bd, bn) = (a.den, b.den, b.num);
    assert(ad * bd > 0 && (bn > 0 ==> ad * bn > 0)) by (nonlinear_arith)
        requires
            ad > 0,
            bd > 0,
    ;
}

/// Every fraction stands for the same number as itself, and `same` can be
/// read in either direction.
pub proof fn lemma_same_is_symmetric(a: Fraction, b: Fraction)
    ensures
        a.same(a),
        a.same(b) == b.same(a),
{
}

/// Two fractions that stand for the same number as a third stand for the
/// same number.
pub proof fn lemma_same_is_transitive(a: Fraction, b: Fraction, c: Fraction)
    requires
        b.valid(),
        a.same(b),
        b.same(c),
    ensures
        a.same(c),
{
    let (an, ad, bn, bd, cn, cd) = (a.num, a.den, b.num, b.den, c.num, c.den);
    assert((an * cd) * bd == (cn * ad) * bd) by (nonlinear_arith)
        requires
            an * bd == bn * ad,
            bn * cd == cn * bd,
    ;
    assert(an * cd == cn * ad) by (nonlinear_arith)
        requires
            (an * cd) * bd == (cn * ad) * bd,
            bd > 0,
    ;
}

/// Ordering and equality are consistent: two fractions stand for the same
/// number exactly when neither is less than the other.
pub proof fn lemma_same_iff_neither_less(a: Fraction, b: Fraction)
    ensures
        a.same(b) <==> !a.lt(b) && !b.lt(a),
        !(a.lt(b) && b.lt(a)),
{
}

/// Which of two numbers is the smaller does not depend on the pair that
/// the first is written as.
pub proof fn lemma_lt_respects_same_left(a: Fraction, b: Fraction, c: Fraction)
    requires
        a.valid(),
        b.valid(),
        a.same(b),
    ensures
        a.lt(c) == b.lt(c),
        c.lt(a) == c.lt(b),
{
    let (an, ad, bn, bd, cn, cd) = (a.num, a.den, b.num, b.den, c.num, c.den);
    // a < c, scaled by b's denominator, is b < c scaled by a's.
    assert((an * cd) * bd == (bn * cd) * ad) by (nonlinear_arith)
        requires
            an * bd == bn * ad,
    ;
    assert((cn * ad) * bd == (cn * bd) * ad) by (nonlinear_arith);
    assert((an * cd < cn * ad) == ((an * cd) * bd < (cn * ad) * bd)) by (nonlinear_arith)
        requires
            bd > 0,
    ;
    assert((bn * cd < cn * bd) == ((bn * cd) * ad < (cn * bd) * ad)) by (nonlinear_arith)
        requires
            ad > 0,
    ;
    assert((cn * ad < an * cd) == ((cn * ad) * bd < (an * cd) * bd)) by (nonlinear_arith)
        requires
            bd > 0,
    ;
    assert((cn * bd < bn * cd) == ((cn * bd) * ad < (bn * cd) * ad)) by (nonlinear_arith)
        requires
            ad > 0,
    ;
}

/// Sums of fractions that stand for the same numbers stand for the same
/// number.
pub proof fn lemma_plus_respects_same(a: Fraction, b: Fraction, c: Fraction, d: Fraction)
    requires
        a.same(b),
        c.same(d),
    ensures
        a.plus(c).same(b.plus(d)),
{
    let (an, ad, bn, bd) = (a.num, a.den, b.num, b.den);
    let (cn, cd, dn, dd) = (c.num, c.den, d.num, d.den);
    assert((an * cd + cn * ad) * (bd * dd) == (bn * dd + dn * bd) * (ad * cd))
        by (nonlinear_arith)
        requires
            an * bd == bn * ad,
            cn * dd == dn * cd,
    {
        assert((an * cd) * (bd * dd) == (an * bd) * (cd * dd));
        assert((bn * dd) * (ad * cd) == (bn * ad) * (cd * dd));
        assert((cn * ad) * (bd * dd) == (cn * dd) * (ad * bd));
        assert((dn * bd) * (ad * cd) == (dn * cd) * (ad * bd));
    }
}

/// Products of fractions that stand for the same numbers stand for the
/// same number.
pub proof fn lemma_times_respects_same(a: Fraction, b: Fraction, c: Fraction, d: Fraction)
    requires
        a.same(b),
        c.same(d),
    ensures
        a.times(c).same(b.times(d)),
{
    let (an, ad, bn, bd) = (a.num, a.den, b.num, b.den);
    let (cn, cd, dn, dd) = (c.num, c.den, d.num, d.den);
    assert((an * cn) * (bd * dd) == (bn * dn) * (ad * cd)) by (nonlinear_arith)
        requires
            an * bd == bn * ad,
            cn * dd == dn * cd,
    {
        assert((an * cn) * (bd * dd) == (an * bd) * (cn * dd));
        assert((bn * dn) * (ad * cd) == (bn * ad) * (dn * cd));
    }
}

/// Differences of fractions that stand for the same numbers stand for the
/// same number, where the number taken away is not the larger.
pub proof fn lemma_minus_respects_same(a: Fraction, b: Fraction, c: Fraction, d: Fraction)
    requires
        a.valid(),
        b.valid(),
        c.valid(),
        d.valid(),
        a.same(b),
        c.same(d),
        !a.lt(c),
    ensures
        !b.lt(d),
        a.minus(c).same(b.minus(d)),
{
    lemma_lt_respects_same_left(a, b, c);
    lemma_lt_respects_same_left(c, d, b);
    let (an, ad, bn, bd) = (a.num, a.den, b.num, b.den);
    let (cn, cd, dn, dd) = (c.num, c.den, d.num, d.den);
    assert((an * cd - cn * ad) * (bd * dd) == (bn * dd - dn * bd) * (ad * cd))
        by (nonlinear_arith)
        requires
            an * bd == bn * ad,
            cn * dd == dn * cd,
    {
        assert((an * cd) * (bd * dd) == (an * bd) * (cd * dd));
        assert((bn * dd) * (ad * cd) == (bn * ad) * (cd * dd));
        assert((cn * ad) * (bd * dd) == (cn * dd) * (ad * bd));
        assert((dn * bd) * (ad * cd) == (dn * cd) * (ad * bd));
    }
}

/// Quotients of fractions that stand for the same numbers stand for the
/// same number.
pub proof fn lemma_over_respects_same(a: Fraction, b: Fraction, c: Fraction, d: Fraction)
    requires
        a.same(b),
        c.same(d),
    ensures
        a.over(c).same(b.over(d)),
{
    let (an, ad, bn, bd) = (a.num, a.den, b.num, b.den);
    let (cn, cd, dn, dd) = (c.num, c.den, d.num, d.den);
    assert((an * cd) * (bd * dn) == (bn * dd) * (ad * cn)) by (nonlinear_arith)
        requires
            an * bd == bn * ad,
            cn * dd == dn * cd,
    {
        assert((an * cd) * (bd * dn) == (an * bd) * (dn * cd));
        assert((bn * dd) * (ad * cn) == (bn * ad) * (cn * dd));
    }
}

/// Reducing a fraction does not change the number it stands for.
pub proof fn lemma_reduced_is_same(f: Fraction)
    requires
        f.valid(),
    ensures
        f.reduced().valid(),
        f.reduced().same(f),
{
    let g = gcd(f.num, f.den);
    lemma_gcd_divides(f.num, f.den);
    lemma_exact_quotient(f.num, g);
    lemma_exact_quotient(f.den, g);
    let (n, d) = (f.num, f.den);
    let (nq, dq) = (f.num / g, f.den / g);
    assert(dq > 0 && nq * d == n * dq) by (nonlinear_arith)
        requires
            n == g * nq,
            d == g * dq,
            d > 0,
            g > 0,
    ;
}

/// A fraction whose numerator and denominator have no common divisor but 1
/// is left as it is by reducing.
pub proof fn lemma_reduced_keeps_lowest_terms(f: Fraction)
    requires
        gcd(f.num, f.den) == 1,
    ensures
        f.reduced() == f,
{
}

/// Reducing twice gives what reducing once gives.
pub proof fn lemma_reduced_is_idempotent(f: Fraction)
    requires
        f.valid(),
    ensures
        f.reduced().reduced() == f.reduced(),
{
    lemma_quotients_are_coprime(f.num, f.den);
    let r = f.reduced();
    assert(gcd(r.num, r.den) == 1);
    lemma_reduced_keeps_lowest_terms(r);
}

} // verus!
