//! Exact fractions of arbitrary-precision unsigned integers.
//!
//! A `Rational` holds a numerator and a denominator that is never zero.
//! Arithmetic is exact. Numerator and denominator are not reduced after
//! every operation, since computing a greatest common divisor is costly:
//! each value carries a count of the operations that went into it, and a
//! result is reduced only when that count reaches `REDUCTION_THRESHOLD`.
//! Reducing changes the pair that is stored, never the number it stands for.

use crate::bignum::big_add;
use crate::bignum::big_clone;
use crate::bignum::big_div;
use crate::bignum::big_eq;
use crate::bignum::big_from_u64;
use crate::bignum::big_lt;
use crate::bignum::big_mul;
use crate::bignum::big_rem;
use crate::bignum::big_sub;
use crate::bignum::big_to_decimal;
use crate::bignum::decimal;
use crate::bignum::big_value;
use crate::error::CodecError;
use crate::euclid;
use crate::euclid::lemma_gcd_divides;
use crate::fraction::lemma_reduced_is_same;
use crate::fraction::lemma_reduced_keeps_lowest_terms;
use crate::fraction::Fraction;
use num_bigint::BigUint;
use std::cmp::Ordering;
use vstd::prelude::*;
use vstd::std_specs::cmp::PartialEqSpec;
use vstd::std_specs::cmp::PartialEqSpecImpl;
use vstd::std_specs::cmp::PartialOrdSpec;
use vstd::std_specs::cmp::PartialOrdSpecImpl;
use vstd::string::StringExecFns;

verus! {

/// The operation count at which a result is reduced.
pub const REDUCTION_THRESHOLD: u8 = 10;

/// An exact fraction.
pub struct Rational {
    pub numerator: BigUint,
    pub denominator: BigUint,
    /// How many operations went into this value since it was last reduced.
    pub opcount: u8,
}

impl View for Rational {
    type V = Fraction;

    /// The numerator and the denominator as natural numbers.
    open spec fn view(&self) -> Fraction {
        Fraction { num: big_value(self.numerator), den: big_value(self.denominator) }
    }
}

/// The operation count of a result made from operands with counts `a` and
/// `b`: one more than their sum, held at the largest count that fits.
pub open spec fn joined_count(a: nat, b: nat) -> nat {
    if a + b + 1 > u8::MAX {
        u8::MAX as nat
    } else {
        a + b + 1
    }
}

/// What is stored for the fraction `f` that an operation produced with the
/// count `count`: `f` itself below the threshold, `f` reduced from there on.
pub open spec fn settled(f: Fraction, count: nat) -> Fraction {
    if count < REDUCTION_THRESHOLD {
        f
    } else {
        f.reduced()
    }
}

/// The count that is stored with it: reducing starts the count anew.
pub open spec fn settled_count(count: nat) -> nat {
    if count < REDUCTION_THRESHOLD {
        count
    } else {
        0
    }
}

/// A fraction as an operation leaves it: the pair that is stored, and the
/// operation count that goes with it.
pub struct Stored {
    pub value: Fraction,
    pub count: nat,
}

/// What an operation leaves that has computed `f` from operands with the
/// counts `a` and `b`.
pub open spec fn stored(f: Fraction, a: nat, b: nat) -> Stored {
    Stored {
        value: settled(f, joined_count(a, b)),
        count: settled_count(joined_count(a, b)),
    }
}

/// Whatever the count, what is stored stands for the number that was
/// computed.
pub proof fn lemma_settled_is_same(f: Fraction, count: nat)
    requires
        f.valid(),
    ensures
        settled(f, count).valid(),
        settled(f, count).same(f),
        settled_count(count) < REDUCTION_THRESHOLD,
{
    lemma_reduced_is_same(f);
}

/// The greatest common divisor of two big integers, by Euclid's algorithm.
pub fn gcd(a: &BigUint, b: &BigUint) -> (g: BigUint)
    ensures
        big_value(g) == euclid::gcd(big_value(*a), big_value(*b)),
{
    let zero = big_from_u64(0);
    let mut x = big_clone(a);
    let mut y = big_clone(b);
    while !big_eq(&y, &zero)
        invariant
            big_value(zero) == 0,
            euclid::gcd(big_value(x), big_value(y)) == euclid::gcd(
                big_value(*a),
                big_value(*b),
            ),
        decreases big_value(y),
    {
        let r = big_rem(&x, &y);
        x = y;
        y = r;
    }
    x
}

fn join_counts(a: u8, b: u8) -> (c: u8)
    ensures
        c == joined_count(a as nat, b as nat),
{
    a.saturating_add(b).saturating_add(1)
}

impl Rational {
    /// The denominator is not zero.
    pub open spec fn wf(&self) -> bool {
        self@.valid()
    }

    /// The pair that is stored, with its operation count.
    pub open spec fn stored(&self) -> Stored {
        Stored { value: self@, count: self.opcount as nat }
    }

    /// The fraction `numerator / denominator`, unless the denominator is
    /// zero.
    pub fn from_parts(numerator: BigUint, denominator: BigUint) -> (r: Result<Rational, CodecError>)
        ensures
            match r {
                Ok(f) => big_value(denominator) != 0 && f.numerator == numerator && f.denominator
                    == denominator && f.opcount == 0 && f.wf(),
                Err(e) => big_value(denominator) == 0 && e == CodecError::DivisionByZero,
            },
    {
        let zero = big_from_u64(0);
        if big_eq(&denominator, &zero) {
            Err(CodecError::DivisionByZero)
        } else {
            Ok(Rational { numerator, denominator, opcount: 0 })
        }
    }

    /// The fraction `numerator / denominator`, unless the denominator is
    /// zero.
    pub fn from(numerator: u64, denominator: u64) -> (r: Result<Rational, CodecError>)
        ensures
            match r {
                Ok(f) => denominator != 0 && f@ == (Fraction {
                    num: numerator as nat,
                    den: denominator as nat,
                }) && f.opcount == 0 && f.wf(),
                Err(e) => denominator == 0 && e == CodecError::DivisionByZero,
            },
    {
        Rational::from_parts(big_from_u64(numerator), big_from_u64(denominator))
    }

    /// The fraction as text: the numerator in decimal digits, a slash, and
    /// the denominator in decimal digits. The slash and the denominator are
    /// left out where the denominator is zero.
    pub fn to_text(&self) -> (text: String)
        ensures
            text@ == decimal(self@.num) + if self@.den > 0 {
                seq!['/'] + decimal(self@.den)
            } else {
                Seq::<char>::empty()
            },
    {
        let mut text = big_to_decimal(&self.numerator);
        let zero = big_from_u64(0);
        if big_lt(&zero, &self.denominator) {
            let denominator = big_to_decimal(&self.denominator);
            proof {
                reveal_strlit("/");
                assert("/"@ == seq!['/']);
            }
            text.append("/");
            text.append(denominator.as_str());
            assert(text@ == decimal(self@.num) + (seq!['/'] + decimal(self@.den)));
        } else {
            assert(text@ + Seq::<char>::empty() == text@);
        }
        text
    }

    /// Reduces the fraction if its operation count has reached the
    /// threshold, and leaves it as it is otherwise.
    pub fn simplify(self) -> (r: Rational)
        requires
            self.wf(),
        ensures
            r.wf(),
            r@ == settled(self@, self.opcount as nat),
            r.opcount == settled_count(self.opcount as nat),
            r@.same(self@),
    {
        proof {
            lemma_settled_is_same(self@, self.opcount as nat);
        }
        if self.opcount < REDUCTION_THRESHOLD {
            return self;
        }
        let divisor = gcd(&self.numerator, &self.denominator);
        proof {
            lemma_gcd_divides(self@.num, self@.den);
        }
        let one = big_from_u64(1);
        if big_eq(&divisor, &one) {
            proof {
                lemma_reduced_keeps_lowest_terms(self@);
            }
            Rational { numerator: self.numerator, denominator: self.denominator, opcount: 0 }
        } else {
            let numerator = big_div(&self.numerator, &divisor);
            let denominator = big_div(&self.denominator, &divisor);
            Rational { numerator, denominator, opcount: 0 }
        }
    }

    /// Reduces the fraction in place if its operation count has reached the
    /// threshold, and leaves it as it is otherwise.
    pub fn simplify_mut(&mut self)
        requires
            old(self).wf(),
        ensures
            final(self).wf(),
            final(self)@ == settled(old(self)@, old(self).opcount as nat),
            final(self).opcount == settled_count(old(self).opcount as nat),
            final(self)@.same(old(self)@),
    {
        proof {
            lemma_settled_is_same(self@, self.opcount as nat);
        }
        if self.opcount < REDUCTION_THRESHOLD {
            return ;
        }
        let divisor = gcd(&self.numerator, &self.denominator);
        proof {
            lemma_gcd_divides(self@.num, self@.den);
        }
        let one = big_from_u64(1);
        if big_eq(&divisor, &one) {
            proof {
                lemma_reduced_keeps_lowest_terms(self@);
            }
        } else {
            self.numerator = big_div(&self.numerator, &divisor);
            self.denominator = big_div(&self.denominator, &divisor);
        }
        self.opcount = 0;
    }

    /// The sum: `(a/b) + (c/d) = (a·d + c·b) / (b·d)`.
    pub fn add(self, rhs: Rational) -> (r: Rational)
        requires
            self.wf(),
            rhs.wf(),
        ensures
            r.wf(),
            r@ == settled(self@.plus(rhs@), joined_count(self.opcount as nat, rhs.opcount as nat)),
            r.opcount == settled_count(joined_count(self.opcount as nat, rhs.opcount as nat)),
            r@.same(self@.plus(rhs@)),
    {
        let a1 = big_mul(&self.numerator, &rhs.denominator);
        let b1 = big_mul(&rhs.numerator, &self.denominator);
        let ab2 = big_mul(&self.denominator, &rhs.denominator);
        proof {
            lemma_product_is_positive(self@.den, rhs@.den);
        }
        let frac = Rational {
            numerator: big_add(&a1, &b1),
            denominator: ab2,
            opcount: join_counts(self.opcount, rhs.opcount),
        };
        frac.simplify()
    }

    /// The sum, stored in place of the first operand.
    pub fn add_assign(&mut self, other: Rational)
        requires
            old(self).wf(),
            other.wf(),
        ensures
            final(self).wf(),
            final(self)@ == settled(
                old(self)@.plus(other@),
                joined_count(old(self).opcount as nat, other.opcount as nat),
            ),
            final(self).opcount == settled_count(
                joined_count(old(self).opcount as nat, other.opcount as nat),
            ),
            final(self)@.same(old(self)@.plus(other@)),
    {
        let a1 = big_mul(&self.numerator, &other.denominator);
        let b1 = big_mul(&other.numerator, &self.denominator);
        proof {
            lemma_product_is_positive(self@.den, other@.den);
        }
        self.numerator = big_add(&a1, &b1);
        self.denominator = big_mul(&self.denominator, &other.denominator);
        self.opcount = join_counts(self.opcount, other.opcount);
        self.simplify_mut()
    }

    /// The difference: `(a/b) − (c/d) = (a·d − c·b) / (b·d)`. There are no
    /// negative fractions: taking away the larger number is an error.
    pub fn sub(self, rhs: Rational) -> (r: Result<Rational, CodecError>)
        requires
            self.wf(),
            rhs.wf(),
        ensures
            match r {
                Ok(d) => !self@.lt(rhs@) && d.wf() && d@ == settled(
                    self@.minus(rhs@),
                    joined_count(self.opcount as nat, rhs.opcount as nat),
                ) && d.opcount == settled_count(
                    joined_count(self.opcount as nat, rhs.opcount as nat),
                ) && d@.same(self@.minus(rhs@)),
                Err(e) => self@.lt(rhs@) && e == CodecError::Underflow,
            },
    {
        let a1 = big_mul(&self.numerator, &rhs.denominator);
        let b1 = big_mul(&rhs.numerator, &self.denominator);
        if big_lt(&a1, &b1) {
            return Err(CodecError::Underflow);
        }
        let ab2 = big_mul(&self.denominator, &rhs.denominator);
        proof {
            lemma_product_is_positive(self@.den, rhs@.den);
        }
        let frac = Rational {
            numerator: big_sub(&a1, &b1),
            denominator: ab2,
            opcount: join_counts(self.opcount, rhs.opcount),
        };
        Ok(frac.simplify())
    }

    /// The product: `(a/b) · (c/d) = (a·c) / (b·d)`.
    pub fn mul(self, rhs: Rational) -> (r: Rational)
        requires
            self.wf(),
            rhs.wf(),
        ensures
            r.wf(),
            r@ == settled(self@.times(rhs@), joined_count(self.opcount as nat, rhs.opcount as nat)),
            r.opcount == settled_count(joined_count(self.opcount as nat, rhs.opcount as nat)),
            r@.same(self@.times(rhs@)),
    {
        proof {
            lemma_product_is_positive(self@.den, rhs@.den);
        }
        let frac = Rational {
            numerator: big_mul(&self.numerator, &rhs.numerator),
            denominator: big_mul(&self.denominator, &rhs.denominator),
            opcount: join_counts(self.opcount, rhs.opcount),
        };
        frac.simplify()
    }

    /// The product, stored in place of the first operand.
    pub fn mul_assign(&mut self, other: Rational)
        requires
            old(self).wf(),
            other.wf(),
        ensures
            final(self).wf(),
            final(self)@ == settled(
                old(self)@.times(other@),
                joined_count(old(self).opcount as nat, other.opcount as nat),
            ),
            final(self).opcount == settled_count(
                joined_count(old(self).opcount as nat, other.opcount as nat),
            ),
            final(self)@.same(old(self)@.times(other@)),
    {
        proof {
            lemma_product_is_positive(self@.den, other@.den);
        }
        self.numerator = big_mul(&self.numerator, &other.numerator);
        self.denominator = big_mul(&self.denominator, &other.denominator);
        self.opcount = join_counts(self.opcount, other.opcount);
        self.simplify_mut();
    }

    /// The quotient: `(a/b) / (c/d) = (a·d) / (b·c)`. Dividing by a
    /// fraction that stands for zero is an error.
    pub fn div(self, rhs: Rational) -> (r: Result<Rational, CodecError>)
        requires
            self.wf(),
            rhs.wf(),
        ensures
            match r {
                Ok(q) => rhs@.num != 0 && q.wf() && q@ == settled(
                    self@.over(rhs@),
                    joined_count(self.opcount as nat, rhs.opcount as nat),
                ) && q.opcount == settled_count(
                    joined_count(self.opcount as nat, rhs.opcount as nat),
                ) && q@.same(self@.over(rhs@)),
                Err(e) => rhs@.num == 0 && e == CodecError::DivisionByZero,
            },
    {
        let zero = big_from_u64(0);
        if big_eq(&rhs.numerator, &zero) {
            return Err(CodecError::DivisionByZero);
        }
        proof {
            lemma_product_is_positive(self@.den, rhs@.num);
        }
        let frac = Rational {
            numerator: big_mul(&self.numerator, &rhs.denominator),
            denominator: big_mul(&self.denominator, &rhs.numerator),
            opcount: join_counts(self.opcount, rhs.opcount),
        };
        Ok(frac.simplify())
    }
}

impl PartialEq for Rational {
    /// Whether both fractions stand for the same number.
    fn eq(&self, other: &Rational) -> (r: bool) {
        let a1 = big_mul(&self.numerator, &other.denominator);
        let a2 = big_mul(&other.numerator, &self.denominator);
        big_eq(&a1, &a2)
    }
}

impl PartialEqSpecImpl for Rational {
    open spec fn obeys_eq_spec() -> bool {
        true
    }

    /// `a/b == c/d` iff `a·d == c·b`.
    open spec fn eq_spec(&self, other: &Rational) -> bool {
        self@.same(other@)
    }
}

impl PartialOrd for Rational {
    /// How the numbers that the two fractions stand for compare.
    fn partial_cmp(&self, other: &Rational) -> (r: Option<Ordering>) {
        let a1 = big_mul(&self.numerator, &other.denominator);
        let a2 = big_mul(&other.numerator, &self.denominator);
        if big_lt(&a1, &a2) {
            Some(Ordering::Less)
        } else if big_eq(&a1, &a2) {
            Some(Ordering::Equal)
        } else {
            Some(Ordering::Greater)
        }
    }
}

impl PartialOrdSpecImpl for Rational {
    open spec fn obeys_partial_cmp_spec() -> bool {
        true
    }

    /// `a/b < c/d` iff `a·d < c·b`.
    open spec fn partial_cmp_spec(&self, other: &Rational) -> Option<Ordering> {
        if self@.lt(other@) {
            Some(Ordering::Less)
        } else if self@.same(other@) {
            Some(Ordering::Equal)
        } else {
            Some(Ordering::Greater)
        }
    }
}

/// `==` and `<` on fractions are consistent: two fractions are equal
/// exactly when neither is less than the other.
pub proof fn lemma_equal_iff_neither_less(a: Rational, b: Rational)
    ensures
        PartialEqSpec::eq_spec(&a, &b) <==> PartialOrdSpec::partial_cmp_spec(&a, &b) != Some(
            Ordering::Less,
        ) && PartialOrdSpec::partial_cmp_spec(&b, &a) != Some(Ordering::Less),
        PartialEqSpec::eq_spec(&a, &b) <==> PartialOrdSpec::partial_cmp_spec(&a, &b) == Some(
            Ordering::Equal,
        ),
{
}

impl Clone for Rational {
    /// A second fraction with the same numerator, denominator and count.
    fn clone(&self) -> (r: Rational)
        ensures
            r@ == self@,
            r.opcount == self.opcount as nat,
    {
        Rational {
            numerator: big_clone(&self.numerator),
            denominator: big_clone(&self.denominator),
            opcount: self.opcount,
        }
    }
}

proof fn lemma_product_is_positive(a: nat, b: nat)
    requires
        a > 0,
        b > 0,
    ensures
        a * b > 0,
{
    assert(a * b > 0) by (nonlinear_arith)
        requires
            a > 0,
            b > 0,
    ;
}

} // verus!
