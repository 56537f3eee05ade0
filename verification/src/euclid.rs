//! The greatest common divisor of two natural numbers, by Euclid's
//! algorithm, and the facts about it that reducing a fraction rests on.

use vstd::arithmetic::div_mod::lemma_fundamental_div_mod;
use vstd::arithmetic::div_mod::lemma_mod_multiples_basic;
use vstd::arithmetic::div_mod::lemma_small_mod;
use vstd::prelude::*;

verus! {

/// Euclid's algorithm: `gcd(a, 0) = a`, and `gcd(a, b) = gcd(b, a mod b)`
/// otherwise.
pub open spec fn gcd(a: nat, b: nat) -> nat
    decreases b,
{
    if b == 0 {
        a
    } else {
        gcd(b, a % b)
    }
}

/// A number that `g` divides is `g` times its quotient by `g`.
pub proof fn lemma_exact_quotient(a: nat, g: nat)
    requires
        g > 0,
        a % g == 0,
    ensures
        a == g * (a / g),
{
    lemma_fundamental_div_mod(a as int, g as int);
}

/// Every multiple of `g` leaves no remainder when divided by `g`.
pub proof fn lemma_multiple_has_no_remainder(g: int, k: int)
    requires
        g > 0,
    ensures
        (g * k) % g == 0,
{
    lemma_mod_multiples_basic(k, g);
    assert(g * k == k * g) by (nonlinear_arith);
}

/// The greatest common divisor of two numbers that are not both zero is
/// positive and divides each of them.
pub proof fn lemma_gcd_divides(a: nat, b: nat)
    requires
        a > 0 || b > 0,
    ensures
        gcd(a, b) > 0,
        a % gcd(a, b) == 0,
        b % gcd(a, b) == 0,
    decreases b,
{
    if b == 0 {
        lemma_multiple_has_no_remainder(a as int, 1);
        lemma_small_mod(0, a);
    } else {
        let q = a / b;
        let r = a % b;
        let g = gcd(b, r);
        lemma_gcd_divides(b, r);
        lemma_exact_quotient(b, g);
        lemma_exact_quotient(r, g);
        lemma_fundamental_div_mod(a as int, b as int);
        let bq = b / g;
        let rq = r / g;
        assert(a == g * (bq * q + rq)) by (nonlinear_arith)
            requires
                a == b * q + r,
                b == g * bq,
                r == g * rq,
        ;
        lemma_multiple_has_no_remainder(g as int, (bq * q + rq) as int);
    }
}

/// Whatever divides two numbers divides their greatest common divisor.
pub proof fn lemma_common_divisor_divides_gcd(a: nat, b: nat, d: nat)
    requires
        d > 0,
        a % d == 0,
        b % d == 0,
    ensures
        gcd(a, b) % d == 0,
    decreases b,
{
    if b != 0 {
        let q = a / b;
        let r = a % b;
        lemma_exact_quotient(a, d);
        lemma_exact_quotient(b, d);
        lemma_fundamental_div_mod(a as int, b as int);
        let aq = a / d;
        let bq = b / d;
        assert(r == d * (aq - bq * q)) by (nonlinear_arith)
            requires
                a == b * q + r,
                a == d * aq,
                b == d * bq,
        ;
        lemma_multiple_has_no_remainder(d as int, aq - bq * q);
        lemma_common_divisor_divides_gcd(b, r, d);
    }
}

/// Once two numbers have been divided by their greatest common divisor,
/// nothing but 1 divides both quotients.
pub proof fn lemma_quotients_are_coprime(a: nat, b: nat)
    requires
        a > 0 || b > 0,
    ensures
        gcd(a / gcd(a, b), b / gcd(a, b)) == 1,
{
    let g = gcd(a, b);
    lemma_gcd_divides(a, b);
    lemma_exact_quotient(a, g);
    lemma_exact_quotient(b, g);
    let aq = a / g;
    let bq = b / g;
    assert(aq > 0 || bq > 0) by (nonlinear_arith)
        requires
            a == g * aq,
            b == g * bq,
            a > 0 || b > 0,
    ;
    let h = gcd(aq, bq);
    lemma_gcd_divides(aq, bq);
    lemma_exact_quotient(aq, h);
    lemma_exact_quotient(bq, h);
    let ah = aq / h;
    let bh = bq / h;
    // g * h divides both a and b, hence g itself.
    let gh = g * h;
    assert(gh > 0) by (nonlinear_arith)
        requires
            gh == g * h,
            g > 0,
            h > 0,
    ;
    assert(a == gh * ah) by (nonlinear_arith)
        requires
            a == g * aq,
            aq == h * ah,
            gh == g * h,
    ;
    assert(b == gh * bh) by (nonlinear_arith)
        requires
            b == g * bq,
            bq == h * bh,
            gh == g * h,
    ;
    lemma_multiple_has_no_remainder(gh as int, ah as int);
    lemma_multiple_has_no_remainder(gh as int, bh as int);
    lemma_common_divisor_divides_gcd(a, b, gh);
    lemma_exact_quotient(g, gh);
    let k = g / gh;
    assert(h == 1) by (nonlinear_arith)
        requires
            g == gh * k,
            gh == g * h,
            g > 0,
            h > 0,
    ;
}

} // verus!
