use num_bigint::BigUint;
use range_coder::error::CodecError;
use range_coder::rational::gcd;
use range_coder::rational::Rational;
use range_coder::rational::REDUCTION_THRESHOLD;

fn big(n: u64) -> BigUint {
    BigUint::from(n)
}

fn frac(n: u64, d: u64) -> Rational {
    Rational::from(n, d).unwrap()
}

fn holds(r: &Rational, n: u64, d: u64) -> bool {
    r.numerator == big(n) && r.denominator == big(d)
}

#[test]
fn from_keeps_numerator_and_denominator() {
    let r = frac(6, 8);
    assert!(holds(&r, 6, 8));
    assert_eq!(r.opcount, 0);
}

#[test]
fn from_with_zero_denominator_is_division_by_zero() {
    assert_eq!(Rational::from(3, 0).err(), Some(CodecError::DivisionByZero));
    assert_eq!(Rational::from(0, 0).err(), Some(CodecError::DivisionByZero));
}

#[test]
fn from_parts_takes_big_integers() {
    let r = Rational::from_parts(big(7), big(9)).unwrap();
    assert!(holds(&r, 7, 9));
    assert_eq!(r.opcount, 0);
    assert_eq!(
        Rational::from_parts(big(7), big(0)).err(),
        Some(CodecError::DivisionByZero)
    );
}

#[test]
fn add_cross_multiplies() {
    let r = frac(1, 2).add(frac(1, 3));
    assert!(holds(&r, 5, 6));
    assert_eq!(r.opcount, 1);
}

#[test]
fn add_does_not_reduce_below_the_threshold() {
    let r = frac(1, 4).add(frac(1, 4));
    assert!(holds(&r, 8, 16));
}

#[test]
fn add_assign_is_add_in_place() {
    let mut r = frac(1, 2);
    r.add_assign(frac(1, 3));
    assert!(holds(&r, 5, 6));
    assert_eq!(r.opcount, 1);
    r.add_assign(frac(1, 6));
    assert!(holds(&r, 36, 36));
    assert_eq!(r.opcount, 2);
}

#[test]
fn sub_cross_multiplies() {
    let r = frac(1, 2).sub(frac(1, 3)).unwrap();
    assert!(holds(&r, 1, 6));
    assert_eq!(r.opcount, 1);
}

#[test]
fn sub_of_equal_values_is_zero() {
    let r = frac(2, 4).sub(frac(1, 2)).unwrap();
    assert!(holds(&r, 0, 8));
}

#[test]
fn sub_below_zero_is_underflow() {
    assert_eq!(frac(1, 3).sub(frac(1, 2)).err(), Some(CodecError::Underflow));
    assert_eq!(frac(0, 1).sub(frac(1, 1000)).err(), Some(CodecError::Underflow));
}

#[test]
fn mul_multiplies_both_parts() {
    let r = frac(2, 3).mul(frac(3, 4));
    assert!(holds(&r, 6, 12));
    assert_eq!(r.opcount, 1);
}

#[test]
fn mul_assign_is_mul_in_place() {
    let mut r = frac(2, 3);
    r.mul_assign(frac(3, 4));
    assert!(holds(&r, 6, 12));
    assert_eq!(r.opcount, 1);
}

#[test]
fn div_multiplies_by_the_inverse() {
    let r = frac(1, 2).div(frac(3, 4)).unwrap();
    assert!(holds(&r, 4, 6));
    assert_eq!(r.opcount, 1);
}

#[test]
fn div_by_zero_is_division_by_zero() {
    assert_eq!(frac(1, 2).div(frac(0, 5)).err(), Some(CodecError::DivisionByZero));
}

#[test]
fn counts_of_both_operands_are_joined() {
    let a = frac(1, 2).add(frac(1, 2));
    let b = frac(1, 3).mul(frac(1, 3)).mul(frac(1, 3));
    assert_eq!(a.opcount, 1);
    assert_eq!(b.opcount, 2);
    let c = a.mul(b);
    assert_eq!(c.opcount, 4);
}

#[test]
fn tenth_operation_reduces_and_starts_the_count_anew() {
    let mut r = frac(2, 4);
    for done in 1..REDUCTION_THRESHOLD {
        r = r.mul(frac(1, 1));
        assert_eq!(r.opcount, done);
        assert!(holds(&r, 2, 4));
    }
    r = r.mul(frac(1, 1));
    assert_eq!(r.opcount, 0);
    assert!(holds(&r, 1, 2));
}

#[test]
fn tenth_operation_in_place_reduces() {
    let mut r = frac(6, 4);
    for _ in 1..REDUCTION_THRESHOLD {
        r.mul_assign(frac(1, 1));
    }
    assert_eq!(r.opcount, 9);
    assert!(holds(&r, 6, 4));
    r.add_assign(frac(0, 1));
    assert_eq!(r.opcount, 0);
    assert!(holds(&r, 3, 2));
}

#[test]
fn count_is_held_at_the_largest() {
    let mut a = frac(1, 2);
    a.opcount = 200;
    let mut b = frac(1, 3);
    b.opcount = 100;
    let r = a.add(b);
    assert_eq!(r.opcount, 0);
    assert!(holds(&r, 5, 6));
}

#[test]
fn simplify_below_the_threshold_changes_nothing() {
    let mut r = frac(6, 8);
    r.opcount = 9;
    let r = r.simplify();
    assert!(holds(&r, 6, 8));
    assert_eq!(r.opcount, 9);
}

#[test]
fn simplify_at_the_threshold_divides_by_the_gcd() {
    let mut r = frac(6, 8);
    r.opcount = 10;
    let r = r.simplify();
    assert!(holds(&r, 3, 4));
    assert_eq!(r.opcount, 0);
}

#[test]
fn simplify_keeps_the_value() {
    let mut r = frac(462, 1071);
    r.opcount = 12;
    let s = r.clone().simplify();
    assert!(holds(&s, 22, 51));
    assert!(s == r);
}

#[test]
fn simplify_of_lowest_terms_changes_only_the_count() {
    let mut r = frac(3, 4);
    r.opcount = 10;
    let r = r.simplify();
    assert!(holds(&r, 3, 4));
    assert_eq!(r.opcount, 0);
}

#[test]
fn simplify_twice_is_simplify_once() {
    let mut r = frac(48, 180);
    r.opcount = 10;
    let mut once = r.simplify();
    assert!(holds(&once, 4, 15));
    once.opcount = 10;
    let twice = once.simplify();
    assert!(holds(&twice, 4, 15));
}

#[test]
fn simplify_mut_is_simplify_in_place() {
    let mut r = frac(6, 8);
    r.opcount = 9;
    r.simplify_mut();
    assert!(holds(&r, 6, 8));
    assert_eq!(r.opcount, 9);
    r.opcount = 10;
    r.simplify_mut();
    assert!(holds(&r, 3, 4));
    assert_eq!(r.opcount, 0);
    r.opcount = 255;
    r.simplify_mut();
    assert!(holds(&r, 3, 4));
    assert_eq!(r.opcount, 0);
}

#[test]
fn simplify_of_zero_is_zero_over_one() {
    let mut r = frac(0, 7);
    r.opcount = 10;
    let r = r.simplify();
    assert!(holds(&r, 0, 1));
}

#[test]
fn gcd_is_euclids() {
    assert_eq!(gcd(&big(12), &big(18)), big(6));
    assert_eq!(gcd(&big(18), &big(12)), big(6));
    assert_eq!(gcd(&big(17), &big(5)), big(1));
    assert_eq!(gcd(&big(9), &big(0)), big(9));
    assert_eq!(gcd(&big(0), &big(9)), big(9));
    assert_eq!(gcd(&big(0), &big(0)), big(0));
}

#[test]
fn gcd_of_numbers_beyond_a_machine_word() {
    let p = big(u64::MAX) * big(u64::MAX);
    let a = &p * big(6);
    let b = &p * big(15);
    assert_eq!(gcd(&a, &b), &p * big(3));
}

#[test]
fn equality_is_of_values() {
    assert!(frac(1, 2) == frac(2, 4));
    assert!(frac(0, 3) == frac(0, 8));
    assert!(frac(1, 2) != frac(1, 3));
    assert!(frac(2, 1) != frac(1, 2));
}

#[test]
fn ordering_is_of_values() {
    assert!(frac(1, 3) < frac(1, 2));
    assert!(frac(1, 2) > frac(1, 3));
    assert!(!(frac(1, 2) < frac(2, 4)));
    assert!(!(frac(1, 2) > frac(2, 4)));
    assert!(frac(1, 2) <= frac(2, 4));
    assert!(frac(1, 2) >= frac(2, 4));
    assert_eq!(
        frac(3, 7).partial_cmp(&frac(4, 9)),
        Some(std::cmp::Ordering::Less)
    );
    assert_eq!(
        frac(4, 9).partial_cmp(&frac(3, 7)),
        Some(std::cmp::Ordering::Greater)
    );
    assert_eq!(
        frac(3, 7).partial_cmp(&frac(6, 14)),
        Some(std::cmp::Ordering::Equal)
    );
}

#[test]
fn equal_exactly_when_neither_is_less() {
    let values = [(0, 1), (1, 2), (2, 4), (1, 3), (3, 9), (5, 4), (10, 8), (7, 7), (1, 1)];
    for &(a, b) in values.iter() {
        for &(c, d) in values.iter() {
            let x = frac(a, b);
            let y = frac(c, d);
            let neither = !(x < y) && !(y < x);
            assert_eq!(x == y, neither);
            assert_eq!(x == y, a * d == c * b);
            assert_eq!(x < y, a * d < c * b);
        }
    }
}

#[test]
fn clone_keeps_all_three_parts() {
    let mut r = frac(6, 8);
    r.opcount = 7;
    let c = r.clone();
    assert!(holds(&c, 6, 8));
    assert_eq!(c.opcount, 7);
}

#[test]
fn to_text_is_numerator_slash_denominator() {
    assert_eq!(frac(5, 6).to_text(), "5/6");
    assert_eq!(frac(0, 1).to_text(), "0/1");
    assert_eq!(frac(1234567890123, 10).to_text(), "1234567890123/10");
    let p = frac(u64::MAX, 1).mul(frac(u64::MAX, 1));
    assert_eq!(p.to_text(), "340282366920938463426481119284349108225/1");
}

#[test]
fn to_text_leaves_out_a_zero_denominator() {
    let mut r = frac(5, 6);
    r.denominator = big(0);
    assert_eq!(r.to_text(), "5");
}

#[test]
fn values_stay_exact_over_many_operations() {
    // 1/2 + 1/4 + ... + 1/2^40 = (2^40 - 1) / 2^40
    let mut sum = frac(0, 1);
    let mut term = frac(1, 1);
    for _ in 0..40 {
        term = term.mul(frac(1, 2));
        sum = sum.add(term.clone());
    }
    let expected = frac((1u64 << 40) - 1, 1u64 << 40);
    assert!(sum == expected);
    let back = sum.sub(expected).unwrap();
    assert!(back == frac(0, 1));
}
