//! Little-endian byte strings and the numbers they stand for.

use vstd::prelude::*;

verus! {

/// The number whose base-256 digits, least significant first, are `bytes`.
pub open spec fn le_value(bytes: Seq<u8>) -> nat
    decreases bytes.len(),
{
    if bytes.len() == 0 {
        0
    } else {
        bytes[0] as nat + 256 * le_value(bytes.skip(1))
    }
}

/// The lowest `width` base-256 digits of `v`, least significant first.
pub open spec fn le_digits(v: nat, width: nat) -> Seq<u8>
    decreases width,
{
    if width == 0 {
        Seq::empty()
    } else {
        seq![(v % 256) as u8] + le_digits(v / 256, (width - 1) as nat)
    }
}

/// The base-256 digits of `v`, least significant first, as few as hold it:
/// the last digit is not zero, except that zero itself is the single digit 0.
pub open spec fn le_minimal(v: nat) -> Seq<u8>
    decreases v,
{
    if v < 256 {
        seq![v as u8]
    } else {
        seq![(v % 256) as u8] + le_minimal(v / 256)
    }
}

/// `256^k`: the number of values that `k` bytes can take.
pub open spec fn radix_power(k: nat) -> nat
    decreases k,
{
    if k == 0 {
        1
    } else {
        256 * radix_power((k - 1) as nat)
    }
}

/// Eight bytes can take as many values as a `u64`.
pub proof fn lemma_radix_power_of_eight()
    ensures
        radix_power(8) == u64::MAX + 1,
{
    reveal_with_fuel(radix_power, 9);
}

/// `width` digits are `width` bytes.
pub proof fn lemma_le_digits_len(v: nat, width: nat)
    ensures
        le_digits(v, width).len() == width,
    decreases width,
{
    if width > 0 {
        lemma_le_digits_len(v / 256, (width - 1) as nat);
    }
}

/// The number that bytes stand for is below `256` to the power of their
/// count.
pub proof fn lemma_le_value_bound(bytes: Seq<u8>)
    ensures
        le_value(bytes) < radix_power(bytes.len()),
    decreases bytes.len(),
{
    if bytes.len() > 0 {
        lemma_le_value_bound(bytes.skip(1));
    }
}

/// Reading back the lowest `width` digits of a number that needs no more
/// gives the number.
pub proof fn lemma_le_value_of_digits(v: nat, width: nat)
    requires
        v < radix_power(width),
    ensures
        le_value(le_digits(v, width)) == v,
    decreases width,
{
    if width > 0 {
        let digits = le_digits(v, width);
        assert(digits.skip(1) == le_digits(v / 256, (width - 1) as nat));
        lemma_le_value_of_digits(v / 256, (width - 1) as nat);
    }
}

/// Reading back the digits of a number gives the number.
pub proof fn lemma_le_value_of_minimal(v: nat)
    ensures
        le_value(le_minimal(v)) == v,
    decreases v,
{
    let digits = le_minimal(v);
    if v < 256 {
        assert(digits.skip(1).len() == 0);
        assert(le_value(digits.skip(1)) == 0);
    } else {
        assert(digits.skip(1) == le_minimal(v / 256));
        lemma_le_value_of_minimal(v / 256);
    }
}

} // verus!
