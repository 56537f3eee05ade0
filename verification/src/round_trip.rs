//! Decoding gives back what was encoded.
//!
//! The proof measures the interval of a byte string in whole numbers: after
//! `n` bytes its beginning and its width are `start / L^n` and `span / L^n`,
//! where `L` is the length that the model has counted.

use crate::coding_laws::lemma_first_above_is_first;
use crate::error::CodecError;
use crate::fraction::lemma_arithmetic_is_valid;
use crate::fraction::lemma_lt_respects_same_left;
use crate::fraction::lemma_minus_respects_same;
use crate::fraction::lemma_over_respects_same;
use crate::fraction::lemma_plus_respects_same;
use crate::fraction::lemma_same_is_transitive;
use crate::fraction::lemma_times_respects_same;
use crate::fraction::Fraction;
use crate::model_laws::lemma_cumulative_is_monotonic;
use crate::model_laws::lemma_cumulative_of_zeros;
use crate::model_laws::lemma_raising_a_count;
use crate::range_encoder::cumulative;
use crate::range_encoder::lemma_interval_is_valid;
use crate::range_encoder::occurrences;
use crate::range_encoder::RangeEncoder;
use crate::range_encoder::SYMBOLS;
use vstd::arithmetic::power::lemma_pow1;
use vstd::arithmetic::power::lemma_pow_positive;
use vstd::arithmetic::power::pow;
use vstd::prelude::*;

verus! {

/// `L^n` as a natural number.
pub open spec fn scale(model: RangeEncoder, n: nat) -> nat {
    pow(model.length as int, n) as nat
}

/// Where the interval of `bytes` begins, in units of `1 / L^n`.
pub open spec fn scaled_start(model: RangeEncoder, bytes: Seq<u8>) -> nat
    decreases bytes.len(),
{
    if bytes.len() <= 1 {
        cumulative(model.density_map@, bytes[0] as int)
    } else {
        scaled_start(model, bytes.drop_last()) * (model.length as nat) + cumulative(
            model.density_map@,
            bytes.last() as int,
        ) * scaled_span(model, bytes.drop_last())
    }
}

/// How wide the interval of `bytes` is, in units of `1 / L^n`.
pub open spec fn scaled_span(model: RangeEncoder, bytes: Seq<u8>) -> nat
    decreases bytes.len(),
{
    if bytes.len() <= 1 {
        model.density_map@[bytes[0] as int] as nat
    } else {
        scaled_span(model, bytes.drop_last()) * (model.density_map@[bytes.last() as int] as nat)
    }
}

/// The midpoint of the interval of `bytes`, over `2 · L^n`.
pub open spec fn scaled_midpoint(model: RangeEncoder, bytes: Seq<u8>) -> Fraction {
    Fraction {
        num: 2 * scaled_start(model, bytes) + scaled_span(model, bytes),
        den: 2 * scale(model, bytes.len()),
    }
}

/// Every byte of `bytes` is a symbol that the model has counted.
pub open spec fn all_counted(model: RangeEncoder, bytes: Seq<u8>) -> bool {
    forall|i: int| 0 <= i < bytes.len() ==> model.density_map@[#[trigger] bytes[i] as int] > 0
}

/// No byte of `bytes` is the last symbol.
pub open spec fn below_last_symbol(bytes: Seq<u8>) -> bool {
    forall|i: int| 0 <= i < bytes.len() ==> #[trigger] bytes[i] < SYMBOLS - 1
}

proof fn lemma_scale_step(model: RangeEncoder, n: nat)
    requires
        model.length > 0,
    ensures
        scale(model, n) > 0,
        scale(model, n + 1) == model.length * scale(model, n),
        scale(model, 1) == model.length,
{
    let l = model.length as int;
    lemma_pow_positive(l, n);
    lemma_pow_positive(l, n + 1);
    lemma_pow1(l);
    assert(pow(l, n + 1) == l * pow(l, n)) by {
        reveal(pow);
    }
}

/// The interval of `bytes` is what its measure in whole numbers says.
proof fn lemma_interval_is_scaled(model: RangeEncoder, bytes: Seq<u8>)
    requires
        model.length > 0,
        bytes.len() > 0,
    ensures
        model.interval(bytes).0.same(
            Fraction { num: scaled_start(model, bytes), den: scale(model, bytes.len()) },
        ),
        model.interval(bytes).1.same(
            Fraction { num: scaled_span(model, bytes), den: scale(model, bytes.len()) },
        ),
    decreases bytes.len(),
{
    let l = model.length as nat;
    if bytes.len() <= 1 {
        lemma_scale_step(model, 0);
    } else {
        let front = bytes.drop_last();
        let n = front.len();
        lemma_interval_is_scaled(model, front);
        lemma_interval_is_valid(model, front);
        lemma_scale_step(model, n);
        let (start, span) = model.interval(front);
        let p = scale(model, n);
        let a = scaled_start(model, front);
        let w = scaled_span(model, front);
        let whole_start = Fraction { num: a, den: p };
        let whole_span = Fraction { num: w, den: p };
        let symbol = bytes.last() as int;
        let base = model.base(symbol);
        let width = model.width(symbol);
        let c = base.num;
        let k = width.num;
        // The beginning.
        lemma_times_respects_same(base, base, span, whole_span);
        lemma_plus_respects_same(start, whole_start, base.times(span), base.times(whole_span));
        let moved = whole_start.plus(base.times(whole_span));
        let goal = Fraction { num: scaled_start(model, bytes), den: scale(model, bytes.len()) };
        assert(moved.same(goal)) by {
            assert(moved.num == a * (l * p) + (c * w) * p);
            assert(moved.den == p * (l * p));
            assert(goal.num == a * l + c * w);
            assert(goal.den == l * p);
            assert((a * (l * p) + (c * w) * p) * (l * p) == (a * l + c * w) * (p * (l * p)))
                by (nonlinear_arith);
        }
        lemma_arithmetic_is_valid(base, whole_span);
        lemma_arithmetic_is_valid(whole_start, base.times(whole_span));
        lemma_same_is_transitive(model.interval(bytes).0, moved, goal);
        // The width.
        lemma_times_respects_same(span, whole_span, width, width);
        let scaled = whole_span.times(width);
        let span_goal = Fraction { num: scaled_span(model, bytes), den: scale(model, bytes.len()) };
        assert(scaled.same(span_goal)) by {
            assert(scaled.num == w * k);
            assert(scaled.den == p * l);
            assert(span_goal.num == w * k);
            assert(span_goal.den == l * p);
            assert((w * k) * (l * p) == (w * k) * (p * l)) by (nonlinear_arith);
        }
        lemma_arithmetic_is_valid(whole_span, width);
        lemma_same_is_transitive(model.interval(bytes).1, scaled, span_goal);
    }
}

/// The number that stands for `bytes` is the midpoint of its interval as
/// measured in whole numbers.
proof fn lemma_encoded_is_scaled(model: RangeEncoder, bytes: Seq<u8>)
    requires
        model.length > 0,
        bytes.len() > 0,
    ensures
        model.encoded(bytes).valid(),
        model.encoded(bytes).same(scaled_midpoint(model, bytes)),
{
    lemma_interval_is_scaled(model, bytes);
    lemma_interval_is_valid(model, bytes);
    lemma_scale_step(model, bytes.len());
    let (start, span) = model.interval(bytes);
    let p = scale(model, bytes.len());
    let a = scaled_start(model, bytes);
    let w = scaled_span(model, bytes);
    let whole_start = Fraction { num: a, den: p };
    let whole_span = Fraction { num: w, den: p };
    let half = Fraction::half();
    lemma_times_respects_same(span, whole_span, half, half);
    lemma_plus_respects_same(start, whole_start, span.times(half), whole_span.times(half));
    let middle = whole_start.plus(whole_span.times(half));
    assert(middle.same(scaled_midpoint(model, bytes))) by {
        assert(middle.num == a * (p * 2) + (w * 1) * p);
        assert(middle.den == p * (p * 2));
        assert((a * (p * 2) + (w * 1) * p) * (2 * p) == (2 * a + w) * (p * (p * 2)))
            by (nonlinear_arith);
    }
    lemma_arithmetic_is_valid(span, half);
    lemma_arithmetic_is_valid(start, span.times(half));
    lemma_arithmetic_is_valid(whole_span, half);
    lemma_arithmetic_is_valid(whole_start, whole_span.times(half));
    lemma_same_is_transitive(model.encoded(bytes), middle, scaled_midpoint(model, bytes));
}

/// The measure of a byte string of two bytes or more, from the measure of
/// what follows its first byte.
proof fn lemma_scaled_from_tail(model: RangeEncoder, bytes: Seq<u8>)
    requires
        model.length > 0,
        bytes.len() >= 2,
    ensures
        scaled_start(model, bytes) == cumulative(model.density_map@, bytes[0] as int) * scale(
            model,
            (bytes.len() - 1) as nat,
        ) + (model.density_map@[bytes[0] as int] as nat) * scaled_start(model, bytes.skip(1)),
        scaled_span(model, bytes) == (model.density_map@[bytes[0] as int] as nat) * scaled_span(
            model,
            bytes.skip(1),
        ),
    decreases bytes.len(),
{
    let l = model.length as nat;
    let c0 = cumulative(model.density_map@, bytes[0] as int);
    let k0 = model.density_map@[bytes[0] as int] as nat;
    let front = bytes.drop_last();
    let tail = bytes.skip(1);
    let cx = cumulative(model.density_map@, bytes.last() as int);
    let kx = model.density_map@[bytes.last() as int] as nat;
    if bytes.len() == 2 {
        lemma_scale_step(model, 0);
        assert(front.len() == 1 && tail.len() == 1);
        assert(front[0] == bytes[0] && tail[0] == bytes[1]);
        assert(scaled_start(model, front) == c0 && scaled_span(model, front) == k0);
        assert(scaled_start(model, tail) == cx && scaled_span(model, tail) == kx);
        assert(scaled_start(model, bytes) == c0 * l + cx * k0);
        assert(scaled_span(model, bytes) == k0 * kx);
        assert(c0 * l + cx * k0 == c0 * l + k0 * cx) by (nonlinear_arith);
    } else {
        lemma_scaled_from_tail(model, front);
        let n = (bytes.len() - 2) as nat;
        lemma_scale_step(model, n);
        assert(front.skip(1) == tail.drop_last());
        assert(front[0] == bytes[0] && tail.last() == bytes.last());
        let m = scale(model, n);
        let a = scaled_start(model, tail.drop_last());
        let w = scaled_span(model, tail.drop_last());
        assert(scaled_start(model, front) == c0 * m + k0 * a);
        assert(scaled_span(model, front) == k0 * w);
        assert(scaled_start(model, tail) == a * l + cx * w);
        assert(scaled_span(model, tail) == w * kx);
        assert(scaled_start(model, bytes) == (c0 * m + k0 * a) * l + cx * (k0 * w));
        assert(scaled_span(model, bytes) == (k0 * w) * kx);
        assert(scale(model, (bytes.len() - 1) as nat) == l * m);
        assert((c0 * m + k0 * a) * l + cx * (k0 * w) == c0 * (l * m) + k0 * (a * l + cx * w))
            by (nonlinear_arith);
        assert((k0 * w) * kx == k0 * (w * kx)) by (nonlinear_arith);
    }
}

/// The interval of bytes that the model has counted is not empty and ends
/// at 1 or before.
proof fn lemma_scaled_within_unit(model: RangeEncoder, bytes: Seq<u8>)
    requires
        model.wf(),
        model.length > 0,
        bytes.len() > 0,
        all_counted(model, bytes),
    ensures
        scaled_span(model, bytes) > 0,
        scaled_start(model, bytes) + scaled_span(model, bytes) <= scale(model, bytes.len()),
    decreases bytes.len(),
{
    let l = model.length as nat;
    let x = bytes.last() as int;
    let cx = cumulative(model.density_map@, x);
    let kx = model.density_map@[x] as nat;
    assert(kx > 0);
    assert(cx + kx <= l) by {
        assert(cumulative(model.density_map@, x + 1) == cx + kx);
        lemma_cumulative_is_monotonic(model.density_map@, x + 1, SYMBOLS as int);
    }
    if bytes.len() <= 1 {
        lemma_scale_step(model, 0);
        assert(bytes[0] == bytes.last());
    } else {
        let front = bytes.drop_last();
        assert(all_counted(model, front)) by {
            assert forall|i: int| 0 <= i < front.len() implies model.density_map@[#[trigger] front[i] as int]
                > 0 by {
                assert(front[i] == bytes[i]);
            }
        }
        lemma_scaled_within_unit(model, front);
        lemma_scale_step(model, front.len());
        let a = scaled_start(model, front);
        let w = scaled_span(model, front);
        let m = scale(model, front.len());
        assert(w * kx > 0) by (nonlinear_arith)
            requires
                w > 0,
                kx > 0,
        ;
        assert(a * l + cx * w + w * kx <= l * m) by (nonlinear_arith)
            requires
                a + w <= m,
                cx + kx <= l,
        ;
    }
}

/// The midpoint of the interval of counted bytes lies in the part of the
/// first byte.
proof fn lemma_midpoint_in_first_part(model: RangeEncoder, bytes: Seq<u8>)
    requires
        model.wf(),
        model.length > 0,
        bytes.len() > 0,
        all_counted(model, bytes),
    ensures
        !scaled_midpoint(model, bytes).lt(model.base(bytes[0] as int)),
        scaled_midpoint(model, bytes).lt(model.base(bytes[0] as int + 1)),
{
    let l = model.length as nat;
    let c0 = cumulative(model.density_map@, bytes[0] as int);
    let k0 = model.density_map@[bytes[0] as int] as nat;
    let n = bytes.len();
    let p = scale(model, n);
    let a = scaled_start(model, bytes);
    let w = scaled_span(model, bytes);
    assert(k0 > 0);
    assert(cumulative(model.density_map@, bytes[0] as int + 1) == c0 + k0);
    if n == 1 {
        lemma_scale_step(model, 0);
        assert((2 * a + w) * l >= c0 * (2 * p) && (2 * a + w) * l < (c0 + k0) * (2 * p))
            by (nonlinear_arith)
            requires
                a == c0,
                w == k0,
                p == l,
                k0 > 0,
                l > 0,
        ;
    } else {
        let tail = bytes.skip(1);
        lemma_scaled_from_tail(model, bytes);
        assert(all_counted(model, tail)) by {
            assert forall|i: int| 0 <= i < tail.len() implies model.density_map@[#[trigger] tail[i] as int]
                > 0 by {
                assert(tail[i] == bytes[i + 1]);
            }
        }
        lemma_scaled_within_unit(model, tail);
        lemma_scale_step(model, (n - 1) as nat);
        let m = scale(model, (n - 1) as nat);
        let at = scaled_start(model, tail);
        let wt = scaled_span(model, tail);
        assert((2 * a + w) * l >= c0 * (2 * p) && (2 * a + w) * l < (c0 + k0) * (2 * p))
            by (nonlinear_arith)
            requires
                a == c0 * m + k0 * at,
                w == k0 * wt,
                p == l * m,
                at + wt <= m,
                wt > 0,
                k0 > 0,
                l > 0,
        {
            assert(2 * a + w == 2 * c0 * m + k0 * (2 * at + wt));
            assert(k0 * (2 * at + wt) < k0 * (2 * m));
            assert(2 * a + w < 2 * (c0 + k0) * m);
            assert((2 * a + w) * l < (2 * (c0 + k0) * m) * l);
        }
    }
}

/// Taking the part of the first byte off the midpoint leaves the midpoint
/// of the interval of the bytes that follow.
proof fn lemma_midpoint_step(model: RangeEncoder, bytes: Seq<u8>)
    requires
        model.wf(),
        model.length > 0,
        bytes.len() >= 2,
        all_counted(model, bytes),
    ensures
        scaled_midpoint(model, bytes).minus(model.base(bytes[0] as int)).over(
            model.width(bytes[0] as int),
        ).same(scaled_midpoint(model, bytes.skip(1))),
{
    let l = model.length as nat;
    let c0 = cumulative(model.density_map@, bytes[0] as int);
    let k0 = model.density_map@[bytes[0] as int] as nat;
    let n = bytes.len();
    let p = scale(model, n);
    let a = scaled_start(model, bytes);
    let w = scaled_span(model, bytes);
    let tail = bytes.skip(1);
    lemma_scaled_from_tail(model, bytes);
    lemma_midpoint_in_first_part(model, bytes);
    lemma_scale_step(model, (n - 1) as nat);
    let m = scale(model, (n - 1) as nat);
    let at = scaled_start(model, tail);
    let wt = scaled_span(model, tail);
    let x = 2 * at + wt;
    let mid = scaled_midpoint(model, bytes);
    let left = mid.minus(model.base(bytes[0] as int));
    assert(mid.num * l >= c0 * mid.den);
    assert(left.num == mid.num * l - c0 * mid.den);
    assert(left.num == k0 * x * l) by (nonlinear_arith)
        requires
            left.num == (2 * a + w) * l - c0 * (2 * p),
            a == c0 * m + k0 * at,
            w == k0 * wt,
            p == l * m,
            x == 2 * at + wt,
    ;
    assert(left.den == (2 * p) * l);
    let rest = left.over(model.width(bytes[0] as int));
    assert(rest.num == left.num * l);
    assert(rest.den == left.den * k0);
    assert(rest.num * (2 * m) == x * rest.den) by (nonlinear_arith)
        requires
            rest.num == (k0 * x * l) * l,
            rest.den == ((2 * p) * l) * k0,
            p == l * m,
    ;
}

/// A value in the part of a symbol that is not the last one decodes to that
/// symbol.
proof fn lemma_symbol_of_part(model: RangeEncoder, value: Fraction, symbol: int)
    requires
        0 <= symbol < SYMBOLS - 1,
        !value.lt(model.base(symbol)),
        value.lt(model.base(symbol + 1)),
    ensures
        model.symbol_of(value) == symbol,
{
    lemma_first_above_is_first(model, value, 0);
    let above = model.first_above(value, 0);
    if above > symbol + 1 {
        assert(!value.lt(model.base(symbol + 1)));
    }
    if above <= symbol {
        assert(value.lt(model.base(above)));
        lemma_cumulative_is_monotonic(model.density_map@, above, symbol);
        let low = cumulative(model.density_map@, above);
        let high = cumulative(model.density_map@, symbol);
        let d = value.den;
        assert(low * d <= high * d) by (nonlinear_arith)
            requires
                low <= high,
        ;
    }
}

/// Every fraction that stands for the midpoint of the interval of `bytes`
/// decodes to `bytes`.
proof fn lemma_midpoint_decodes(model: RangeEncoder, bytes: Seq<u8>, value: Fraction)
    requires
        model.wf(),
        model.length > 0,
        bytes.len() > 0,
        all_counted(model, bytes),
        below_last_symbol(bytes),
        value.valid(),
        value.same(scaled_midpoint(model, bytes)),
    ensures
        model.decoded(value, bytes.len()) == Ok::<Seq<u8>, CodecError>(bytes),
    decreases bytes.len(),
{
    let symbol = bytes[0] as int;
    let mid = scaled_midpoint(model, bytes);
    let base = model.base(symbol);
    let width = model.width(symbol);
    lemma_scale_step(model, bytes.len());
    lemma_midpoint_in_first_part(model, bytes);
    lemma_lt_respects_same_left(value, mid, base);
    lemma_lt_respects_same_left(value, mid, model.base(symbol + 1));
    lemma_symbol_of_part(model, value, symbol);
    assert(model.density_map@[symbol] > 0);
    let rest = value.minus(base).over(width);
    if bytes.len() == 1 {
        assert(model.decoded(rest, 0) == Ok::<Seq<u8>, CodecError>(Seq::empty()));
        assert(seq![symbol as u8] + Seq::<u8>::empty() == bytes);
    } else {
        let tail = bytes.skip(1);
        assert(all_counted(model, tail) && below_last_symbol(tail)) by {
            assert forall|i: int| 0 <= i < tail.len() implies model.density_map@[#[trigger] tail[i] as int]
                > 0 && tail[i] < SYMBOLS - 1 by {
                assert(tail[i] == bytes[i + 1]);
            }
        }
        lemma_midpoint_step(model, bytes);
        lemma_minus_respects_same(value, mid, base, base);
        lemma_over_respects_same(value.minus(base), mid.minus(base), width, width);
        lemma_arithmetic_is_valid(value, base);
        lemma_arithmetic_is_valid(mid, base);
        lemma_arithmetic_is_valid(value.minus(base), width);
        lemma_arithmetic_is_valid(mid.minus(base), width);
        lemma_same_is_transitive(rest, mid.minus(base).over(width), scaled_midpoint(model, tail));
        lemma_midpoint_decodes(model, tail, rest);
        assert(seq![symbol as u8] + tail == bytes);
    }
}

/// How often a byte string holds its own bytes: at least once each.
proof fn lemma_own_bytes_occur(bytes: Seq<u8>, i: int)
    requires
        0 <= i < bytes.len(),
    ensures
        occurrences(bytes, bytes[i] as int) > 0,
    decreases bytes.len(),
{
    if i < bytes.len() - 1 {
        lemma_own_bytes_occur(bytes.drop_last(), i);
    }
}

/// Counts that say how often each symbol occurs in a byte string add up to
/// its length.
proof fn lemma_occurrences_add_up(counts: Seq<u64>, bytes: Seq<u8>)
    requires
        counts.len() == SYMBOLS,
        forall|symbol: int| 0 <= symbol < SYMBOLS ==> #[trigger] counts[symbol] == occurrences(bytes, symbol),
    ensures
        cumulative(counts, SYMBOLS as int) == bytes.len(),
    decreases bytes.len(),
{
    if bytes.len() == 0 {
        lemma_cumulative_of_zeros(counts, SYMBOLS as int);
    } else {
        let x = bytes.last() as int;
        let fewer = counts.update(x, (counts[x] - 1) as u64);
        assert forall|symbol: int| 0 <= symbol < SYMBOLS implies #[trigger] fewer[symbol]
            == occurrences(bytes.drop_last(), symbol) by {
            assert(counts[symbol] == occurrences(bytes, symbol));
        }
        lemma_occurrences_add_up(fewer, bytes.drop_last());
        lemma_raising_a_count(fewer, x);
        assert(fewer.update(x, (fewer[x] + 1) as u64) == counts);
    }
}

/// The model that a scan of `bytes` gives has counts that add up to its
/// length, and has counted every byte of `bytes`.
pub proof fn lemma_built_model_is_consistent(model: RangeEncoder, bytes: Seq<u8>)
    requires
        model.built_from(bytes),
    ensures
        model.wf(),
        all_counted(model, bytes),
{
    lemma_occurrences_add_up(model.density_map@, bytes);
    assert forall|i: int| 0 <= i < bytes.len() implies model.density_map@[#[trigger] bytes[i] as int]
        > 0 by {
        lemma_own_bytes_occur(bytes, i);
    }
}

/// Decoding inverts encoding. Take any byte string that is not empty and
/// the model that a scan of it gives. Every fraction that stands for the
/// number the string is encoded as decodes, with that model, to the string
/// itself.
///
/// The string may not hold the last symbol, 255: no part begins above a
/// value in the part of the last symbol, and decoding reads symbol 0 off
/// such a value.
pub proof fn lemma_decoding_inverts_encoding(model: RangeEncoder, bytes: Seq<u8>, value: Fraction)
    requires
        bytes.len() > 0,
        model.built_from(bytes),
        below_last_symbol(bytes),
        value.valid(),
        value.same(model.encoded(bytes)),
    ensures
        model.decoded(value, model.length as nat) == Ok::<Seq<u8>, CodecError>(bytes),
{
    lemma_built_model_is_consistent(model, bytes);
    lemma_encoded_is_scaled(model, bytes);
    lemma_same_is_transitive(value, model.encoded(bytes), scaled_midpoint(model, bytes));
    lemma_midpoint_decodes(model, bytes, value);
}

} // verus!
