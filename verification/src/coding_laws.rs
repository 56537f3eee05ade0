//! What holds of encoding and decoding in every frequency model.

use crate::fraction::lemma_arithmetic_is_valid;
use crate::fraction::lemma_lt_respects_same_left;
use crate::fraction::lemma_minus_respects_same;
use crate::fraction::lemma_over_respects_same;
use crate::fraction::lemma_plus_respects_same;
use crate::fraction::lemma_same_is_transitive;
use crate::fraction::lemma_times_respects_same;
use crate::fraction::Fraction;
use crate::range_encoder::lemma_interval_is_valid;
use crate::range_encoder::RangeEncoder;
use crate::range_encoder::SYMBOLS;
use crate::rational::joined_count;
use crate::rational::lemma_settled_is_same;
use crate::rational::stored;
use vstd::prelude::*;

verus! {

/// What the search for the first part that begins above `value` finds: no
/// part before it begins above `value`, and the one found does.
pub proof fn lemma_first_above_is_first(model: RangeEncoder, value: Fraction, from: int)
    requires
        0 <= from <= SYMBOLS,
    ensures
        from <= model.first_above(value, from) <= SYMBOLS,
        forall|symbol: int|
            from <= symbol < model.first_above(value, from) ==> !value.lt(
                #[trigger] model.base(symbol),
            ),
        model.first_above(value, from) < SYMBOLS ==> value.lt(
            model.base(model.first_above(value, from)),
        ),
    decreases SYMBOLS - from,
{
    if from < SYMBOLS && !value.lt(model.base(from)) {
        lemma_first_above_is_first(model, value, from + 1);
    }
}

/// The part of the symbol that decoding reads off a value does not begin
/// above the value.
pub proof fn lemma_symbol_begins_at_or_below(model: RangeEncoder, value: Fraction)
    ensures
        0 <= model.symbol_of(value) < SYMBOLS,
        !value.lt(model.base(model.symbol_of(value))),
{
    lemma_first_above_is_first(model, value, 0);
    let above = model.first_above(value, 0);
    if 0 < above < SYMBOLS {
        assert(!value.lt(model.base(above - 1)));
    } else {
        assert(model.base(0).num == 0);
        assert(0 * value.den == 0);
    }
}

/// The search does not depend on the pair that the value is written as.
pub proof fn lemma_first_above_respects_same(
    model: RangeEncoder,
    a: Fraction,
    b: Fraction,
    from: int,
)
    requires
        a.valid(),
        b.valid(),
        a.same(b),
    ensures
        model.first_above(a, from) == model.first_above(b, from),
    decreases SYMBOLS - from,
{
    if from < SYMBOLS {
        lemma_lt_respects_same_left(a, b, model.base(from));
        lemma_first_above_respects_same(model, a, b, from + 1);
    }
}

/// Decoding does not depend on the pair that the value is written as: two
/// fractions that stand for the same number decode to the same bytes, or
/// fail alike.
pub proof fn lemma_decoded_respects_same(model: RangeEncoder, a: Fraction, b: Fraction, count: nat)
    requires
        model.length > 0,
        a.valid(),
        b.valid(),
        a.same(b),
    ensures
        model.decoded(a, count) == model.decoded(b, count),
    decreases count,
{
    if count > 0 {
        lemma_first_above_respects_same(model, a, b, 0);
        lemma_symbol_begins_at_or_below(model, a);
        let symbol = model.symbol_of(a);
        if model.density_map@[symbol] != 0 {
            let base = model.base(symbol);
            let width = model.width(symbol);
            lemma_minus_respects_same(a, b, base, base);
            lemma_over_respects_same(a.minus(base), b.minus(base), width, width);
            lemma_arithmetic_is_valid(a, base);
            lemma_arithmetic_is_valid(b, base);
            lemma_arithmetic_is_valid(a.minus(base), width);
            lemma_arithmetic_is_valid(b.minus(base), width);
            lemma_decoded_respects_same(
                model,
                a.minus(base).over(width),
                b.minus(base).over(width),
                (count - 1) as nat,
            );
        }
    }
}

/// The pairs that encoding stores for the interval of `bytes` stand for the
/// beginning and the width of that interval.
pub proof fn lemma_stored_interval_is_same(model: RangeEncoder, bytes: Seq<u8>)
    requires
        model.length > 0,
        bytes.len() > 0,
    ensures
        model.stored_interval(bytes).0.value.valid(),
        model.stored_interval(bytes).1.value.valid(),
        model.stored_interval(bytes).0.value.same(model.interval(bytes).0),
        model.stored_interval(bytes).1.value.same(model.interval(bytes).1),
    decreases bytes.len(),
{
    if bytes.len() > 1 {
        let front = bytes.drop_last();
        lemma_stored_interval_is_same(model, front);
        lemma_interval_is_valid(model, front);
        let (start, span) = model.stored_interval(front);
        let (exact_start, exact_span) = model.interval(front);
        let symbol = bytes.last() as int;
        let base = model.base(symbol);
        let width = model.width(symbol);
        // The beginning moves by the same number.
        let moved = stored(base.times(span.value), 0, span.count);
        lemma_arithmetic_is_valid(base, span.value);
        lemma_arithmetic_is_valid(base, exact_span);
        lemma_settled_is_same(base.times(span.value), joined_count(0, span.count));
        lemma_times_respects_same(base, base, span.value, exact_span);
        lemma_same_is_transitive(moved.value, base.times(span.value), base.times(exact_span));
        let sum = start.value.plus(moved.value);
        lemma_arithmetic_is_valid(start.value, moved.value);
        lemma_settled_is_same(sum, joined_count(start.count, moved.count));
        lemma_plus_respects_same(start.value, exact_start, moved.value, base.times(exact_span));
        lemma_same_is_transitive(
            model.stored_interval(bytes).0.value,
            sum,
            exact_start.plus(base.times(exact_span)),
        );
        // The width is scaled by the same number.
        let product = span.value.times(width);
        lemma_arithmetic_is_valid(span.value, width);
        lemma_settled_is_same(product, joined_count(span.count, 0));
        lemma_times_respects_same(span.value, exact_span, width, width);
        lemma_same_is_transitive(
            model.stored_interval(bytes).1.value,
            product,
            exact_span.times(width),
        );
    }
}

/// The pair that encoding returns for `bytes` stands for the midpoint of
/// the interval of `bytes`.
pub proof fn lemma_stored_encoded_is_same(model: RangeEncoder, bytes: Seq<u8>)
    requires
        model.length > 0,
        bytes.len() > 0,
    ensures
        model.stored_encoded(bytes).value.valid(),
        model.stored_encoded(bytes).value.same(model.encoded(bytes)),
{
    lemma_stored_interval_is_same(model, bytes);
    lemma_interval_is_valid(model, bytes);
    let (start, span) = model.stored_interval(bytes);
    let (exact_start, exact_span) = model.interval(bytes);
    let half = Fraction::half();
    let halved = stored(span.value.times(half), span.count, 0);
    lemma_arithmetic_is_valid(span.value, half);
    lemma_settled_is_same(span.value.times(half), joined_count(span.count, 0));
    lemma_times_respects_same(span.value, exact_span, half, half);
    lemma_same_is_transitive(halved.value, span.value.times(half), exact_span.times(half));
    let sum = start.value.plus(halved.value);
    lemma_arithmetic_is_valid(start.value, halved.value);
    lemma_settled_is_same(sum, joined_count(start.count, halved.count));
    lemma_plus_respects_same(start.value, exact_start, halved.value, exact_span.times(half));
    lemma_same_is_transitive(
        model.stored_encoded(bytes).value,
        sum,
        exact_start.plus(exact_span.times(half)),
    );
}

} // verus!
