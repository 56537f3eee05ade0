//! The frequency model of a byte stream, and range coding with it.
//!
//! A model counts how often each of the 256 byte values occurs in a stream.
//! It gives every symbol a part of the interval from 0 to 1 that is as wide
//! as the symbol is frequent. Encoding narrows that interval once per byte
//! and returns the midpoint of what is left, as one exact fraction; decoding
//! finds the bytes again from the fraction and the model.

use crate::coding_laws::lemma_decoded_respects_same;
use crate::coding_laws::lemma_stored_encoded_is_same;
use crate::coding_laws::lemma_symbol_begins_at_or_below;
use crate::error::CodecError;
use crate::fraction::lemma_arithmetic_is_valid;
use crate::fraction::lemma_over_respects_same;
use crate::fraction::lemma_same_is_transitive;
use crate::fraction::Fraction;
use crate::model_laws::lemma_count_within_total;
use crate::model_laws::lemma_cumulative_is_monotonic;
use crate::model_laws::lemma_cumulative_of_zeros;
use crate::model_laws::lemma_raising_a_count;
use crate::rational::stored;
use crate::rational::Rational;
use crate::rational::Stored;
use vstd::prelude::*;

verus! {

/// The number of symbols: one for each value of a byte.
pub const SYMBOLS: usize = 256;

/// The frequency model: how often each byte value occurred, and how many
/// bytes there were in all.
pub struct RangeEncoder {
    pub density_map: [u64; 256],
    pub length: u64,
}

/// The sum of the counts of the symbols below `symbol`.
pub open spec fn cumulative(counts: Seq<u64>, symbol: int) -> nat
    decreases symbol,
{
    if symbol <= 0 {
        0
    } else {
        cumulative(counts, symbol - 1) + counts[symbol - 1] as nat
    }
}

/// How often `symbol` occurs among `bytes`.
pub open spec fn occurrences(bytes: Seq<u8>, symbol: int) -> nat
    decreases bytes.len(),
{
    if bytes.len() == 0 {
        0
    } else {
        occurrences(bytes.drop_last(), symbol) + if bytes.last() == symbol {
            1nat
        } else {
            0nat
        }
    }
}

impl RangeEncoder {
    /// The counts add up to the length.
    pub open spec fn wf(&self) -> bool {
        cumulative(self.density_map@, SYMBOLS as int) == self.length
    }

    /// The model is the one that a scan of `bytes` gives.
    pub open spec fn built_from(&self, bytes: Seq<u8>) -> bool {
        &&& self.length == bytes.len()
        &&& forall|symbol: int|
            0 <= symbol < SYMBOLS ==> #[trigger] self.density_map@[symbol] == occurrences(
                bytes,
                symbol,
            )
    }

    /// Where the part of `symbol` begins: the share of all symbols below it.
    pub open spec fn base(&self, symbol: int) -> Fraction {
        Fraction { num: cumulative(self.density_map@, symbol), den: self.length as nat }
    }

    /// How wide the part of `symbol` is: its share of all symbols.
    pub open spec fn width(&self, symbol: int) -> Fraction {
        Fraction { num: self.density_map@[symbol] as nat, den: self.length as nat }
    }

    /// The interval that is left after narrowing by each byte of `bytes` in
    /// turn: where it begins, and how wide it is. The first byte gives its
    /// own part. Every further byte `b` moves the beginning up by `base(b)`
    /// times the width so far, and scales the width by `width(b)`.
    pub open spec fn interval(&self, bytes: Seq<u8>) -> (Fraction, Fraction)
        decreases bytes.len(),
    {
        if bytes.len() <= 1 {
            (self.base(bytes[0] as int), self.width(bytes[0] as int))
        } else {
            let (start, span) = self.interval(bytes.drop_last());
            let symbol = bytes.last() as int;
            (start.plus(self.base(symbol).times(span)), span.times(self.width(symbol)))
        }
    }

    /// The number that stands for `bytes`: the midpoint of their interval.
    pub open spec fn encoded(&self, bytes: Seq<u8>) -> Fraction {
        let (start, span) = self.interval(bytes);
        start.plus(span.times(Fraction::half()))
    }

    /// The interval of `bytes` as encoding holds it: the pairs that are
    /// stored for its beginning and its width, and their operation counts.
    /// They stand for the numbers that `interval` gives.
    pub open spec fn stored_interval(&self, bytes: Seq<u8>) -> (Stored, Stored)
        decreases bytes.len(),
    {
        if bytes.len() <= 1 {
            (
                Stored { value: self.base(bytes[0] as int), count: 0 },
                Stored { value: self.width(bytes[0] as int), count: 0 },
            )
        } else {
            let (start, span) = self.stored_interval(bytes.drop_last());
            let symbol = bytes.last() as int;
            let moved = stored(self.base(symbol).times(span.value), 0, span.count);
            (
                stored(start.value.plus(moved.value), start.count, moved.count),
                stored(span.value.times(self.width(symbol)), span.count, 0),
            )
        }
    }

    /// The midpoint of the interval of `bytes` as encoding returns it: the
    /// pair that is stored, and its operation count. It stands for the
    /// number that `encoded` gives.
    pub open spec fn stored_encoded(&self, bytes: Seq<u8>) -> Stored {
        let (start, span) = self.stored_interval(bytes);
        let halved = stored(span.value.times(Fraction::half()), span.count, 0);
        stored(start.value.plus(halved.value), start.count, halved.count)
    }

    /// The first symbol from `from` on whose part begins above `value`, or
    /// `SYMBOLS` if there is none.
    pub open spec fn first_above(&self, value: Fraction, from: int) -> int
        decreases SYMBOLS - from,
    {
        if from >= SYMBOLS {
            SYMBOLS as int
        } else if value.lt(self.base(from)) {
            from
        } else {
            self.first_above(value, from + 1)
        }
    }

    /// The symbol that decoding reads off `value`: the one before the first
    /// symbol whose part begins above `value`, and symbol 0 if no part
    /// begins above `value`.
    pub open spec fn symbol_of(&self, value: Fraction) -> int {
        let above = self.first_above(value, 0);
        if 0 < above < SYMBOLS {
            above - 1
        } else {
            0
        }
    }

    /// The `count` symbols that decoding reads off `value`. Each step reads
    /// one symbol `s` and goes on with `(value − base(s)) / width(s)`; a
    /// symbol that the model has never counted has no width to divide by.
    pub open spec fn decoded(&self, value: Fraction, count: nat) -> Result<Seq<u8>, CodecError>
        decreases count,
    {
        if count == 0 {
            Ok(Seq::empty())
        } else {
            let symbol = self.symbol_of(value);
            if self.density_map@[symbol] == 0 {
                Err(CodecError::DivisionByZero)
            } else {
                let rest = value.minus(self.base(symbol)).over(self.width(symbol));
                match self.decoded(rest, (count - 1) as nat) {
                    Ok(tail) => Ok(seq![symbol as u8] + tail),
                    Err(e) => Err(e),
                }
            }
        }
    }

    /// `bases` and `widths` hold, for every symbol, where its part begins
    /// and how wide it is.
    pub open spec fn tabulated(&self, bases: Seq<Rational>, widths: Seq<Rational>) -> bool {
        &&& bases.len() == SYMBOLS
        &&& widths.len() == SYMBOLS
        &&& forall|symbol: int|
            0 <= symbol < SYMBOLS ==> (#[trigger] bases[symbol]).stored() == (Stored {
                value: self.base(symbol),
                count: 0,
            })
        &&& forall|symbol: int|
            0 <= symbol < SYMBOLS ==> (#[trigger] widths[symbol]).stored() == (Stored {
                value: self.width(symbol),
                count: 0,
            })
    }

    /// Counts the bytes of `input`. A model of no bytes at all could encode
    /// nothing, so an empty input is an error.
    pub fn initialize(input: &[u8]) -> (r: Result<RangeEncoder, CodecError>)
        ensures
            match r {
                Ok(re) => input@.len() > 0 && re.built_from(input@) && re.wf(),
                Err(e) => input@.len() == 0 && e == CodecError::EmptyInput,
            },
    {
        if input.len() == 0 {
            return Err(CodecError::EmptyInput);
        }
        let mut re = RangeEncoder { density_map: [0u64;256], length: 0 };
        assert(cumulative(re.density_map@, SYMBOLS as int) == 0) by {
            lemma_cumulative_of_zeros(re.density_map@, SYMBOLS as int);
        }
        let mut i: usize = 0;
        while i < input.len()
            invariant
                i <= input@.len(),
                re.length == i,
                cumulative(re.density_map@, SYMBOLS as int) == i,
                forall|symbol: int|
                    0 <= symbol < SYMBOLS ==> #[trigger] re.density_map@[symbol] == occurrences(
                        input@.take(i as int),
                        symbol,
                    ),
            decreases input@.len() - i,
        {
            let real_b = input[i] as usize;
            proof {
                lemma_count_within_total(re.density_map@, real_b as int);
                lemma_raising_a_count(re.density_map@, real_b as int);
                assert(input@.take(i + 1).drop_last() == input@.take(i as int));
            }
            re.length += 1;
            re.density_map[real_b] += 1;
            i += 1;
        }
        assert(input@.take(input@.len() as int) == input@);
        Ok(re)
    }

    /// The sum of the counts of the symbols below `symbol`.
    pub fn density(&self, symbol: usize) -> (result: u64)
        requires
            self.wf(),
            symbol <= SYMBOLS,
        ensures
            result == cumulative(self.density_map@, symbol as int),
    {
        let mut result: u64 = 0;
        let mut i: usize = 0;
        while i < symbol
            invariant
                i <= symbol <= SYMBOLS,
                self.wf(),
                result == cumulative(self.density_map@, i as int),
            decreases symbol - i,
        {
            proof {
                lemma_cumulative_is_monotonic(self.density_map@, i + 1, SYMBOLS as int);
            }
            result += self.density_map[i];
            i += 1;
        }
        result
    }

    /// Whether the counts add up to the length. A model that was read from
    /// bytes need not be consistent.
    pub fn is_consistent(&self) -> (ok: bool)
        ensures
            ok == self.wf(),
    {
        let mut sum: u64 = 0;
        let mut i: usize = 0;
        while i < SYMBOLS
            invariant
                i <= SYMBOLS,
                sum == cumulative(self.density_map@, i as int),
                sum <= self.length,
            decreases SYMBOLS - i,
        {
            let count = self.density_map[i];
            if count > self.length - sum {
                proof {
                    lemma_cumulative_is_monotonic(self.density_map@, i + 1, SYMBOLS as int);
                }
                return false;
            }
            sum += count;
            i += 1;
        }
        sum == self.length
    }

    /// The tables of where each symbol's part begins and how wide it is.
    /// A model of length zero has no parts.
    pub fn tables(&self) -> (r: Result<(Vec<Rational>, Vec<Rational>), CodecError>)
        requires
            self.wf(),
        ensures
            match r {
                Ok(t) => self.length > 0 && self.tabulated(t.0@, t.1@),
                Err(e) => self.length == 0 && e == CodecError::DivisionByZero,
            },
    {
        let mut densities_bases: Vec<Rational> = Vec::new();
        let mut densities_ranges: Vec<Rational> = Vec::new();
        let mut i: usize = 0;
        while i < SYMBOLS
            invariant
                i <= SYMBOLS,
                self.wf(),
                i > 0 ==> self.length > 0,
                densities_bases@.len() == i,
                densities_ranges@.len() == i,
                forall|symbol: int|
                    0 <= symbol < i ==> (#[trigger] densities_bases@[symbol]).stored() == (Stored {
                        value: self.base(symbol),
                        count: 0,
                    }),
                forall|symbol: int|
                    0 <= symbol < i ==> (#[trigger] densities_ranges@[symbol]).stored() == (Stored {
                        value: self.width(symbol),
                        count: 0,
                    }),
            decreases SYMBOLS - i,
        {
            let base = match Rational::from(self.density(i), self.length) {
                Ok(f) => f,
                Err(e) => {
                    return Err(e);
                },
            };
            let range = match Rational::from(self.density_map[i], self.length) {
                Ok(f) => f,
                Err(e) => {
                    return Err(e);
                },
            };
            densities_bases.push(base);
            densities_ranges.push(range);
            i += 1;
        }
        Ok((densities_bases, densities_ranges))
    }

    /// Encodes `input` as one fraction: the midpoint of the interval that is
    /// left after narrowing by every byte in turn.
    pub fn compress(&self, input: &[u8]) -> (r: Result<Rational, CodecError>)
        requires
            self.wf(),
        ensures
            match r {
                Ok(value) => input@.len() > 0 && self.length > 0 && value.wf() && value@.same(
                    self.encoded(input@),
                ) && value.stored() == self.stored_encoded(input@),
                Err(e) => if input@.len() == 0 {
                    e == CodecError::EmptyInput
                } else {
                    self.length == 0 && e == CodecError::DivisionByZero
                },
            },
    {
        if input.len() == 0 {
            return Err(CodecError::EmptyInput);
        }
        let (densities_bases, densities_ranges) = match self.tables() {
            Ok(t) => t,
            Err(e) => {
                return Err(e);
            },
        };
        let first_byte = input[0] as usize;
        let mut base = densities_bases[first_byte].clone();
        let mut range = densities_ranges[first_byte].clone();
        let mut i: usize = 1;
        assert(input@.take(1).len() == 1);
        while i < input.len()
            invariant
                1 <= i <= input@.len(),
                self.length > 0,
                self.tabulated(densities_bases@, densities_ranges@),
                base.wf(),
                range.wf(),
                base.stored() == self.stored_interval(input@.take(i as int)).0,
                range.stored() == self.stored_interval(input@.take(i as int)).1,
            decreases input@.len() - i,
        {
            let real_b = input[i] as usize;
            assert(input@.take(i + 1).drop_last() == input@.take(i as int));
            base.add_assign(densities_bases[real_b].clone().mul(range.clone()));
            range.mul_assign(densities_ranges[real_b].clone());
            i += 1;
        }
        assert(input@.take(input@.len() as int) == input@);
        let half = match Rational::from(1, 2) {
            Ok(f) => f,
            Err(e) => {
                return Err(e);
            },
        };
        range = range.mul(half);
        let value = base.add(range);
        proof {
            lemma_stored_encoded_is_same(*self, input@);
        }
        Ok(value)
    }

    /// The symbol whose part `r` lies in, read off the table of where the
    /// parts begin.
    pub fn find_range_index(&self, densities_bases: &Vec<Rational>, r: &Rational) -> (symbol: usize)
        requires
            densities_bases@.len() == SYMBOLS,
            forall|symbol: int|
                0 <= symbol < SYMBOLS ==> (#[trigger] densities_bases@[symbol])@ == self.base(
                    symbol,
                ),
        ensures
            symbol == self.symbol_of(r@),
            symbol < SYMBOLS,
    {
        let mut i: usize = 0;
        while i < SYMBOLS
            invariant
                i <= SYMBOLS,
                densities_bases@.len() == SYMBOLS,
                forall|symbol: int|
                    0 <= symbol < SYMBOLS ==> (#[trigger] densities_bases@[symbol])@ == self.base(
                        symbol,
                    ),
                self.first_above(r@, 0) == self.first_above(r@, i as int),
            decreases SYMBOLS - i,
        {
            if densities_bases[i] > *r {
                return if i == 0 {
                    0
                } else {
                    i - 1
                };
            }
            i += 1;
        }
        0
    }

    /// Decodes as many bytes as the model has counted from `input`. It is
    /// an error if a symbol comes up that the model has never counted.
    pub fn decompress(&self, input: Rational) -> (r: Result<Vec<u8>, CodecError>)
        requires
            self.wf(),
            input.wf(),
        ensures
            match r {
                Ok(bytes) => self.decoded(input@, self.length as nat) == Ok::<
                    Seq<u8>,
                    CodecError,
                >(bytes@),
                Err(e) => self.decoded(input@, self.length as nat) == Err::<Seq<u8>, CodecError>(e),
            },
    {
        let mut result: Vec<u8> = Vec::new();
        if self.length == 0 {
            return Ok(result);
        }
        let (densities_bases, densities_ranges) = match self.tables() {
            Ok(t) => t,
            Err(e) => {
                return Err(e);
            },
        };
        let mut temp = input;
        let mut produced: u64 = 0;
        while produced < self.length
            invariant
                produced <= self.length,
                self.length > 0,
                self.tabulated(densities_bases@, densities_ranges@),
                temp.wf(),
                self.decoded(input@, self.length as nat) == followed_by(
                    result@,
                    self.decoded(temp@, (self.length - produced) as nat),
                ),
            decreases self.length - produced,
        {
            let i = self.find_range_index(&densities_bases, &temp);
            let base = densities_bases[i].clone();
            let range = densities_ranges[i].clone();
            let ghost value = temp@;
            let ghost rest = value.minus(self.base(i as int)).over(self.width(i as int));
            proof {
                lemma_symbol_begins_at_or_below(*self, value);
            }
            let difference = match temp.sub(base) {
                Ok(d) => d,
                Err(e) => {
                    return Err(e);
                },
            };
            temp = match difference.div(range) {
                Ok(q) => q,
                Err(e) => {
                    return Err(e);
                },
            };
            proof {
                let start = self.base(i as int);
                let span = self.width(i as int);
                lemma_arithmetic_is_valid(value, start);
                lemma_arithmetic_is_valid(difference@, span);
                lemma_arithmetic_is_valid(value.minus(start), span);
                lemma_over_respects_same(difference@, value.minus(start), span, span);
                lemma_same_is_transitive(temp@, difference@.over(span), rest);
                lemma_decoded_respects_same(
                    *self,
                    temp@,
                    rest,
                    (self.length - produced - 1) as nat,
                );
                let tail = self.decoded(rest, (self.length - produced - 1) as nat);
                if let Ok(bytes) = tail {
                    assert(result@ + (seq![i as u8] + bytes) == result@.push(i as u8) + bytes);
                }
            }
            result.push(i as u8);
            produced += 1;
        }
        Ok(result)
    }
}

/// The bytes `done`, and after them what `rest` holds; the failure of
/// `rest` if it holds none.
pub open spec fn followed_by(done: Seq<u8>, rest: Result<Seq<u8>, CodecError>) -> Result<
    Seq<u8>,
    CodecError,
> {
    match rest {
        Ok(tail) => Ok(done + tail),
        Err(e) => Err(e),
    }
}

/// The interval of one byte or more has a beginning and a width that stand
/// for numbers, in a model that has counted anything at all.
pub proof fn lemma_interval_is_valid(model: RangeEncoder, bytes: Seq<u8>)
    requires
        model.length > 0,
        bytes.len() > 0,
    ensures
        model.interval(bytes).0.valid(),
        model.interval(bytes).1.valid(),
    decreases bytes.len(),
{
    if bytes.len() > 1 {
        lemma_interval_is_valid(model, bytes.drop_last());
        let (start, span) = model.interval(bytes.drop_last());
        let l = model.length as nat;
        assert(span.den * l > 0 && start.den * (l * span.den) > 0) by (nonlinear_arith)
            requires
                span.den > 0,
                start.den > 0,
                l > 0,
        ;
    }
}

} // verus!
