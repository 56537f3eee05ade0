//! The container that holds a frequency model and an encoded value as bytes.
//!
//! All integers are unsigned and little-endian. The container is, in order:
//! the length of the model in 8 bytes; the 256 counts of the model, symbol
//! 0 first, in 8 bytes each; the number of bytes of the numerator in 8
//! bytes, and those bytes; the number of bytes of the denominator in 8
//! bytes, and those bytes.

use crate::bignum::big_from_bytes_le;
use crate::bignum::big_to_bytes_le;
use crate::bytes::le_digits;
use crate::bytes::le_minimal;
use crate::bytes::le_value;
use crate::bytes::lemma_le_value_bound;
use crate::container_laws::lemma_reading_inverts_writing;
use crate::bytes::lemma_radix_power_of_eight;
use crate::error::CodecError;
use crate::fraction::Fraction;
use crate::range_encoder::RangeEncoder;
use crate::range_encoder::SYMBOLS;
use crate::rational::Rational;
use vstd::prelude::*;
use vstd::slice::slice_subrange;

verus! {

/// The bytes that an integer field takes.
pub const WORD: usize = 8;

/// The bytes before the numerator's field: the length and the counts.
pub const HEADER: usize = 2056;

/// Writes and reads the container.
pub struct RangeSerializer {}

/// What a container holds.
pub struct Contents {
    pub length: u64,
    pub counts: Seq<u64>,
    pub numerator: nat,
    pub denominator: nat,
}

/// The counts, symbol 0 first, in 8 bytes each.
pub open spec fn table_bytes(counts: Seq<u64>) -> Seq<u8>
    decreases counts.len(),
{
    if counts.len() == 0 {
        Seq::empty()
    } else {
        table_bytes(counts.drop_last()) + le_digits(counts.last() as nat, WORD as nat)
    }
}

/// A field of any size: the number of its bytes in 8 bytes, and the bytes.
pub open spec fn sized(bytes: Seq<u8>) -> Seq<u8> {
    le_digits(bytes.len(), WORD as nat) + bytes
}

/// The container of a model and a value.
pub open spec fn container(model: RangeEncoder, value: Fraction) -> Seq<u8> {
    le_digits(model.length as nat, WORD as nat) + table_bytes(model.density_map@) + sized(
        le_minimal(value.num),
    ) + sized(le_minimal(value.den))
}

/// The integer in the 8 bytes from `at` on.
pub open spec fn word_at(bytes: Seq<u8>, at: int) -> u64 {
    le_value(bytes.subrange(at, at + WORD)) as u64
}

/// The bytes of the field of any size that begins at `at`, if `bytes` holds
/// all of it.
pub open spec fn sized_at(bytes: Seq<u8>, at: int) -> Option<Seq<u8>> {
    if at + WORD > bytes.len() {
        None
    } else if at + WORD + word_at(bytes, at) > bytes.len() {
        None
    } else {
        Some(bytes.subrange(at + WORD, at + WORD + word_at(bytes, at)))
    }
}

/// What the container at the beginning of `bytes` holds, if `bytes` holds
/// all of it. What follows the container is not looked at.
pub open spec fn contents(bytes: Seq<u8>) -> Option<Contents> {
    if bytes.len() < HEADER {
        None
    } else {
        match sized_at(bytes, HEADER as int) {
            None => None,
            Some(numerator) => match sized_at(bytes, HEADER + WORD + numerator.len()) {
                None => None,
                Some(denominator) => Some(
                    Contents {
                        length: word_at(bytes, 0),
                        counts: Seq::new(
                            SYMBOLS as nat,
                            |symbol: int| word_at(bytes, WORD + WORD * symbol),
                        ),
                        numerator: le_value(numerator),
                        denominator: le_value(denominator),
                    },
                ),
            },
        }
    }
}

impl RangeSerializer {
    /// Appends `val` to `output` as 8 bytes, least significant first.
    pub fn write_u64(val: u64, output: &mut Vec<u8>)
        ensures
            final(output)@ == old(output)@ + le_digits(val as nat, WORD as nat),
    {
        let mut temp = val;
        let mut i: usize = 0;
        while i < WORD
            invariant
                i <= WORD,
                output@ + le_digits(temp as nat, (WORD - i) as nat) == old(output)@ + le_digits(
                    val as nat,
                    WORD as nat,
                ),
            decreases WORD - i,
        {
            let ghost before = output@;
            let ghost rest = le_digits((temp / 256) as nat, (WORD - i - 1) as nat);
            assert(temp & 0xFF == temp % 256) by (bit_vector);
            assert(temp >> 8 == temp / 256) by (bit_vector);
            output.push((temp & 0xFF) as u8);
            assert(before + (seq![(temp % 256) as u8] + rest) == before.push((temp % 256) as u8)
                + rest);
            temp = temp >> 8;
            i += 1;
        }
        assert(output@ + Seq::<u8>::empty() == output@);
    }

    /// Reads the 8 bytes of `input` from `offset` on as an integer, least
    /// significant byte first. It is an error if `input` ends before them.
    pub fn read_u64(input: &[u8], offset: usize) -> (r: Result<u64, CodecError>)
        ensures
            match r {
                Ok(val) => offset + WORD <= input@.len() && val == word_at(input@, offset as int),
                Err(e) => offset + WORD > input@.len() && e == CodecError::IoError,
            },
    {
        if input.len() < WORD || offset > input.len() - WORD {
            return Err(CodecError::IoError);
        }
        let ghost word = input@.subrange(offset as int, offset + WORD);
        let mut temp: u64 = 0;
        let mut i: usize = WORD;
        proof {
            lemma_radix_power_of_eight();
            lemma_le_value_bound(word);
            assert(word.subrange(WORD as int, WORD as int).len() == 0);
        }
        while i > 0
            invariant
                i <= WORD,
                offset + WORD <= input@.len() <= usize::MAX,
                word == input@.subrange(offset as int, offset + WORD),
                temp == le_value(word.subrange(i as int, WORD as int)),
                le_value(word) <= u64::MAX,
            decreases i,
        {
            i -= 1;
            let ghost upper = word.subrange(i + 1, WORD as int);
            let ghost from_here = word.subrange(i as int, WORD as int);
            proof {
                assert(from_here.skip(1) == upper);
                assert(from_here[0] == input@[offset + i]);
                lemma_prefix_value_is_larger(word, i as int);
            }
            temp = temp * 256 + input[offset + i] as u64;
        }
        assert(word.subrange(0, WORD as int) == word);
        Ok(temp)
    }

    /// Appends the container of `re` and `data` to `output`. Read back, the
    /// container holds `re` and `data` again.
    pub fn write(re: RangeEncoder, data: Rational, output: &mut Vec<u8>)
        ensures
            final(output)@ == old(output)@ + container(re, data@),
            contents(container(re, data@)) == Some(
                Contents {
                    length: re.length,
                    counts: re.density_map@,
                    numerator: data@.num,
                    denominator: data@.den,
                },
            ),
    {
        RangeSerializer::write_u64(re.length, output);
        let ghost start = output@;
        let mut i: usize = 0;
        assert(re.density_map@.take(0).len() == 0);
        assert(start + table_bytes(re.density_map@.take(0)) == start);
        while i < SYMBOLS
            invariant
                i <= SYMBOLS,
                output@ == start + table_bytes(re.density_map@.take(i as int)),
            decreases SYMBOLS - i,
        {
            let ghost before = output@;
            RangeSerializer::write_u64(re.density_map[i], output);
            proof {
                let next = re.density_map@.take(i + 1);
                assert(next.drop_last() == re.density_map@.take(i as int));
                assert(next.last() == re.density_map@[i as int]);
                assert(start + (table_bytes(next.drop_last()) + le_digits(
                    next.last() as nat,
                    WORD as nat,
                )) == before + le_digits(next.last() as nat, WORD as nat));
            }
            i += 1;
        }
        assert(re.density_map@.take(SYMBOLS as int) == re.density_map@);
        let ghost header = output@;
        let numerator_bytes = big_to_bytes_le(&data.numerator);
        RangeSerializer::write_u64(numerator_bytes.len() as u64, output);
        RangeSerializer::write_all(&numerator_bytes, output);
        let ghost upto_numerator = output@;
        assert(upto_numerator == header + sized(numerator_bytes@));
        let denominator_bytes = big_to_bytes_le(&data.denominator);
        RangeSerializer::write_u64(denominator_bytes.len() as u64, output);
        RangeSerializer::write_all(&denominator_bytes, output);
        assert(output@ == upto_numerator + sized(denominator_bytes@));
        proof {
            lemma_reading_inverts_writing(re, data@, Seq::empty());
            assert(container(re, data@) + Seq::<u8>::empty() == container(re, data@));
        }
    }

    /// Appends `bytes` to `output`.
    pub fn write_all(bytes: &Vec<u8>, output: &mut Vec<u8>)
        ensures
            final(output)@ == old(output)@ + bytes@,
    {
        let mut i: usize = 0;
        assert(old(output)@ + bytes@.take(0) == old(output)@);
        while i < bytes.len()
            invariant
                i <= bytes@.len(),
                output@ == old(output)@ + bytes@.take(i as int),
            decreases bytes@.len() - i,
        {
            output.push(bytes[i]);
            assert(bytes@.take(i + 1) == bytes@.take(i as int).push(bytes@[i as int]));
            i += 1;
        }
        assert(bytes@.take(bytes@.len() as int) == bytes@);
    }

    /// Reads the field of any size that begins at `offset`. It is an error
    /// if `input` ends before the end of the field.
    pub fn read_sized(input: &[u8], offset: usize) -> (r: Result<&[u8], CodecError>)
        ensures
            match r {
                Ok(field) => sized_at(input@, offset as int) == Some(field@),
                Err(e) => sized_at(input@, offset as int) is None && e == CodecError::IoError,
            },
    {
        let size = match RangeSerializer::read_u64(input, offset) {
            Ok(val) => val,
            Err(e) => {
                return Err(e);
            },
        };
        let total = input.len();
        let begin = offset + WORD;
        if size > (total - begin) as u64 {
            return Err(CodecError::IoError);
        }
        Ok(slice_subrange(input, begin, begin + size as usize))
    }

    /// Reads the container at the beginning of `input`. It is an error if
    /// `input` ends before the end of the container, and an error if the
    /// denominator it holds is zero. Whether the counts add up to the
    /// length is not looked at.
    pub fn read(input: &[u8]) -> (r: Result<(RangeEncoder, Rational), CodecError>)
        ensures
            match r {
                Ok(pair) => match contents(input@) {
                    Some(held) => held.denominator != 0 && pair.0.length == held.length
                        && pair.0.density_map@ == held.counts && pair.1@ == (Fraction {
                        num: held.numerator,
                        den: held.denominator,
                    }) && pair.1.opcount == 0,
                    None => false,
                },
                Err(e) => match contents(input@) {
                    Some(held) => held.denominator == 0 && e == CodecError::DivisionByZero,
                    None => e == CodecError::IoError,
                },
            },
    {
        if input.len() < HEADER {
            return Err(CodecError::IoError);
        }
        let mut re = RangeEncoder { length: 0, density_map: [0u64;256] };
        re.length = match RangeSerializer::read_u64(input, 0) {
            Ok(val) => val,
            Err(e) => {
                return Err(e);
            },
        };
        let mut i: usize = 0;
        while i < SYMBOLS
            invariant
                i <= SYMBOLS,
                input@.len() >= HEADER,
                re.length == word_at(input@, 0),
                forall|symbol: int|
                    0 <= symbol < i ==> #[trigger] re.density_map@[symbol] == word_at(
                        input@,
                        WORD + WORD * symbol,
                    ),
            decreases SYMBOLS - i,
        {
            re.density_map[i] = match RangeSerializer::read_u64(input, WORD + WORD * i) {
                Ok(val) => val,
                Err(e) => {
                    return Err(e);
                },
            };
            i += 1;
        }
        let numerator_bytes = match RangeSerializer::read_sized(input, HEADER) {
            Ok(field) => field,
            Err(e) => {
                return Err(e);
            },
        };
        let denominator_bytes = match RangeSerializer::read_sized(
            input,
            HEADER + WORD + numerator_bytes.len(),
        ) {
            Ok(field) => field,
            Err(e) => {
                return Err(e);
            },
        };
        assert(re.density_map@ == contents(input@).unwrap().counts);
        let numerator = big_from_bytes_le(numerator_bytes);
        let denominator = big_from_bytes_le(denominator_bytes);
        match Rational::from_parts(numerator, denominator) {
            Ok(data) => Ok((re, data)),
            Err(e) => Err(e),
        }
    }
}

/// The number that the bytes from `i` on stand for is not larger than the
/// number that all the bytes stand for.
proof fn lemma_prefix_value_is_larger(bytes: Seq<u8>, i: int)
    requires
        0 <= i <= bytes.len(),
    ensures
        le_value(bytes.subrange(i, bytes.len() as int)) <= le_value(bytes),
    decreases i,
{
    if i == 0 {
        assert(bytes.subrange(0, bytes.len() as int) == bytes);
    } else {
        lemma_prefix_value_is_larger(bytes, i - 1);
        let from_before = bytes.subrange(i - 1, bytes.len() as int);
        assert(from_before.skip(1) == bytes.subrange(i, bytes.len() as int));
    }
}

} // verus!
