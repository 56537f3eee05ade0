//! Reading a container gives back what was written into it.

use crate::bytes::le_digits;
use crate::bytes::le_minimal;
use crate::bytes::lemma_le_digits_len;
use crate::bytes::lemma_le_value_of_digits;
use crate::bytes::lemma_le_value_of_minimal;
use crate::bytes::lemma_radix_power_of_eight;
use crate::fraction::Fraction;
use crate::range_encoder::RangeEncoder;
use crate::range_encoder::SYMBOLS;
use crate::range_serializer::container;
use crate::range_serializer::contents;
use crate::range_serializer::sized;
use crate::range_serializer::sized_at;
use crate::range_serializer::table_bytes;
use crate::range_serializer::word_at;
use crate::range_serializer::Contents;
use crate::range_serializer::HEADER;
use crate::range_serializer::WORD;
use vstd::prelude::*;

verus! {

/// The table of `n` counts takes `8 · n` bytes.
pub proof fn lemma_table_bytes_len(counts: Seq<u64>)
    ensures
        table_bytes(counts).len() == WORD * counts.len(),
    decreases counts.len(),
{
    if counts.len() > 0 {
        lemma_table_bytes_len(counts.drop_last());
        lemma_le_digits_len(counts.last() as nat, WORD as nat);
    }
}

/// The count of a symbol stands in the table at 8 times the symbol.
pub proof fn lemma_table_holds_count(counts: Seq<u64>, symbol: int)
    requires
        0 <= symbol < counts.len(),
    ensures
        table_bytes(counts).subrange(WORD * symbol, WORD * symbol + WORD) == le_digits(
            counts[symbol] as nat,
            WORD as nat,
        ),
    decreases counts.len(),
{
    let front = counts.drop_last();
    lemma_table_bytes_len(front);
    lemma_table_bytes_len(counts);
    lemma_le_digits_len(counts.last() as nat, WORD as nat);
    if symbol < counts.len() - 1 {
        lemma_table_holds_count(front, symbol);
        assert(table_bytes(counts).subrange(WORD * symbol, WORD * symbol + WORD) == table_bytes(
            front,
        ).subrange(WORD * symbol, WORD * symbol + WORD));
    } else {
        assert(table_bytes(counts).subrange(WORD * symbol, WORD * symbol + WORD) == le_digits(
            counts.last() as nat,
            WORD as nat,
        ));
    }
}

/// An integer written in 8 bytes is read back as itself.
pub proof fn lemma_word_of_digits(bytes: Seq<u8>, at: int, val: u64)
    requires
        0 <= at,
        at + WORD <= bytes.len(),
        bytes.subrange(at, at + WORD) == le_digits(val as nat, WORD as nat),
    ensures
        word_at(bytes, at) == val,
{
    lemma_radix_power_of_eight();
    lemma_le_value_of_digits(val as nat, WORD as nat);
}

/// A field of any size that was written at `at` is read back as it was.
pub proof fn lemma_sized_is_read_back(bytes: Seq<u8>, at: int, field: Seq<u8>)
    requires
        0 <= at,
        field.len() <= u64::MAX,
        at + WORD + field.len() <= bytes.len(),
        bytes.subrange(at, at + WORD + field.len()) == sized(field),
    ensures
        sized_at(bytes, at) == Some(field),
{
    lemma_le_digits_len(field.len(), WORD as nat);
    let whole = bytes.subrange(at, at + WORD + field.len());
    assert(bytes.subrange(at, at + WORD) == whole.subrange(0, WORD as int));
    assert(whole.subrange(0, WORD as int) == le_digits(field.len(), WORD as nat));
    lemma_word_of_digits(bytes, at, field.len() as u64);
    assert(bytes.subrange(at + WORD, at + WORD + field.len()) == whole.subrange(
        WORD as int,
        WORD + field.len(),
    ));
    assert(whole.subrange(WORD as int, WORD + field.len()) == field);
}

/// Reading inverts writing. The container of a model and a value, with
/// whatever bytes after it, holds that model and that value.
///
/// The numerator and the denominator must be of a size that the container
/// can state: their byte counts must fit in the 8 bytes of a size field.
pub proof fn lemma_reading_inverts_writing(model: RangeEncoder, value: Fraction, after: Seq<u8>)
    requires
        le_minimal(value.num).len() <= u64::MAX,
        le_minimal(value.den).len() <= u64::MAX,
    ensures
        contents(container(model, value) + after) == Some(
            Contents {
                length: model.length,
                counts: model.density_map@,
                numerator: value.num,
                denominator: value.den,
            },
        ),
{
    let length_bytes = le_digits(model.length as nat, WORD as nat);
    let table = table_bytes(model.density_map@);
    let numerator = le_minimal(value.num);
    let denominator = le_minimal(value.den);
    let bytes = container(model, value) + after;
    lemma_le_digits_len(model.length as nat, WORD as nat);
    lemma_table_bytes_len(model.density_map@);
    lemma_le_digits_len(numerator.len(), WORD as nat);
    lemma_le_digits_len(denominator.len(), WORD as nat);
    assert(model.density_map@.len() == SYMBOLS);
    assert(table.len() == HEADER - WORD);
    // The length.
    assert(bytes.subrange(0, WORD as int) == length_bytes);
    lemma_word_of_digits(bytes, 0, model.length);
    // The counts.
    let counts = Seq::new(SYMBOLS as nat, |symbol: int| word_at(bytes, WORD + WORD * symbol));
    assert forall|symbol: int| 0 <= symbol < SYMBOLS implies counts[symbol]
        == model.density_map@[symbol] by {
        lemma_table_holds_count(model.density_map@, symbol);
        assert(bytes.subrange(WORD + WORD * symbol, WORD + WORD * symbol + WORD) == table.subrange(
            WORD * symbol,
            WORD * symbol + WORD,
        ));
        lemma_word_of_digits(bytes, WORD + WORD * symbol, model.density_map@[symbol]);
    }
    assert(counts == model.density_map@);
    // The numerator and the denominator.
    let numerator_at = HEADER as int;
    let denominator_at = HEADER + WORD + numerator.len();
    assert(bytes.subrange(numerator_at, numerator_at + WORD + numerator.len()) == sized(
        numerator,
    ));
    lemma_sized_is_read_back(bytes, numerator_at, numerator);
    assert(bytes.subrange(denominator_at, denominator_at + WORD + denominator.len()) == sized(
        denominator,
    ));
    lemma_sized_is_read_back(bytes, denominator_at, denominator);
    lemma_le_value_of_minimal(value.num);
    lemma_le_value_of_minimal(value.den);
}

} // verus!
