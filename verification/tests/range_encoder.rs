use num_bigint::BigUint;
use range_coder::error::CodecError;
use range_coder::range_encoder::RangeEncoder;
use range_coder::range_encoder::SYMBOLS;
use range_coder::rational::Rational;

fn frac(n: u64, d: u64) -> Rational {
    Rational::from(n, d).unwrap()
}

fn model_of(bytes: &[u8]) -> RangeEncoder {
    RangeEncoder::initialize(bytes).unwrap()
}

fn round_trip(bytes: &[u8]) -> Result<Vec<u8>, CodecError> {
    let model = model_of(bytes);
    let value = model.compress(bytes)?;
    model.decompress(value)
}

#[test]
fn initialize_counts_every_byte() {
    let model = model_of(&[0, 1, 1, 1, 2]);
    assert_eq!(model.length, 5);
    assert_eq!(model.density_map[0], 1);
    assert_eq!(model.density_map[1], 3);
    assert_eq!(model.density_map[2], 1);
    for symbol in 3..SYMBOLS {
        assert_eq!(model.density_map[symbol], 0);
    }
    assert!(model.is_consistent());
}

#[test]
fn initialize_does_not_depend_on_the_order() {
    let a = model_of(&[9, 200, 9, 0, 255, 9]);
    let b = model_of(&[255, 9, 9, 9, 0, 200]);
    assert_eq!(a.length, b.length);
    assert_eq!(a.density_map, b.density_map);
    assert_eq!(a.density_map[9], 3);
    assert_eq!(a.density_map[255], 1);
}

#[test]
fn initialize_of_nothing_is_empty_input() {
    assert_eq!(RangeEncoder::initialize(&[]).err(), Some(CodecError::EmptyInput));
}

#[test]
fn density_is_the_sum_of_the_counts_below() {
    let model = model_of(&[0, 1, 1, 1, 2]);
    assert_eq!(model.density(0), 0);
    assert_eq!(model.density(1), 1);
    assert_eq!(model.density(2), 4);
    assert_eq!(model.density(3), 5);
    assert_eq!(model.density(255), 5);
    assert_eq!(model.density(256), 5);
}

#[test]
fn density_never_falls() {
    let bytes: Vec<u8> = (0..1000u32).map(|i| ((i * i + 7 * i) % 251) as u8).collect();
    let model = model_of(&bytes);
    assert_eq!(model.density(0), 0);
    for symbol in 0..SYMBOLS {
        assert!(model.density(symbol) <= model.density(symbol + 1));
        assert_eq!(
            model.density(symbol + 1) - model.density(symbol),
            model.density_map[symbol]
        );
    }
    assert_eq!(model.density(SYMBOLS), model.length);
}

#[test]
fn is_consistent_compares_the_sum_with_the_length() {
    let mut model = model_of(&[4, 4, 8]);
    assert!(model.is_consistent());
    model.length = 4;
    assert!(!model.is_consistent());
    model.length = 2;
    assert!(!model.is_consistent());
    model.length = 3;
    model.density_map[100] = u64::MAX;
    assert!(!model.is_consistent());
    model.density_map[101] = u64::MAX;
    assert!(!model.is_consistent());
}

#[test]
fn tables_hold_base_and_width_of_every_symbol() {
    let model = model_of(&[0, 1, 1, 1, 2]);
    let (bases, widths) = model.tables().unwrap();
    assert_eq!(bases.len(), 256);
    assert_eq!(widths.len(), 256);
    let five = BigUint::from(5u32);
    let expected_bases = [0u32, 1, 4, 5];
    let expected_widths = [1u32, 3, 1, 0];
    for symbol in 0..4 {
        assert_eq!(bases[symbol].numerator, BigUint::from(expected_bases[symbol]));
        assert_eq!(bases[symbol].denominator, five);
        assert_eq!(widths[symbol].numerator, BigUint::from(expected_widths[symbol]));
        assert_eq!(widths[symbol].denominator, five);
    }
    assert_eq!(bases[255].numerator, five);
    assert_eq!(widths[255].numerator, BigUint::from(0u32));
}

#[test]
fn tables_of_an_empty_model_are_division_by_zero() {
    let model = RangeEncoder { density_map: [0u64; 256], length: 0 };
    assert_eq!(model.tables().err(), Some(CodecError::DivisionByZero));
}

#[test]
fn compress_of_one_byte_is_the_middle_of_its_part() {
    let model = model_of(&[0, 1, 1, 1, 2]);
    // The part of 1 is [1/5, 4/5).
    assert!(model.compress(&[1]).unwrap() == frac(1, 2));
    // The part of 0 is [0, 1/5).
    assert!(model.compress(&[0]).unwrap() == frac(1, 10));
    // The part of 2 is [4/5, 1).
    assert!(model.compress(&[2]).unwrap() == frac(9, 10));
}

#[test]
fn compress_narrows_once_per_byte() {
    let model = model_of(&[0, 1, 1, 1, 2]);
    // [0, 1/5), then [1/25, 4/25): the middle is 1/10.
    assert!(model.compress(&[0, 1]).unwrap() == frac(1, 10));
    // [0, 1/5) -> [1/25, 4/25) -> [8/125, 17/125) -> [49/625, 76/625)
    // -> [353/3125, 380/3125): the middle is 733/6250.
    assert!(model.compress(&[0, 1, 1, 1, 2]).unwrap() == frac(733, 6250));
}

#[test]
fn compress_reduces_when_the_count_reaches_the_threshold() {
    let model = model_of(&[0, 1, 1, 1, 2]);
    // After four bytes the beginning is 765625/9765625 with count 9. The
    // fifth byte brings the count to 14, so the sum is reduced to 353/3125.
    // Half the width, 27/6250 with count 5, is then added without reducing.
    let value = model.compress(&[0, 1, 1, 1, 2]).unwrap();
    assert_eq!(value.numerator, BigUint::from(2290625u32));
    assert_eq!(value.denominator, BigUint::from(19531250u32));
    assert_eq!(value.opcount, 6);
    // After four bytes the last sum has the count 9 + 4 + 1, and the
    // midpoint of [49/625, 76/625) is reduced to 1/10.
    let short = model.compress(&[0, 1, 1, 1]).unwrap();
    assert_eq!(short.numerator, BigUint::from(1u32));
    assert_eq!(short.denominator, BigUint::from(10u32));
    assert_eq!(short.opcount, 0);
    // After three bytes nothing has been reduced yet.
    let shorter = model.compress(&[0, 1, 1]).unwrap();
    assert_eq!(shorter.numerator, BigUint::from(1000u64 * 250 + 9 * 15625));
    assert_eq!(shorter.denominator, BigUint::from(15625u64 * 250));
    assert_eq!(shorter.opcount, 9);
}

#[test]
fn compress_of_a_symbol_without_count_has_no_width() {
    let model = model_of(&[0, 1, 1, 1, 2]);
    // Symbol 7 begins at 1 and is 0 wide.
    assert!(model.compress(&[7]).unwrap() == frac(1, 1));
    assert!(model.compress(&[1, 7]).unwrap() == frac(4, 5));
}

#[test]
fn compress_of_nothing_is_empty_input() {
    let model = model_of(&[0, 1, 1, 1, 2]);
    assert_eq!(model.compress(&[]).err(), Some(CodecError::EmptyInput));
    let empty = RangeEncoder { density_map: [0u64; 256], length: 0 };
    assert_eq!(empty.compress(&[]).err(), Some(CodecError::EmptyInput));
}

#[test]
fn compress_with_an_empty_model_is_division_by_zero() {
    let empty = RangeEncoder { density_map: [0u64; 256], length: 0 };
    assert_eq!(empty.compress(&[1, 2, 3]).err(), Some(CodecError::DivisionByZero));
}

#[test]
fn find_range_index_is_the_symbol_before_the_first_base_above() {
    let model = model_of(&[0, 1, 1, 1, 2]);
    let (bases, _) = model.tables().unwrap();
    assert_eq!(model.find_range_index(&bases, &frac(0, 1)), 0);
    assert_eq!(model.find_range_index(&bases, &frac(1, 10)), 0);
    assert_eq!(model.find_range_index(&bases, &frac(1, 5)), 1);
    assert_eq!(model.find_range_index(&bases, &frac(79, 100)), 1);
    assert_eq!(model.find_range_index(&bases, &frac(4, 5)), 2);
    assert_eq!(model.find_range_index(&bases, &frac(99, 100)), 2);
}

#[test]
fn find_range_index_is_zero_when_no_base_is_above() {
    let model = model_of(&[0, 1, 1, 1, 2]);
    let (bases, _) = model.tables().unwrap();
    assert_eq!(model.find_range_index(&bases, &frac(1, 1)), 0);
    assert_eq!(model.find_range_index(&bases, &frac(3, 2)), 0);
}

#[test]
fn decompress_reads_as_many_bytes_as_the_model_counted() {
    let model = model_of(&[0, 1, 1, 1, 2]);
    assert_eq!(model.decompress(frac(733, 6250)).unwrap(), vec![0, 1, 1, 1, 2]);
    // The same number written as another pair.
    assert_eq!(model.decompress(frac(1466, 12500)).unwrap(), vec![0, 1, 1, 1, 2]);
    // 1/2 lies in the middle of the part of 1, at every step.
    assert_eq!(model.decompress(frac(1, 2)).unwrap(), vec![1, 1, 1, 1, 1]);
}

#[test]
fn decompress_of_an_empty_model_is_no_bytes() {
    let empty = RangeEncoder { density_map: [0u64; 256], length: 0 };
    assert_eq!(empty.decompress(frac(1, 2)).unwrap(), Vec::<u8>::new());
}

#[test]
fn decompress_of_a_symbol_without_count_is_division_by_zero() {
    let mut counts = [0u64; 256];
    counts[3] = 2;
    let model = RangeEncoder { density_map: counts, length: 2 };
    // base(3) is 0 and base(4) is 1, so 1/2 reads 3. No base is above a
    // value of 1 or more, which therefore reads symbol 0.
    assert_eq!(model.decompress(frac(1, 2)).unwrap(), vec![3, 3]);
    assert_eq!(model.decompress(frac(1, 1)).err(), Some(CodecError::DivisionByZero));
    assert_eq!(model.decompress(frac(5, 2)).err(), Some(CodecError::DivisionByZero));
}

#[test]
fn decompress_fails_at_a_later_step_too() {
    let model = model_of(&[0, 1, 1, 1, 2]);
    // 4/5 reads 2 and leaves 0; 0 reads 0 and leaves 0, to the end.
    assert_eq!(model.decompress(frac(4, 5)).unwrap(), vec![2, 0, 0, 0, 0]);
    // 1 is above every base: it reads 0 and leaves 5, which reads 0 and
    // leaves 25, and so on.
    assert_eq!(model.decompress(frac(1, 1)).unwrap(), vec![0, 0, 0, 0, 0]);
    let mut counts = [0u64; 256];
    counts[1] = 1;
    counts[2] = 1;
    let sparse = RangeEncoder { density_map: counts, length: 2 };
    // 3/4 reads 2 and leaves 1/2, which reads 2 again: base(2) is 1/2.
    assert_eq!(sparse.decompress(frac(3, 4)).unwrap(), vec![2, 2]);
    // 1/4 reads 1 and leaves 1/2, which reads 2.
    assert_eq!(sparse.decompress(frac(1, 4)).unwrap(), vec![1, 2]);
    // 1 reads 0, which was never counted.
    assert_eq!(sparse.decompress(frac(1, 1)).err(), Some(CodecError::DivisionByZero));
}

#[test]
fn decoding_gives_back_five_bytes() {
    assert_eq!(round_trip(&[0, 1, 1, 1, 2]).unwrap(), vec![0, 1, 1, 1, 2]);
}

#[test]
fn decoding_gives_back_one_byte() {
    assert_eq!(round_trip(&[0]).unwrap(), vec![0]);
    assert_eq!(round_trip(&[77]).unwrap(), vec![77]);
    assert_eq!(round_trip(&[254]).unwrap(), vec![254]);
}

#[test]
fn decoding_gives_back_a_run() {
    let bytes = vec![42u8; 64];
    assert_eq!(round_trip(&bytes).unwrap(), bytes);
}

#[test]
fn decoding_gives_back_text() {
    let bytes = b"the quick brown fox jumps over the lazy dog".to_vec();
    assert_eq!(round_trip(&bytes).unwrap(), bytes);
}

#[test]
fn decoding_gives_back_every_symbol_but_the_last() {
    let bytes: Vec<u8> = (0..255u32).map(|i| i as u8).collect();
    assert_eq!(round_trip(&bytes).unwrap(), bytes);
}

#[test]
fn decoding_gives_back_a_longer_input() {
    let mut state: u32 = 12345;
    let mut bytes = Vec::new();
    for _ in 0..400 {
        state = state.wrapping_mul(1103515245).wrapping_add(12345);
        bytes.push(((state >> 16) % 255) as u8);
    }
    assert_eq!(round_trip(&bytes).unwrap(), bytes);
}

#[test]
fn the_last_symbol_is_read_as_symbol_zero() {
    // No part begins above a value in the part of 255.
    assert_eq!(round_trip(&[255]).err(), Some(CodecError::DivisionByZero));
    assert_eq!(round_trip(&[0, 255]).unwrap(), vec![0, 0]);
    assert_eq!(round_trip(&[7, 255, 7]).err(), Some(CodecError::DivisionByZero));
}

#[test]
fn encoded_value_lies_below_one() {
    let bytes = b"abracadabra".to_vec();
    let model = model_of(&bytes);
    let value = model.compress(&bytes).unwrap();
    assert!(value < frac(1, 1));
    assert!(value > frac(0, 1));
    assert!(value.numerator < value.denominator);
}
