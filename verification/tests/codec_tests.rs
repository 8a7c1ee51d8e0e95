use evm_transfer::amount::Amount;
use evm_transfer::codec::{from_human, to_human, CodecError};

#[test]
fn parses_one_point_five_at_eighteen_decimals() {
    let a = from_human("1.5", 18).unwrap();
    assert_eq!(a, Amount::from_u128(1_500_000_000_000_000_000));
}

#[test]
fn renders_one_point_five_back() {
    let a = from_human("1.5", 18).unwrap();
    assert_eq!(to_human(&a, 18), "1.5");
}

#[test]
fn round_trip_trims_trailing_zeros() {
    let a = from_human("1.50", 18).unwrap();
    assert_eq!(a, from_human("1.5", 18).unwrap());
    assert_eq!(to_human(&a, 18), "1.5");
}

#[test]
fn round_trip_various_canonical_strings() {
    for s in ["0", "7", "10", "0.5", "0.05", "123.456", "1000000", "0.000000000000000001"] {
        let a = from_human(s, 18).unwrap();
        assert_eq!(to_human(&a, 18), s);
    }
}

#[test]
fn integer_amount_scales_by_decimals() {
    let a = from_human("2", 6).unwrap();
    assert_eq!(a, Amount::from_u64(2_000_000));
    assert_eq!(to_human(&a, 6), "2");
}

#[test]
fn rejects_too_many_fractional_digits() {
    assert_eq!(from_human("1.234", 2), Err(CodecError::TooManyFractionalDigits));
    assert_eq!(from_human("0.0000001", 6), Err(CodecError::TooManyFractionalDigits));
}

#[test]
fn rejects_non_digit_characters() {
    assert_eq!(from_human("12a", 2), Err(CodecError::MalformedDecimal));
    assert_eq!(from_human("1,5", 18), Err(CodecError::MalformedDecimal));
    assert_eq!(from_human("-1", 18), Err(CodecError::MalformedDecimal));
    assert_eq!(from_human(" 1", 18), Err(CodecError::MalformedDecimal));
}

#[test]
fn rejects_malformed_shapes() {
    assert_eq!(from_human("", 18), Err(CodecError::MalformedDecimal));
    assert_eq!(from_human(".", 18), Err(CodecError::MalformedDecimal));
    assert_eq!(from_human(".5", 18), Err(CodecError::MalformedDecimal));
    assert_eq!(from_human("1.", 18), Err(CodecError::MalformedDecimal));
    assert_eq!(from_human("1..2", 18), Err(CodecError::MalformedDecimal));
    assert_eq!(from_human("1.2.3", 18), Err(CodecError::MalformedDecimal));
}

#[test]
fn accepts_the_largest_256_bit_value() {
    let max = "115792089237316195423570985008687907853269984665640564039457584007913129639935";
    let a = from_human(max, 0).unwrap();
    assert_eq!(to_human(&a, 0), max);
    assert_eq!(
        a,
        Amount {
            l0: u64::MAX,
            l1: u64::MAX,
            l2: u64::MAX,
            l3: u64::MAX,
        }
    );
}

#[test]
fn rejects_values_beyond_256_bits() {
    let over = "115792089237316195423570985008687907853269984665640564039457584007913129639936";
    assert_eq!(from_human(over, 0), Err(CodecError::Overflow));
    let way_over = format!("1{}", "0".repeat(78));
    assert_eq!(from_human(&way_over, 0), Err(CodecError::Overflow));
}

#[test]
fn overflow_by_scaling_is_reported() {
    // Fits as written, but not once scaled to 78 more decimal places.
    assert_eq!(from_human("2", 78), Err(CodecError::Overflow));
}

#[test]
fn zero_renders_as_zero() {
    let a = from_human("0", 5).unwrap();
    assert_eq!(a, Amount::zero());
    assert_eq!(to_human(&a, 5), "0");
    let b = from_human("0.000", 3).unwrap();
    assert_eq!(to_human(&b, 3), "0");
}

#[test]
fn fraction_keeps_leading_zeros() {
    let a = from_human("0.0042", 6).unwrap();
    assert_eq!(a, Amount::from_u64(4200));
    assert_eq!(to_human(&a, 6), "0.0042");
}

#[test]
fn amount_u128_round_trip() {
    let a = Amount::from_u128(340_282_366_920_938_463_463_374_607_431_768_211_455);
    assert_eq!(a.try_to_u128(), Some(u128::MAX));
    let big = Amount { l0: 0, l1: 0, l2: 1, l3: 0 };
    assert_eq!(big.try_to_u128(), None);
}

#[test]
fn amount_divmod_matches_value() {
    let a = Amount::from_u128(1_000_000_000_000_000_000_000_000_000_000);
    let (q, r) = a.divmod_small(7);
    assert_eq!(r, (1_000_000_000_000_000_000_000_000_000_000u128 % 7) as u64);
    assert_eq!(
        q.mul_add_small(7, r).unwrap(),
        Amount::from_u128(1_000_000_000_000_000_000_000_000_000_000)
    );
}

#[test]
fn amount_mul_overflow_is_none() {
    let a = Amount {
        l0: u64::MAX,
        l1: u64::MAX,
        l2: u64::MAX,
        l3: u64::MAX,
    };
    assert_eq!(a.mul_add_small(2, 0), None);
    assert_eq!(a.mul_add_small(1, 1), None);
    assert_eq!(a.mul_add_small(1, 0), Some(a));
}
