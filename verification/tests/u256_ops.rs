use bit_math::U256;

#[test]
fn test_constants() {
    assert_eq!(U256::zero(), U256::from_u128(0));
    assert_eq!(U256::one(), U256::from_u128(1));
    assert!(U256::zero().is_zero());
    assert!(!U256::one().is_zero());
    assert!(U256::max_value().gt(&U256::zero()));
}

#[test]
fn test_comparisons() {
    let a = U256::from_u128(5);
    let b = U256::from_u128(7);
    assert!(b.ge(&a));
    assert!(b.ge(&b));
    assert!(!a.ge(&b));
    assert!(b.gt(&a));
    assert!(!b.gt(&b));
    // an order decided by a high limb, against one decided low
    let hi = U256::power_of_two(200);
    let lo = U256::from_u128(u128::MAX);
    assert!(hi.gt(&lo));
    assert!(U256::max_value().ge(&hi));
}

#[test]
fn test_shr() {
    let x = U256::from_u128(0xff00);
    assert_eq!(x.shr(8), U256::from_u128(0xff));
    assert_eq!(x.shr(0), x);
    assert_eq!(x.shr(16), U256::zero());
    // shifts across limb boundaries
    assert_eq!(U256::power_of_two(200).shr(72), U256::power_of_two(128));
    assert_eq!(U256::power_of_two(255).shr(255), U256::one());
    // a shift of 256 or more clears everything
    assert_eq!(U256::max_value().shr(256), U256::zero());
    assert_eq!(U256::max_value().shr(300), U256::zero());
}

#[test]
fn test_bit_and() {
    let a = U256::from_u128(0b1100);
    let b = U256::from_u128(0b1010);
    assert_eq!(a.bit_and(&b), U256::from_u128(0b1000));
    assert_eq!(a.bit_and(&U256::zero()), U256::zero());
    assert_eq!(a.bit_and(&U256::max_value()), a);
    let hi = U256::power_of_two(200);
    assert_eq!(hi.bit_and(&hi), hi);
    assert_eq!(hi.bit_and(&U256::from_u128(u128::MAX)), U256::zero());
}

#[test]
fn test_low_mask() {
    assert_eq!(U256::low_mask(0), U256::zero());
    assert_eq!(U256::low_mask(4), U256::from_u128(0xf));
    assert_eq!(U256::low_mask(128), U256::from_u128(u128::MAX));
    assert_eq!(U256::low_mask(256), U256::max_value());
}

#[test]
fn test_power_of_two_values() {
    assert_eq!(U256::power_of_two(0), U256::one());
    assert_eq!(U256::power_of_two(10), U256::from_u128(1024));
    assert_eq!(U256::power_of_two(127), U256::from_u128(1u128 << 127));
    // 2^128 sits just above the range of u128
    assert!(U256::power_of_two(128).gt(&U256::from_u128(u128::MAX)));
}

#[test]
fn test_from_dec_str() {
    assert_eq!(U256::from_dec_str("0"), Some(U256::zero()));
    assert_eq!(U256::from_dec_str("1234567890"), Some(U256::from_u128(1234567890)));
    // the largest representable value, 2^256 - 1
    let max_dec =
        "115792089237316195423570985008687907853269984665640564039457584007913129639935";
    assert_eq!(U256::from_dec_str(max_dec), Some(U256::max_value()));
}

#[test]
fn test_from_dec_str_rejects() {
    // empty input
    assert_eq!(U256::from_dec_str(""), None);
    // a character that is no decimal digit
    assert_eq!(U256::from_dec_str("12a4"), None);
    assert_eq!(U256::from_dec_str("-1"), None);
    // 2^256 itself no longer fits
    let too_big =
        "115792089237316195423570985008687907853269984665640564039457584007913129639936";
    assert_eq!(U256::from_dec_str(too_big), None);
}

#[test]
fn test_from_hex_str() {
    assert_eq!(U256::from_hex_str("0"), Some(U256::zero()));
    assert_eq!(U256::from_hex_str("ff"), Some(U256::from_u128(255)));
    assert_eq!(U256::from_hex_str("FF"), Some(U256::from_u128(255)));
    assert_eq!(U256::from_hex_str("deadBEEF"), Some(U256::from_u128(0xdeadbeef)));
    assert_eq!(
        U256::from_hex_str("100000000000000000000000000000000"),
        Some(U256::power_of_two(128))
    );
    let all_f = "ffffffffffffffffffffffffffffffffffffffffffffffffffffffffffffffff";
    assert_eq!(U256::from_hex_str(all_f), Some(U256::max_value()));
}

#[test]
fn test_from_hex_str_rejects() {
    assert_eq!(U256::from_hex_str(""), None);
    // a radix prefix is not part of the number
    assert_eq!(U256::from_hex_str("0x10"), None);
    assert_eq!(U256::from_hex_str("g1"), None);
    // 65 hex digits reach past 256 bits
    let too_big = "10000000000000000000000000000000000000000000000000000000000000000";
    assert_eq!(U256::from_hex_str(too_big), None);
}

#[test]
fn test_from_u128_round_trip() {
    let v: u128 = 0x0123456789abcdef0123456789abcdef;
    let x = U256::from_u128(v);
    assert_eq!(U256::from_hex_str("123456789abcdef0123456789abcdef"), Some(x));
    assert_eq!(x.shr(64), U256::from_u128(v >> 64));
}
