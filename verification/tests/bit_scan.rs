use bit_math::BitMathError;
use bit_math::BitMathTrait;
use bit_math::U256;

#[test]
fn test_bit_math() {
    let values = [
        U256::from_u128(1234567890u128),
        U256::from_dec_str(
            "57896044618658097711785492504343953926634992332820282019728792004938939802342",
        )
        .unwrap(),
        U256::from_dec_str("1606938044259977626524336601268507632356953233627996783863721")
            .unwrap(),
        U256::from_dec_str("1037042214541001286141").unwrap(),
        U256::max_value(),
        U256::from_dec_str(
            "97896044618658097711785492504343953926634992332820282019728792004938939802342",
        )
        .unwrap(),
    ];

    let n: usize = values.len();
    for i in 0..n {
        let x = values[i];
        let mut lsb: u32 = 0;
        let mut msb: u32 = 0;
        for j in 0..=255u32 {
            if x.shr(j).bit_and(&U256::one()) == U256::one() {
                lsb = j;
                break;
            }
        }
        for j in 0..=255u32 {
            if x.shr(j).bit_and(&U256::one()) == U256::one() {
                msb = j;
            }
        }
        println!("{} {} {}", i, lsb, msb);
        assert_eq!(lsb, x.least_significant_bit() as u32);
        assert_eq!(msb, x.most_significant_bit() as u32);
    }
}

#[test]
fn test_scenario_indices() {
    let cases: [(&str, u8, u8); 5] = [
        ("1234567890", 1, 30),
        (
            "57896044618658097711785492504343953926634992332820282019728792004938939802342",
            1,
            255,
        ),
        (
            "1606938044259977626524336601268507632356953233627996783863721",
            0,
            200,
        ),
        ("1037042214541001286141", 0, 69),
        (
            "97896044618658097711785492504343953926634992332820282019728792004938939802342",
            1,
            255,
        ),
    ];
    for (s, lsb, msb) in cases {
        let x = U256::from_dec_str(s).unwrap();
        assert_eq!(x.least_significant_bit(), lsb);
        assert_eq!(x.most_significant_bit(), msb);
    }
}

#[test]
fn test_all_ones() {
    let x = U256::max_value();
    assert_eq!(x.least_significant_bit(), 0);
    assert_eq!(x.most_significant_bit(), 255);
}

#[test]
fn test_single_bit_set() {
    for i in 0..=255u32 {
        let x = U256::power_of_two(i);
        assert_eq!(x.most_significant_bit() as u32, i);
        assert_eq!(x.least_significant_bit() as u32, i);
    }
}

#[test]
fn test_small_values() {
    assert_eq!(U256::one().most_significant_bit(), 0);
    assert_eq!(U256::one().least_significant_bit(), 0);
    let two = U256::from_u128(2);
    assert_eq!(two.most_significant_bit(), 1);
    assert_eq!(two.least_significant_bit(), 1);
}

#[test]
fn test_zero_is_domain_error() {
    let zero = U256::zero();
    assert_eq!(
        zero.try_most_significant_bit(),
        Err(BitMathError::ZeroValue)
    );
    assert_eq!(
        zero.try_least_significant_bit(),
        Err(BitMathError::ZeroValue)
    );
    assert_eq!(U256::one().try_most_significant_bit(), Ok(0));
    assert_eq!(U256::one().try_least_significant_bit(), Ok(0));
}

#[test]
fn test_msb_bound() {
    // 2^30 <= 1234567890 < 2^31
    let x = U256::from_u128(1234567890u128);
    let r: u32 = x.most_significant_bit() as u32;
    assert!(x.ge(&U256::power_of_two(r)));
    assert!(U256::power_of_two(r + 1).gt(&x));
}

#[test]
fn test_lsb_mask() {
    // 24 = 0b11000: bit 3 is set and bits 0..3 are clear
    let x = U256::from_u128(24);
    let r: u32 = x.least_significant_bit() as u32;
    assert_eq!(r, 3);
    assert!(x.bit_and(&U256::power_of_two(r)).gt(&U256::zero()));
    assert_eq!(x.bit_and(&U256::low_mask(r)), U256::zero());
}

#[test]
fn test_ordering_of_indices() {
    let values = [
        U256::from_u128(1234567890u128),
        U256::from_u128(24),
        U256::max_value(),
        U256::power_of_two(200),
    ];
    for x in values {
        assert!(x.least_significant_bit() <= x.most_significant_bit());
    }
}

#[test]
fn test_power_of_two_identity() {
    // a power of two: the two indices agree
    let x = U256::power_of_two(77);
    assert_eq!(x.most_significant_bit(), x.least_significant_bit());
    // 12 = 0b1100 has two set bits: the indices differ
    let y = U256::from_u128(12);
    assert_eq!(y.least_significant_bit(), 2);
    assert_eq!(y.most_significant_bit(), 3);
}

#[test]
fn test_shift_law() {
    // 40 = 0b101000: lsb 3, msb 5; shifting by 3 moves both down by 3
    let x = U256::from_u128(40);
    assert_eq!(x.least_significant_bit(), 3);
    assert_eq!(x.most_significant_bit(), 5);
    let y = x.shr(3);
    assert_eq!(y.least_significant_bit(), 0);
    assert_eq!(y.most_significant_bit(), 2);
    // the same holds for a wide value with trailing zeros: 2^200 + 2^64
    let w = U256::from_hex_str("100000000000000000000000000000000010000000000000000").unwrap();
    assert_eq!(w.least_significant_bit(), 64);
    assert_eq!(w.most_significant_bit(), 200);
    let ws = w.shr(64);
    assert_eq!(ws.least_significant_bit(), 0);
    assert_eq!(ws.most_significant_bit(), 136);
}

#[test]
fn test_high_bit_only() {
    let x = U256::power_of_two(255);
    assert_eq!(x.least_significant_bit(), 255);
    assert_eq!(x.most_significant_bit(), 255);
}
