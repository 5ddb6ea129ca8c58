use airsend::binary64::{quotient_parts, round53_i128, round53_u128};

#[test]
fn values_of_53_bits_are_kept() {
    assert_eq!(round53_u128(0), 0);
    assert_eq!(round53_u128(9_007_199_254_740_991), 9_007_199_254_740_991);
    assert_eq!(round53_u128(9_007_199_254_740_992), 9_007_199_254_740_992);
}

#[test]
fn ties_round_to_even_significands() {
    assert_eq!(round53_u128(9_007_199_254_740_993), 9_007_199_254_740_992);
    assert_eq!(round53_u128(9_007_199_254_740_995), 9_007_199_254_740_996);
    assert_eq!(round53_i128(-9_007_199_254_740_995), -9_007_199_254_740_996);
    assert_eq!(round53_u128(9_007_199_254_740_995) as f64, 9_007_199_254_740_995u64 as f64);
}

#[test]
fn quotients_match_double_division() {
    assert_eq!(quotient_parts(48_000, 44_100), (4_901_877_145_437_275, 4_503_599_627_370_496));
    assert_eq!(quotient_parts(1, 3), (6_004_799_503_160_661, 18_014_398_509_481_984));
    let (m, k) = quotient_parts(44_100, 48_000);
    assert_eq!(m as f64 / k as f64, 44_100f64 / 48_000f64);
}
