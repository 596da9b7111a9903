use gcd_bench::bruteforce_v1_gcd;
use gcd_bench::bruteforce_v2_gcd;
use gcd_bench::compute_gcd;
use gcd_bench::euclid_gcd;
use gcd_bench::euclid_v2_gcd;
use gcd_bench::AlgorithmKind;

#[test]
fn all_algorithms_agree_on_coprime_pair() {
    assert_eq!(bruteforce_v1_gcd(17, 13), 1);
    assert_eq!(bruteforce_v2_gcd(17, 13), 1);
    assert_eq!(euclid_gcd(17, 13), 1);
    assert_eq!(euclid_v2_gcd(17, 13), 1);
}

#[test]
fn all_algorithms_agree_when_gcd_is_proper() {
    // gcd(12, 8) = 4 lies strictly below both operands, so even the first
    // brute-force scan finds it.
    assert_eq!(bruteforce_v1_gcd(12, 8), 4);
    assert_eq!(bruteforce_v2_gcd(12, 8), 4);
    assert_eq!(euclid_gcd(12, 8), 4);
    assert_eq!(euclid_v2_gcd(12, 8), 4);

    assert_eq!(bruteforce_v1_gcd(100, 75), 25);
    assert_eq!(bruteforce_v2_gcd(100, 75), 25);
    assert_eq!(euclid_gcd(100, 75), 25);
    assert_eq!(euclid_v2_gcd(100, 75), 25);
}

#[test]
fn bruteforce_v1_returns_zero_when_an_operand_is_one() {
    assert_eq!(bruteforce_v1_gcd(7, 1), 0);
    assert_eq!(bruteforce_v1_gcd(1, 9), 0);
    assert_eq!(bruteforce_v1_gcd(1, 1), 0);
    assert_eq!(bruteforce_v1_gcd(9999, 1), 0);
}

#[test]
fn bruteforce_v1_stops_short_when_smaller_divides_larger() {
    // The scan excludes the smaller operand itself, so it returns the
    // largest common divisor strictly below it, not the true gcd.
    assert_eq!(bruteforce_v1_gcd(6, 3), 1);
    assert_eq!(bruteforce_v1_gcd(8, 4), 2);
    assert_eq!(bruteforce_v1_gcd(6, 6), 3);
    assert_eq!(bruteforce_v1_gcd(12, 4), 2);
}

#[test]
fn gcd_of_equal_operands_is_the_operand() {
    assert_eq!(bruteforce_v2_gcd(6, 6), 6);
    assert_eq!(euclid_gcd(6, 6), 6);
    assert_eq!(euclid_v2_gcd(6, 6), 6);
    assert_eq!(bruteforce_v2_gcd(1, 1), 1);
    assert_eq!(euclid_gcd(1, 1), 1);
    assert_eq!(euclid_v2_gcd(1, 1), 1);
    assert_eq!(bruteforce_v2_gcd(9973, 9973), 9973);
    assert_eq!(euclid_gcd(9973, 9973), 9973);
    assert_eq!(euclid_v2_gcd(9973, 9973), 9973);
}

#[test]
fn gcd_is_order_independent() {
    let pairs = [(12u32, 8u32), (8, 12), (100, 75), (75, 100), (17, 13), (13, 17), (9, 6)];
    for &(a, b) in pairs.iter() {
        assert_eq!(bruteforce_v1_gcd(a, b), bruteforce_v1_gcd(b, a));
        assert_eq!(bruteforce_v2_gcd(a, b), bruteforce_v2_gcd(b, a));
        assert_eq!(euclid_gcd(a, b), euclid_gcd(b, a));
        assert_eq!(euclid_v2_gcd(a, b), euclid_v2_gcd(b, a));
    }
}

#[test]
fn euclid_variants_handle_large_operands() {
    assert_eq!(euclid_gcd(4294967295, 3), 3);
    assert_eq!(euclid_v2_gcd(4294967295, 3), 3);
    assert_eq!(euclid_gcd(3918848, 1653264), 61232);
    assert_eq!(euclid_v2_gcd(3918848, 1653264), 61232);
}

#[test]
fn euclid_variants_cover_every_quotient_path() {
    // Quotients 1, 2 and 3 take the subtraction shortcuts; 4 and above
    // take the division fall-back.
    assert_eq!(euclid_v2_gcd(5, 3), 1);
    assert_eq!(euclid_v2_gcd(7, 3), 1);
    assert_eq!(euclid_v2_gcd(11, 3), 1);
    assert_eq!(euclid_v2_gcd(13, 3), 1);
    assert_eq!(euclid_gcd(5, 3), 1);
    assert_eq!(euclid_gcd(13, 3), 1);
}

#[test]
fn dispatch_selects_each_algorithm() {
    assert_eq!(compute_gcd(AlgorithmKind::BruteForceV1, 12, 8), 4);
    assert_eq!(compute_gcd(AlgorithmKind::BruteForceV2, 12, 8), 4);
    assert_eq!(compute_gcd(AlgorithmKind::EuclidOriginal, 12, 8), 4);
    assert_eq!(compute_gcd(AlgorithmKind::EuclidOptimized, 12, 8), 4);
    assert_eq!(compute_gcd(AlgorithmKind::BruteForceV1, 6, 3), 1);
    assert_eq!(compute_gcd(AlgorithmKind::BruteForceV2, 6, 3), 3);
}
