use conservation_spectral_topology::holographic::{
    estimate_holographic_bound, CROSS_GENRE_TRANSFER_TENTH_PP, INVERTED_TRANSFER_TENTH_PP,
    TTT_HOLOGRAPHIC_COVERAGE_PERMILLE, TTT_HOLOGRAPHIC_TILE_COUNT, WITHIN_GENRE_TRANSFER_TENTH_PP,
};

#[test]
fn test_estimate_bound_ttt() {
    // TTT: branching ~9, depth 9
    let bound = estimate_holographic_bound(9, 9);
    // log2(9) + 9/2 ≈ 3.17 + 4.5 = 7.67 → ceil = 8
    assert!(
        bound >= 3 && bound <= 10,
        "TTT estimate should be reasonable, got {}",
        bound
    );
}

#[test]
fn test_estimate_bound_small_game() {
    let bound = estimate_holographic_bound(2, 2);
    assert!(bound >= 1);
}

#[test]
fn test_estimate_bound_zero() {
    let bound = estimate_holographic_bound(0, 5);
    assert_eq!(bound, 0);
}

#[test]
fn test_constants_sanity() {
    assert_eq!(TTT_HOLOGRAPHIC_TILE_COUNT, 5);
    assert!((TTT_HOLOGRAPHIC_COVERAGE_PERMILLE as f64 / 1000.0 - 0.998).abs() < 1e-10);
    assert!((WITHIN_GENRE_TRANSFER_TENTH_PP as f64 / 10.0 - 0.6).abs() < 1e-10);
    assert!((CROSS_GENRE_TRANSFER_TENTH_PP as f64 / 10.0).abs() < 1e-10);
    assert!((INVERTED_TRANSFER_TENTH_PP as f64 / 10.0 - (-1.7)).abs() < 1e-10);
}

#[test]
fn estimate_bound_exact_values() {
    // ceil(log2(9) + 4.5) = ceil(7.67) = 8
    assert_eq!(estimate_holographic_bound(9, 9), 8);
    // ceil(1 + 1) = 2
    assert_eq!(estimate_holographic_bound(2, 2), 2);
    // ceil(log2(3)) = 2
    assert_eq!(estimate_holographic_bound(3, 0), 2);
    // exact power of two: log2(8) = 3
    assert_eq!(estimate_holographic_bound(8, 0), 3);
    // ceil(10 + 1.5) = 12
    assert_eq!(estimate_holographic_bound(1024, 3), 12);
    // ceil(log2(5) + 1) = ceil(3.32) = 4
    assert_eq!(estimate_holographic_bound(5, 2), 4);
}

#[test]
fn estimate_bound_is_at_least_one() {
    // log2(1) + 0 = 0, raised to the minimum of 1
    assert_eq!(estimate_holographic_bound(1, 0), 1);
    // ceil(0 + 0.5) = 1
    assert_eq!(estimate_holographic_bound(1, 1), 1);
    // ceil(0 + 1) = 1
    assert_eq!(estimate_holographic_bound(1, 2), 1);
}

#[test]
fn estimate_bound_matches_float_formula_on_small_inputs() {
    for b in 1..200usize {
        for d in 0..40usize {
            let expected = (((b as f64).log2() + d as f64 / 2.0).ceil() as usize).max(1);
            assert_eq!(estimate_holographic_bound(b, d), expected, "b = {}, d = {}", b, d);
        }
    }
}

#[test]
fn estimate_bound_extreme_inputs() {
    // log2(2^64 - 1) is just below 64, and (2^64 - 1) / 2 = 2^63 - 0.5
    let max = usize::MAX;
    assert_eq!(estimate_holographic_bound(max, max), (1usize << 63) + 64);
    assert_eq!(estimate_holographic_bound(max, 0), 64);
    assert_eq!(estimate_holographic_bound(0, max), 0);
}
