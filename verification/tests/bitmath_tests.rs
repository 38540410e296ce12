use bitpack::bitmath::{bits_required, log2, popcount};

/// The least number of bits b with width < 2^b, computed by brute force.
fn brute_force_bits(width: u64) -> u32 {
    let mut b: u32 = 0;
    while width >= (1u64 << b) {
        b += 1;
    }
    b
}

#[test]
fn bits_required_matches_brute_force_exhaustively() {
    for max in 1u32..=65536 {
        let expected = brute_force_bits(max as u64);
        assert_eq!(bits_required(0, max), expected, "width {}", max);
    }
}

#[test]
fn bits_required_matches_brute_force_on_sampled_ranges() {
    let mins = [0u32, 1, 7, 100, 65535, 1 << 20, u32::MAX - 17];
    let widths = [1u32, 2, 3, 5, 255, 256, 1000, 65536];
    for &min in mins.iter() {
        for &width in widths.iter() {
            if let Some(max) = min.checked_add(width) {
                assert_eq!(bits_required(min, max), brute_force_bits(width as u64));
            }
        }
    }
}

#[test]
fn bits_required_at_power_of_two_boundaries() {
    assert_eq!(bits_required(0, 0), 0);
    assert_eq!(bits_required(5, 5), 0);
    assert_eq!(bits_required(0, 1), 1);
    assert_eq!(bits_required(0, 3), 2);
    assert_eq!(bits_required(0, 4), 3);
    assert_eq!(bits_required(0, 7), 3);
    assert_eq!(bits_required(0, 8), 4);
    assert_eq!(bits_required(0, 15), 4);
    assert_eq!(bits_required(0, 16), 5);
    assert_eq!(bits_required(0, 255), 8);
    assert_eq!(bits_required(0, 256), 9);
    assert_eq!(bits_required(0, 65535), 16);
    assert_eq!(bits_required(0, 65536), 17);
    assert_eq!(bits_required(0, (1 << 31) - 1), 31);
    assert_eq!(bits_required(0, 1 << 31), 32);
    assert_eq!(bits_required(0, u32::MAX), 32);
}

#[test]
fn popcount_counts_set_bits() {
    assert_eq!(popcount(0), 0);
    assert_eq!(popcount(1), 1);
    assert_eq!(popcount(0b1011), 3);
    assert_eq!(popcount(0x55555555), 16);
    assert_eq!(popcount(0xAAAAAAAA), 16);
    assert_eq!(popcount(0xFFFFFFFF), 32);
    assert_eq!(popcount(1 << 31), 1);
    for i in 0..32u32 {
        assert_eq!(popcount(1 << i), 1);
        assert_eq!(popcount((1u64 << (i + 1)) as u32 & u32::MAX), if i == 31 { 0 } else { 1 });
    }
}

#[test]
fn log2_is_floor_of_base_two_logarithm() {
    assert_eq!(log2(0), 0);
    assert_eq!(log2(1), 0);
    assert_eq!(log2(2), 1);
    assert_eq!(log2(3), 1);
    assert_eq!(log2(4), 2);
    assert_eq!(log2(7), 2);
    assert_eq!(log2(8), 3);
    assert_eq!(log2(255), 7);
    assert_eq!(log2(256), 8);
    assert_eq!(log2(u32::MAX), 31);
    for e in 0..32u32 {
        let p = 1u32 << e;
        assert_eq!(log2(p), e);
        if p > 2 {
            assert_eq!(log2(p - 1), e - 1);
        }
    }
}
