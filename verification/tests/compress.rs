use approx::Relative;
use int_compress::{
    compress_int, compress_u16, compress_u32, compress_u8, try_compress_int, CompressError,
};

#[test]
fn test_compression() {
    let bit_count: u32 = 3;
    for i in 0u64..8u64 {
        assert_eq!(compress_int(i, bit_count), i);
    }
    for i in 8u64..10u64 {
        assert_eq!(compress_int(i, bit_count), 9);
    }
    for i in 10u64..12u64 {
        assert_eq!(compress_int(i, bit_count), 10);
    }
    for i in 16u64..20u64 {
        assert_eq!(compress_int(i, bit_count), 18);
    }

    // example in function doc:
    assert_eq!(compress_int(67u64, bit_count), 72u64);
}

#[test]
fn test_bias() {
    let bit_count: u32 = 2;
    let n: u64 = 1024;
    let eps: f64 = 0.000_001;

    let mut sum: f64 = 0.;
    for i in 0..n {
        sum += compress_int(i, bit_count) as f64;
    }
    sum /= n as f64;
    let expect: f64 = (n - 1) as f64 / 2.;

    assert!(Relative::default().epsilon(eps).eq(&sum, &expect));
}

#[test]
fn test_invalid_bit_count() {
    assert_eq!(try_compress_int(0, 0), Err(CompressError::InvalidBitCount));
    assert_eq!(try_compress_int(5, 0), Err(CompressError::InvalidBitCount));
    assert_eq!(
        try_compress_int(u64::MAX, 0),
        Err(CompressError::InvalidBitCount)
    );
}

#[test]
fn test_try_compress_matches_compress() {
    assert_eq!(try_compress_int(67, 3), Ok(72));
    assert_eq!(try_compress_int(5, 3), Ok(5));
    assert_eq!(try_compress_int(18, 3), Ok(18));
}

#[test]
fn test_zero_passes_through() {
    for bit_count in 1u32..=64u32 {
        assert_eq!(compress_int(0, bit_count), 0);
    }
}

#[test]
fn test_bit_count_at_or_above_width_passes_through() {
    assert_eq!(compress_int(u64::MAX, 64), u64::MAX);
    assert_eq!(compress_int(12345, 64), 12345);
}

#[test]
fn test_narrow_widths_match_wide() {
    assert_eq!(compress_u8(67, 3), 72);
    assert_eq!(compress_u16(67, 3), 72);
    assert_eq!(compress_u32(67, 3), 72);
    for i in 0u8..=255u8 {
        assert_eq!(u64::from(compress_u8(i, 3)), compress_int(u64::from(i), 3));
        assert_eq!(
            u32::from(compress_u16(u16::from(i), 3)),
            compress_u32(u32::from(i), 3)
        );
    }
}

#[test]
fn test_max_values_one_bit() {
    // bit_count 1 takes the selector from the shift: for the all-ones input
    // of each width the shift is odd, so the complement suffix is chosen.
    assert_eq!(compress_u8(u8::MAX, 1), 0xbf);
    assert_eq!(compress_u16(u16::MAX, 1), 0xbfff);
    assert_eq!(compress_u32(u32::MAX, 1), 0xbfff_ffff);
    assert_eq!(compress_int(u64::MAX, 1), 0xbfff_ffff_ffff_ffff);
}

#[test]
fn test_large_value() {
    let test_val: u64 = 123_039_843_249;
    let expect: u64 = 128_849_018_879;
    assert_eq!(compress_int(test_val, 3), expect);
}

#[test]
fn test_buckets_collapse_and_alternate() {
    // With bit_count 3, the bucket 32..40 has even prefix 4 and rounds to
    // the bucket's upper marker, while 40..48 has odd prefix 5 and rounds
    // to the lower one: adjacent buckets alternate their rounding direction.
    for i in 32u64..40u64 {
        assert_eq!(compress_int(i, 3), 36);
    }
    for i in 40u64..48u64 {
        assert_eq!(compress_int(i, 3), 43);
    }
}
