use tfifo::scaling::{reciprocal_scale_u16, reciprocal_scale_u32, reciprocal_scale_u8};

// Midpoint scaling for the 8-bit width: (255 * 128) >> 8 == 127.
#[test]
fn scale_u8_midpoint() {
    assert_eq!(reciprocal_scale_u8(255, 128), 127);
}

#[test]
fn scale_u8_exact_values() {
    assert_eq!(reciprocal_scale_u8(0, 200), 0);
    assert_eq!(reciprocal_scale_u8(255, 255), 254);
    assert_eq!(reciprocal_scale_u8(128, 2), 1);
    assert_eq!(reciprocal_scale_u8(127, 2), 0);
    assert_eq!(reciprocal_scale_u8(200, 0), 0);
}

#[test]
fn scale_u16_exact_values() {
    assert_eq!(reciprocal_scale_u16(0xffff, 0x8000), 0x7fff);
    assert_eq!(reciprocal_scale_u16(0, 1000), 0);
    assert_eq!(reciprocal_scale_u16(0x8000, 2), 1);
    assert_eq!(reciprocal_scale_u16(0x7fff, 2), 0);
}

#[test]
fn scale_u32_exact_values() {
    assert_eq!(reciprocal_scale_u32(0xffff_ffff, 0x8000_0000), 0x7fff_ffff);
    assert_eq!(reciprocal_scale_u32(0, 123_456), 0);
    assert_eq!(reciprocal_scale_u32(0x8000_0000, 2), 1);
    assert_eq!(reciprocal_scale_u32(0x7fff_ffff, 2), 0);
}

// The result stays within [0, factor) whenever the factor is positive.
#[test]
fn scale_stays_below_factor() {
    for factor in 1..=u8::MAX {
        for value in 0..=u8::MAX {
            assert!(reciprocal_scale_u8(value, factor) < factor);
        }
    }
    assert!(reciprocal_scale_u16(0xffff, 3) < 3);
    assert!(reciprocal_scale_u32(0xffff_ffff, 3) < 3);
}

// For a fixed factor the result never decreases as the value grows.
#[test]
fn scale_is_monotone() {
    for factor in [0u8, 1, 2, 37, 128, 255] {
        let mut prev = 0u8;
        for value in 0..=u8::MAX {
            let r = reciprocal_scale_u8(value, factor);
            assert!(prev <= r);
            prev = r;
        }
    }
    assert!(reciprocal_scale_u16(100, 77) <= reciprocal_scale_u16(200, 77));
    assert!(reciprocal_scale_u32(100, 77) <= reciprocal_scale_u32(200, 77));
}
