//! Single-precision arithmetic on bit patterns.
use sfu::float32::Float32;
use sfu::rounding::{power_of_two, round_ratio};

fn float(x: f32) -> Float32 {
    Float32 { bits: x.to_bits() }
}

/// Bit patterns of values that are not negative, spread over all exponents.
fn samples() -> Vec<u32> {
    let mut bits: Vec<u32> = vec![
        0, 1, 2, 3, 0x007F_FFFF, 0x0080_0000, 0x0080_0001, 0x3F7F_FFFF, 0x3F80_0000, 0x3F80_0001,
        0x4B7F_FFFF, 0x4B80_0000, 0x7F7F_FFFF, 0x3E99_999A, 0x3F33_3333,
    ];
    let mut x: u32 = 99;
    for _ in 0..400 {
        x = x.wrapping_mul(1_664_525).wrapping_add(1_013_904_223);
        bits.push(x % 0x7F80_0000);
    }
    bits
}

#[test]
fn products_and_sums_agree_with_the_machine() {
    let samples = samples();
    for &a in &samples {
        for &b in &samples {
            let (x, y) = (f32::from_bits(a), f32::from_bits(b));
            let (p, q) = (Float32 { bits: a }, Float32 { bits: b });
            assert_eq!(p.product(q), float(x * y), "{x:e} * {y:e}");
            assert_eq!(p.sum(q), float(x + y), "{x:e} + {y:e}");
            assert_eq!(p.at_least(q), x >= y);
            assert_eq!(p.exceeds(b), x > y);
        }
    }
}

#[test]
fn whole_parts_agree_with_the_machine() {
    for bits in samples() {
        assert_eq!(Float32 { bits }.whole(), f32::from_bits(bits) as u32, "{bits:#x}");
    }
    assert_eq!(float(1e20).whole(), u32::MAX);
    assert_eq!(float(0.999).whole(), 0);
}

#[test]
fn integers_are_rounded_to_even() {
    for n in [0, 1, 0xFF_FFFF, 0x100_0000, 0x100_0001, 0x100_0003, u32::MAX, 0x7FFF_FFC0] {
        assert_eq!(Float32::from_u32(n), float(n as f32), "{n}");
    }
}

#[test]
fn clamping_agrees_with_the_machine() {
    for x in [-1.0, -0.0, 0.0, 0.25, 1.0, 1.5, f32::INFINITY, f32::NEG_INFINITY] {
        assert_eq!(float(x).clamped(), float(x.clamp(0.0, 1.0)), "{x}");
    }
    assert!(float(f32::NAN).clamped().is_nan());
    assert!(!float(f32::INFINITY).is_nan());
}

#[test]
fn ranks_follow_the_total_order() {
    let mut values = vec![
        f32::NEG_INFINITY, -2.0, -1e-40, -0.0, 0.0, 1e-40, 2.0, f32::INFINITY, f32::NAN,
    ];
    values.push(-f32::NAN);
    for &a in &values {
        for &b in &values {
            assert_eq!(float(a).rank().cmp(&float(b).rank()), a.total_cmp(&b), "{a} {b}");
        }
    }
}

#[test]
fn ratios_are_rounded_to_the_precision() {
    assert_eq!(power_of_two(0), 1);
    assert_eq!(power_of_two(126), 1 << 126);
    assert_eq!(round_ratio(7, 2, 53), 4);
    assert_eq!(round_ratio(5, 2, 53), 2);
    assert_eq!(round_ratio(0b1_0111, 1, 3), 0b1_1000);
    assert_eq!(round_ratio(0b1_0010, 1, 3), 0b1_0000);
    for (n, d) in [(1u64 << 52, 3u64), ((1 << 60) + 12_345, 7), (u64::MAX >> 2, 1)] {
        assert_eq!(round_ratio(n as u128 * d as u128, d as u128, 53), n as f64 as u128);
    }
}
