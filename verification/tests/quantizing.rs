use ivf_fraud::quantize::{quantize_scalar, quantize_vec, FloatBits, DIMS};
use ivf_fraud::rounding::round_to_precision;

fn fb(f: f32) -> FloatBits {
    FloatBits { bits: f.to_bits() }
}

fn quantize(f: f32) -> i8 {
    quantize_scalar(fb(f))
}

fn native(f: f32) -> i8 {
    let v = f * 127.0;
    if v > 127.0 {
        127
    } else if v < -127.0 {
        -127
    } else {
        v as i8
    }
}

#[test]
fn quantize_zero_maps_to_zero() {
    assert_eq!(quantize(0.0), 0);
}

#[test]
fn quantize_positive_one_clamps_to_127() {
    assert_eq!(quantize(1.0), 127);
}

#[test]
fn quantize_negative_one_clamps_to_neg127() {
    assert_eq!(quantize(-1.0), -127);
}

#[test]
fn quantize_overflow_positive_clamps() {
    assert_eq!(quantize(2.0), 127);
}

#[test]
fn quantize_overflow_negative_clamps() {
    assert_eq!(quantize(-2.0), -127);
}

#[test]
fn quantize_half_truncates_not_rounds() {
    // 0.5 * 127.0 = 63.5; truncation gives 63, not 64
    assert_eq!(quantize(0.5), 63);
}

#[test]
fn quantize_matches_search_rs_formula() {
    for &f in &[-0.9f32, -0.5, -0.1, 0.0, 0.1, 0.5, 0.9] {
        let v = f * 127.0;
        let expected = v as i8;
        assert_eq!(
            quantize(f),
            expected,
            "mismatch at f={f}: got {}, want {expected}",
            quantize(f)
        );
    }
}

#[test]
fn quantize_vec_all_zeros() {
    let v = [fb(0.0); DIMS];
    assert_eq!(quantize_vec(&v), [0i8; DIMS]);
}

#[test]
fn quantize_vec_element_wise() {
    let mut v = [fb(0.0); DIMS];
    v[0] = fb(0.5);
    v[1] = fb(-0.5);
    let q = quantize_vec(&v);
    assert_eq!(q[0], 63);
    assert_eq!(q[1], -63);
    for i in 2..DIMS {
        assert_eq!(q[i], 0);
    }
}

#[test]
fn quantize_agrees_with_single_precision_everywhere() {
    let mut bits: u32 = 1;
    for _ in 0..300_000 {
        bits = bits.wrapping_mul(1_664_525).wrapping_add(1_013_904_223);
        let f = f32::from_bits(bits);
        assert_eq!(quantize(f), native(f), "bits {bits:#010x}");
    }
    for n in 0..=127u32 {
        let mut near = (n as f32 / 127.0).to_bits().saturating_sub(3);
        for _ in 0..7 {
            let f = f32::from_bits(near);
            assert_eq!(quantize(f), native(f), "bits {near:#010x}");
            assert_eq!(quantize(-f), native(-f), "bits {near:#010x}");
            near += 1;
        }
    }
}

#[test]
fn quantize_special_values() {
    assert_eq!(quantize(f32::NAN), 0);
    assert_eq!(quantize(-f32::NAN), 0);
    assert_eq!(quantize(f32::INFINITY), 127);
    assert_eq!(quantize(f32::NEG_INFINITY), -127);
    assert_eq!(quantize(-0.0), 0);
    assert_eq!(quantize(f32::from_bits(1)), 0);
    assert_eq!(quantize(f32::MAX), 127);
    assert_eq!(quantize(f32::MIN), -127);
}

#[test]
fn quantize_is_symmetric() {
    for i in 0..=1000 {
        let f = i as f32 / 900.0;
        assert_eq!(quantize(-f), -quantize(f));
    }
}

#[test]
fn rounding_goes_to_nearest_and_ties_to_even() {
    let limit = 1u128 << 24;
    assert_eq!(round_to_precision(16_777_215, limit), 16_777_215);
    assert_eq!(round_to_precision(16_777_217, limit), 16_777_216);
    assert_eq!(round_to_precision(16_777_219, limit), 16_777_220);
    assert_eq!(round_to_precision(33_554_435, limit), 33_554_436);
    let mut n: u128 = 1;
    for _ in 0..2000 {
        n = n * 3 % 0xffff_ffff_ffff_fff1 + 7;
        assert_eq!(round_to_precision(n, 1 << 53), (n as f64) as u128, "{n}");
        assert_eq!(round_to_precision(n, limit), (n as f32) as u128, "{n}");
    }
}
