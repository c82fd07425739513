use lilapu_audio::sample::{clamp, mix_samples, pcm16_of, quantize_sample};

fn next(state: &mut u64) -> u32 {
    *state = state.wrapping_mul(6364136223846793005).wrapping_add(1442695040888963407);
    (*state >> 32) as u32
}

fn hardware_quantize(sample: f32) -> i16 {
    let clamped = sample.max(-1.0).min(1.0);
    if clamped < 0.0 {
        (clamped * 32768.0) as i16
    } else {
        (clamped * 32767.0) as i16
    }
}

fn hardware_mix(mic: f32, system: f32) -> f32 {
    ((mic + system) * 0.7).max(-1.0).min(1.0)
}

const EDGES: [u32; 24] = [
    0x0000_0000, 0x8000_0000, 0x0000_0001, 0x8000_0001, 0x007f_ffff, 0x0080_0000, 0x3f80_0000,
    0xbf80_0000, 0x3f7f_ffff, 0xbf7f_ffff, 0x3f80_0001, 0xbf80_0001, 0x3f00_0000, 0xbf00_0000,
    0x3800_0000, 0x3800_0100, 0x37ff_ffff, 0xb800_0000, 0x7f80_0000, 0xff80_0000, 0x7fc0_0000,
    0xffc0_0000, 0x7f7f_ffff, 0xff7f_ffff,
];

#[test]
fn quantize_scales_by_full_scale() {
    assert_eq!(quantize_sample(1.0f32.to_bits()), 32767);
    assert_eq!(quantize_sample((-1.0f32).to_bits()), -32768);
    assert_eq!(quantize_sample(0.5f32.to_bits()), 16383);
    assert_eq!(quantize_sample((-0.5f32).to_bits()), -16384);
    assert_eq!(quantize_sample(0.2f32.to_bits()), 6553);
    assert_eq!(quantize_sample(0.0f32.to_bits()), 0);
    assert_eq!(quantize_sample((-0.0f32).to_bits()), 0);
}

#[test]
fn quantize_clamps_before_scaling() {
    assert_eq!(quantize_sample(2.0f32.to_bits()), 32767);
    assert_eq!(quantize_sample((-2.0f32).to_bits()), -32768);
    assert_eq!(quantize_sample(f32::INFINITY.to_bits()), 32767);
    assert_eq!(quantize_sample(f32::NEG_INFINITY.to_bits()), -32768);
    assert_eq!(quantize_sample(f32::NAN.to_bits()), -32768);
}

#[test]
fn quantize_matches_hardware_on_edges() {
    for &bits in EDGES.iter() {
        assert_eq!(quantize_sample(bits), hardware_quantize(f32::from_bits(bits)), "{:08x}", bits);
    }
}

#[test]
fn quantize_matches_hardware_on_random_patterns() {
    let mut state: u64 = 0x7777_1111_2222_3333;
    for _ in 0..100_000 {
        let bits = next(&mut state);
        assert_eq!(quantize_sample(bits), hardware_quantize(f32::from_bits(bits)), "{:08x}", bits);
    }
}

#[test]
fn quantize_matches_hardware_inside_the_unit_range() {
    let mut state: u64 = 0x4242_4242_4242_4242;
    for _ in 0..200_000 {
        let fraction = next(&mut state) & 0x007f_ffff;
        let exponent = 127 - (next(&mut state) % 20);
        let sign = next(&mut state) & 0x8000_0000;
        let bits = sign | (exponent << 23) | fraction;
        assert_eq!(quantize_sample(bits), hardware_quantize(f32::from_bits(bits)), "{:08x}", bits);
    }
}

#[test]
fn pcm16_truncates_toward_zero_and_saturates() {
    assert_eq!(pcm16_of(1.9f32.to_bits()), 1);
    assert_eq!(pcm16_of((-1.9f32).to_bits()), -1);
    assert_eq!(pcm16_of(0.99f32.to_bits()), 0);
    assert_eq!(pcm16_of(32767.5f32.to_bits()), 32767);
    assert_eq!(pcm16_of(40000.0f32.to_bits()), 32767);
    assert_eq!(pcm16_of((-32768.0f32).to_bits()), -32768);
    assert_eq!(pcm16_of((-40000.0f32).to_bits()), -32768);
    assert_eq!(pcm16_of(f32::NAN.to_bits()), 0);
    assert_eq!(pcm16_of(f32::INFINITY.to_bits()), 32767);
    let mut state: u64 = 0x1357_9bdf_0246_8ace;
    for _ in 0..100_000 {
        let bits = next(&mut state);
        assert_eq!(pcm16_of(bits), f32::from_bits(bits) as i16, "{:08x}", bits);
    }
}

#[test]
fn clamp_limits_to_the_unit_range() {
    assert_eq!(clamp(1.5f32.to_bits()), 1.0f32.to_bits());
    assert_eq!(clamp((-1.5f32).to_bits()), (-1.0f32).to_bits());
    assert_eq!(clamp(0.25f32.to_bits()), 0.25f32.to_bits());
    assert_eq!(clamp((-0.0f32).to_bits()), (-0.0f32).to_bits());
    assert_eq!(clamp(f32::NAN.to_bits()), (-1.0f32).to_bits());
    for &bits in EDGES.iter() {
        let expected = f32::from_bits(bits).max(-1.0).min(1.0);
        assert_eq!(clamp(bits), expected.to_bits(), "{:08x}", bits);
    }
}

#[test]
fn mix_attenuates_the_sum() {
    assert_eq!(mix_samples(1.0f32.to_bits(), 1.0f32.to_bits()), 1.0f32.to_bits());
    assert_eq!(mix_samples(0.0f32.to_bits(), 1.0f32.to_bits()), 0.7f32.to_bits());
    assert_eq!(mix_samples(0.5f32.to_bits(), 0.25f32.to_bits()), (0.75f32 * 0.7f32).to_bits());
    assert_eq!(mix_samples((-1.0f32).to_bits(), (-1.0f32).to_bits()), (-1.0f32).to_bits());
    assert_eq!(mix_samples(0.5f32.to_bits(), (-0.5f32).to_bits()), 0.0f32.to_bits());
}

#[test]
fn mix_matches_hardware_on_edges() {
    for &a in EDGES.iter() {
        for &b in EDGES.iter() {
            let expected = hardware_mix(f32::from_bits(a), f32::from_bits(b));
            assert_eq!(mix_samples(a, b), expected.to_bits(), "{:08x} {:08x}", a, b);
        }
    }
}

#[test]
fn mix_matches_hardware_on_audio_range_samples() {
    let mut state: u64 = 0x9999_8888_7777_6666;
    for _ in 0..200_000 {
        let a = (next(&mut state) & 0x807f_ffff) | ((127 - next(&mut state) % 24) << 23);
        let b = (next(&mut state) & 0x807f_ffff) | ((127 - next(&mut state) % 24) << 23);
        let expected = hardware_mix(f32::from_bits(a), f32::from_bits(b));
        assert_eq!(mix_samples(a, b), expected.to_bits(), "{:08x} {:08x}", a, b);
    }
}

#[test]
fn mix_matches_hardware_on_random_patterns() {
    let mut state: u64 = 0x0101_0202_0303_0404;
    for _ in 0..100_000 {
        let a = next(&mut state);
        let b = next(&mut state);
        let expected = hardware_mix(f32::from_bits(a), f32::from_bits(b));
        assert_eq!(mix_samples(a, b), expected.to_bits(), "{:08x} {:08x}", a, b);
    }
}

#[test]
fn quantize_keeps_order() {
    let mut state: u64 = 0x2468_ace0_1357_9bdf;
    for _ in 0..100_000 {
        let a = f32::from_bits(next(&mut state));
        let b = f32::from_bits(next(&mut state));
        if a.is_nan() || b.is_nan() {
            continue;
        }
        let (low, high) = if a <= b { (a, b) } else { (b, a) };
        assert!(quantize_sample(low.to_bits()) <= quantize_sample(high.to_bits()));
    }
    assert_eq!(quantize_sample(0.999_999f32.to_bits()), 32766);
    assert_eq!(quantize_sample((-0.999_999f32).to_bits()), -32767);
}

#[test]
fn mix_keeps_order() {
    let mut state: u64 = 0x1111_2222_3333_4444;
    for _ in 0..100_000 {
        let a = f32::from_bits((next(&mut state) & 0x807f_ffff) | ((127 - next(&mut state) % 8) << 23));
        let b = f32::from_bits((next(&mut state) & 0x807f_ffff) | ((127 - next(&mut state) % 8) << 23));
        let c = f32::from_bits((next(&mut state) & 0x807f_ffff) | ((127 - next(&mut state) % 8) << 23));
        let (low, high) = if a <= b { (a, b) } else { (b, a) };
        let mixed_low = f32::from_bits(mix_samples(low.to_bits(), c.to_bits()));
        let mixed_high = f32::from_bits(mix_samples(high.to_bits(), c.to_bits()));
        assert!(mixed_low <= mixed_high);
        let mixed_low = f32::from_bits(mix_samples(c.to_bits(), low.to_bits()));
        let mixed_high = f32::from_bits(mix_samples(c.to_bits(), high.to_bits()));
        assert!(mixed_low <= mixed_high);
    }
}
