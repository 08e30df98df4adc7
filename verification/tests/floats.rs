use face_auth_core::float32::Float32;

fn next(seed: &mut u64) -> u32 {
    *seed = seed.wrapping_mul(6364136223846793005).wrapping_add(1442695040888963407);
    (*seed >> 32) as u32
}

fn soft(x: f32) -> Float32 {
    Float32::from_bits(x.to_bits())
}

fn agrees(a: Float32, b: f32) -> bool {
    if b.is_nan() {
        f32::from_bits(a.to_bits()).is_nan()
    } else {
        a.to_bits() == b.to_bits()
    }
}

fn interesting() -> Vec<f32> {
    let mut v: Vec<f32> = vec![
        0.0, -0.0, 1.0, -1.0, 0.5, 2.0, 3.0, 255.0, 257.0, 65535.0, 1e-38, 1e-45, -1e-45, 1e38,
        f32::MAX, f32::MIN, f32::MIN_POSITIVE, f32::INFINITY, f32::NEG_INFINITY, f32::NAN,
        16777216.0, 16777217.0, 0.1, 0.2, 0.3, 1.5, 2.5, 3.5, 0.49999997, 4294967040.0, 4294967296.0,
    ];
    let mut seed = 12345u64;
    for _ in 0..300 {
        v.push(f32::from_bits(next(&mut seed)));
    }
    for _ in 0..300 {
        v.push((next(&mut seed) % 100000) as f32 / 16.0);
    }
    v
}

#[test]
fn arithmetic_agrees_with_the_processor() {
    let v = interesting();
    for &a in &v {
        for &b in &v {
            let (x, y) = (soft(a), soft(b));
            assert!(agrees(x.add(y), a + b), "{} + {}", a, b);
            assert!(agrees(x.sub(y), a - b), "{} - {}", a, b);
            assert!(agrees(x.mul(y), a * b), "{} * {}", a, b);
            assert!(agrees(x.div(y), a / b), "{} / {}", a, b);
            assert_eq!(x.lt(y), a < b);
            assert_eq!(x.le(y), a <= b);
        }
    }
}

#[test]
fn max_min_and_clamp_agree_with_the_processor() {
    let v = interesting();
    for &a in &v {
        for &b in &v {
            if a == 0.0 && b == 0.0 {
                continue;
            }
            assert!(agrees(soft(a).max(soft(b)), a.max(b)), "max {} {}", a, b);
            assert!(agrees(soft(a).min(soft(b)), a.min(b)), "min {} {}", a, b);
        }
        assert!(agrees(soft(a).clamp(soft(0.0), soft(100.0)), a.clamp(0.0, 100.0)));
    }
}

#[test]
fn rounding_to_whole_numbers_agrees() {
    for &a in &interesting() {
        assert_eq!(soft(a).round_to_u32(), a.round() as u32, "{}", a);
        assert_eq!(soft(a).trunc_to_u32(), a as u32, "{}", a);
    }
    let mut seed = 7u64;
    for _ in 0..20000 {
        let a = next(&mut seed) as f32 / 8192.0;
        assert_eq!(soft(a).round_to_u32(), a.round() as u32);
        assert_eq!(soft(a).trunc_to_u32(), a as u32);
    }
}

#[test]
fn conversions_from_whole_numbers_agree() {
    let mut seed = 99u64;
    for _ in 0..20000 {
        let x = ((next(&mut seed) as u64) << 32 | next(&mut seed) as u64) >> (next(&mut seed) % 64);
        assert!(agrees(Float32::from_u64(x), x as f32), "{}", x);
    }
    for x in [0, 1, 16777216, 16777217, 16777219, u32::MAX as u64, u64::MAX] {
        assert!(agrees(Float32::from_u64(x), x as f32));
    }
}

#[test]
fn square_roots_agree() {
    for &a in &interesting() {
        assert!(agrees(soft(a).sqrt(), a.sqrt()), "{}", a);
    }
    let mut seed = 4u64;
    for _ in 0..20000 {
        let a = f32::from_bits(next(&mut seed) % 0x7f80_0000);
        assert!(agrees(soft(a).sqrt(), a.sqrt()), "{}", a);
    }
}

#[test]
fn negation_flips_the_sign() {
    assert_eq!(soft(1.5).neg(), soft(-1.5));
    assert_eq!(soft(0.0).neg(), soft(-0.0));
    assert_eq!(soft(f32::INFINITY).neg(), soft(f32::NEG_INFINITY));
}
