use trim_dead_area::double::Double;
use trim_dead_area::single::Single;

fn single(x: f32) -> Single {
    Single::from_bits(x.to_bits())
}

fn double(x: f64) -> Double {
    Double::from_bits(x.to_bits())
}

fn same32(a: Single, b: f32) -> bool {
    a.to_bits() == b.to_bits() || (b.is_nan() && !a.at_least(a))
}

fn same64(a: Double, b: f64) -> bool {
    a.to_bits() == b.to_bits() || (b.is_nan() && !a.at_least(a))
}

/// A fixed sequence of bit patterns that reaches every exponent.
fn patterns32() -> Vec<f32> {
    let mut out = vec![
        0.0,
        -0.0,
        1.0,
        -1.0,
        0.1,
        f32::MIN_POSITIVE,
        f32::MAX,
        -f32::MAX,
        f32::INFINITY,
        f32::NEG_INFINITY,
        f32::NAN,
        f32::from_bits(1),
        f32::from_bits(0x007f_ffff),
        f32::EPSILON,
        255.0,
        49.9,
    ];
    let mut state: u32 = 12345;
    for _ in 0..300 {
        state = state.wrapping_mul(1664525).wrapping_add(1013904223);
        out.push(f32::from_bits(state ^ (state >> 13)));
    }
    out
}

fn patterns64() -> Vec<f64> {
    let mut out = vec![
        0.0,
        -0.0,
        1.0,
        -1.0,
        0.1,
        f64::MIN_POSITIVE,
        f64::MAX,
        f64::INFINITY,
        f64::NEG_INFINITY,
        f64::NAN,
        f64::from_bits(1),
        f64::from_bits(0x000f_ffff_ffff_ffff),
        255.0,
        30.0,
    ];
    let mut state: u64 = 12345;
    for _ in 0..300 {
        state = state.wrapping_mul(6364136223846793005).wrapping_add(1442695040888963407);
        out.push(f64::from_bits(state ^ (state >> 29)));
        out.push(((state >> 40) as f64) / 7.0);
    }
    out
}

#[test]
fn single_arithmetic_is_that_of_the_machine() {
    let all = patterns32();
    for &a in &all {
        for &b in &all {
            assert!(same32(single(a).plus(single(b)), a + b), "{} + {}", a, b);
            assert!(same32(single(a).minus(single(b)), a - b), "{} - {}", a, b);
            assert!(same32(single(a).times(single(b)), a * b), "{} * {}", a, b);
            assert!(same32(single(a).over(single(b)), a / b), "{} / {}", a, b);
            assert_eq!(single(a).at_least(single(b)), a >= b);
            assert_eq!(single(a).above(single(b)), a > b);
            assert_eq!(single(a) == single(b), a == b);
            assert!(single(a).larger(single(b)) == single(a.max(b)) || (a.is_nan() && b.is_nan()));
        }
    }
}

#[test]
fn double_arithmetic_is_that_of_the_machine() {
    let all = patterns64();
    for &a in &all {
        for &b in &all {
            assert!(same64(double(a).plus(double(b)), a + b), "{} + {}", a, b);
            assert!(same64(double(a).minus(double(b)), a - b), "{} - {}", a, b);
            assert!(same64(double(a).times(double(b)), a * b), "{} * {}", a, b);
            assert!(same64(double(a).over(double(b)), a / b), "{} / {}", a, b);
            assert_eq!(double(a).at_least(double(b)), a >= b);
            assert_eq!(double(a).above(double(b)), a > b);
            assert_eq!(double(a) == double(b), a == b);
        }
    }
}

#[test]
fn conversions_are_those_of_the_machine() {
    for &a in &patterns32() {
        assert!(same64(single(a).widened(), a as f64));
        assert!(same32(single(a).abs(), a.abs()));
        assert_eq!(single(a).whole(u64::MAX), a as u64);
        assert_eq!(single(a).whole(255), a as u8 as u64);
        assert_eq!(single(a).nearest_whole(255), a.round() as u8 as u64);
        assert!(same32(single(a).clamped(single(0.0), single(49.9)), a.clamp(0.0, 49.9)));
    }
    for &a in &patterns64() {
        assert!(same32(double(a).narrowed(), a as f32));
        assert_eq!(double(a).whole(u64::MAX), a as u64);
        assert!(same64(double(a).clamped(double(0.0), double(1.0)), a.clamp(0.0, 1.0)));
    }
    for n in [0u64, 1, 255, 16_777_216, 16_777_217, 16_777_219, u64::MAX, 1 << 63] {
        assert!(same32(Single::of_int(n), n as f32));
        assert!(same64(Double::of_count(n), n as f64));
    }
    for n in [0i64, 1, -1, i64::MIN, i64::MAX, -9_007_199_254_740_993] {
        assert!(same64(Double::of_int(n), n as f64));
    }
}

#[test]
fn remainders_are_those_of_the_machine() {
    let all = patterns64();
    for a in &all {
        for b in &all {
            assert!(same64(double(*a).remainder(double(*b)), a % b));
        }
    }
    assert_eq!(double(-7.5).remainder(double(2.0)).to_bits(), (-1.5f64).to_bits());
    assert_eq!(double(-4.0).remainder(double(2.0)).to_bits(), (-0.0f64).to_bits());
}
