//! Singles against the machine's own binary32.
use lungbreak::rng::next;
use lungbreak::single::Single;

fn s(x: f32) -> Single {
    Single { bits: x.to_bits() }
}

fn f(x: Single) -> f32 {
    f32::from_bits(x.bits)
}

/// Same pattern, or both no number.
fn same(a: Single, b: f32) -> bool {
    (f(a).is_nan() && b.is_nan()) || a.bits == b.to_bits()
}

/// A spread of patterns: specials, neighbours of powers of two, and noise.
fn patterns() -> Vec<f32> {
    let mut v: Vec<f32> = vec![
        0.0, -0.0, 1.0, -1.0, 0.5, 1.5, 2.0, 3.0, 600.0, 0.05, 1e-6, -300.0, 90.0,
        f32::INFINITY, f32::NEG_INFINITY, f32::NAN, f32::MIN_POSITIVE, f32::MAX, f32::MIN,
        f32::from_bits(1), f32::from_bits(0x7f_ffff), f32::from_bits(0x80_0001),
        16777215.0, 16777216.0, 4294967040.0, 4294967296.0,
    ];
    let mut x: u32 = 0x2545F491;
    for k in 0..120u32 {
        x = next(x);
        v.push(f32::from_bits(x));
        // And some of ordinary size.
        v.push(f32::from_bits((x & 0x807f_ffff) | ((110 + k % 30) << 23)));
    }
    v
}

#[test]
fn arithmetic_is_that_of_binary32() {
    let v = patterns();
    for &a in &v {
        for &b in &v {
            assert!(same(s(a).plus(s(b)), a + b), "{a:e} + {b:e}");
            assert!(same(s(a).minus(s(b)), a - b), "{a:e} - {b:e}");
            assert!(same(s(a).times(s(b)), a * b), "{a:e} * {b:e}");
            assert!(same(s(a).over(s(b)), a / b), "{a:e} / {b:e}");
            assert_eq!(s(a).lt(s(b)), a < b);
            assert_eq!(s(a).le(s(b)), a <= b);
        }
    }
}

#[test]
fn roots_and_roundings_are_those_of_binary32() {
    for a in patterns() {
        assert!(same(s(a).root(), a.sqrt()), "sqrt {a:e}");
        assert_eq!(s(a).nearest_u32(), a.round() as u32, "round {a:e}");
        assert!(same(s(a).abs(), a.abs()) && same(s(a).negated(), -a));
        assert!(same(s(a).clamp(s(0.0), s(1.0)), a.clamp(0.0, 1.0)));
        assert_eq!(s(a).is_finite(), a.is_finite());
        assert_eq!(s(a).is_nan(), a.is_nan());
    }
}

#[test]
fn integers_and_ratios_are_written_as_binary32_does() {
    for n in [0u32, 1, 2, 3, 65, 600, 16777217, 33554433, u32::MAX] {
        assert!(same(Single::whole(n), n as f32));
    }
    assert!(same(Single::ratio(5, 100), 0.05));
    assert!(same(Single::ratio(55, 100), 0.55));
    assert!(same(Single::ratio(1, 1000000), 1e-6));
    assert!(same(Single::ratio(380, 100), 3.8));
}
