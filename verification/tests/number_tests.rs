use sdiff::number::close;

fn reference(a: f64, b: f64) -> bool {
    (a - b).abs() < 1e-10
}

fn agree(a: f64, b: f64) {
    assert_eq!(close(a.to_bits(), b.to_bits()), reference(a, b), "a = {:e} ({:#x}), b = {:e} ({:#x})", a, a.to_bits(), b, b.to_bits());
    assert_eq!(close(b.to_bits(), a.to_bits()), reference(b, a), "b = {:e}, a = {:e}", b, a);
}

fn step(state: &mut u64) -> u64 {
    *state = state.wrapping_mul(6364136223846793005).wrapping_add(1442695040888963407);
    let mut x = *state;
    x ^= x >> 33;
    x = x.wrapping_mul(0xff51afd7ed558ccd);
    x ^= x >> 33;
    x
}

#[test]
fn close_agrees_on_named_values() {
    let values = [
        0.0,
        -0.0,
        1.0,
        -1.0,
        1.0 + 1e-15,
        1.0 - 1e-15,
        1.1,
        1e-10,
        -1e-10,
        2e-10,
        9.999999999e-11,
        1.0000000001e-10,
        5e-11,
        -5e-11,
        f64::MIN_POSITIVE,
        f64::from_bits(1),
        f64::from_bits(0x000f_ffff_ffff_ffff),
        f64::MAX,
        f64::MIN,
        f64::EPSILON,
        1e300,
        1e-300,
        42.0,
        43.0,
        30.0,
        31.0,
        1e15,
        1e15 + 0.125,
        f64::INFINITY,
        f64::NEG_INFINITY,
        f64::NAN,
    ];
    for &a in values.iter() {
        for &b in values.iter() {
            agree(a, b);
        }
    }
}

#[test]
fn close_is_false_for_infinities_and_nan() {
    assert!(!close(f64::INFINITY.to_bits(), f64::INFINITY.to_bits()));
    assert!(!close(f64::NAN.to_bits(), f64::NAN.to_bits()));
    assert!(!close(f64::NEG_INFINITY.to_bits(), 0.0f64.to_bits()));
}

#[test]
fn close_agrees_around_the_threshold() {
    let eps: f64 = 1e-10;
    let mut state: u64 = 7;
    for _ in 0..2000 {
        let base_bits = step(&mut state);
        let base = f64::from_bits(base_bits);
        if !base.is_finite() {
            continue;
        }
        for delta in -40i64..=40 {
            let d = f64::from_bits((eps.to_bits() as i64 + delta) as u64);
            for candidate in [base + d, base - d, d, -d, base] {
                for nudge in -2i64..=2 {
                    let bits = (candidate.to_bits() as i64).wrapping_add(nudge) as u64;
                    let other = f64::from_bits(bits);
                    agree(base, other);
                }
            }
        }
    }
}

#[test]
fn close_agrees_on_small_magnitudes() {
    let mut state: u64 = 99;
    for _ in 0..100000 {
        let x = step(&mut state);
        let y = step(&mut state);
        // exponents from the subnormals up to just above the tolerance
        let ea = x % 1000;
        let eb = y % 1000;
        let a = f64::from_bits(((x >> 63) << 63) | (ea << 52) | (step(&mut state) >> 12));
        let b = f64::from_bits(((y >> 63) << 63) | (eb << 52) | (step(&mut state) >> 12));
        agree(a, b);
    }
}

#[test]
fn close_agrees_near_the_tolerance_exponent() {
    let mut state: u64 = 12345;
    for _ in 0..100000 {
        let x = step(&mut state);
        let y = step(&mut state);
        let ea = 920 + x % 90;
        let eb = 920 + y % 90;
        let a = f64::from_bits(((x >> 63) << 63) | (ea << 52) | (step(&mut state) >> 12));
        let b = f64::from_bits(((y >> 63) << 63) | (eb << 52) | (step(&mut state) >> 12));
        agree(a, b);
        // and a neighbour of `a` a few units in the last place away
        let c = f64::from_bits(a.to_bits().wrapping_add(y % 7));
        agree(a, c);
    }
}

#[test]
fn close_agrees_on_arbitrary_bit_patterns() {
    let mut state: u64 = 2024;
    for _ in 0..100000 {
        let a = f64::from_bits(step(&mut state));
        let b = f64::from_bits(step(&mut state));
        agree(a, b);
        let c = f64::from_bits(a.to_bits() ^ (1u64 << (step(&mut state) % 64)));
        agree(a, c);
    }
}

#[test]
fn close_at_the_exact_boundary() {
    // 1e-10 itself is not below the tolerance; its predecessor is.
    let eps: f64 = 1e-10;
    let below = f64::from_bits(eps.to_bits() - 1);
    assert!(!close(eps.to_bits(), 0.0f64.to_bits()));
    assert!(close(below.to_bits(), 0.0f64.to_bits()));
    assert!(!close((-eps).to_bits(), 0.0f64.to_bits()));
    assert!(close(below.to_bits(), (-0.0f64).to_bits()));
    // a subnormal on the other side of zero tips the sum over the midpoint
    let tiny = f64::from_bits(1);
    agree(below, -tiny);
    agree(eps, tiny);
}
