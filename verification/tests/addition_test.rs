use wasm::addition::{minus, negate, plus, QUIET_NAN};

fn same(got: u64, want: f64) -> bool {
    if want.is_nan() {
        f64::from_bits(got).is_nan()
    } else {
        got == want.to_bits()
    }
}

fn check_pair(a: f64, b: f64) {
    let s = plus(a.to_bits(), b.to_bits());
    assert!(same(s, a + b), "{:?} + {:?}: got {:?}, want {:?}", a, b, f64::from_bits(s), a + b);
    let d = minus(a.to_bits(), b.to_bits());
    assert!(same(d, a - b), "{:?} - {:?}: got {:?}, want {:?}", a, b, f64::from_bits(d), a - b);
}

fn next(state: &mut u64) -> u64 {
    *state = state.wrapping_mul(6364136223846793005).wrapping_add(1442695040888963407);
    let mut x = *state;
    x ^= x >> 33;
    x = x.wrapping_mul(0xff51afd7ed558ccd);
    x ^= x >> 29;
    x
}

#[test]
fn plus_matches_hardware_on_chosen_values() {
    let values = [
        0.0,
        -0.0,
        1.0,
        -1.0,
        0.0001,
        0.0002,
        1.5,
        2.3,
        7.1,
        8.0,
        0.1,
        0.2,
        0.3,
        1e300,
        -1e300,
        1e-300,
        f64::MAX,
        f64::MIN,
        f64::MIN_POSITIVE,
        f64::EPSILON,
        f64::from_bits(1),
        f64::from_bits(0x000f_ffff_ffff_ffff),
        f64::from_bits(0x0010_0000_0000_0001),
        f64::from_bits(0x7fef_ffff_ffff_fffe),
        f64::INFINITY,
        f64::NEG_INFINITY,
        f64::NAN,
        9007199254740992.0,
        9007199254740993.0,
        4503599627370496.5,
        -0.44201892614364624,
        -0.4467531909942627,
    ];
    for a in values.iter() {
        for b in values.iter() {
            check_pair(*a, *b);
        }
    }
}

#[test]
fn plus_matches_hardware_on_scattered_patterns() {
    let mut state: u64 = 0x1234_5678_9abc_def0;
    for _ in 0..200000 {
        let a = f64::from_bits(next(&mut state));
        let b = f64::from_bits(next(&mut state));
        check_pair(a, b);
    }
}

#[test]
fn plus_matches_hardware_on_close_exponents() {
    let mut state: u64 = 0x0fed_cba9_8765_4321;
    for _ in 0..200000 {
        let a_bits = next(&mut state);
        let exponent = (a_bits >> 52) & 0x7ff;
        let shift = next(&mut state) % 130;
        let other = (exponent + 65).saturating_sub(shift).min(0x7fe);
        let b_bits = (next(&mut state) & 0x800f_ffff_ffff_ffff) | (other << 52);
        check_pair(f64::from_bits(a_bits), f64::from_bits(b_bits));
    }
}

#[test]
fn plus_matches_hardware_on_ties_and_carries() {
    let mut state: u64 = 0x5555_aaaa_5555_aaaa;
    for _ in 0..100000 {
        let exponent = next(&mut state) % 0x7fe;
        let low = next(&mut state) % 8;
        let a_bits = (exponent << 52) | (0x000f_ffff_ffff_fff8 + low);
        let gap = next(&mut state) % 60;
        let b_exponent = exponent.saturating_sub(gap);
        let b_low = next(&mut state) % 4;
        let sign = (next(&mut state) & 1) << 63;
        let b_bits = sign | (b_exponent << 52) | b_low;
        check_pair(f64::from_bits(a_bits), f64::from_bits(b_bits));
        check_pair(f64::from_bits(b_bits), f64::from_bits(a_bits));
    }
}

#[test]
fn plus_yields_the_quiet_nan_for_invalid_sums() {
    let inf = f64::INFINITY.to_bits();
    let neg_inf = f64::NEG_INFINITY.to_bits();
    assert_eq!(plus(inf, neg_inf), QUIET_NAN);
    assert_eq!(minus(inf, inf), QUIET_NAN);
    assert_eq!(plus(f64::NAN.to_bits(), 1.0f64.to_bits()), QUIET_NAN);
    assert_eq!(plus(inf, inf), inf);
    assert_eq!(f64::from_bits(plus(inf, 1.0f64.to_bits())), f64::INFINITY);
}

#[test]
fn negate_flips_the_sign() {
    assert_eq!(f64::from_bits(negate(1.5f64.to_bits())), -1.5);
    assert_eq!(negate(0), 0x8000_0000_0000_0000);
    assert_eq!(f64::from_bits(negate((-2.0f64).to_bits())), 2.0);
}

#[test]
fn plus_keeps_the_sign_of_zero() {
    let zero = 0.0f64.to_bits();
    let neg_zero = (-0.0f64).to_bits();
    assert_eq!(plus(neg_zero, neg_zero), neg_zero);
    assert_eq!(plus(zero, neg_zero), zero);
    assert_eq!(plus(1.0f64.to_bits(), (-1.0f64).to_bits()), zero);
    assert_eq!(minus(neg_zero, zero), neg_zero);
}
