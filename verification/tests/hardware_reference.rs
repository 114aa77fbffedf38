//! Cross-checks the bit-level predicates against the same comparisons
//! computed directly on hardware floating point, over a battery of edge
//! values and tolerances.

use approx::{Double, Relative, Single, Ulps};

fn ref_relative_eq64(a: f64, b: f64, epsilon: f64, max_relative: f64) -> bool {
    if a == b {
        return true;
    }
    let abs_diff = f64::abs(a - b);
    if abs_diff <= epsilon {
        return true;
    }
    let abs_a = f64::abs(a);
    let abs_b = f64::abs(b);
    if abs_a == abs_b && abs_diff == abs_a {
        return false;
    }
    let largest = if abs_b > abs_a { abs_b } else { abs_a };
    abs_diff <= largest * max_relative
}

fn ref_ulps_eq64(a: f64, b: f64, epsilon: f64, max_ulps: u32) -> bool {
    let abs_diff = f64::abs(a - b);
    if abs_diff <= epsilon {
        return true;
    }
    if a.signum() != b.signum() {
        return false;
    }
    let ia = a.to_bits() as i64;
    let ib = b.to_bits() as i64;
    i64::abs(ia.wrapping_sub(ib)) < max_ulps as i64
}

fn ref_relative_eq32(a: f32, b: f32, epsilon: f32, max_relative: f32) -> bool {
    if a == b {
        return true;
    }
    let abs_diff = f32::abs(a - b);
    if abs_diff <= epsilon {
        return true;
    }
    let abs_a = f32::abs(a);
    let abs_b = f32::abs(b);
    if abs_a == abs_b && abs_diff == abs_a {
        return false;
    }
    let largest = if abs_b > abs_a { abs_b } else { abs_a };
    abs_diff <= largest * max_relative
}

fn ref_ulps_eq32(a: f32, b: f32, epsilon: f32, max_ulps: u32) -> bool {
    let abs_diff = f32::abs(a - b);
    if abs_diff <= epsilon {
        return true;
    }
    if a.signum() != b.signum() {
        return false;
    }
    let ia = a.to_bits() as i32;
    let ib = b.to_bits() as i32;
    i64::abs((ia as i64) - (ib as i64)) < max_ulps as i64
}

fn values64() -> Vec<f64> {
    vec![
        0.0,
        -0.0,
        1.0,
        -1.0,
        1.5,
        2.0,
        -2.5,
        0.1,
        1.0 + f64::EPSILON,
        1.0 - f64::EPSILON / 2.0,
        1.0 + 4.0 * f64::EPSILON,
        core::f64::consts::PI,
        1.0e3,
        -6.25e7,
        1.0e-40,
        1.0e-300,
        -1.0e-300,
        5.0e-324,
        -5.0e-324,
        1.0e-308,
        2.2250738585072014e-308,
        f64::MAX,
        -f64::MAX,
        f64::MAX / 2.0,
        1.0e300,
        -1.0e300,
        f64::INFINITY,
        f64::NEG_INFINITY,
        f64::NAN,
        f64::from_bits(1.0f64.to_bits() + 1),
        f64::from_bits(2.0f64.to_bits() - 1),
        f64::from_bits(0x000F_FFFF_FFFF_FFFF),
        f64::from_bits(0x0010_0000_0000_0000),
    ]
}

fn tolerances64() -> Vec<(f64, f64, u32)> {
    vec![
        (f64::EPSILON, f64::EPSILON, 4),
        (0.0, 0.0, 0),
        (0.0, 0.0, 7),
        (1.0e-10, 1.0e-12, 2),
        (f64::EPSILON, 4.0 * f64::EPSILON, 12),
        (0.0, 1.0e10, 1),
        (1.0e-320, 1.0e-3, 4),
    ]
}

#[test]
fn double_matches_hardware_relative() {
    let vals = values64();
    for &(e, m, _) in &tolerances64() {
        for &a in &vals {
            for &b in &vals {
                let want = ref_relative_eq64(a, b, e, m);
                let got = Relative { epsilon: Double::from_bits(e.to_bits()), max_relative: Double::from_bits(m.to_bits()) }
                    .eq(&Double::from_bits(a.to_bits()), &Double::from_bits(b.to_bits()));
                assert_eq!(got, want, "relative a={a:e} b={b:e} e={e:e} m={m:e}");
            }
        }
    }
}

#[test]
fn double_matches_hardware_ulps() {
    let vals = values64();
    for &(e, _, u) in &tolerances64() {
        for &a in &vals {
            for &b in &vals {
                let want = ref_ulps_eq64(a, b, e, u);
                let got = Ulps { epsilon: Double::from_bits(e.to_bits()), max_ulps: u }
                    .eq(&Double::from_bits(a.to_bits()), &Double::from_bits(b.to_bits()));
                assert_eq!(got, want, "ulps a={a:e} b={b:e} e={e:e} u={u}");
            }
        }
    }
}

fn values32() -> Vec<f32> {
    vec![
        0.0,
        -0.0,
        1.0,
        -1.0,
        1.5,
        0.1,
        1.0 + f32::EPSILON,
        1.0 + 4.0 * f32::EPSILON,
        core::f32::consts::PI,
        6.25e5,
        -3.0e-40,
        1.0e-44,
        f32::MAX,
        -f32::MAX,
        f32::MAX / 2.0,
        1.0e38,
        f32::INFINITY,
        f32::NEG_INFINITY,
        f32::NAN,
        f32::from_bits(1.0f32.to_bits() + 1),
        f32::from_bits(2.0f32.to_bits() - 1),
        f32::from_bits(0x007F_FFFF),
        f32::from_bits(0x0080_0000),
    ]
}

fn tolerances32() -> Vec<(f32, f32, u32)> {
    vec![
        (f32::EPSILON, f32::EPSILON, 4),
        (0.0, 0.0, 0),
        (0.0, 0.0, 9),
        (1.0e-6, 1.0e-7, 2),
        (0.0, 1.0e10, 1),
        (1.0e-42, 1.0e-2, 4),
    ]
}

#[test]
fn single_matches_hardware_relative() {
    let vals = values32();
    for &(e, m, _) in &tolerances32() {
        for &a in &vals {
            for &b in &vals {
                let want = ref_relative_eq32(a, b, e, m);
                let got = Relative { epsilon: Single::from_bits(e.to_bits()), max_relative: Single::from_bits(m.to_bits()) }
                    .eq(&Single::from_bits(a.to_bits()), &Single::from_bits(b.to_bits()));
                assert_eq!(got, want, "relative a={a:e} b={b:e} e={e:e} m={m:e}");
            }
        }
    }
}

#[test]
fn single_matches_hardware_ulps() {
    let vals = values32();
    for &(e, _, u) in &tolerances32() {
        for &a in &vals {
            for &b in &vals {
                let want = ref_ulps_eq32(a, b, e, u);
                let got = Ulps { epsilon: Single::from_bits(e.to_bits()), max_ulps: u }
                    .eq(&Single::from_bits(a.to_bits()), &Single::from_bits(b.to_bits()));
                assert_eq!(got, want, "ulps a={a:e} b={b:e} e={e:e} u={u}");
            }
        }
    }
}

fn lcg_next(state: &mut u64) -> u64 {
    *state = state.wrapping_mul(6364136223846793005).wrapping_add(1442695040888963407);
    let x = *state;
    x ^ (x >> 31)
}

#[test]
fn double_matches_hardware_on_generated_pairs() {
    let mut state: u64 = 0x9E3779B97F4A7C15;
    let tols = tolerances64();
    for i in 0..4000u32 {
        let ab = lcg_next(&mut state);
        let a = f64::from_bits(ab);
        // half the time, take a nearby encoding; otherwise an unrelated one
        let b = if i % 2 == 0 {
            f64::from_bits(ab.wrapping_add(lcg_next(&mut state) % 9))
        } else {
            f64::from_bits(lcg_next(&mut state))
        };
        let (e, m, u) = tols[(i as usize) % tols.len()];
        let got_rel = Relative {
            epsilon: Double::from_bits(e.to_bits()),
            max_relative: Double::from_bits(m.to_bits()),
        }
            .eq(&Double::from_bits(a.to_bits()), &Double::from_bits(b.to_bits()));
        assert_eq!(got_rel, ref_relative_eq64(a, b, e, m), "relative a={a:e} b={b:e}");
        let got_ulps = Ulps { epsilon: Double::from_bits(e.to_bits()), max_ulps: u }
            .eq(&Double::from_bits(a.to_bits()), &Double::from_bits(b.to_bits()));
        assert_eq!(got_ulps, ref_ulps_eq64(a, b, e, u), "ulps a={a:e} b={b:e}");
    }
}

#[test]
fn single_matches_hardware_on_generated_pairs() {
    let mut state: u64 = 0xD1B54A32D192ED03;
    let tols = tolerances32();
    for i in 0..4000u32 {
        let ab = lcg_next(&mut state) as u32;
        let a = f32::from_bits(ab);
        let b = if i % 2 == 0 {
            f32::from_bits(ab.wrapping_add((lcg_next(&mut state) % 9) as u32))
        } else {
            f32::from_bits(lcg_next(&mut state) as u32)
        };
        let (e, m, u) = tols[(i as usize) % tols.len()];
        let got_rel = Relative {
            epsilon: Single::from_bits(e.to_bits()),
            max_relative: Single::from_bits(m.to_bits()),
        }
            .eq(&Single::from_bits(a.to_bits()), &Single::from_bits(b.to_bits()));
        assert_eq!(got_rel, ref_relative_eq32(a, b, e, m), "relative a={a:e} b={b:e}");
        let got_ulps = Ulps { epsilon: Single::from_bits(e.to_bits()), max_ulps: u }
            .eq(&Single::from_bits(a.to_bits()), &Single::from_bits(b.to_bits()));
        assert_eq!(got_ulps, ref_ulps_eq32(a, b, e, u), "ulps a={a:e} b={b:e}");
    }
}
