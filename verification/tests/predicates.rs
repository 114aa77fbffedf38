use approx::{ApproxEq, Complex, Double, Relative, Single, Ulps};

fn d(x: f64) -> Double {
    Double::from_bits(x.to_bits())
}

fn s(x: f32) -> Single {
    Single::from_bits(x.to_bits())
}

fn rel_d(a: f64, b: f64) -> bool {
    Relative::<Double>::default().eq(&d(a), &d(b))
}

fn ulps_d(a: f64, b: f64) -> bool {
    Ulps::<Double>::default().eq(&d(a), &d(b))
}

fn rel_s(a: f32, b: f32) -> bool {
    Relative::<Single>::default().eq(&s(a), &s(b))
}

fn ulps_s(a: f32, b: f32) -> bool {
    Ulps::<Single>::default().eq(&s(a), &s(b))
}

#[test]
fn relative_one_epsilon_apart() {
    assert!(rel_d(1.0, 1.0 + f64::EPSILON));
    assert!(rel_s(1.0, 1.0 + f32::EPSILON));
}

#[test]
fn relative_two_epsilon_apart() {
    assert!(!rel_d(1.0, 1.0 + 2.0 * f64::EPSILON));
    assert!(
        Relative::<Double>::default()
            .max_relative(d(4.0 * f64::EPSILON))
            .eq(&d(1.0), &d(1.0 + 2.0 * f64::EPSILON))
    );
    assert!(!rel_s(1.0, 1.0 + 2.0 * f32::EPSILON));
    assert!(
        Relative::<Single>::default()
            .max_relative(s(4.0 * f32::EPSILON))
            .eq(&s(1.0), &s(1.0 + 2.0 * f32::EPSILON))
    );
}

#[test]
fn ulps_three_apart() {
    assert!(ulps_d(1.0, f64::from_bits(1.0f64.to_bits() + 3)));
    assert!(ulps_s(1.0, f32::from_bits(1.0f32.to_bits() + 3)));
}

#[test]
fn ulps_four_apart() {
    assert!(!ulps_d(1.0, f64::from_bits(1.0f64.to_bits() + 4)));
    assert!(
        Ulps::<Double>::default().max_ulps(5).eq(&d(1.0), &d(f64::from_bits(1.0f64.to_bits() + 4)))
    );
    assert!(!ulps_s(1.0, f32::from_bits(1.0f32.to_bits() + 4)));
    assert!(
        Ulps::<Single>::default().max_ulps(5).eq(&s(1.0), &s(f32::from_bits(1.0f32.to_bits() + 4)))
    );
}

#[test]
fn infinities_relative() {
    assert!(rel_d(f64::INFINITY, f64::INFINITY));
    assert!(rel_d(f64::NEG_INFINITY, f64::NEG_INFINITY));
    assert!(!rel_d(f64::INFINITY, f64::NEG_INFINITY));
    assert!(!rel_d(f64::NEG_INFINITY, f64::INFINITY));
    assert!(rel_s(f32::INFINITY, f32::INFINITY));
    assert!(!rel_s(f32::INFINITY, f32::NEG_INFINITY));
}

#[test]
fn infinities_ulps() {
    assert!(ulps_d(f64::INFINITY, f64::INFINITY));
    assert!(ulps_d(f64::NEG_INFINITY, f64::NEG_INFINITY));
    assert!(ulps_s(f32::INFINITY, f32::INFINITY));
}

#[test]
fn nan_is_never_equal() {
    assert!(!rel_d(f64::NAN, f64::NAN));
    assert!(!ulps_d(f64::NAN, f64::NAN));
    assert!(!rel_d(f64::NAN, 1.0));
    assert!(!ulps_d(1.0, f64::NAN));
    assert!(!rel_s(f32::NAN, f32::NAN));
    assert!(!ulps_s(f32::NAN, f32::NAN));
}

#[test]
fn signed_zeros_are_equal() {
    assert!(rel_d(0.0, -0.0));
    assert!(rel_d(-0.0, 0.0));
    assert!(ulps_d(0.0, -0.0));
    assert!(ulps_d(-0.0, 0.0));
    assert!(rel_s(0.0, -0.0));
    assert!(ulps_s(-0.0, 0.0));
}

#[test]
fn reflexive_on_ordinary_values() {
    for &x in &[0.0f64, 1.0, -1.5, 1.0e-300, -3.25e4, f64::MAX, 5.0e-324] {
        assert!(rel_d(x, x), "relative {x}");
        assert!(ulps_d(x, x), "ulps {x}");
    }
}

#[test]
fn negations_mirror_the_predicates() {
    let pairs = [(1.0f64, 1.0), (1.0, 1.5), (0.0, -0.0), (f64::NAN, 1.0)];
    for &(a, b) in &pairs {
        assert_eq!(Relative::<Double>::default().ne(&d(a), &d(b)), !rel_d(a, b));
        assert_eq!(Ulps::<Double>::default().ne(&d(a), &d(b)), !ulps_d(a, b));
        let e = Double::default_epsilon();
        let m = Double::default_max_relative();
        let u = Double::default_max_ulps();
        assert_eq!(d(a).relative_ne(&d(b), e, m), !d(a).relative_eq(&d(b), e, m));
        assert_eq!(d(a).ulps_ne(&d(b), e, u), !d(a).ulps_eq(&d(b), e, u));
    }
}

#[test]
fn builders_are_order_independent() {
    let a = d(1.0);
    let b = d(1.0 + 2.0 * f64::EPSILON);
    let eps = d(f64::EPSILON);
    let four = d(4.0 * f64::EPSILON);
    let one = Relative::<Double>::default().epsilon(eps).max_relative(four).eq(&a, &b);
    let two = Relative::<Double>::default().max_relative(four).epsilon(eps).eq(&a, &b);
    assert!(one && two);
    let three = Ulps::<Double>::default().epsilon(eps).max_ulps(5).eq(&a, &b);
    let four_u = Ulps::<Double>::default().max_ulps(5).epsilon(eps).eq(&a, &b);
    assert_eq!(three, four_u);
}

#[test]
fn defaults_match_machine_epsilon() {
    assert_eq!(Double::default_epsilon().to_bits(), f64::EPSILON.to_bits());
    assert_eq!(Double::default_max_relative().to_bits(), f64::EPSILON.to_bits());
    assert_eq!(Double::default_max_ulps(), 4);
    assert_eq!(Single::default_epsilon().to_bits(), f32::EPSILON.to_bits());
    assert_eq!(Single::default_max_ulps(), 4);
}

#[test]
fn forwarders_delegate() {
    let a = d(1.0);
    let b = d(1.0 + f64::EPSILON);
    let e = Double::default_epsilon();
    let m = Double::default_max_relative();
    assert!((&a).relative_eq(&&b, e, m));
    let mut am = a;
    let mut bm = b;
    assert!((&mut am).ulps_eq(&&mut bm, e, 4));
}

#[test]
fn complex_compared_to_itself() {
    let c = Complex { x: d(1.2), i: d(2.3) };
    let cc = Complex { x: d(1.2), i: d(2.3) };
    assert!(Relative::<Complex<Double>>::default().eq(&c, &cc));
    assert!(Ulps::<Complex<Double>>::default().eq(&c, &cc));
}

#[test]
fn complex_field_ten_ulps_off() {
    let c = Complex { x: d(1.2), i: d(2.3) };
    let shifted = Complex { x: d(f64::from_bits(1.2f64.to_bits() + 10)), i: d(2.3) };
    assert!(!Ulps::<Complex<Double>>::default().eq(&c, &shifted));
}

#[test]
fn absolute_short_circuit() {
    assert!(!rel_d(1.0, 1.1));
    assert!(Relative::<Double>::default().epsilon(d(0.2)).eq(&d(1.0), &d(1.1)));
    assert!(!ulps_d(1.0, 1.1));
    assert!(Ulps::<Double>::default().epsilon(d(0.2)).eq(&d(1.0), &d(1.1)));
}
