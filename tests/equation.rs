use linear_algebra::{equation, vector, Equation, Intersection, Scalar, Vector};

/// The exact value of a binary floating-point number.
fn num(x: f64) -> Scalar {
    let bits = x.to_bits();
    let negative = bits >> 63 == 1;
    let exponent = ((bits >> 52) & 0x7ff) as i32;
    let fraction = (bits & ((1u64 << 52) - 1)) as i64;
    let (mantissa, power) = if exponent == 0 {
        (fraction, -1074)
    } else {
        (fraction | (1i64 << 52), exponent - 1075)
    };
    Scalar::from_binary(if negative { -mantissa } else { mantissa }, power)
}

fn v(xs: &[f64]) -> Vector {
    vector(xs.iter().map(|&x| num(x)).collect())
}

fn e(xs: &[f64], k: f64) -> Equation {
    equation(v(xs), num(k))
}

#[test]
fn equation_new() {
    let eq = e(&[0., 1.], 3.);
    assert_eq!(*eq.normal_vector(), v(&[0., 1.]));
    assert_eq!(*eq.constant_term(), num(3.));
    assert_eq!(*eq.base_point(), Some(v(&[0.0, 3.0])));
}

#[test]
fn equation_round() {
    let eq = e(&[0.3837, 1.3212], 12.4837);
    let r = eq.round(3);
    assert_eq!(
        *r.normal_vector(),
        vector(vec![Scalar::from_decimal(384, 3), Scalar::from_decimal(1321, 3)])
    );
    assert_eq!(*r.constant_term(), Scalar::from_decimal(12484, 3));
    assert_eq!(
        *r.base_point(),
        Some(vector(vec![Scalar::from_decimal(32535, 3), Scalar::from_int(0)]))
    );
}

#[test]
fn parallel_is_an_angle_test() {
    // An angle of about 5e-11 lies within the tolerance, at any scale.
    let a = e(&[1., 0.], 0.);
    let b = equation(vector(vec![Scalar::from_int(1), Scalar::from_decimal(5, 11)]), num(0.));
    assert!(a.is_parallel(&b));
    assert!(a.scale(&num(10.)).is_parallel(&b));
    assert!(a.scale(&num(1e-6)).is_parallel(&b));
    // An angle of about 5e-10 does not, at any scale.
    let b = equation(vector(vec![Scalar::from_int(1), Scalar::from_decimal(5, 10)]), num(0.));
    assert!(!a.is_parallel(&b));
    assert!(!a.scale(&num(10.)).is_parallel(&b));
    assert!(!a.scale(&num(1e-6)).is_parallel(&b));
    // Opposite directions are parallel; a zero normal is parallel to everything.
    assert!(a.is_parallel(&e(&[-3., 0.], 1.)));
    assert!(a.is_parallel(&e(&[0., 0.], 1.)));
    let c = e(&[2.5, -1.25], 4.);
    for k in [10.0, -0.5, 1e-9] {
        assert!(c.scale(&num(k)).is_parallel(&c));
        assert_eq!(c.scale(&num(k)).is_parallel(&a), c.is_parallel(&a));
    }
}

#[test]
fn equation_is_parallel() {
    let line_1 = e(&[0., 1.], 3.);
    let line_2 = e(&[0., 2.], 6.);
    assert_eq!(line_1.is_parallel(&line_2), true);

    let line_1 = e(&[2., 1.], 3.);
    let line_2 = e(&[1., 2.], 3.);
    assert_eq!(line_1.is_parallel(&line_2), false);

    let planes_1 = e(&[-0.412, 3.806, 0.728], -3.46);
    let planes_2 = e(&[1.03, -9.515, -1.82], 8.65);
    assert_eq!(planes_1, planes_2);
    assert_eq!(planes_1.is_parallel(&planes_2), true);

    let planes_1 = e(&[2.611, 5.518, 0.283], 4.6);
    let planes_2 = e(&[7.715, 8.306, 5.342], 3.76);
    assert_ne!(planes_1, planes_2);
    assert_eq!(planes_1.is_parallel(&planes_2), false);

    let planes_1 = e(&[-7.926, 8.625, -7.212], -7.952);
    let planes_2 = e(&[-2.642, 2.875, -2.404], -2.443);
    assert_ne!(planes_1, planes_2);
    assert_eq!(planes_1.is_parallel(&planes_2), true);
}

#[test]
fn equation_scale() {
    let eq = e(&[0., 1.], 3.);
    assert_eq!(eq.scale(&num(2.)), e(&[0., 2.], 6.));
}

#[test]
fn ops_eq() {
    assert_eq!(e(&[1., 2.], 2.), e(&[2., 4.], 4.));
    assert_eq!(e(&[0., 0.], 0.), e(&[0., 0.], 0.));
}

#[test]
fn ops_ne() {
    assert_ne!(e(&[1., 0.], 0.), e(&[0., 0.], 0.));
    assert_ne!(e(&[1., 2.], 3.), e(&[1., 2.], 4.));
}

#[test]
fn ops_add() {
    let equation_1 = e(&[2., 3.], 2.);
    let equation_2 = e(&[1., -1.], -5.);

    assert_eq!(equation_1.add(&equation_2), e(&[3., 2.], -3.))
}

#[test]
fn ops_sub() {
    let equation_1 = e(&[2., 3.], 2.);
    let equation_2 = e(&[1., -1.], -5.);

    assert_eq!(equation_1.sub(&equation_2), e(&[1., 4.], 7.))
}

#[test]
fn ops_scale() {
    let eq = e(&[0., 1.], 3.);
    assert_eq!(eq.scale(&num(2.)), e(&[0., 2.], 6.));
}

#[test]
fn scale_keeps_hyperplane_and_direction() {
    let eq = e(&[-0.412, 3.806, 0.728], -3.46);
    for k in [2.5, -3.0, 0.001, 1000.0] {
        let s = eq.scale(&num(k));
        assert_eq!(s, eq);
        assert!(s.is_parallel(&eq));
    }
}

#[test]
fn scale_by_zero_collapses() {
    let eq = e(&[1.5, -2.0], 4.0);
    let z = eq.scale(&num(0.));
    assert_eq!(*z.normal_vector(), v(&[0., 0.]));
    assert_eq!(*z.base_point(), None);
    assert_eq!(z, e(&[0., 0.], 0.));
    assert_ne!(z, eq);
}

#[test]
fn base_point_uses_first_nonzero() {
    let eq = e(&[0., 4., 2.], 6.);
    assert_eq!(*eq.base_point(), Some(v(&[0., 1.5, 0.])));
    let eq = e(&[0., 0.], 5.);
    assert_eq!(*eq.base_point(), None);
    assert_ne!(eq, e(&[0., 0.], 6.));
    assert_eq!(eq, e(&[0., 0.], 5.));
}

#[test]
fn intersect() {
    let line_1 = e(&[4.046, 2.836], 1.21);
    let line_2 = e(&[10.115, 7.09], 3.025);
    assert_eq!(line_1.intersect(&line_2), Intersection::Infinity(line_1.clone()));

    let line_1 = e(&[7.204, 3.182], 8.68);
    let line_2 = e(&[8.172, 4.114], 9.883);
    assert_eq!(
        line_1.intersect(&line_2).unwrap().round(3),
        vector(vec![Scalar::from_decimal(1173, 3), Scalar::from_decimal(73, 3)])
    );

    let line_1 = e(&[1.182, 5.562], 6.744);
    let line_2 = e(&[1.773, 8.343], 9.525);
    assert_eq!(line_1.intersect(&line_2), Intersection::Parallel);
}

#[test]
fn intersect_point_lies_on_both_lines() {
    let line_1 = e(&[2., -1.], 3.);
    let line_2 = e(&[1., 1.], 6.);
    let p = line_1.intersect(&line_2).unwrap();
    assert_eq!(p, v(&[3., 3.]));
    assert_eq!(line_1.normal_vector().dot(&p), *line_1.constant_term());
    assert_eq!(line_2.normal_vector().dot(&p), *line_2.constant_term());
}
