use linear_algebra::math::eq_with_tolerance;
use linear_algebra::{vector, Scalar, Vector};

/// The exact value of a binary floating-point number.
fn num(x: f64) -> Scalar {
    let bits = x.to_bits();
    let negative = bits >> 63 == 1;
    let exponent = ((bits >> 52) & 0x7ff) as i32;
    let fraction = (bits & ((1u64 << 52) - 1)) as i64;
    let (mantissa, power) = if exponent == 0 {
        (fraction, -1074)
    } else {
        (fraction | (1i64 << 52), exponent - 1075)
    };
    Scalar::from_binary(if negative { -mantissa } else { mantissa }, power)
}

/// The decimal that a literal is written as.
fn dec(x: f64) -> Scalar {
    let text = format!("{}", x);
    let (whole, frac) = match text.split_once('.') {
        Some((w, f)) => (w.to_string(), f.to_string()),
        None => (text.clone(), String::new()),
    };
    let digits = format!("{}{}", whole, frac);
    Scalar::from_decimal(digits.parse::<i64>().unwrap(), frac.len() as u32)
}

fn v(xs: &[f64]) -> Vector {
    vector(xs.iter().map(|&x| num(x)).collect())
}

/// A vector of decimals.
fn d(xs: &[f64]) -> Vector {
    vector(xs.iter().map(|&x| dec(x)).collect())
}

#[test]
fn dim() {
    let a = v(&[2., 3., 3.]);
    assert_eq!(a.dim(), 3);

    let a = v(&[]);
    assert_eq!(a.dim(), 0);
}

#[test]
fn vector_round() {
    let a = v(&[1.671, -1.012, -0.318]);

    assert_eq!(a.round(0), d(&[2., -1., -0.]));
}

#[test]
fn vector_scale() {
    let a = v(&[1.671, -1.012, -0.318]);

    assert_eq!(a.scale(&num(7.41)).round(3), d(&[12.382, -7.499, -2.356]));
}

#[test]
fn vector_dot() {
    let a = v(&[7.887, 4.138]);
    let b = v(&[-8.802, 6.776]);
    assert_eq!(a.dot(&b).round(3), dec(-41.382));

    let a = v(&[-5.955, -4.904, -1.874]);
    let b = v(&[-4.496, -8.755, 7.103]);
    assert_eq!(a.dot(&b).round(3), dec(56.397));
}

#[test]
fn checks() {
    let a = v(&[0., 0.]);
    let b = v(&[-0.1, 0.001]);
    assert_eq!(a.is_zero(), true);
    assert_eq!(b.is_zero(), false);

    let a = v(&[-7.579, -7.88]);
    let b = v(&[22.737, 23.64]);
    assert_eq!(a.is_parallel(&b), true);
    assert_eq!(a.is_orthogonal(&b), false);

    let a = v(&[-2.029, 9.97, 4.172]);
    let b = v(&[-9.231, -6.639, -7.245]);
    assert_eq!(a.is_parallel(&b), false);
    assert_eq!(a.is_orthogonal(&b), false);

    let a = v(&[-2.328, -7.284, -1.214]);
    let b = v(&[-1.821, 1.072, -2.94]);
    assert_eq!(a.is_parallel(&b), false);
    assert_eq!(a.is_orthogonal(&b), true);

    let a = v(&[2.118, 4.827]);
    let b = v(&[0., 0.]);
    assert_eq!(a.is_parallel(&b), true);
    assert_eq!(a.is_orthogonal(&b), true);
}

#[test]
fn cross() {
    let a = v(&[5., 3., -2.]);
    let b = v(&[-1., 0., 3.]);
    let c = a.cross(&b);
    assert_eq!(c.round(3), d(&[9., -13., 3.]));
    assert_eq!(a.is_orthogonal(&c), true);
    assert_eq!(b.is_orthogonal(&c), true);

    let a = v(&[8.462, 7.893, -8.187]);
    let b = v(&[6.984, -5.975, 4.778]);
    assert_eq!(a.cross(&b).round(3), d(&[-11.205, -97.609, -105.685]));
}

#[test]
fn vector_index() {
    let a = v(&[2., 3., 0.]);
    assert_eq!(*a.get(1), num(3.));
}

#[test]
fn vector_eq() {
    assert_eq!(v(&[]), v(&[]));
    assert_eq!(v(&[2., 1., 2.]), v(&[2., 1., 2.]));
}

#[test]
fn vector_ne() {
    assert_ne!(v(&[3., 1., 2.]), v(&[2., 1., 2.]));
}

#[test]
fn vector_add() {
    let a = v(&[8.218, -9.341]);
    let b = v(&[-1.129, 2.111]);
    let r = a.add(&b);
    assert_eq!(r.round(3), d(&[7.089, -7.23]));
}

#[test]
fn vector_sub() {
    let a = v(&[7.119, 8.215]);
    let b = v(&[-8.223, 0.878]);
    let r = a.sub(&b);
    assert_eq!(r.round(3), d(&[15.342, 7.337]));
}

#[test]
fn vector_ops_scale() {
    let a = v(&[1.671, -1.012, -0.318]);

    assert_eq!(a.scale(&num(7.41)).round(3), d(&[12.382, -7.499, -2.356]));
}

#[test]
fn ops_dot() {
    let a = v(&[7.887, 4.138]);
    let b = v(&[-8.802, 6.776]);
    assert_eq!(a.dot(&b).round(3), dec(-41.382));

    let a = v(&[-5.955, -4.904, -1.874]);
    let b = v(&[-4.496, -8.755, 7.103]);
    assert_eq!(a.dot(&b).round(3), dec(56.397));
}

#[test]
fn iter_into_iter() {
    let a = v(&[2., 3., 5.]);
    let coords = a.coordinates().clone();
    assert_eq!(coords, vec![num(2.), num(3.), num(5.)]);
}

#[test]
fn orthogonal_to_itself_only_when_zero() {
    assert!(v(&[0., 0., 0.]).is_orthogonal(&v(&[0., 0., 0.])));
    let a = v(&[0.001, 0., -2.]);
    assert!(!a.is_orthogonal(&a));
    // Squared norm 1e-12 lies within the tolerance: the law's excluded case.
    let tiny = vector(vec![Scalar::from_decimal(1, 6)]);
    assert!(tiny.is_orthogonal(&tiny));
    assert!(!tiny.is_zero());
}

#[test]
fn tolerance_overrides() {
    let a = v(&[0.3, 0.4]);
    assert!(!a.is_zero());
    assert!(a.is_zero_with_tolerance(Some(&num(0.6))));
    assert!(!a.is_zero_with_tolerance(Some(&num(0.5))));
    assert!(a.is_orthogonal_with_tolerance(&v(&[1., -0.7]), Some(&num(0.1))));
    assert!(!a.is_orthogonal(&v(&[1., -0.7])));
    assert!(eq_with_tolerance(&a.dot(&a), &num(0.25), None));
}

#[test]
fn zeros_and_set() {
    let mut z = Vector::zeros(3);
    assert_eq!(z, v(&[0., 0., 0.]));
    z.set(1, num(4.5));
    assert_eq!(z, v(&[0., 4.5, 0.]));
}

#[test]
fn project() {
    let a = v(&[3.039, 1.879]);
    let b = v(&[0.825, 2.036]);
    let projection = a.project(&b).unwrap();
    assert_eq!(projection.parallel.round(3), d(&[1.083, 2.672]));

    let a = v(&[-9.88, -3.264, -8.159]);
    let b = v(&[-2.155, -9.353, -9.473]);
    let projection = a.project(&b).unwrap();
    assert_eq!(projection.orthogonal.round(3), d(&[-8.35, 3.376, -1.434]));

    let a = v(&[3.009, -6.172, 3.692, -2.51]);
    let b = v(&[6.404, -9.144, 2.759, 8.718]);
    let projection = a.project(&b).unwrap();
    assert_eq!(projection.parallel.round(3), d(&[1.969, -2.811, 0.848, 2.680]));
    assert_eq!(projection.orthogonal.round(3), d(&[1.04, -3.361, 2.844, -5.19]));
}

#[test]
fn project_onto_zero() {
    let a = v(&[1., 2.]);
    assert_eq!(
        a.project(&v(&[0., 0.])),
        Err(String::from("Zero vector has no normalize."))
    );
}

#[test]
fn map() {
    let a = v(&[2., 3., 1.]);
    let double = |x: &Scalar| x.mul(&Scalar::from_int(2));

    assert_eq!(a.map(double), v(&[4., 6., 2.]));
}

#[test]
fn iter_from_iter() {
    let a = v(&[2., 3., 5.]).map(|x: &Scalar| x.add(x));
    assert_eq!(a, v(&[4., 6., 10.]));
}
