use linear_algebra::math::eq_with_tolerance;
use linear_algebra::{equation, linear_system, vector, Equation, LinearSystem, Scalar, Solution, Vector};

/// The exact value of a binary floating-point number.
fn num(x: f64) -> Scalar {
    let bits = x.to_bits();
    let negative = bits >> 63 == 1;
    let exponent = ((bits >> 52) & 0x7ff) as i32;
    let fraction = (bits & ((1u64 << 52) - 1)) as i64;
    let (mantissa, power) = if exponent == 0 {
        (fraction, -1074)
    } else {
        (fraction | (1i64 << 52), exponent - 1075)
    };
    Scalar::from_binary(if negative { -mantissa } else { mantissa }, power)
}

fn v(xs: &[f64]) -> Vector {
    vector(xs.iter().map(|&x| num(x)).collect())
}

fn e(xs: &[f64], k: f64) -> Equation {
    equation(v(xs), num(k))
}

#[test]
fn indices_of_first_nonzero_terms_in_each_row() {
    let e0 = e(&[1., 1., 1.], 1.);
    let e1 = e(&[0., 1., 0.], 2.);
    let e2 = e(&[1., 1., -1.], 3.);
    let e3 = e(&[1., 0., -2.], 2.);

    let s = linear_system(vec![e0, e1, e2, e3]);
    assert_eq!(
        s.indices_of_first_nonzero_terms_in_each_row(),
        vec![Some(0), Some(1), Some(0), Some(0)]
    );
}

#[test]
fn operations() {
    let e0 = e(&[1., 1., 1.], 1.);
    let e1 = e(&[0., 1., 0.], 2.);
    let e2 = e(&[1., 1., -1.], 3.);
    let e3 = e(&[1., 0., -2.], 2.);

    let mut s = linear_system(vec![e0.clone(), e1.clone(), e2.clone(), e3.clone()]);
    s.swap_rows(0, 1);
    assert_eq!(*s.get(0) == e1 && *s.get(1) == e0 && *s.get(2) == e2 && *s.get(3) == e3, true);

    s.swap_rows(1, 3);
    assert_eq!(*s.get(0) == e1 && *s.get(1) == e3 && *s.get(2) == e2 && *s.get(3) == e0, true);

    s.swap_rows(3, 1);
    assert_eq!(*s.get(0) == e1 && *s.get(1) == e0 && *s.get(2) == e2 && *s.get(3) == e3, true);

    s.multiply_coefficient_and_row(&num(1.), 0);
    assert_eq!(*s.get(0) == e1 && *s.get(1) == e0 && *s.get(2) == e2 && *s.get(3) == e3, true);

    s.multiply_coefficient_and_row(&num(-1.), 2);
    assert_eq!(
        *s.get(0) == e1
            && *s.get(1) == e0
            && *s.get(2) == e(&[-1., -1., 1.], -3.)
            && *s.get(3) == e3,
        true
    );

    s.multiply_coefficient_and_row(&num(10.), 1);
    assert_eq!(
        *s.get(0) == e1
            && *s.get(1) == e(&[10., 10., 10.], 10.)
            && *s.get(2) == e(&[-1., -1., 1.], -3.)
            && *s.get(3) == e3,
        true
    );

    s.add_multiple_times_row_to_row(&num(0.), 0, 1);
    assert_eq!(
        *s.get(0) == e1
            && *s.get(1) == e(&[10., 10., 10.], 10.)
            && *s.get(2) == e(&[-1., -1., 1.], -3.)
            && *s.get(3) == e3,
        true
    );

    s.add_multiple_times_row_to_row(&num(1.), 0, 1);
    assert_eq!(
        *s.get(0) == e1
            && *s.get(1) == e(&[10., 11., 10.], 12.)
            && *s.get(2) == e(&[-1., -1., 1.], -3.)
            && *s.get(3) == e3,
        true
    );

    s.add_multiple_times_row_to_row(&num(-1.), 1, 0);
    assert_eq!(
        *s.get(0) == e(&[-10., -10., -10.], -10.)
            && *s.get(1) == e(&[10., 11., 10.], 12.)
            && *s.get(2) == e(&[-1., -1., 1.], -3.)
            && *s.get(3) == e3,
        true
    );
}

#[test]
fn compute_triangular_form() {
    let e1 = e(&[1., 1., 1.], 1.);
    let e2 = e(&[0., 1., 1.], 2.);
    let s = linear_system(vec![e1.clone(), e2.clone()]);
    let t = s.compute_triangular_form();
    assert_eq!(*t.get(0) == e1 && *t.get(1) == e2, true);

    let e1 = e(&[1., 1., 1.], 1.);
    let e2 = e(&[1., 1., 1.], 2.);
    let s = linear_system(vec![e1.clone(), e2.clone()]);
    let t = s.compute_triangular_form();
    assert_eq!(*t.get(0) == e1 && *t.get(1) == e(&[0., 0., 0.], 1.), true);

    let e1 = e(&[1., 1., 1.], 1.);
    let e2 = e(&[0., 1., 0.], 2.);
    let e3 = e(&[1., 1., -1.], 3.);
    let e4 = e(&[1., 0., -2.], 2.);
    let s = linear_system(vec![e1.clone(), e2.clone(), e3, e4]);
    let t = s.compute_triangular_form();
    assert_eq!(
        *t.get(0) == e1
            && *t.get(1) == e2
            && *t.get(2) == e(&[0., 0., -2.], 2.)
            && *t.get(3) == e(&[0., 0., 0.], 0.),
        true
    );

    let e1 = e(&[0., 1., 1.], 1.);
    let e2 = e(&[1., -1., 1.], 2.);
    let e3 = e(&[1., 2., -5.], 3.);
    let s = linear_system(vec![e1, e2, e3]);
    let t = s.compute_triangular_form();
    assert_eq!(
        *t.get(0) == e(&[1., -1., 1.], 2.)
            && *t.get(1) == e(&[0., 1., 1.], 1.)
            && *t.get(2) == e(&[0., 0., -9.], -2.),
        true
    );
}

#[test]
fn compute_rref() {
    let e1 = e(&[1., 1., 1.], 1.);
    let e2 = e(&[0., 1., 1.], 2.);
    let s = linear_system(vec![e1, e2.clone()]);
    let r = s.compute_rref();
    assert_eq!(*r.get(0) == e(&[1., 0., 0.], -1.) && *r.get(1) == e2, true);

    let e1 = e(&[1., 1., 1.], 1.);
    let e2 = e(&[1., 1., 1.], 2.);
    let s = linear_system(vec![e1.clone(), e2]);
    let r = s.compute_rref();
    assert_eq!(*r.get(0) == e1 && *r.get(1) == e(&[0., 0., 0.], 1.), true);

    let e1 = e(&[1., 1., 1.], 1.);
    let e2 = e(&[0., 1., 0.], 2.);
    let e3 = e(&[1., 1., -1.], 3.);
    let e4 = e(&[1., 0., -2.], 2.);
    let s = linear_system(vec![e1, e2.clone(), e3, e4]);
    let r = s.compute_rref();
    assert_eq!(
        *r.get(0) == e(&[1., 0., 0.], 0.)
            && *r.get(1) == e2
            && *r.get(2) == e(&[0., 0., -2.], 2.)
            && *r.get(3) == e(&[0., 0., 0.], 0.),
        true
    );

    let e1 = e(&[0., 1., 1.], 1.);
    let e2 = e(&[1., -1., 1.], 2.);
    let e3 = e(&[1., 2., -5.], 3.);
    let s = linear_system(vec![e1, e2, e3]);
    let r = s.compute_rref();
    assert_eq!(
        *r.get(0) == equation(v(&[1., 0., 0.]), Scalar::from_ratio(23, 9))
            && *r.get(1) == equation(v(&[0., 1., 0.]), Scalar::from_ratio(7, 9))
            && *r.get(2) == equation(v(&[0., 0., 1.]), Scalar::from_ratio(2, 9)),
        true
    );
}

#[test]
fn compute_solution() {
    let e1 = e(&[5.862, 1.178, -10.366], -8.15);
    let e2 = e(&[-2.931, -0.589, 5.183], -4.075);
    let s = linear_system(vec![e1, e2]);
    let solution = s.compute_solution();
    assert_eq!(solution, Solution::NoSolution(String::from("No solutions")));

    let e1 = e(&[8.631, 5.112, -1.816], -5.113);
    let e2 = e(&[4.315, 11.132, -5.27], -6.775);
    let e3 = e(&[-2.158, 3.01, -1.727], -0.831);
    let s = linear_system(vec![e1, e2, e3]);
    let solution = s.compute_solution();
    assert_eq!(
        solution,
        Solution::InfiniteSolutions(String::from("Infinitely many solutions"))
    );

    let e1 = e(&[5.262, 2.739, -9.878], -3.441);
    let e2 = e(&[5.111, 6.358, 7.638], -2.152);
    let e3 = e(&[2.016, -9.924, -1.367], -9.278);
    let e4 = e(&[2.167, -13.543, -18.883], -10.567);
    let s = linear_system(vec![e1, e2, e3, e4]);
    match s.compute_solution() {
        Solution::Unique(x) => assert_eq!(
            x.round(3),
            vector(vec![
                Scalar::from_decimal(-1177, 3),
                Scalar::from_decimal(707, 3),
                Scalar::from_decimal(-83, 3),
            ])
        ),
        other => panic!("expected a unique solution, got {:?}", other),
    }
}

#[test]
fn ops_index() {
    let p0 = e(&[1., 1., 1.], 1.);
    let p1 = e(&[0., 1., 0.], 2.);
    let p2 = e(&[1., 1., -1.], 3.);
    let p3 = e(&[1., 0., -2.], 2.);

    let s = linear_system(vec![p0, p1, p2.clone(), p3]);

    assert_eq!(*s.get(2), p2);
}

#[test]
fn index_mut() {
    let p0 = e(&[1., 1., 1.], 1.);
    let p1 = e(&[0., 1., 0.], 2.);
    let p2 = e(&[1., 1., -1.], 3.);
    let p3 = e(&[1., 0., -2.], 2.);
    let p4 = e(&[-1., 0., -2.], 1.);

    let mut s = linear_system(vec![p0, p1, p2, p3]);
    s.set(2, p4.clone());

    assert_eq!(*s.get(2), p4);
}

#[test]
fn len_and_dim() {
    let s = linear_system(vec![e(&[1., 2., 3.], 1.), e(&[0., 1., 0.], 2.)]);
    assert_eq!(s.len(), 2);
    assert_eq!(s.dim(), 3);
    let empty = linear_system(vec![]);
    assert_eq!(empty.len(), 0);
    assert_eq!(empty.dim(), 0);
}

#[test]
fn rref_scenario_rows() {
    let s = linear_system(vec![
        e(&[1., 1., 1.], 1.),
        e(&[0., 1., 0.], 2.),
        e(&[1., 1., -1.], 3.),
        e(&[1., 0., -2.], 2.),
    ]);
    let t = s.compute_triangular_form();
    assert_eq!(*t.get(2).normal_vector(), v(&[0., 0., -2.]));
    assert_eq!(*t.get(2).constant_term(), num(2.));
    assert_eq!(*t.get(3).normal_vector(), v(&[0., 0., 0.]));
    assert_eq!(*t.get(3).constant_term(), num(0.));
    let r = s.compute_rref();
    assert_eq!(*r.get(0).normal_vector(), v(&[1., 0., 0.]));
    assert_eq!(*r.get(0).constant_term(), num(0.));
    // The original system is left as it was.
    assert_eq!(*s.get(2).normal_vector(), v(&[1., 1., -1.]));
}

#[test]
fn rref_is_idempotent_on_examples() {
    let systems = vec![
        vec![e(&[0., 1., 1.], 1.), e(&[1., -1., 1.], 2.), e(&[1., 2., -5.], 3.)],
        vec![e(&[1., 1., 1.], 1.), e(&[1., 1., 1.], 2.)],
        vec![
            e(&[1., 1., 1.], 1.),
            e(&[0., 1., 0.], 2.),
            e(&[1., 1., -1.], 3.),
            e(&[1., 0., -2.], 2.),
        ],
    ];
    for rows in systems {
        let r = linear_system(rows).compute_rref();
        let rr = r.compute_rref();
        for i in 0..r.len() {
            assert_eq!(*rr.get(i), *r.get(i));
            assert_eq!(*rr.get(i).normal_vector(), *r.get(i).normal_vector());
        }
    }
}

#[test]
fn triangular_form_keeps_solution() {
    // x = (1, 2, -1) solves each system; it still does after elimination.
    let x = v(&[1., 2., -1.]);
    let s = linear_system(vec![
        e(&[0., 1., 1.], 1.),
        e(&[1., -1., 1.], -2.),
        e(&[1., 2., -5.], 10.),
    ]);
    let t = s.compute_triangular_form();
    for i in 0..t.len() {
        let row = t.get(i);
        assert!(eq_with_tolerance(&row.normal_vector().dot(&x), row.constant_term(), None));
    }
    match s.compute_solution() {
        Solution::Unique(y) => assert_eq!(y, x),
        other => panic!("expected a unique solution, got {:?}", other),
    }
    match t.compute_solution() {
        Solution::Unique(y) => assert_eq!(y, x),
        other => panic!("expected a unique solution, got {:?}", other),
    }
}

#[test]
fn row_operations_keep_solution() {
    let x = v(&[1., 2., -1.]);
    let mut s = linear_system(vec![
        e(&[0., 1., 1.], 1.),
        e(&[1., -1., 1.], -2.),
        e(&[1., 2., -5.], 10.),
    ]);
    s.swap_rows(0, 2);
    s.multiply_coefficient_and_row(&num(-3.5), 1);
    s.add_multiple_times_row_to_row(&num(0.25), 0, 2);
    for i in 0..s.len() {
        let row = s.get(i);
        assert_eq!(row.normal_vector().dot(&x), *row.constant_term());
    }
}

#[test]
fn tolerance_can_reorder_pivots() {
    // The coefficient 1e-11 counts as zero, so column 0 is passed over first;
    // clearing column 1 then leaves a large coefficient in column 0 of row 1.
    let s = linear_system(vec![
        equation(
            vector(vec![Scalar::from_decimal(1, 11), Scalar::from_int(1)]),
            Scalar::from_int(1),
        ),
        equation(
            vector(vec![Scalar::from_decimal(5, 11), Scalar::from_int(1_000_000_000_000)]),
            Scalar::from_int(2),
        ),
    ]);
    let t = s.compute_triangular_form();
    assert_eq!(*t.get(0).normal_vector(), *s.get(0).normal_vector());
    let r = s.compute_rref();
    assert_eq!(*r.get(0).normal_vector(), v(&[0., 1.]));
    assert_eq!(*r.get(1).normal_vector(), v(&[1., 0.]));
    // A second reduction puts the rows in order, so it differs from the first.
    let rr = r.compute_rref();
    assert_eq!(*rr.get(0).normal_vector(), v(&[1., 0.]));
    // Solving the triangular form then differs from solving the system.
    let from_system = s.compute_solution();
    let from_triangular = t.compute_solution();
    assert!(matches!(from_system, Solution::Unique(_)));
    assert!(matches!(from_triangular, Solution::Unique(_)));
    assert_ne!(from_system, from_triangular);
}

#[test]
fn empty_system_keeps_its_unknowns() {
    let s = LinearSystem::with_dim(vec![], 3);
    assert_eq!(s.dim(), 3);
    assert_eq!(
        s.compute_solution(),
        Solution::InfiniteSolutions(String::from("Infinitely many solutions"))
    );
}
