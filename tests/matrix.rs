use linear_algebra::{matrix, vector, Matrix, Scalar};

fn m(rows: &[&[i64]]) -> Matrix {
    matrix(
        rows.iter()
            .map(|r| vector(r.iter().map(|&x| Scalar::from_int(x)).collect()))
            .collect(),
    )
}

fn q(rows: &[&[(i64, u64)]]) -> Matrix {
    matrix(
        rows.iter()
            .map(|r| vector(r.iter().map(|&(n, d)| Scalar::from_ratio(n, d)).collect()))
            .collect(),
    )
}

#[test]
fn transpose() {
    let a = m(&[&[5, 4, 1, 7], &[2, 1, 3, 5]]);
    assert_eq!(a.transpose(), m(&[&[5, 2], &[4, 1], &[1, 3], &[7, 5]]));

    let a = m(&[&[5]]);
    assert_eq!(a.transpose(), m(&[&[5]]));

    let a = m(&[&[5, 3, 2], &[7, 1, 4], &[1, 1, 2], &[8, 9, 1]]);
    assert_eq!(a.transpose(), m(&[&[5, 7, 1, 8], &[3, 1, 1, 9], &[2, 4, 2, 1]]));
}

#[test]
fn identity() {
    assert_eq!(linear_algebra::identity(1), m(&[&[1]]));
    assert_eq!(linear_algebra::identity(2), m(&[&[1, 0], &[0, 1]]));
    assert_eq!(linear_algebra::identity(3), m(&[&[1, 0, 0], &[0, 1, 0], &[0, 0, 1]]));
    assert_eq!(
        linear_algebra::identity(4),
        m(&[&[1, 0, 0, 0], &[0, 1, 0, 0], &[0, 0, 1, 0], &[0, 0, 0, 1]])
    );

    let a = m(&[&[5, 9, 2, 4], &[3, 8, 5, 6], &[1, 0, 0, 15]]);
    assert_eq!(a.multiply(&linear_algebra::identity(4)), a);
    assert_eq!(linear_algebra::identity(3).multiply(&a), a);
}

#[test]
fn inverse() {
    assert_eq!(m(&[&[100]]).inverse(), Ok(q(&[&[(1, 100)]])));
    assert_eq!(
        m(&[&[4, 5], &[7, 1]]).inverse().unwrap(),
        q(&[&[(-1, 31), (5, 31)], &[(7, 31), (-4, 31)]])
    );
    assert_eq!(
        m(&[&[4, 2], &[14, 7]]).inverse(),
        Err(String::from("Matrix is not invertible."))
    );
}

#[test]
fn matrix_eq() {
    assert_eq!(m(&[]), m(&[]));
    assert_eq!(m(&[&[2, 1, 2], &[4, 5, 1]]), m(&[&[2, 1, 2], &[4, 5, 1]]));
}

#[test]
fn matrix_ne() {
    assert_ne!(m(&[&[2, 1, 2], &[4, 5, 1]]), m(&[&[2, 4, 2], &[4, 5, 1]]));
}

#[test]
fn matrix_index() {
    let a = m(&[&[2, 3, 0], &[4, 8, 1]]);
    assert_eq!(*a.get_row(1).get(0), Scalar::from_int(4));
    assert_eq!(a.get_col(1), vector(vec![Scalar::from_int(3), Scalar::from_int(8)]));
    assert_eq!(a.row(), 2);
    assert_eq!(a.col(), 3);
}

#[test]
fn matrix_add() {
    assert_eq!(m(&[&[1, 2, 3]]).add(&m(&[&[4, 5, 6]])), m(&[&[5, 7, 9]]));
    assert_eq!(m(&[&[4]]).add(&m(&[&[5]])), m(&[&[9]]));
    assert_eq!(
        m(&[&[1, 2, 3], &[4, 5, 6]]).add(&m(&[&[7, 8, 9], &[10, 11, 12]])),
        m(&[&[8, 10, 12], &[14, 16, 18]])
    );
}

#[test]
fn matrix_sub() {
    assert_eq!(m(&[&[1, 2, 3]]).sub(&m(&[&[4, 5, 6]])), m(&[&[-3, -3, -3]]));
    assert_eq!(m(&[&[4]]).sub(&m(&[&[5]])), m(&[&[-1]]));
    assert_eq!(
        m(&[&[1, 2, 3], &[4, 5, 6]]).sub(&m(&[&[7, 8, 9], &[10, 11, 12]])),
        m(&[&[-6, -6, -6], &[-6, -6, -6]])
    );
}

#[test]
fn mul() {
    assert_eq!(m(&[&[5], &[2]]).multiply(&m(&[&[5, 1]])), m(&[&[25, 5], &[10, 2]]));
    assert_eq!(m(&[&[5, 1]]).multiply(&m(&[&[5], &[2]])), m(&[&[27]]));
    assert_eq!(m(&[&[3]]).multiply(&m(&[&[4]])), m(&[&[12]]));
    let a = m(&[&[2, 1, 8, 2, 1], &[5, 6, 4, 2, 1]]);
    let b = m(&[&[1, 7, 2], &[2, 6, 3], &[3, 1, 1], &[1, 20, 1], &[7, 4, 16]]);
    assert_eq!(a.multiply(&b), m(&[&[37, 72, 33], &[38, 119, 50]]));
    let a = m(&[&[5, 3, 1], &[6, 2, 7]]);
    let b = m(&[&[4, 2], &[8, 1], &[7, 4]]);
    assert_eq!(a.multiply(&b), m(&[&[51, 17], &[89, 42]]));
    assert_eq!(m(&[&[5]]).multiply(&m(&[&[4]])), m(&[&[20]]));
    let a = m(&[
        &[2, 8, 1, 2, 9],
        &[7, 9, 1, 10, 5],
        &[8, 4, 11, 98, 2],
        &[5, 5, 4, 4, 1],
    ]);
    let b = m(&[&[4], &[2], &[17], &[80], &[2]]);
    assert_eq!(a.multiply(&b), m(&[&[219], &[873], &[8071], &[420]]));
    let b = m(&[&[4, 1, 2], &[2, 3, 1], &[17, 8, 1], &[1, 3, 0], &[2, 1, 4]]);
    assert_eq!(
        a.multiply(&b),
        m(&[&[61, 49, 49], &[83, 77, 44], &[329, 404, 39], &[104, 65, 23]])
    );
}

#[test]
fn matrix_scale_and_round() {
    let a = q(&[&[(1, 3), (2, 3)]]);
    assert_eq!(a.scale(&Scalar::from_int(3)), m(&[&[1, 2]]));
    assert_eq!(
        a.round(2),
        matrix(vec![vector(vec![Scalar::from_decimal(33, 2), Scalar::from_decimal(67, 2)])])
    );
}

#[test]
fn matrix_map() {
    let a = m(&[&[1, -2], &[3, 0]]);
    assert_eq!(a.map(|x: &Scalar| x.neg()), m(&[&[-1, 2], &[-3, 0]]));
}
