use cienli::error::CipherError;
use cienli::matrix::{determinant, modular_inverse, modular_matrix_multiplicative_inverse, modulus, multiply, rem_euclid};

#[test]
fn matrix_multiply_values() {
    let a = vec![vec![1, 2], vec![3, 4]];
    let b = vec![vec![5, 6, 7], vec![8, 9, 10]];
    assert_eq!(Ok(vec![vec![21, 24, 27], vec![47, 54, 61]]), multiply(&a, &b));
}

#[test]
fn matrix_multiply_errors() {
    let a = vec![vec![1, 2], vec![3, 4]];
    assert_eq!(Err(CipherError::EmptyMatrix), multiply(&a, &vec![]));
    assert_eq!(Err(CipherError::EmptyMatrix), multiply(&vec![], &a));
    assert_eq!(Err(CipherError::DimensionMismatch), multiply(&a, &vec![vec![1, 2]]));
    assert_eq!(
        Err(CipherError::Overflow),
        multiply(&vec![vec![i32::MAX, 1]], &vec![vec![1], vec![1]])
    );
    assert_eq!(
        Ok(vec![vec![i32::MIN]]),
        multiply(&vec![vec![i32::MIN, 0]], &vec![vec![1], vec![7]])
    );
}

#[test]
fn matrix_modulus_negative_entries() {
    let mut m = vec![vec![-1, 27, 0], vec![-26, -27, i32::MIN]];
    modulus(&mut m, 26);
    assert_eq!(vec![vec![25, 1, 0], vec![0, 25, 2]], m);
    assert_eq!(3, rem_euclid(-23, 26));
}

#[test]
fn scalar_modular_inverse() {
    assert_eq!(Ok(9), modular_inverse(3, 26));
    assert_eq!(Ok(25), modular_inverse(-1, 26));
    assert_eq!(Err(CipherError::NotInvertible), modular_inverse(4, 26));
    assert_eq!(Err(CipherError::NotInvertible), modular_inverse(5, 1));
}

#[test]
fn matrix_modular_inverse() {
    let key = vec![vec![6, 24, 1], vec![13, 16, 10], vec![20, 17, 15]];
    assert_eq!(
        Ok(vec![vec![8, 5, 10], vec![21, 8, 21], vec![21, 12, 8]]),
        modular_matrix_multiplicative_inverse(&key, 26)
    );
    assert_eq!(Ok(vec![vec![9]]), modular_matrix_multiplicative_inverse(&vec![vec![3]], 26));
    assert_eq!(
        Err(CipherError::EmptyMatrix),
        modular_matrix_multiplicative_inverse(&vec![], 26)
    );
    assert_eq!(
        Err(CipherError::DimensionMismatch),
        modular_matrix_multiplicative_inverse(&vec![vec![1, 2]], 26)
    );
    assert_eq!(
        Err(CipherError::NotInvertible),
        modular_matrix_multiplicative_inverse(&vec![vec![2, 4], vec![1, 3]], 26)
    );
}

#[test]
fn matrix_determinant() {
    let key = vec![vec![6, 24, 1], vec![13, 16, 10], vec![20, 17, 15]];
    assert_eq!(Ok(441), determinant(&key));
    assert_eq!(Ok(-2), determinant(&vec![vec![-2, 3], vec![4, -5]]));
    assert_eq!(Ok(7), determinant(&vec![vec![7]]));
    assert_eq!(Err(CipherError::EmptyMatrix), determinant(&vec![]));
    assert_eq!(Err(CipherError::DimensionMismatch), determinant(&vec![vec![1, 2]]));
    let m = i32::MAX;
    assert_eq!(
        Err(CipherError::Overflow),
        determinant(&vec![vec![m, m, 0], vec![0, m, m], vec![m, 0, m]])
    );
    assert_eq!(
        Ok((m as i64) * (m as i64) - (i32::MIN as i64) * (i32::MIN as i64)),
        determinant(&vec![vec![m, i32::MIN], vec![i32::MIN, m]])
    );
}
