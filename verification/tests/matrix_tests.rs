use algo_kernels::cache_oblivious::{
    matrix_transpose, matrix_transpose_cache_oblivious, matrix_transpose_cache_oblivious_fast,
    Matrix, MatrixError,
};
use rand::rngs::SmallRng;
use rand::RngExt;
use rand::SeedableRng;

const N: usize = 100;

fn random_buffer(seed: u64, len: usize) -> Vec<i64> {
    let mut rng = SmallRng::seed_from_u64(seed);
    (0..len).map(|_| rng.random_range(0i64..100)).collect()
}

#[test]
fn test_matrix_transpose() {
    let mut matrix: Vec<i64> = random_buffer(1, N * N);
    let original_matrix = matrix.clone();
    matrix_transpose(&mut matrix, N);
    for i in 0..N {
        for j in 0..N {
            assert_eq!(matrix[i * N + j], original_matrix[j * N + i]);
        }
    }
}

#[test]
fn test_matrix_transpose_cache_oblivious() {
    let mut matrix: Vec<i64> = random_buffer(2, N * N);
    let original_matrix = matrix.clone();
    matrix_transpose_cache_oblivious(&mut matrix, N);
    for i in 0..N {
        for j in 0..N {
            assert_eq!(matrix[i * N + j], original_matrix[j * N + i]);
        }
    }
}

#[test]
fn test_matrix_transpose_cache_oblivious_fast() {
    let mut matrix: Vec<i64> = random_buffer(3, N * N);
    let original_matrix = matrix.clone();
    matrix_transpose_cache_oblivious_fast(&mut matrix, N);
    for i in 0..N {
        for j in 0..N {
            assert_eq!(matrix[i * N + j], original_matrix[j * N + i]);
        }
    }
}

#[test]
fn test_matrix_transpose_struct() {
    let mut rng = SmallRng::seed_from_u64(4);
    let mut matrix = Matrix::new(N, N);
    for i in 0..N {
        for j in 0..N {
            matrix.set(i, j, rng.random_range(0i64..100)).unwrap();
        }
    }
    let transposed_matrix = matrix.transpose();
    for i in 0..N {
        for j in 0..N {
            assert_eq!(
                transposed_matrix.get(j, i).unwrap(),
                matrix.get(i, j).unwrap()
            );
        }
    }
}

#[test]
fn test_matrix_mul() {
    let matrix_a = Matrix::from_vec(random_buffer(5, N * N), N, N).unwrap();
    let matrix_b = Matrix::from_vec(random_buffer(6, N * N), N, N).unwrap();
    let simple_result = matrix_a.simple_mul(&matrix_b).unwrap();
    let transposed_result = matrix_a.transpose_mul(&matrix_b).unwrap();
    let result = matrix_a.mul(&matrix_b).unwrap();
    for i in 0..N {
        for j in 0..N {
            assert_eq!(
                simple_result.get(i, j).unwrap(),
                transposed_result.get(i, j).unwrap()
            );
            assert_eq!(simple_result.get(i, j).unwrap(), result.get(i, j).unwrap());
        }
    }
}

/// Every in-place strategy transposes, and applying it twice restores
/// the buffer, across small, odd, power-of-two and large square sizes.
#[test]
fn test_transpose_strategies_and_involution() {
    let sizes = [0usize, 1, 2, 3, 31, 32, 33, 63, 64, 100];
    for (which, strategy) in [
        matrix_transpose as fn(&mut Vec<i64>, usize),
        matrix_transpose_cache_oblivious as fn(&mut Vec<i64>, usize),
        matrix_transpose_cache_oblivious_fast as fn(&mut Vec<i64>, usize),
    ]
    .into_iter()
    .enumerate()
    {
        for &n in sizes.iter() {
            let original: Vec<i64> = (0..n * n)
                .map(|p| ((p * 37 + which * 11) % 1009) as i64)
                .collect();
            let mut buffer = original.clone();
            strategy(&mut buffer, n);
            for i in 0..n {
                for j in 0..n {
                    assert_eq!(buffer[i * n + j], original[j * n + i]);
                }
            }
            strategy(&mut buffer, n);
            assert_eq!(buffer, original);
        }
    }
}

/// The three strategies leave byte-identical buffers on the same input.
#[test]
fn test_transpose_strategies_pairwise_identical() {
    for &n in [1usize, 33, 64, 100].iter() {
        let original = random_buffer(7, n * n);
        let mut a = original.clone();
        let mut b = original.clone();
        let mut c = original.clone();
        matrix_transpose(&mut a, n);
        matrix_transpose_cache_oblivious(&mut b, n);
        matrix_transpose_cache_oblivious_fast(&mut c, n);
        assert_eq!(a, b);
        assert_eq!(a, c);
    }
}

/// Out-of-place transpose on non-square shapes, and its involution.
#[test]
fn test_matrix_transpose_non_square() {
    for &(rows, cols) in [(1usize, 7usize), (3, 5), (16, 2), (17, 33), (100, 1)].iter() {
        let data: Vec<i64> = (0..rows * cols).map(|p| (p as i64) * 3 - 50).collect();
        let matrix = Matrix::from_vec(data, rows, cols).unwrap();
        let transposed = matrix.transpose();
        for i in 0..rows {
            for j in 0..cols {
                assert_eq!(transposed.get(j, i).unwrap(), matrix.get(i, j).unwrap());
            }
        }
        let double = transposed.transpose();
        for i in 0..rows {
            for j in 0..cols {
                assert_eq!(double.get(i, j).unwrap(), matrix.get(i, j).unwrap());
            }
        }
    }
}

/// The three multiply strategies agree on non-square and adversarial
/// operands: zeros, an identity and negative values.
#[test]
fn test_mul_strategies_agree_adversarial() {
    let shapes = [(2usize, 3usize, 4usize), (5, 1, 7), (17, 20, 3), (1, 1, 1)];
    for (ti, &(n, k, m)) in shapes.iter().enumerate() {
        let a_data: Vec<i64> = (0..n * k).map(|p| (p as i64 % 19) - 9).collect();
        let b_data: Vec<i64> = (0..k * m).map(|p| (p as i64 % 23) - 11 + ti as i64).collect();
        let a = Matrix::from_vec(a_data, n, k).unwrap();
        let b = Matrix::from_vec(b_data, k, m).unwrap();
        let r1 = a.simple_mul(&b).unwrap();
        let r2 = a.transpose_mul(&b).unwrap();
        let r3 = a.mul(&b).unwrap();
        for i in 0..n {
            for j in 0..m {
                assert_eq!(r1.get(i, j).unwrap(), r2.get(i, j).unwrap());
                assert_eq!(r1.get(i, j).unwrap(), r3.get(i, j).unwrap());
            }
        }
    }
}

/// Multiplying by an identity returns the left operand; hand-checked
/// small products come out exactly.
#[test]
fn test_mul_exact_values() {
    let a = Matrix::from_vec(vec![1, 2, 3, 4, 5, 6], 2, 3).unwrap();
    let b = Matrix::from_vec(vec![7, 8, 9, 10, 11, 12], 3, 2).unwrap();
    // [[1,2,3],[4,5,6]] * [[7,8],[9,10],[11,12]] == [[58,64],[139,154]]
    for result in [
        a.simple_mul(&b).unwrap(),
        a.transpose_mul(&b).unwrap(),
        a.mul(&b).unwrap(),
    ] {
        assert_eq!(result.get(0, 0).unwrap(), 58);
        assert_eq!(result.get(0, 1).unwrap(), 64);
        assert_eq!(result.get(1, 0).unwrap(), 139);
        assert_eq!(result.get(1, 1).unwrap(), 154);
    }
    let mut identity = Matrix::new(3, 3);
    for i in 0..3 {
        identity.set(i, i, 1).unwrap();
    }
    let r = a.mul(&identity).unwrap();
    for i in 0..2 {
        for j in 0..3 {
            assert_eq!(r.get(i, j).unwrap(), a.get(i, j).unwrap());
        }
    }
}

/// Multiplying by an all-zero matrix yields an all-zero result of the
/// correct shape, for every strategy.
#[test]
fn test_mul_by_zero_matrix() {
    let a = Matrix::from_vec((0..6i64).collect(), 2, 3).unwrap();
    let zero = Matrix::new(3, 4);
    for result in [
        a.simple_mul(&zero).unwrap(),
        a.transpose_mul(&zero).unwrap(),
        a.mul(&zero).unwrap(),
    ] {
        for i in 0..2 {
            for j in 0..4 {
                assert_eq!(result.get(i, j).unwrap(), 0);
            }
        }
        assert!(result.get(2, 0).is_err());
        assert!(result.get(0, 4).is_err());
    }
}

/// `from_vec` with a mismatched length fails with `DimensionMismatch`
/// and never truncates or pads.
#[test]
fn test_from_vec_length_mismatch() {
    assert_eq!(
        Matrix::from_vec(vec![1, 2, 3], 2, 2).unwrap_err(),
        MatrixError::DimensionMismatch
    );
    assert_eq!(
        Matrix::from_vec(vec![1, 2, 3, 4, 5], 2, 2).unwrap_err(),
        MatrixError::DimensionMismatch
    );
    assert_eq!(
        Matrix::from_vec(vec![], 1, 1).unwrap_err(),
        MatrixError::DimensionMismatch
    );
    assert!(Matrix::from_vec(vec![1, 2, 3, 4], 2, 2).is_ok());
    assert!(Matrix::from_vec(vec![], 0, 5).is_ok());
}

/// `get`, `set` and `get_mut` with an out-of-range index fail with
/// `IndexOutOfRange` and leave the matrix unchanged.
#[test]
fn test_index_out_of_range() {
    let mut m = Matrix::from_vec(vec![1, 2, 3, 4, 5, 6], 2, 3).unwrap();
    assert_eq!(m.get(2, 0).unwrap_err(), MatrixError::IndexOutOfRange);
    assert_eq!(m.get(0, 3).unwrap_err(), MatrixError::IndexOutOfRange);
    assert_eq!(m.set(2, 0, 9).unwrap_err(), MatrixError::IndexOutOfRange);
    assert_eq!(m.set(0, 3, 9).unwrap_err(), MatrixError::IndexOutOfRange);
    assert_eq!(m.get_mut(5, 5).unwrap_err(), MatrixError::IndexOutOfRange);
    for i in 0..2 {
        for j in 0..3 {
            assert_eq!(m.get(i, j).unwrap(), (i * 3 + j + 1) as i64);
        }
    }
}

/// `get_mut` hands out a live reference to the addressed element.
#[test]
fn test_get_mut_updates_element() {
    let mut m = Matrix::new(2, 2);
    *m.get_mut(1, 0).unwrap() = 42;
    assert_eq!(m.get(1, 0).unwrap(), 42);
    assert_eq!(m.get(0, 0).unwrap(), 0);
}

/// Dimension mismatches are refused by all three multiply strategies.
#[test]
fn test_mul_dimension_mismatch() {
    let a = Matrix::new(2, 3);
    let b = Matrix::new(4, 2);
    assert_eq!(
        a.simple_mul(&b).unwrap_err(),
        MatrixError::DimensionMismatch
    );
    assert_eq!(
        a.transpose_mul(&b).unwrap_err(),
        MatrixError::DimensionMismatch
    );
    assert_eq!(a.mul(&b).unwrap_err(), MatrixError::DimensionMismatch);
}

/// The fixed-seed scenario: on 100x100 integer matrices with values in
/// `[0, 100)`, the three transpose routines leave identical buffers and
/// the three multiply strategies agree in every cell.
#[test]
fn test_fixed_seed_scenario() {
    let original = random_buffer(2024, N * N);
    let mut t1 = original.clone();
    let mut t2 = original.clone();
    let mut t3 = original.clone();
    matrix_transpose(&mut t1, N);
    matrix_transpose_cache_oblivious(&mut t2, N);
    matrix_transpose_cache_oblivious_fast(&mut t3, N);
    assert_eq!(t1, t2);
    assert_eq!(t2, t3);

    let a = Matrix::from_vec(random_buffer(2025, N * N), N, N).unwrap();
    let b = Matrix::from_vec(random_buffer(2026, N * N), N, N).unwrap();
    let r1 = a.simple_mul(&b).unwrap();
    let r2 = a.transpose_mul(&b).unwrap();
    let r3 = a.mul(&b).unwrap();
    for i in 0..N {
        for j in 0..N {
            assert_eq!(r1.get(i, j).unwrap(), r2.get(i, j).unwrap());
            assert_eq!(r1.get(i, j).unwrap(), r3.get(i, j).unwrap());
        }
    }
}

/// Degenerate shapes: empty buffers and empty matrices are no-ops.
#[test]
fn test_empty_shapes() {
    let mut empty: Vec<i64> = vec![];
    matrix_transpose(&mut empty, 0);
    matrix_transpose_cache_oblivious(&mut empty, 0);
    matrix_transpose_cache_oblivious_fast(&mut empty, 0);
    assert!(empty.is_empty());

    let m = Matrix::new(0, 5);
    let t = m.transpose();
    assert!(t.get(0, 0).is_err());
    let p = m.transpose_mul(&Matrix::new(5, 0)).unwrap();
    assert!(p.get(0, 0).is_err());
}
