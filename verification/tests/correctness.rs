use approx::AbsDiffEq;
use parallel_matrix_engine::{gemm_naive, gemm_parallel, Matrix};
use rand::rngs::StdRng;
use rand::{Rng, SeedableRng};

fn seeded(rows: usize, cols: usize, seed: u64) -> Matrix<f32> {
    Matrix::random(rows, cols, seed)
}

#[test]
fn small_matrices_match() {
    let a: Matrix<f32> = Matrix::from_vec(2, 2, vec![1.0, 2.0, 3.0, 4.0]).unwrap();
    let b: Matrix<f32> = Matrix::from_vec(2, 2, vec![5.0, 6.0, 7.0, 8.0]).unwrap();

    let c_naive = gemm_naive(&a, &b, 0.0).unwrap();
    let c_par = gemm_parallel(&a, &b, 0.0).unwrap();

    for i in 0..2 {
        for j in 0..2 {
            assert!(c_naive[(i, j)].abs_diff_eq(&c_par[(i, j)], 1e-6));
        }
    }
}

#[test]
fn correctness_random_matrix_consistency() {
    let n = 64;
    let a: Matrix<f32> = Matrix::random(n, n, 42);
    let b: Matrix<f32> = Matrix::random(n, n, 43);

    let c_naive = gemm_naive(&a, &b, 0.0).unwrap();
    let c_par = gemm_parallel(&a, &b, 0.0).unwrap();

    for i in 0..n {
        for j in 0..n {
            assert!(c_naive[(i, j)].abs_diff_eq(&c_par[(i, j)], 1e-5));
        }
    }
}

#[test]
fn gemm_correct_small() {
    let a: Matrix<f32> = Matrix::from_vec(2, 3, vec![1.0, 2.0, 3.0, 4.0, 5.0, 6.0]).unwrap();
    let b: Matrix<f32> =
        Matrix::from_vec(3, 2, vec![7.0, 8.0, 9.0, 10.0, 11.0, 12.0]).unwrap();
    let c_naive = gemm_naive(&a, &b, 0.0).unwrap();
    let c_par = gemm_parallel(&a, &b, 0.0).unwrap();
    for i in 0..2 {
        for j in 0..2 {
            assert!(c_naive[(i, j)].abs_diff_eq(&c_par[(i, j)], 1e-5));
        }
    }
}

#[test]
fn lib_random_matrix_consistency() {
    let n = 64;
    let a: Matrix<f32> = Matrix::random(n, n, 42);
    let b: Matrix<f32> = Matrix::random(n, n, 43);

    let c_naive = gemm_naive(&a, &b, 0.0).unwrap();
    let c_par = gemm_parallel(&a, &b, 0.0).unwrap();

    for i in 0..n {
        for j in 0..n {
            assert!(c_naive[(i, j)].abs_diff_eq(&c_par[(i, j)], 1e-5));
        }
    }
}

#[test]
fn random_is_fixed_by_the_seed() {
    let a: Matrix<f32> = Matrix::random(8, 5, 7);
    let b: Matrix<f32> = Matrix::random(8, 5, 7);
    let other: Matrix<f32> = Matrix::random(8, 5, 8);
    assert_eq!((a.rows, a.cols, a.data.len()), (8, 5, 40));
    assert_eq!(a.data, b.data);
    assert_ne!(a.data, other.data);
    assert!(a.data.iter().all(|v| 0.0 <= *v && *v < 1.0));
}

#[test]
fn random_draws_in_row_major_order_from_the_seeded_generator() {
    let a: Matrix<f32> = Matrix::random(3, 4, 42);
    let mut rng = StdRng::seed_from_u64(42);
    let mut expected: Vec<f32> = Vec::new();
    for _ in 0..12 {
        expected.push(rng.gen::<f32>());
    }
    assert_eq!(a.data, expected);
    let empty: Matrix<f32> = Matrix::random(0, 4, 42);
    assert!(empty.data.is_empty());
}

#[test]
fn two_by_two_exact_values() {
    let a: Matrix<f32> = Matrix::from_vec(2, 2, vec![1.0, 2.0, 3.0, 4.0]).unwrap();
    let b: Matrix<f32> = Matrix::from_vec(2, 2, vec![5.0, 6.0, 7.0, 8.0]).unwrap();
    let expected: Vec<f32> = vec![19.0, 22.0, 43.0, 50.0];
    let c_naive = gemm_naive(&a, &b, 0.0).unwrap();
    let c_par = gemm_parallel(&a, &b, 0.0).unwrap();
    assert_eq!((c_naive.rows, c_naive.cols), (2, 2));
    assert_eq!((c_par.rows, c_par.cols), (2, 2));
    assert_eq!(c_naive.data, expected);
    assert_eq!(c_par.data, expected);
}

#[test]
fn two_by_three_times_three_by_two_exact_values() {
    let a: Matrix<f32> = Matrix::from_vec(2, 3, vec![1.0, 2.0, 3.0, 4.0, 5.0, 6.0]).unwrap();
    let b: Matrix<f32> =
        Matrix::from_vec(3, 2, vec![7.0, 8.0, 9.0, 10.0, 11.0, 12.0]).unwrap();
    let expected: Vec<f32> = vec![58.0, 64.0, 139.0, 154.0];
    let c_naive = gemm_naive(&a, &b, 0.0).unwrap();
    let c_par = gemm_parallel(&a, &b, 0.0).unwrap();
    assert_eq!(c_naive.data, expected);
    assert_eq!(c_par.data, expected);
    assert_eq!((c_par.rows, c_par.cols), (2, 2));
}

#[test]
fn blocked_equals_serial_bit_for_bit_on_ragged_shapes() {
    let shapes: Vec<(usize, usize, usize)> =
        vec![(70, 65, 33), (130, 17, 200), (1, 100, 1), (65, 64, 63), (15, 15, 15)];
    for (m, k, n) in shapes {
        let a = seeded(m, k, 1);
        let b = seeded(k, n, 2);
        let c_naive = gemm_naive(&a, &b, 0.0).unwrap();
        let c_par = gemm_parallel(&a, &b, 0.0).unwrap();
        assert_eq!((c_par.rows, c_par.cols), (m, n));
        let naive_bits: Vec<u32> = c_naive.data.iter().map(|v| v.to_bits()).collect();
        let par_bits: Vec<u32> = c_par.data.iter().map(|v| v.to_bits()).collect();
        assert_eq!(naive_bits, par_bits);
    }
}

#[test]
fn blocked_product_does_not_depend_on_pool_size() {
    let a = seeded(150, 90, 11);
    let b = seeded(90, 70, 12);
    let one = rayon::ThreadPoolBuilder::new().num_threads(1).build().unwrap();
    let four = rayon::ThreadPoolBuilder::new().num_threads(4).build().unwrap();
    let c1 = one.install(|| gemm_parallel(&a, &b, 0.0).unwrap());
    let c4 = four.install(|| gemm_parallel(&a, &b, 0.0).unwrap());
    let bits1: Vec<u32> = c1.data.iter().map(|v| v.to_bits()).collect();
    let bits4: Vec<u32> = c4.data.iter().map(|v| v.to_bits()).collect();
    assert_eq!(bits1, bits4);
    assert!(c1.data.iter().any(|v| *v != 0.0));
}

#[test]
fn identity_on_the_right_returns_the_left_operand() {
    let n = 20;
    let a = seeded(33, n, 5);
    let mut id: Matrix<f32> = Matrix::new(n, n, 0.0);
    for d in 0..n {
        id.set(d, d, 1.0);
    }
    assert_eq!(gemm_naive(&a, &id, 0.0).unwrap().data, a.data);
    assert_eq!(gemm_parallel(&a, &id, 0.0).unwrap().data, a.data);
}

#[test]
fn zero_on_the_right_gives_zero() {
    let a = seeded(40, 18, 9);
    let z: Matrix<f32> = Matrix::new(18, 25, 0.0);
    let c_naive = gemm_naive(&a, &z, 0.0).unwrap();
    let c_par = gemm_parallel(&a, &z, 0.0).unwrap();
    assert_eq!(c_naive.data.len(), 40 * 25);
    assert!(c_naive.data.iter().all(|v| *v == 0.0));
    assert_eq!(c_par.data.len(), 40 * 25);
    assert!(c_par.data.iter().all(|v| *v == 0.0));
}
