use parallel_matrix_engine::blocked::{
    fill_row_chunk, multiply_add_block_slice, tile_size, MAX_TILE, MIN_TILE,
};
use parallel_matrix_engine::{gemm_naive, gemm_parallel, Matrix, MatrixError};

#[test]
fn new_is_all_zero() {
    let m: Matrix<f32> = Matrix::new(3, 4, 0.0);
    assert_eq!((m.rows, m.cols), (3, 4));
    assert_eq!(m.data, vec![0.0f32; 12]);
}

#[test]
fn from_fill_repeats_the_value() {
    let m: Matrix<f32> = Matrix::from_fill(2, 5, 2.5);
    assert_eq!((m.rows, m.cols), (2, 5));
    assert_eq!(m.data, vec![2.5f32; 10]);
    let e: Matrix<f32> = Matrix::from_fill(0, 7, 1.0);
    assert!(e.data.is_empty());
}

#[test]
fn from_vec_keeps_row_major_order() {
    let m: Matrix<f32> = Matrix::from_vec(2, 3, vec![1.0, 2.0, 3.0, 4.0, 5.0, 6.0]).unwrap();
    assert_eq!(m.get(0, 0), 1.0);
    assert_eq!(m.get(0, 2), 3.0);
    assert_eq!(m.get(1, 0), 4.0);
    assert_eq!(m.get(1, 2), 6.0);
    assert_eq!(m[(0, 1)], 2.0);
    assert_eq!(m[(1, 1)], 5.0);
}

#[test]
fn from_vec_rejects_wrong_length() {
    let short: Result<Matrix<f32>, MatrixError> = Matrix::from_vec(2, 3, vec![1.0; 5]);
    assert_eq!(short.unwrap_err(), MatrixError::DataLengthMismatch);
    let long: Result<Matrix<f32>, MatrixError> = Matrix::from_vec(2, 3, vec![1.0; 7]);
    assert_eq!(long.unwrap_err(), MatrixError::DataLengthMismatch);
    let huge: Result<Matrix<f32>, MatrixError> = Matrix::from_vec(usize::MAX, 2, vec![]);
    assert_eq!(huge.unwrap_err(), MatrixError::DataLengthMismatch);
    let empty: Result<Matrix<f32>, MatrixError> = Matrix::from_vec(0, 9, vec![]);
    assert!(empty.is_ok());
}

#[test]
fn set_changes_one_cell_only() {
    let mut m: Matrix<f32> = Matrix::from_fill(3, 3, 1.0);
    m.set(1, 2, 9.0);
    assert_eq!(m.get(1, 2), 9.0);
    assert_eq!(m.data, vec![1.0, 1.0, 1.0, 1.0, 1.0, 9.0, 1.0, 1.0, 1.0]);
    assert_eq!((m.rows, m.cols), (3, 3));
}

#[test]
fn shape_mismatch_is_reported_by_both_products() {
    let a: Matrix<f32> = Matrix::new(2, 3, 0.0);
    let b: Matrix<f32> = Matrix::new(2, 3, 0.0);
    assert_eq!(gemm_naive(&a, &b, 0.0).unwrap_err(), MatrixError::ShapeMismatch);
    assert_eq!(gemm_parallel(&a, &b, 0.0).unwrap_err(), MatrixError::ShapeMismatch);
}

#[test]
fn empty_dimensions() {
    let a: Matrix<f32> = Matrix::new(3, 0, 0.0);
    let b: Matrix<f32> = Matrix::new(0, 4, 0.0);
    let c = gemm_parallel(&a, &b, 0.0).unwrap();
    assert_eq!((c.rows, c.cols), (3, 4));
    assert_eq!(c.data, vec![0.0f32; 12]);
    assert_eq!(gemm_naive(&a, &b, 0.0).unwrap().data, vec![0.0f32; 12]);

    let a: Matrix<f32> = Matrix::new(0, 5, 0.0);
    let b: Matrix<f32> = Matrix::new(5, 4, 0.0);
    let c = gemm_parallel(&a, &b, 0.0).unwrap();
    assert_eq!((c.rows, c.cols), (0, 4));
    assert!(c.data.is_empty());

    let a: Matrix<f32> = Matrix::new(4, 5, 0.0);
    let b: Matrix<f32> = Matrix::new(5, 0, 0.0);
    let c = gemm_parallel(&a, &b, 0.0).unwrap();
    assert_eq!((c.rows, c.cols), (4, 0));
    assert!(c.data.is_empty());
}

#[test]
fn tile_size_policy() {
    assert_eq!((MIN_TILE, MAX_TILE), (16, 64));
    assert_eq!(tile_size(0), 0);
    assert_eq!(tile_size(1), 1);
    assert_eq!(tile_size(15), 15);
    assert_eq!(tile_size(16), 16);
    assert_eq!(tile_size(40), 40);
    assert_eq!(tile_size(64), 64);
    assert_eq!(tile_size(65), 64);
    assert_eq!(tile_size(1024), 64);
}

#[test]
fn small_input_is_one_chunk_and_correct() {
    let a: Matrix<i64> = Matrix::from_vec(3, 2, vec![1, 2, 3, 4, 5, 6]).unwrap();
    let b: Matrix<i64> = Matrix::from_vec(2, 4, vec![1, 0, 2, -1, 3, 1, 0, 2]).unwrap();
    let expected: Vec<i64> = vec![7, 2, 2, 3, 15, 4, 6, 5, 23, 6, 10, 7];
    assert_eq!(gemm_parallel(&a, &b, 0).unwrap().data, expected);
    assert_eq!(gemm_naive(&a, &b, 0).unwrap().data, expected);

    let mut chunk: Vec<i64> = vec![0; 12];
    fill_row_chunk(&a, &b, &mut chunk, 0, tile_size(3), tile_size(4), tile_size(2));
    assert_eq!(chunk, expected);
}

#[test]
fn kernel_touches_only_its_tile() {
    let a: Matrix<i64> = Matrix::from_vec(3, 3, vec![1, 2, 3, 4, 5, 6, 7, 8, 9]).unwrap();
    let b: Matrix<i64> = Matrix::from_vec(3, 3, vec![1, 2, 3, 4, 5, 6, 7, 8, 9]).unwrap();
    // rows [1, 3) of the output, each cell starting at 100
    let mut chunk: Vec<i64> = vec![100; 6];
    // columns [1, 3), depths [0, 2)
    multiply_add_block_slice(&a, &b, &mut chunk, 1, 3, 1, 3, 0, 2, 3);
    let expected: Vec<i64> = vec![
        100,
        100 + 4 * 2 + 5 * 5,
        100 + 4 * 3 + 5 * 6,
        100,
        100 + 7 * 2 + 8 * 5,
        100 + 7 * 3 + 8 * 6,
    ];
    assert_eq!(chunk, expected);
    // the remaining depth completes the sums
    multiply_add_block_slice(&a, &b, &mut chunk, 1, 3, 1, 3, 2, 3, 3);
    assert_eq!(chunk, vec![100, 100 + 81, 100 + 96, 100, 100 + 126, 100 + 150]);
}

#[test]
fn second_row_chunk_reads_its_own_rows() {
    let m = 70;
    let k = 3;
    let n = 2;
    let mut a_data: Vec<i64> = Vec::new();
    for i in 0..m {
        for t in 0..k {
            a_data.push((i * 10 + t) as i64);
        }
    }
    let a: Matrix<i64> = Matrix::from_vec(m, k, a_data).unwrap();
    let b: Matrix<i64> = Matrix::from_vec(k, n, vec![1, 2, 3, 4, 5, 6]).unwrap();
    let reference = gemm_naive(&a, &b, 0).unwrap();
    // chunk 1 of 64-row chunks holds rows [64, 70)
    let mut chunk: Vec<i64> = vec![0; 6 * n];
    fill_row_chunk(&a, &b, &mut chunk, 1, tile_size(m), tile_size(n), tile_size(k));
    assert_eq!(chunk, reference.data[64 * n..].to_vec());
    assert_eq!(gemm_parallel(&a, &b, 0).unwrap().data, reference.data);
}
