use rust_dct::matrix_ops::{
    merge_blocks, multiply_dimensions, partition_into_blocks, transpose, MatrixDimensions, MatrixError, MatrixView,
};

fn numbered(rows: usize, cols: usize) -> Vec<Vec<f64>> {
    (0..rows).map(|i| (0..cols).map(|j| (i * cols + j) as f64).collect()).collect()
}

#[test]
fn test_matrix_transpose() {
    let matrix = vec![vec![1.0, 2.0], vec![3.0, 4.0]];
    let transposed = transpose(&matrix).unwrap();
    assert_eq!(transposed, vec![vec![1.0, 3.0], vec![2.0, 4.0]]);
}

#[test]
fn transpose_of_rectangle_swaps_shape() {
    let matrix = vec![vec![1, 2, 3], vec![4, 5, 6]];
    let transposed = transpose(&matrix).unwrap();
    assert_eq!(transposed, vec![vec![1, 4], vec![2, 5], vec![3, 6]]);
}

#[test]
fn transpose_rejects_empty_and_ragged() {
    let empty: Vec<Vec<f64>> = vec![];
    assert!(matches!(transpose(&empty), Err(MatrixError::EmptyMatrix)));
    let no_columns: Vec<Vec<f64>> = vec![vec![]];
    assert!(matches!(transpose(&no_columns), Err(MatrixError::EmptyMatrix)));
    let ragged = vec![vec![1.0, 2.0], vec![3.0]];
    assert!(matches!(transpose(&ragged), Err(MatrixError::IncompatibleDimensions(_))));
}

#[test]
fn dimensions_of_matrix() {
    let d = MatrixDimensions::new(&numbered(3, 5)).unwrap();
    assert_eq!(d, MatrixDimensions { rows: 3, cols: 5 });
    let empty: Vec<Vec<u8>> = vec![];
    assert!(matches!(MatrixDimensions::new(&empty), Err(MatrixError::EmptyMatrix)));
}

#[test]
fn matrix_view_reads_shape() {
    let m = numbered(2, 4);
    let v = MatrixView::new(&m).unwrap();
    assert_eq!(v.dimensions(), MatrixDimensions { rows: 2, cols: 4 });
    assert_eq!(v.data(), &m);
    let empty: Vec<Vec<f64>> = vec![vec![]];
    assert!(matches!(MatrixView::new(&empty), Err(MatrixError::EmptyMatrix)));
}

#[test]
fn multiply_dimensions_of_compatible_operands() {
    let a = numbered(2, 3);
    let b = numbered(3, 4);
    assert_eq!(multiply_dimensions(&a, &b).unwrap(), MatrixDimensions { rows: 2, cols: 4 });
}

#[test]
fn multiply_dimensions_rejects_mismatch_and_empty() {
    let a = numbered(2, 3);
    assert!(matches!(multiply_dimensions(&a, &a), Err(MatrixError::IncompatibleDimensions(_))));
    let empty: Vec<Vec<f64>> = vec![];
    assert!(matches!(multiply_dimensions(&a, &empty), Err(MatrixError::EmptyMatrix)));
    assert!(matches!(multiply_dimensions(&empty, &a), Err(MatrixError::EmptyMatrix)));
}

#[test]
fn partition_in_raster_order() {
    let m = numbered(4, 4);
    let blocks = partition_into_blocks(&m, 2).unwrap();
    assert_eq!(blocks.len(), 4);
    assert_eq!(blocks[0], vec![vec![0.0, 1.0], vec![4.0, 5.0]]);
    assert_eq!(blocks[1], vec![vec![2.0, 3.0], vec![6.0, 7.0]]);
    assert_eq!(blocks[2], vec![vec![8.0, 9.0], vec![12.0, 13.0]]);
    assert_eq!(blocks[3], vec![vec![10.0, 11.0], vec![14.0, 15.0]]);
}

#[test]
fn partition_drops_partial_edge_blocks() {
    let m = numbered(10, 10);
    let blocks = partition_into_blocks(&m, 8).unwrap();
    assert_eq!(blocks.len(), 1);
    assert_eq!(blocks[0].len(), 8);
    assert_eq!(blocks[0][7][7], 77.0);
    let narrow = numbered(8, 5);
    assert_eq!(partition_into_blocks(&narrow, 8).unwrap().len(), 0);
}

#[test]
fn partition_rejects_bad_input() {
    let empty: Vec<Vec<f64>> = vec![];
    assert!(matches!(partition_into_blocks(&empty, 8), Err(MatrixError::EmptyMatrix)));
    let ragged = vec![vec![1.0, 2.0], vec![3.0]];
    assert!(matches!(partition_into_blocks(&ragged, 1), Err(MatrixError::IncompatibleDimensions(_))));
    assert!(matches!(partition_into_blocks(&numbered(4, 4), 0), Err(MatrixError::IncompatibleDimensions(_))));
}

#[test]
fn merge_writes_block_at_its_position() {
    let mut target = vec![vec![0.0; 4]; 4];
    let block = vec![vec![1.0, 2.0], vec![3.0, 4.0]];
    merge_blocks(&mut target, &block, 3, 2).unwrap();
    assert_eq!(
        target,
        vec![
            vec![0.0, 0.0, 0.0, 0.0],
            vec![0.0, 0.0, 0.0, 0.0],
            vec![0.0, 0.0, 1.0, 2.0],
            vec![0.0, 0.0, 3.0, 4.0],
        ]
    );
    merge_blocks(&mut target, &block, 1, 2).unwrap();
    assert_eq!(target[0], vec![0.0, 0.0, 1.0, 2.0]);
}

#[test]
fn merge_rejects_misfits_and_leaves_target() {
    let original = vec![vec![0.0; 4]; 4];
    let mut target = original.clone();
    let block = vec![vec![1.0, 2.0], vec![3.0, 4.0]];
    assert!(matches!(merge_blocks(&mut target, &block, 4, 2), Err(MatrixError::IncompatibleDimensions(_))));
    assert!(matches!(merge_blocks(&mut target, &block, 0, 0), Err(MatrixError::IncompatibleDimensions(_))));
    assert!(matches!(merge_blocks(&mut target, &block, 0, 8), Err(MatrixError::IncompatibleDimensions(_))));
    let not_square = vec![vec![1.0, 2.0]];
    assert!(matches!(merge_blocks(&mut target, &not_square, 0, 2), Err(MatrixError::IncompatibleDimensions(_))));
    assert_eq!(target, original);
    let mut empty: Vec<Vec<f64>> = vec![];
    assert!(matches!(merge_blocks(&mut empty, &block, 0, 2), Err(MatrixError::EmptyMatrix)));
}

#[test]
fn partition_then_merge_reproduces_image() {
    let m = numbered(16, 24);
    let blocks = partition_into_blocks(&m, 8).unwrap();
    assert_eq!(blocks.len(), 6);
    let mut target = vec![vec![-1.0; 24]; 16];
    for (k, b) in blocks.iter().enumerate() {
        merge_blocks(&mut target, b, k, 8).unwrap();
    }
    assert_eq!(target, m);
}
