use rust_dct::matrix_ops::{partition_into_blocks, MatrixDimensions, MatrixError};
use rust_dct::pipeline::{assemble_blocks, validate_image_dimensions, CompressionOptions, ImageProcessor};
use rust_dct::quantization::QuantizationTable;

#[test]
fn ten_by_ten_image_with_block_eight_fails() {
    let image = vec![vec![200.0; 10]; 10];
    let r = validate_image_dimensions(&image, 10, 10, 8);
    assert!(matches!(r, Err(MatrixError::IncompatibleDimensions(_))));
}

#[test]
fn validation_accepts_multiples_of_block() {
    let image = vec![vec![200.0; 16]; 16];
    assert_eq!(validate_image_dimensions(&image, 16, 16, 8).unwrap(), MatrixDimensions { rows: 16, cols: 16 });
}

#[test]
fn validation_reports_declared_size_mismatch() {
    let image = vec![vec![0.0; 16]; 8];
    assert!(matches!(validate_image_dimensions(&image, 16, 16, 8), Err(MatrixError::DimensionMismatch)));
    assert!(matches!(validate_image_dimensions(&image, 8, 8, 8), Err(MatrixError::DimensionMismatch)));
    let empty: Vec<Vec<f64>> = vec![];
    assert!(matches!(validate_image_dimensions(&empty, 0, 0, 8), Err(MatrixError::EmptyMatrix)));
    let mut ragged = vec![vec![0.0; 8]; 8];
    ragged[3].pop();
    assert!(matches!(validate_image_dimensions(&ragged, 8, 8, 8), Err(MatrixError::IncompatibleDimensions(_))));
    assert!(matches!(validate_image_dimensions(&image, 16, 8, 0), Err(MatrixError::IncompatibleDimensions(_))));
}

#[test]
fn assemble_rebuilds_partitioned_image() {
    let image: Vec<Vec<u32>> = (0..16).map(|i| (0..16).map(|j| i * 16 + j).collect()).collect();
    let blocks = partition_into_blocks(&image, 8).unwrap();
    let rebuilt = assemble_blocks(&blocks, 16, 16, 8, 0).unwrap();
    assert_eq!(rebuilt, image);
}

#[test]
fn assemble_fills_uncovered_entries() {
    let blocks = vec![vec![vec![5, 5], vec![5, 5]]];
    let rebuilt = assemble_blocks(&blocks, 2, 4, 2, 0).unwrap();
    assert_eq!(rebuilt, vec![vec![5, 5, 0, 0], vec![5, 5, 0, 0]]);
}

#[test]
fn assemble_rejects_surplus_blocks_and_empty_image() {
    let blocks = vec![vec![vec![1, 1], vec![1, 1]]; 3];
    assert!(matches!(assemble_blocks(&blocks, 2, 4, 2, 0), Err(MatrixError::IncompatibleDimensions(_))));
    assert!(matches!(assemble_blocks(&blocks, 0, 4, 2, 0), Err(MatrixError::EmptyMatrix)));
}

#[test]
fn processor_checks_declared_size() {
    let options = CompressionOptions::new(16, 8);
    assert_eq!(options.width, 16);
    assert_eq!(options.height, 8);
    let processor = ImageProcessor::new(options);
    assert!(processor.validate_dimensions(&vec![vec![0.0; 16]; 8]).is_ok());
    assert!(matches!(
        processor.validate_dimensions(&vec![vec![0.0; 8]; 16]),
        Err(MatrixError::DimensionMismatch)
    ));
    let empty: Vec<Vec<f64>> = vec![];
    assert!(processor.validate_dimensions(&empty).is_err());
}

#[test]
fn standard_table_entries() {
    let t = QuantizationTable::standard();
    assert_eq!(t.size(), 8);
    assert_eq!(t.divisor(0, 0), 16);
    assert_eq!(t.divisor(0, 7), 61);
    assert_eq!(t.divisor(4, 5), 109);
    assert_eq!(t.divisor(7, 7), 99);
}

#[test]
fn table_from_rows_validates() {
    let t = QuantizationTable::from_rows(vec![vec![1, 2], vec![3, 4]]).unwrap();
    assert_eq!(t.size(), 2);
    assert_eq!(t.divisor(1, 0), 3);
    assert!(matches!(QuantizationTable::from_rows(vec![]), Err(MatrixError::EmptyMatrix)));
    assert!(matches!(
        QuantizationTable::from_rows(vec![vec![1, 2], vec![3, 0]]),
        Err(MatrixError::IncompatibleDimensions(_))
    ));
    assert!(matches!(
        QuantizationTable::from_rows(vec![vec![1, 2]]),
        Err(MatrixError::IncompatibleDimensions(_))
    ));
}

#[test]
fn table_checks_block_shape() {
    let t = QuantizationTable::standard();
    assert!(t.check_block(&vec![vec![0.0; 8]; 8]).is_ok());
    assert!(matches!(t.check_block(&vec![vec![0.0; 8]; 7]), Err(MatrixError::IncompatibleDimensions(_))));
    assert!(matches!(t.check_block(&vec![vec![0.0; 7]; 8]), Err(MatrixError::IncompatibleDimensions(_))));
}

#[test]
fn uniform_image_blocks_and_reassembly() {
    let image = vec![vec![200.0; 16]; 16];
    let dims = validate_image_dimensions(&image, 16, 16, 8).unwrap();
    assert_eq!(dims, MatrixDimensions { rows: 16, cols: 16 });
    let blocks = partition_into_blocks(&image, 8).unwrap();
    assert_eq!(blocks.len(), 4);
    for b in &blocks {
        assert_eq!(b, &vec![vec![200.0; 8]; 8]);
    }
    let rebuilt = assemble_blocks(&blocks, 16, 16, 8, 0.0).unwrap();
    assert_eq!(rebuilt, image);
}
