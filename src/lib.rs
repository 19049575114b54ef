//! Block-based transform coding of grayscale images: the shape-level part.
//!
//! Matrices are `Vec<Vec<T>>` for any copyable entry type. The library cuts an
//! image into square blocks in raster order, writes blocks back at their
//! traversal positions, transposes, checks the shapes that products and
//! quantization need, holds the quantization table, and checks an image at
//! the boundary of the compression pipeline.

pub mod matrix_ops;
pub mod pipeline;
pub mod quantization;
