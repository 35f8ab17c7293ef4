//! Ordered-dithering threshold matrices (Bayer matrices) of any size.
//!
//! The value of each cell is computed from its row and column by
//! interleaving the bits of `row ^ column` with those of `row`, most
//! significant output bit first.

pub mod bits;
pub mod element;
pub mod generate;
pub mod laws;

pub use bits::compute_value_at_index;
pub use element::MatrixElement;
pub use generate::matrix;
