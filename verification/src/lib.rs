//! Bit vectors and bit slices packed into machine words.

pub mod borrow;
pub mod laws;
pub mod prelude;
pub mod raw_vec;
pub mod vec;
