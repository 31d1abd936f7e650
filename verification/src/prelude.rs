//! The types and traits that users of the crate need most.

pub use crate::borrow::{BinarySlice, Bound, Const, Mut, MutableBinSlice};
pub use crate::vec::BinaryVec;
