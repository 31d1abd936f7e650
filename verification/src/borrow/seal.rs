use vstd::prelude::*;

verus! {

/// Implemented only for the slice kinds of this crate that can be written through.
pub trait MutSeal {}

/// Implemented only for the borrow markers of this crate.
pub trait BorrowSeal {}

/// Implemented only for the word types of this crate.
pub trait BitSeal {}

} // verus!
