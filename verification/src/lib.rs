//! An N-dimensional numeric array engine with copy-on-write storage,
//! strided views, and a small linear-algebra layer on top of it.
//!
//! Shapes are held in one dynamically sized representation (a vector of
//! axis lengths), uniform over every rank; a separate fixed-arity
//! representation for small ranks is not offered.

use vstd::prelude::*;

pub mod dim;
pub mod array;
pub mod storage;
pub mod iter;
pub mod laws;
pub mod linalg;
pub mod ops;
pub mod reshape;
pub mod slice;
pub mod view;

pub use crate::array::Array;
pub use crate::array::ArrayError;
pub use crate::iter::ArrayIter;
pub use crate::slice::Si;
pub use crate::storage::Storage;

verus! {

} // verus!
