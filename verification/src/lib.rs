//! Verified layout algebra for strided tensors: shapes, strides, views,
//! broadcasting, logical-order traversal, the plans the numeric kernels
//! run, and the generic kernels themselves (matrix products, reductions,
//! scatter-adds) with the element arithmetic left to the caller.
pub mod autograd;
pub mod backend;
pub mod einsum;
pub mod elementwise;
pub mod error;
pub mod gather;
pub mod harness;
pub mod index;
pub mod layout;
pub mod linalg;
pub mod matmul;
pub mod perm;
pub mod reduce;
pub mod rng;
pub mod rows;
pub mod select;
pub mod shape;
pub mod storage;
pub mod tensor;
pub mod views;
pub mod walker;

use vstd::prelude::*;

verus! {

/// The smallest of three lengths.
pub fn min3(a: usize, b: usize, c: usize) -> (r: usize)
    ensures
        r <= a && r <= b && r <= c,
        r == a || r == b || r == c,
{
    let ab = if a < b { a } else { b };
    if ab < c { ab } else { c }
}

} // verus!
