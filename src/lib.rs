//! Polynomial multiplication by an iterative radix-2 Cooley-Tukey transform.
//!
//! The library is generic over the sample type: the index structure of the
//! transform (bit-reversal permutation, butterfly passes, padding and
//! truncation) is verified here, while the arithmetic on samples is handed in
//! by the caller as closures.
use vstd::prelude::*;

pub mod bits;
pub mod size;
pub mod transform;
pub mod poly;

verus! {

} // verus!
