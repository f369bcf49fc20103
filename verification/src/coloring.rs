//! Selection of the post-processing colouring mode.
//!
//! The colouring passes themselves consume the finished result buffer and
//! scale its numeric components; they live with the caller. This module
//! holds the closed choice of which component a standard colouring reads.

use vstd::prelude::*;

verus! {

/// Which part of the final iterate a standard colouring scales.
#[derive(Copy, Clone, Debug, PartialEq, Eq, Structural)]
pub enum StandardColors {
    SUM,
    REAL,
    IMAGINARY,
}

} // verus!
