//! Verified core of an SCRFD face-detector post-processing library.
//!
//! The numeric work of the detector (network inference, floating-point box
//! decoding, overlap ratios) lives outside this crate; what is verified here is
//! the integer and combinatorial logic around it: the anchor grid, the anchor
//! cache, the score ordering, greedy non-maximum suppression, the top-k limit,
//! and the row-wise concatenation and selection of arrays.
use vstd::prelude::*;

pub mod anchors;
pub mod grid;
pub mod ranking;
pub mod nms;
pub mod detection;

verus! {

/// Namespace for the SCRFD helper routines.
pub struct ScrfdHelpers;

} // verus!
