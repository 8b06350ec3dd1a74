//! Errors reported by the conversions.
use vstd::prelude::*;

verus! {

/// Why a conversion failed.
#[derive(Debug)]
pub enum VectomancyError {
    ImageProcessing(String),
    InvalidInput(String),
    MemoryAllocationFailed(String),
    MathError(String),
}

} // verus!
