//! The processing steps.
use vstd::prelude::*;

pub mod bitdepth;
pub mod fidelity;
pub mod limiter;
pub mod loudness;
pub mod resample;

verus! {

/// A named processing step.
pub trait Operation {
    /// The name of the step.
    fn name(&self) -> &'static str;
}

} // verus!
