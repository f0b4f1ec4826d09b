//! A command-line plotting library: axis tick selection and text-grid chart
//! rendering over decimal fixed-point values.
//!
//! Every value handled by the library is a decimal number represented as an
//! integer mantissa `m` at a decimal scale `s`, standing for `m / 10^s`.
//! The caller chooses the scale when it converts its raw samples; every
//! algorithm here is exact integer arithmetic over the mantissas.

use vstd::prelude::*;

pub mod axis;
pub mod decimal;
pub mod histogram;
pub mod render;
pub mod utils;

verus! {

/// Settings for building a histogram chart from raw samples.
pub struct HistogramConfig {
    pub nbins: u32,
}

} // verus!
