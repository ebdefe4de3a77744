//! Forward and inverse interpolation of piecewise-linear functions over
//! integer and extended-precision value domains, with exact rounding.

pub mod divop;
pub mod extended;
pub mod piecewise;
pub mod schemes;
pub mod simplify;
