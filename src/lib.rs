//! Vector and matrix products computed by sorting, differencing and adding,
//! with one genuine multiplication per reduction.

pub mod align;
pub mod diffs;
pub mod grouping;
pub mod matrix;
pub mod product;
pub mod reduce;
pub mod zero_inserter;
