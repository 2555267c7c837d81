//! Fixed-width histogram binning.
//!
//! Values are grouped into half-open intervals of uniform width. Each value
//! is represented by two integers derived from it by the caller: a grouping
//! `key` (which interval the value falls in, anchored at zero) and a center
//! `rank` (which interval of the origin-shifted grid the value falls in; the
//! reported bin center is an affine function of this rank). The engine
//! groups equal keys together, counts them, remembers the rank of the first
//! value that opened each bin, and returns the bins sorted by rank.

pub mod bins;
pub mod laws;
pub mod model;
pub mod props;
