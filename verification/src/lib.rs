//! Largest-Triangle-Three-Buckets downsampling of a series of integer points.
//!
//! A series of `n` points is cut down to `threshold` points. The first and the
//! last point are always kept. The points between them are divided into
//! `threshold - 2` buckets, and from each bucket the point is kept that spans
//! the largest triangle with the point kept before it and the mean of the
//! bucket that follows.
//!
//! Where the buckets begin is handed in by the caller, as a list of indices:
//! the usual boundaries are multiples of a fractional bucket size, which this
//! crate, working in whole numbers only, does not compute. It tests the list
//! and then works with it as it is.
//!
//! Coordinates are whole numbers, so every area is compared exactly: within a
//! bucket the selection never depends on rounding.
//!
//! [`lttb`] does all of this for a series of [`DataPoint`]s. A [`Sampler`] does
//! the walk through the buckets alone, for series whose areas are measured
//! elsewhere.

pub mod area;
pub mod bucket;
pub mod downsample;
pub mod point;
pub mod sampler;
pub mod wide;

pub use downsample::{lttb, SampleError};
pub use point::DataPoint;
pub use sampler::Sampler;
