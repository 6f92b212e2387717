//! Rendering of an audio amplitude envelope into a two-color raster image.
//!
//! The pipeline turns a sequence of fixed-point audio samples into pixel
//! heights, buckets those heights into oversampled columns, paints each
//! column as a vertical bar, and finally downscales the oversampled raster
//! to the requested width with a Lanczos filter.

pub mod math;
pub mod chars;
pub mod color;
pub mod paths;
pub mod decode;
pub mod reduce;
pub mod columns;
pub mod raster;
pub mod resample;
