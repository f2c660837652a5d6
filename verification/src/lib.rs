//! Grey-level and colour image processing on `image` buffers: pixel access,
//! histograms, point operations, geometric transforms and neighbourhood filters.

pub mod buffers;
pub mod pixels;
pub mod geometry;
pub mod histogram;
pub mod point_ops;
pub mod filters;
