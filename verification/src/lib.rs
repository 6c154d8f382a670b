//! Raster kernels for preparing alpha mattes: morphology, centroids, edge
//! smoothing, distance fields and mip pyramids, all in exact integer
//! arithmetic over explicitly sized byte buffers.

pub mod centroid;
pub mod error;
pub mod mipmap;
pub mod morphology;
pub mod normalize;
pub mod raster;
pub mod ratio;
pub mod sdf;
