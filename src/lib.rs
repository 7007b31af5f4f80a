//! Procedural generation of rock-like silhouettes: a randomized region growth
//! split into shaded bands, and the compositing of those bands into rasters.

pub mod raster;
pub mod bias;
pub mod random;
pub mod asteroid;
pub mod growth;
