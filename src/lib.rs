pub mod error;
pub mod pack;
pub mod raster;
pub mod raw;
pub mod size;
pub mod warp;
