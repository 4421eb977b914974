//! Verified core of a small flight-simulator scene: satellite imagery and
//! Terrarium elevation tiles, the terrain quad-tree, reload debouncing and a
//! few raster and mesh helpers.

pub mod binary32;
pub mod elevation;
pub mod imagery;
pub mod mesh;
pub mod noise;
pub mod quadtree;
pub mod raster;
pub mod reload;
pub mod text;
pub mod tile_store;
