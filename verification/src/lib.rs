//! The verified core of a streaming globe renderer: tile addressing, tile
//! residency, worker scheduling, mesh topology and the codecs between them.

pub mod bytes;
pub mod census;
pub mod frame;
pub mod glb;
pub mod gpu;
pub mod imaging;
pub mod input;
pub mod intake;
pub mod model;
pub mod quadtree;
pub mod report;
pub mod residency;
pub mod scene;
pub mod stream;
pub mod terrain_gpu;
pub mod terrain_mesh;
pub mod text;
pub mod tiles;
pub mod tiling;
pub mod tool;
pub mod vector;
pub mod worker;
