//! An infinite, chunked voxel terrain engine: dense halo-padded chunk
//! storage, height-field terrain generation, a face-culling mesh builder
//! with exact vertex and index bookkeeping, and a streaming manager that
//! converges the set of live chunks to the window around the viewpoint.
//! The host supplies noise samples as integer column heights and displays
//! the integer meshes produced here.

pub mod mesh;
pub mod voxel;
pub mod world;
