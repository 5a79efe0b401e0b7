//! Simulation core of a voxel world: sparse chunk storage, chunk streaming,
//! greedy surface meshing with a mesh cache, and voxel ray casting.

pub mod block;
pub mod chunk;
pub mod command;
pub mod input;
pub mod mesh_cache;
pub mod mesher;
pub mod raycast;
pub mod render;
pub mod streaming;
pub mod world;
