//! Chunked voxel worlds: packed chunk-local coordinates, chunk identifiers,
//! run-length voxel storage with buffered edits, and binary greedy meshing.

pub mod allocator;
pub mod bitmap;
pub mod bits;
pub mod block;
pub mod chunk;
pub mod delta;
pub mod error;
pub mod greedy;
pub mod health;
pub mod location;
pub mod merge;
pub mod mesh;
pub mod projector;
pub mod store;
