//! Core data structures and rules of a voxel world: sectioned value buffers,
//! index range tracking, multi-value maps, chunk coordinates and chunk relevancy.
pub mod common;
pub mod entity;
