//! Field-of-view computation for a 2D observer among polygonal obstacles,
//! on an integer grid: edge extraction from triangle meshes, ray casting
//! against obstacle edges, and a triangle fan of what the observer sees.
pub mod geometry;
pub mod segment;
pub mod mesh;
pub mod raycast;
pub mod view;
