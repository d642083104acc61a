//! A sparse voxel octree editor core: the octree that stores the world, the
//! integer geometry that feeds it, and the small state machines around it.
//!
//! World coordinates are integers counted in grid units: one unit is the edge
//! of the finest voxel the editor can place.
pub mod octree;
pub mod types;
pub mod engine;
pub mod ui;
pub mod voxelize;
pub mod fill;
