//! Procedural growth of branching plants in a voxel environment.
pub mod arena;
pub mod archetype;
pub mod camera;
pub mod grid;
pub mod node;
pub mod plant;
pub mod random;
pub mod simulate;
pub mod traversal;
