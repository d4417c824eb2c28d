//! Enumeration of free polycubes: face-connected sets of unit cubes,
//! counted up to the 24 proper rotations of the cube.

pub mod canonical;
pub mod cells;
pub mod engine;
pub mod extend;
pub mod grid;
pub mod order;
pub mod rotation;
pub mod render;
pub mod shape;
pub mod store;
