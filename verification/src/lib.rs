//! Scene graph and mesh surfaces of a small 3D engine, with their contracts proved by Verus.

pub mod math;
pub mod physics;
pub mod renderer;
pub mod resource;
pub mod scene;
pub mod utils;
