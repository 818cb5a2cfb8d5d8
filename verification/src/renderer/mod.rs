pub mod surface;
pub mod tangents;
