//! Core of an interactive water scene: a square height field advanced by an
//! explicit finite-difference wave step, per-cell surface normals derived from
//! the heights, and a fixed-point RGBA encoding of those normals ready for
//! texture upload.  All heights and normal components are fixed-point
//! integers; one unit is `SCALE`.
pub mod mesh;
pub mod normal;
pub mod num;
pub mod texture;
pub mod water;
