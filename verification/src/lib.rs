//! The verified core of a tiled Monte-Carlo path tracer.
//!
//! The crate holds what a path tracer decides and keeps track of: the
//! settings of a render and their validation, the cutting of the image into
//! tiles and the turn of a worker with a tile, the assembly of the final
//! image, the cell tables of a uniform grid over a triangle mesh and the walk
//! of a ray through them, the choice of the closest hit, the walk along a path
//! of reflections, the bounds of meshes, the layout of a tile on the wire and
//! the reading of ASCII PLY texts.
//!
//! Real arithmetic is the caller's.  Radiance is stored and moved as raw
//! 32-bit words, distances and coordinates are compared through integer
//! ranks, and whatever has to be computed with real numbers is asked of the
//! caller through closures.

pub mod acc_grid;
pub mod brdf;
pub mod error;
pub mod frame;
pub mod mesh;
pub mod path;
pub mod ply;
pub mod scene;
pub mod select;
pub mod settings;
pub mod text;
pub mod tile;
pub mod trace;
pub mod traverse;
pub mod wire;
