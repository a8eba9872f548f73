//! Verified core of a small 3D geometry toolkit: image buffers, mesh file
//! grammars (STL, OBJ) and the integer decisions of the spatial indexes.
use vstd::prelude::*;

pub mod bytes;
pub mod image;
pub mod text;
pub mod stl;
pub mod mesh;
pub mod primitive;
pub mod spatial_index;

pub use primitive::Axis;
