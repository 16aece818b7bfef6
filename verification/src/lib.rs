//! Verified core of a small 2D finite element toolkit: the gmsh `.msh`
//! reader, mesh topology (boundary detection, structured meshes) and the
//! degree-of-freedom layout of plane-stress elasticity.
pub mod elasticity_2d;
pub mod gmsh;
pub mod grid;
pub mod keys;
pub mod mesh;
pub mod mesh_2d;
pub mod msh_blocks;
pub mod msh_layout;
pub mod text;
pub mod triangle_order;

use vstd::prelude::*;

verus! {

} // verus!
