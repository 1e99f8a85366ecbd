//! Tessellation of 2D vector paths into indexed triangle meshes, and a scene
//! graph that merges those meshes into shared buffers.

use crate::geometry::Point;
use crate::scene::RDTransform;
use vstd::prelude::*;

pub mod color;
pub mod geometry;
pub mod numeric;
pub mod path_builder;
pub mod scene;
pub mod treemap;
pub mod triangulate;

verus! {

/// One corner of a mesh, as the renderer reads it.
///
/// `id` says which record of the instance buffer places the vertex. It is
/// assigned when a scene is flattened, never by a tessellator.
#[derive(Clone, Copy, Debug, PartialEq, Eq, Structural)]
pub struct RDVertex {
    pub color: u32,
    pub position: Point,
    pub texture_position: Point,
    pub id: u32,
}

/// One record of the instance buffer: the texture of a mesh and the
/// transforms that place it, from the scene's root down to the node that owns
/// the mesh. The renderer composes them left to right.
#[derive(Debug)]
pub struct RDStorage {
    pub transforms: Vec<RDTransform>,
    pub texture: u32,
}

} // verus!
