//! A navigation mesh shared between handles, each with the transform that
//! maps world coordinates into the mesh's plane.

use std::sync::Arc;

use bevy::transform::components::Transform;
use vstd::prelude::*;

use crate::buffers::{
    fan_indices, fan_triangle_indices, line_indices, polygon_views, wireframe_edges,
    wireframe_indices,
};

verus! {

#[verifier::external_type_specification]
#[verifier::external_body]
pub struct ExPolyanyaMesh(polyanya::Mesh);

#[verifier::external_type_specification]
#[verifier::external_body]
pub struct ExTransform(Transform);

/// The vertex-index lists of a mesh's polygons, in the mesh's order.
pub uninterp spec fn polygons_of(m: polyanya::Mesh) -> Seq<Seq<u32>>;

/// Relies on polyanya's `Mesh::polygons` and `Polygon::vertices` fields: the
/// vertex indices of each polygon, read in order.
#[verifier::external_body]
fn polygon_vertex_lists(mesh: &polyanya::Mesh) -> (r: Vec<Vec<u32>>)
    ensures
        polygon_views(r@) == polygons_of(*mesh),
{
    mesh.polygons.iter().map(|p| p.vertices.clone()).collect()
}

/// Relies on bevy's `Transform::IDENTITY`.
#[verifier::external_body]
fn identity_transform() -> (r: Transform) {
    Transform::IDENTITY
}

/// Relies on `Arc::clone`: a new handle to the same value.
#[verifier::external_body]
fn share(mesh: &Arc<polyanya::Mesh>) -> (r: Arc<polyanya::Mesh>)
    ensures
        *r == **mesh,
{
    Arc::clone(mesh)
}

/// A navigation mesh: a shared polyanya mesh and the transform from world
/// coordinates into its plane. After the transform, `z` is dropped.
pub struct NavMesh {
    mesh: Arc<polyanya::Mesh>,
    transform: Transform,
}

impl Clone for NavMesh {
    /// Another handle to the same shared mesh, with a copy of the transform.
    fn clone(&self) -> (r: NavMesh)
        ensures
            r.inner() == self.inner(),
            r.placement() == self.placement(),
    {
        NavMesh { mesh: share(&self.mesh), transform: self.transform }
    }
}

impl NavMesh {
    /// The mesh behind the shared handle.
    pub closed spec fn inner(&self) -> polyanya::Mesh {
        *self.mesh
    }

    /// The transform from world coordinates into the mesh's plane.
    pub closed spec fn placement(&self) -> Transform {
        self.transform
    }

    /// Wraps a polyanya mesh, with the identity transform.
    pub fn from_polyanya_mesh(mesh: polyanya::Mesh) -> (r: NavMesh)
        ensures
            r.inner() == mesh,
    {
        NavMesh { mesh: Arc::new(mesh), transform: identity_transform() }
    }

    /// A new handle to the shared mesh.
    pub fn get(&self) -> (r: Arc<polyanya::Mesh>)
        ensures
            *r == self.inner(),
    {
        share(&self.mesh)
    }

    /// The shared handle itself, for an update in place where no other
    /// handle is alive.
    pub fn shared_mesh_mut(&mut self) -> (r: &mut Arc<polyanya::Mesh>)
        ensures
            **r == old(self).inner(),
            final(self).inner() == **final(r),
            final(self).placement() == old(self).placement(),
    {
        &mut self.mesh
    }

    /// The transform from world coordinates into the mesh's plane.
    pub fn transform(&self) -> (r: Transform)
        ensures
            r == self.placement(),
    {
        self.transform
    }

    /// Replaces the transform; the mesh is kept.
    pub fn set_transform(&mut self, transform: Transform)
        ensures
            final(self).placement() == transform,
            final(self).inner() == old(self).inner(),
    {
        self.transform = transform;
    }

    /// The triangle-list indices of the mesh's surface: each polygon fanned
    /// from its first vertex.
    pub fn to_mesh_indices(&self) -> (r: Vec<u32>)
        ensures
            r@ == fan_indices(polygons_of(self.inner())),
    {
        let polygons = polygon_vertex_lists(&self.mesh);
        fan_triangle_indices(&polygons)
    }

    /// The line-list indices of the mesh's wireframe: each undirected
    /// polygon edge once.
    pub fn to_wireframe_indices(&self) -> (r: Vec<u32>)
        ensures
            r@ == line_indices(wireframe_edges(polygons_of(self.inner()))),
    {
        let polygons = polygon_vertex_lists(&self.mesh);
        wireframe_indices(&polygons)
    }
}

} // verus!
