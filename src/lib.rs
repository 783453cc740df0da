//! Navigation meshes for surfaces placed anywhere in 3D space: the index
//! buffers that render a mesh, and the handle that pairs a shared mesh with
//! the transform into its own plane.

pub mod buffers;

pub mod navmesh;

pub use navmesh::NavMesh;
pub use polyanya::Mesh as PolyanyaNavMesh;
pub use polyanya::Path;
pub use polyanya::Triangulation as PolyanyaTriangulation;
