//! Topology, file-format and graph logic of a procedural modeling node set,
//! verified with Verus.
//!
//! Positions, normals and every other floating-point attribute are carried by
//! the caller; this crate works on point indices, vertex indices, primitive
//! lists, byte buffers and the decisions the nodes take on them.

pub mod geometry;
pub mod params;
pub mod registry;
pub mod io_nodes;
pub mod import_mesh;
pub mod fbx;
pub mod modeling_nodes;
pub mod reverse;
pub mod remesh;
pub mod orient;
pub mod subdivide;
pub mod resample;
pub mod extrude;
pub mod extrude_input;
pub mod extrude_faces;

pub mod convert_line;
pub mod polypath;
pub mod spokes;
pub mod bevel_params;
pub mod bevel_poly;
pub mod bevel_graph;
pub mod bevel_boundary;
pub mod face_rebuild;
pub mod adjust_chains;
pub mod vmesh;
pub mod vmesh_emit;
pub mod dsu;
pub mod material;
pub mod vox_bytes;
pub mod vox_xform;
pub mod vox;
pub mod vox_import;
