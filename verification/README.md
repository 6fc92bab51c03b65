# cunning3d

The topology, file-format and decision logic of a set of procedural
modeling nodes, written in Verus and verified.

Floating-point data (positions, normals, UVs, weights) never enters the
library: it works on point, vertex and primitive indices, byte buffers and
parameters, and says, for every point it creates, where the point comes
from, so that the caller can place it.

## Layout

- `src/` — the verified library.
  - `geometry`, `params`: the mesh model (points, vertices, primitives) and
    node parameters.
  - `registry`, `io_nodes`, `import_mesh`, `fbx`, `vox_bytes`, `vox_xform`,
    `vox`, `vox_import`: file importers (extension lookup, OBJ, glTF, PLY,
    STL and FBX topology, the MagicaVoxel `.vox` reader and scene graph).
  - `extrude`, `extrude_input`: poly-extrude topology, one polygon at a
    time or as connected pieces, with the half-edges of the input's
    polygons; the work geometry that keeps the polygons and polylines of an
    input with curves, and its primitive groups.
  - `resample`: new points along the edges of selected polygons.
  - `subdivide`, `remesh`, `orient`: the refinement passes of the remesh,
    fan triangulation and consistent orientation of triangle soups.
  - `convert_line`, `polypath`, `reverse`: line conversion, path joining
    and winding reversal.
  - `bevel_params`, `bevel_poly`, `spokes`, `bevel_boundary`, `vmesh`,
    `vmesh_emit`, `face_rebuild`, `adjust_chains`: the bevel (its choices and
    miter test, corner polygons, edge selection, welds and edge strips, spoke
    fans, the boundary vertices around a beveled vertex and the spokes they
    span, the vertex-mesh grid and its faces, cutoff corners, the rebuilt
    faces around beveled points, the chains along which offsets are evened
    out).
  - `modeling_nodes`, `material`, `dsu`: node decisions (boolean, fuse,
    jitter, add, displacement, copy-to-points, material assignment) and a
    disjoint-set forest.
- `tests/` — tests run against the compiled library.
- `app/` — file reading through the format crates, and the floating-point
  side of the extrude, remesh and polygon-edge resample nodes (normals,
  offsets, interpolation, smoothing), built on the library. The bevel's and
  the poly-frame node's geometry (offsets, profiles, frames) is
  floating-point throughout and is not part of this project; the library
  holds the bevel's topology.
