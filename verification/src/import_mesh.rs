//! Building the topology of an imported mesh from the index lists the file
//! parsers give: triangle lists (OBJ, glTF), polygon lists (PLY) and indexed
//! triangle soups whose corners are merged by position (STL).
//!
//! An index that names no point of the mesh being read is skipped: the
//! corner gets no vertex, and a face left with too few vertices is dropped
//! (its other vertices stay in the geometry).

use vstd::prelude::*;
use crate::geometry::{Geometry, GeoModel, Primitive, PrimModel, geo_wf};
use crate::registry::{GltfImporter, ObjImporter, PlyImporter, StlImporter};
use std::collections::HashMap;

verus! {

broadcast use vstd::std_specs::hash::group_hash_axioms;

/// One mesh of a triangle-list file: how many points it has, and its corner
/// indices, three per triangle, relative to its own first point.
#[derive(Clone, Debug, PartialEq, Eq)]
pub struct TriangleMesh {
    pub point_count: usize,
    pub indices: Vec<u32>,
}

/// The points, offset by `pt_off`, of those `idx` that are below `npts`,
/// in order.
pub open spec fn corner_points(idx: Seq<u32>, pt_off: int, npts: int) -> Seq<usize>
    decreases idx.len(),
{
    if idx.len() == 0 {
        Seq::empty()
    } else {
        let rest = corner_points(idx.drop_last(), pt_off, npts);
        let p = idx.last() + pt_off;
        if p < npts {
            rest.push(p as usize)
        } else {
            rest
        }
    }
}

/// The vertex indices `start, start + 1, ..., start + n - 1`.
pub open spec fn vertex_run(start: int, n: int) -> Seq<usize> {
    Seq::new(n as nat, |i: int| (start + i) as usize)
}

/// `g` after one face with corner indices `idx` (relative to point
/// `pt_off`): a vertex for each valid corner, and a polygon of those
/// vertices when there are at least `min_corners` of them.
pub open spec fn face_step(g: GeoModel, pt_off: int, idx: Seq<u32>, min_corners: int) -> GeoModel {
    let pts = corner_points(idx, pt_off, g.num_points as int);
    GeoModel {
        num_points: g.num_points,
        vertices: g.vertices + pts,
        prims: if pts.len() >= min_corners {
            g.prims.push(PrimModel::Polygon(vertex_run(g.vertices.len() as int, pts.len() as int)))
        } else {
            g.prims
        },
    }
}

/// `g` after the first `t` triangles of `indices`.
pub open spec fn triangles_prefix(g: GeoModel, pt_off: int, indices: Seq<u32>, t: int) -> GeoModel
    decreases t,
{
    if t <= 0 {
        g
    } else {
        face_step(
            triangles_prefix(g, pt_off, indices, t - 1),
            pt_off,
            indices.subrange(3 * (t - 1), 3 * t),
            3,
        )
    }
}

/// `g` after a triangle mesh with `point_count` points and corner indices
/// `indices`: its points are added after those of `g`, then each complete
/// triple of indices is a triangle.
pub open spec fn triangle_mesh_step(g: GeoModel, point_count: nat, indices: Seq<u32>) -> GeoModel {
    let g1 = GeoModel { num_points: g.num_points + point_count, vertices: g.vertices, prims: g.prims };
    triangles_prefix(g1, g.num_points as int, indices, (indices.len() / 3) as int)
}

/// Abstract value of a triangle mesh.
pub open spec fn mesh_view(m: TriangleMesh) -> (nat, Seq<u32>) {
    (m.point_count as nat, m.indices@)
}

/// An empty geometry model.
pub open spec fn empty_geo() -> GeoModel {
    GeoModel { num_points: 0, vertices: Seq::empty(), prims: Seq::empty() }
}

/// The geometry built from `meshes`, read in order.
pub open spec fn triangle_meshes(meshes: Seq<(nat, Seq<u32>)>) -> GeoModel
    decreases meshes.len(),
{
    if meshes.len() == 0 {
        empty_geo()
    } else {
        let g = triangle_meshes(meshes.drop_last());
        triangle_mesh_step(g, meshes.last().0, meshes.last().1)
    }
}

/// The total number of points of `meshes`.
pub open spec fn total_points(meshes: Seq<(nat, Seq<u32>)>) -> nat
    decreases meshes.len(),
{
    if meshes.len() == 0 {
        0
    } else {
        total_points(meshes.drop_last()) + meshes.last().0
    }
}

proof fn lemma_triangle_meshes_points(meshes: Seq<(nat, Seq<u32>)>)
    ensures
        triangle_meshes(meshes).num_points == total_points(meshes),
    decreases meshes.len(),
{
    if meshes.len() > 0 {
        lemma_triangle_meshes_points(meshes.drop_last());
        let g = triangle_meshes(meshes.drop_last());
        lemma_triangles_prefix_points(
            GeoModel { num_points: g.num_points + meshes.last().0, vertices: g.vertices, prims: g.prims },
            g.num_points as int,
            meshes.last().1,
            (meshes.last().1.len() / 3) as int,
        );
    }
}

proof fn lemma_triangles_prefix_points(g: GeoModel, pt_off: int, indices: Seq<u32>, t: int)
    ensures
        triangles_prefix(g, pt_off, indices, t).num_points == g.num_points,
    decreases t,
{
    if t > 0 {
        lemma_triangles_prefix_points(g, pt_off, indices, t - 1);
    }
}

proof fn lemma_total_points_prefix(meshes: Seq<(nat, Seq<u32>)>, i: int)
    requires
        0 <= i <= meshes.len(),
    ensures
        total_points(meshes.take(i)) <= total_points(meshes),
    decreases meshes.len() - i,
{
    if i < meshes.len() {
        lemma_total_points_prefix(meshes, i + 1);
        assert(meshes.take(i + 1).drop_last() =~= meshes.take(i));
    } else {
        assert(meshes.take(i) =~= meshes);
    }
}

/// Adds to `geo` one face with corner indices `idx`, relative to point
/// `pt_off`; the polygon is added when at least `min_corners` corners name a
/// point.
fn add_face(geo: &mut Geometry, pt_off: usize, idx: &[u32], min_corners: usize)
    requires
        pt_off <= old(geo)@.num_points,
    ensures
        final(geo)@ == face_step(old(geo)@, pt_off as int, idx@, min_corners as int),
{
    let ghost g0 = geo@;
    let start = geo.vertices.len();
    let mut n: usize = 0;
    let mut j: usize = 0;
    while j < idx.len()
        invariant
            j <= idx.len(),
            pt_off <= g0.num_points,
            start == g0.vertices.len(),
            geo@.num_points == g0.num_points,
            geo@.prims == g0.prims,
            geo@.vertices == g0.vertices + corner_points(
                idx@.take(j as int),
                pt_off as int,
                g0.num_points as int,
            ),
            n == corner_points(idx@.take(j as int), pt_off as int, g0.num_points as int).len(),
            n <= j,
        decreases idx.len() - j,
    {
        let i = idx[j] as usize;
        proof {
            assert(idx@.take(j + 1).drop_last() =~= idx@.take(j as int));
            assert(idx@.take(j + 1).last() == idx@[j as int]);
        }
        if i < geo.num_points - pt_off {
            geo.add_vertex(i + pt_off);
            n += 1;
        }
        proof {
            let c = corner_points(idx@.take(j + 1), pt_off as int, g0.num_points as int);
            assert(geo@.vertices =~= g0.vertices + c);
        }
        j += 1;
    }
    proof {
        assert(idx@.take(j as int) =~= idx@);
    }
    if n >= min_corners {
        let mut vids: Vec<usize> = Vec::new();
        let mut k: usize = 0;
        while k < n
            invariant
                k <= n,
                start + n == geo.vertices.len(),
                vids@ == vertex_run(start as int, k as int),
            decreases n - k,
        {
            vids.push(start + k);
            proof {
                assert(vids@ =~= vertex_run(start as int, k + 1));
            }
            k += 1;
        }
        geo.add_primitive(Primitive::Polygon { vertices: vids });
    }
}

/// Builds the geometry of triangle meshes read in order; each mesh's
/// indices are relative to its own first point.
pub fn assemble_triangle_meshes(meshes: &Vec<TriangleMesh>) -> (geo: Geometry)
    requires
        total_points(meshes@.map_values(|m: TriangleMesh| mesh_view(m))) <= usize::MAX,
    ensures
        geo@ == triangle_meshes(meshes@.map_values(|m: TriangleMesh| mesh_view(m))),
{
    let ghost ms = meshes@.map_values(|m: TriangleMesh| mesh_view(m));
    let mut geo = Geometry::new();
    let mut i: usize = 0;
    proof {
        assert(ms.take(0) =~= Seq::<(nat, Seq<u32>)>::empty());
        assert(geo@ =~= empty_geo());
    }
    while i < meshes.len()
        invariant
            i <= meshes.len(),
            ms == meshes@.map_values(|m: TriangleMesh| mesh_view(m)),
            total_points(ms) <= usize::MAX,
            geo@ == triangle_meshes(ms.take(i as int)),
        decreases meshes.len() - i,
    {
        let mesh = &meshes[i];
        proof {
            assert(ms.take(i + 1).drop_last() =~= ms.take(i as int));
            assert(ms.take(i + 1).last() == ms[i as int]);
            lemma_total_points_prefix(ms, i + 1);
            lemma_triangle_meshes_points(ms.take(i + 1));
            lemma_triangle_meshes_points(ms.take(i as int));
        }
        let pt_off = geo.num_points;
        geo.num_points = pt_off + mesh.point_count;
        let ghost g1 = geo@;
        let ntri = mesh.indices.len() / 3;
        let mut t: usize = 0;
        while t < ntri
            invariant
                t <= ntri,
                ntri == mesh.indices.len() / 3,
                pt_off <= g1.num_points,
                geo@ == triangles_prefix(g1, pt_off as int, mesh.indices@, t as int),
            decreases ntri - t,
        {
            proof {
                lemma_triangles_prefix_points(g1, pt_off as int, mesh.indices@, t as int);
            }
            let tri = vstd::slice::slice_subrange(mesh.indices.as_slice(), 3 * t, 3 * t + 3);
            add_face(&mut geo, pt_off, tri, 3);
            t += 1;
        }
        i += 1;
    }
    proof {
        assert(ms.take(i as int) =~= ms);
    }
    geo
}

impl ObjImporter {
    /// The geometry of the meshes of an OBJ file, in file order; each mesh's
    /// corner indices come in triples, one per triangle.
    pub fn build_geometry(meshes: &Vec<TriangleMesh>) -> (geo: Geometry)
        requires
            forall|i: int| 0 <= i < meshes@.len() ==> #[trigger] meshes@[i].indices@.len() % 3 == 0,
            total_points(meshes@.map_values(|m: TriangleMesh| mesh_view(m))) <= usize::MAX,
        ensures
            geo@ == triangle_meshes(meshes@.map_values(|m: TriangleMesh| mesh_view(m))),
    {
        assemble_triangle_meshes(meshes)
    }
}

impl GltfImporter {
    /// The geometry of the mesh primitives of a glTF file, in document
    /// order; a trailing incomplete triple of indices is ignored, and a
    /// primitive without indices has an empty index list.
    pub fn build_geometry(primitives: &Vec<TriangleMesh>) -> (geo: Geometry)
        requires
            total_points(primitives@.map_values(|m: TriangleMesh| mesh_view(m))) <= usize::MAX,
        ensures
            geo@ == triangle_meshes(primitives@.map_values(|m: TriangleMesh| mesh_view(m))),
    {
        assemble_triangle_meshes(primitives)
    }
}

/// The geometry of a PLY file with `point_count` points and the first `n`
/// of `faces`: faces with fewer than three indices are left out, and the
/// others become polygons of their valid corners when three or more remain.
pub open spec fn ply_faces(point_count: nat, faces: Seq<Seq<u32>>, n: int) -> GeoModel
    decreases n,
{
    if n <= 0 {
        GeoModel { num_points: point_count, vertices: Seq::empty(), prims: Seq::empty() }
    } else {
        let g = ply_faces(point_count, faces, n - 1);
        if faces[n - 1].len() >= 3 {
            face_step(g, 0, faces[n - 1], 3)
        } else {
            g
        }
    }
}

proof fn lemma_ply_faces_points(point_count: nat, faces: Seq<Seq<u32>>, n: int)
    ensures
        ply_faces(point_count, faces, n).num_points == point_count,
    decreases n,
{
    if n > 0 {
        lemma_ply_faces_points(point_count, faces, n - 1);
    }
}

impl PlyImporter {
    /// The geometry of a PLY file with `point_count` vertices and the index
    /// lists of its faces, in file order.
    pub fn build_geometry(point_count: usize, faces: &Vec<Vec<u32>>) -> (geo: Geometry)
        ensures
            geo@ == ply_faces(point_count as nat, faces@.map_values(|f: Vec<u32>| f@), faces@.len() as int),
    {
        let ghost fs = faces@.map_values(|f: Vec<u32>| f@);
        let mut geo = Geometry::new();
        geo.num_points = point_count;
        proof {
            assert(geo@ =~= ply_faces(point_count as nat, fs, 0));
        }
        let mut i: usize = 0;
        while i < faces.len()
            invariant
                i <= faces.len(),
                fs == faces@.map_values(|f: Vec<u32>| f@),
                geo@ == ply_faces(point_count as nat, fs, i as int),
            decreases faces.len() - i,
        {
            proof {
                lemma_ply_faces_points(point_count as nat, fs, i as int);
                assert(fs[i as int] == faces@[i as int]@);
            }
            if faces[i].len() >= 3 {
                add_face(&mut geo, 0, faces[i].as_slice(), 3);
            }
            i += 1;
        }
        geo
    }
}

/// The corners of `faces`, three per face, in order.
pub open spec fn face_corners(faces: Seq<[usize; 3]>) -> Seq<usize> {
    Seq::new(3 * faces.len(), |k: int| faces[k / 3][k % 3])
}

/// Whether vertex `k` is the first to use its point.
pub open spec fn first_use(vertices: Seq<usize>, k: int) -> bool {
    forall|i: int| 0 <= i < k ==> vertices[i] != vertices[k]
}

/// What the STL merge gives: `sources[p]` is the STL vertex that point `p`
/// was made from, and `vertices[k]` is the point of corner `k`.
///
/// Corners whose vertices have equal keys share a point, points with
/// different keys never do, and points are numbered in order of first use,
/// each made from the corner that first used it.
pub open spec fn stl_merge(keys: Seq<u128>, corners: Seq<usize>, sources: Seq<usize>, vertices: Seq<usize>) -> bool {
    &&& vertices.len() == corners.len()
    &&& forall|p: int| 0 <= p < sources.len() ==> #[trigger] sources[p] < keys.len()
    &&& forall|k: int| 0 <= k < vertices.len() ==> #[trigger] vertices[k] < sources.len()
    &&& forall|k: int|
        0 <= k < vertices.len() ==> keys[sources[#[trigger] vertices[k] as int] as int]
            == keys[corners[k] as int]
    &&& forall|p: int, q: int|
        0 <= p < q < sources.len() ==> keys[#[trigger] sources[p] as int] != keys[#[trigger] sources[q] as int]
    &&& forall|k: int|
        0 <= k < vertices.len() && #[trigger] first_use(vertices, k) ==> sources[vertices[k] as int]
            == corners[k] && forall|i: int| 0 <= i < k ==> vertices[i] < vertices[k]
    &&& forall|p: int| 0 <= p < sources.len() ==> #[trigger] used_point(vertices, p)
}

/// Whether some vertex uses point `p`.
pub open spec fn used_point(vertices: Seq<usize>, p: int) -> bool {
    exists|k: int| 0 <= k < vertices.len() && #[trigger] vertices[k] == p
}

/// The triangles of the STL geometry: face `f` uses vertices `3f`, `3f + 1`,
/// `3f + 2`.
pub open spec fn stl_prims(n: int) -> Seq<PrimModel> {
    Seq::new(n as nat, |f: int| PrimModel::Polygon(vertex_run(3 * f, 3)))
}

impl StlImporter {
    /// Merges the corners of an STL triangle soup into shared points.
    /// `keys[v]` is the quantised position of STL vertex `v`; `faces` index
    /// STL vertices. Returns the geometry and, for each of its points, the
    /// STL vertex it was made from.
    pub fn build_geometry(keys: &Vec<u128>, faces: &Vec<[usize; 3]>) -> (r: (Geometry, Vec<usize>))
        requires
            forall|f: int, j: int| 0 <= f < faces@.len() && 0 <= j < 3 ==> #[trigger] faces@[f][j] < keys@.len(),
            3 * faces@.len() <= usize::MAX,
        ensures
            stl_merge(keys@, face_corners(faces@), r.1@, r.0@.vertices),
            r.0@.num_points == r.1@.len(),
            r.0@.prims == stl_prims(faces@.len() as int),
    {
        let ghost corners = face_corners(faces@);
        let mut geo = Geometry::new();
        let mut sources: Vec<usize> = Vec::new();
        let mut map: HashMap<u128, usize> = HashMap::new();
        let mut f: usize = 0;
        proof {
            assert(geo@.prims =~= stl_prims(0));
        }
        while f < faces.len()
            invariant
                f <= faces.len(),
                3 * faces@.len() <= usize::MAX,
                corners == face_corners(faces@),
                forall|f: int, j: int| 0 <= f < faces@.len() && 0 <= j < 3 ==> #[trigger] faces@[f][j] < keys@.len(),
                geo@.num_points == sources@.len(),
                geo@.vertices.len() == 3 * f,
                sources@.len() <= geo@.vertices.len(),
                geo@.prims == stl_prims(f as int),
                stl_merge(keys@, corners.take(3 * f), sources@, geo@.vertices),
                forall|p: int| 0 <= p < sources@.len() ==> map@.contains_key(#[trigger] keys@[sources@[p] as int])
                    && map@[keys@[sources@[p] as int]] == p,
                forall|key: u128| #[trigger] map@.contains_key(key) ==> map@[key] < sources@.len()
                    && keys@[sources@[map@[key] as int] as int] == key,
            decreases faces.len() - f,
        {
            let start = geo.vertices.len();
            let mut j: usize = 0;
            while j < 3
                invariant
                    j <= 3,
                    f < faces@.len(),
                    3 * faces@.len() <= usize::MAX,
                    start == 3 * f,
                    corners == face_corners(faces@),
                    forall|f: int, j: int| 0 <= f < faces@.len() && 0 <= j < 3 ==> #[trigger] faces@[f][j] < keys@.len(),
                    geo@.num_points == sources@.len(),
                    geo@.vertices.len() == start + j,
                    sources@.len() <= geo@.vertices.len(),
                    geo@.prims == stl_prims(f as int),
                    stl_merge(keys@, corners.take(start + j), sources@, geo@.vertices),
                    forall|p: int| 0 <= p < sources@.len() ==> map@.contains_key(#[trigger] keys@[sources@[p] as int])
                        && map@[keys@[sources@[p] as int]] == p,
                    forall|key: u128| #[trigger] map@.contains_key(key) ==> map@[key] < sources@.len()
                        && keys@[sources@[map@[key] as int] as int] == key,
                decreases 3 - j,
            {
                let v = faces[f][j];
                let key = keys[v];
                let ghost k = start + j;
                let ghost verts0 = geo@.vertices;
                let ghost src0 = sources@;
                let ghost map0 = map@;
                proof {
                    assert(corners[k] == v) by {
                        assert((3 * f + j) / 3 == f as int) by (nonlinear_arith)
                            requires j < 3;
                        assert((3 * f + j) % 3 == j as int) by (nonlinear_arith)
                            requires j < 3;
                    }
                }
                match map.get(&key) {
                    Some(p) => {
                        let p = *p;
                        geo.add_vertex(p);
                        proof {
                            let c = corners.take(k + 1);
                            assert(c.take(k) =~= corners.take(k));
                            assert(used_point(verts0, p as int));
                            let w = choose|w: int| 0 <= w < verts0.len() && #[trigger] verts0[w] == p;
                            assert(!first_use(geo@.vertices, k)) by {
                                assert(geo@.vertices[w] == geo@.vertices[k]);
                            }
                            assert forall|i: int| 0 <= i < geo@.vertices.len() && #[trigger] first_use(geo@.vertices, i) implies
                                sources@[geo@.vertices[i] as int] == c[i] && forall|x: int| 0 <= x < i ==> geo@.vertices[x] < geo@.vertices[i] by {
                                if i < k {
                                    assert forall|x: int| 0 <= x < i implies verts0[x] != verts0[i] by {
                                        assert(geo@.vertices[x] != geo@.vertices[i]);
                                    }
                                    assert(first_use(verts0, i));
                                }
                            }
                            assert forall|q: int| 0 <= q < sources@.len() implies #[trigger] used_point(geo@.vertices, q) by {
                                assert(used_point(verts0, q));
                                let x = choose|x: int| 0 <= x < verts0.len() && #[trigger] verts0[x] == q;
                                assert(geo@.vertices[x] == q);
                            }
                            assert(stl_merge(keys@, c, sources@, geo@.vertices));
                        }
                    },
                    None => {
                        let p = sources.len();
                        sources.push(v);
                        map.insert(key, p);
                        geo.num_points = geo.num_points + 1;
                        geo.add_vertex(p);
                        proof {
                            let c = corners.take(k + 1);
                            assert(c.take(k) =~= corners.take(k));
                            assert forall|i: int| 0 <= i < geo@.vertices.len() && #[trigger] first_use(geo@.vertices, i) implies
                                sources@[geo@.vertices[i] as int] == c[i] && forall|x: int| 0 <= x < i ==> geo@.vertices[x] < geo@.vertices[i] by {
                                if i < k {
                                    assert forall|x: int| 0 <= x < i implies verts0[x] != verts0[i] by {
                                        assert(geo@.vertices[x] != geo@.vertices[i]);
                                    }
                                    assert(first_use(verts0, i));
                                }
                            }
                            assert forall|q: int| 0 <= q < sources@.len() implies #[trigger] used_point(geo@.vertices, q) by {
                                if q < p {
                                    assert(used_point(verts0, q));
                                    let x = choose|x: int| 0 <= x < verts0.len() && #[trigger] verts0[x] == q;
                                    assert(geo@.vertices[x] == q);
                                } else {
                                    assert(geo@.vertices[k] == q);
                                }
                            }
                            assert forall|a: int, b: int| 0 <= a < b < sources@.len() implies keys@[#[trigger] sources@[a] as int]
                                != keys@[#[trigger] sources@[b] as int] by {
                                if b == p {
                                    assert(map0.contains_key(keys@[src0[a] as int]));
                                }
                            }
                            assert(stl_merge(keys@, c, sources@, geo@.vertices));
                        }
                    },
                }
                j += 1;
            }
            let tri = vec![start, start + 1, start + 2];
            geo.add_primitive(Primitive::Polygon { vertices: tri });
            proof {
                assert(tri@ =~= vertex_run(3 * f, 3));
                assert(geo@.prims =~= stl_prims(f + 1));
            }
            f += 1;
        }
        proof {
            assert(corners.take(3 * f) =~= corners);
        }
        (geo, sources)
    }
}

proof fn lemma_corner_points_bound(idx: Seq<u32>, pt_off: int, npts: int)
    requires
        0 <= pt_off,
        npts <= usize::MAX + 1,
    ensures
        forall|k: int| 0 <= k < corner_points(idx, pt_off, npts).len() ==> #[trigger] corner_points(idx, pt_off, npts)[k] < npts,
        corner_points(idx, pt_off, npts).len() <= idx.len(),
    decreases idx.len(),
{
    if idx.len() > 0 {
        lemma_corner_points_bound(idx.drop_last(), pt_off, npts);
    }
}

proof fn lemma_face_step_wf(g: GeoModel, pt_off: int, idx: Seq<u32>, min_corners: int)
    requires
        geo_wf(g),
        0 <= pt_off,
        g.num_points <= usize::MAX,
    ensures
        geo_wf(face_step(g, pt_off, idx, min_corners)),
        face_step(g, pt_off, idx, min_corners).num_points == g.num_points,
{
    lemma_corner_points_bound(idx, pt_off, g.num_points as int);
    let r = face_step(g, pt_off, idx, min_corners);
    let pts = corner_points(idx, pt_off, g.num_points as int);
    assert forall|v: int| 0 <= v < r.vertices.len() implies #[trigger] r.vertices[v] < r.num_points by {
        if v >= g.vertices.len() {
            assert(r.vertices[v] == pts[v - g.vertices.len()]);
        }
    }
    assert forall|i: int, j: int|
        0 <= i < r.prims.len() && 0 <= j < r.prims[i].verts().len() implies #[trigger] r.prims[i].verts()[j]
            < r.vertices.len() by {
        if i < g.prims.len() {
            assert(r.prims[i] == g.prims[i]);
        }
    }
}

proof fn lemma_triangles_prefix_wf(g: GeoModel, pt_off: int, indices: Seq<u32>, t: int)
    requires
        geo_wf(g),
        0 <= pt_off,
        g.num_points <= usize::MAX,
    ensures
        geo_wf(triangles_prefix(g, pt_off, indices, t)),
    decreases t,
{
    if t > 0 {
        lemma_triangles_prefix_wf(g, pt_off, indices, t - 1);
        lemma_triangles_prefix_points(g, pt_off, indices, t - 1);
        lemma_face_step_wf(
            triangles_prefix(g, pt_off, indices, t - 1),
            pt_off,
            indices.subrange(3 * (t - 1), 3 * t),
            3,
        );
    }
}

/// Reading triangle meshes gives a well-formed geometry: every vertex
/// references one of the points read, and every triangle references
/// existing vertices.
pub proof fn lemma_triangle_meshes_wf(meshes: Seq<(nat, Seq<u32>)>)
    requires
        total_points(meshes) <= usize::MAX,
    ensures
        geo_wf(triangle_meshes(meshes)),
    decreases meshes.len(),
{
    if meshes.len() > 0 {
        lemma_triangle_meshes_wf(meshes.drop_last());
        lemma_triangle_meshes_points(meshes);
        lemma_triangle_meshes_points(meshes.drop_last());
        let g = triangle_meshes(meshes.drop_last());
        let g1 = GeoModel { num_points: g.num_points + meshes.last().0, vertices: g.vertices, prims: g.prims };
        assert(geo_wf(g1));
        lemma_triangles_prefix_wf(g1, g.num_points as int, meshes.last().1, (meshes.last().1.len() / 3) as int);
    }
}

/// Reading a PLY file gives a well-formed geometry, and every polygon it
/// holds has at least three vertices.
pub proof fn lemma_ply_faces_wf(point_count: nat, faces: Seq<Seq<u32>>, n: int)
    requires
        point_count <= usize::MAX,
    ensures
        geo_wf(ply_faces(point_count, faces, n)),
        forall|i: int| 0 <= i < ply_faces(point_count, faces, n).prims.len() ==> #[trigger] ply_faces(point_count, faces, n).prims[i].verts().len() >= 3,
    decreases n,
{
    if n > 0 {
        lemma_ply_faces_wf(point_count, faces, n - 1);
        lemma_ply_faces_points(point_count, faces, n - 1);
        let g = ply_faces(point_count, faces, n - 1);
        if faces[n - 1].len() >= 3 {
            lemma_face_step_wf(g, 0, faces[n - 1], 3);
            let r = face_step(g, 0, faces[n - 1], 3);
            assert forall|i: int| 0 <= i < r.prims.len() implies #[trigger] r.prims[i].verts().len() >= 3 by {
                if i < g.prims.len() {
                    assert(r.prims[i] == g.prims[i]);
                }
            }
        }
    }
}

/// The STL merge gives a well-formed geometry.
pub proof fn lemma_stl_wf(keys: Seq<u128>, faces: Seq<[usize; 3]>, sources: Seq<usize>, vertices: Seq<usize>)
    requires
        stl_merge(keys, face_corners(faces), sources, vertices),
        3 * faces.len() <= usize::MAX,
    ensures
        geo_wf(GeoModel { num_points: sources.len(), vertices, prims: stl_prims(faces.len() as int) }),
{
    let g = GeoModel { num_points: sources.len(), vertices, prims: stl_prims(faces.len() as int) };
    assert forall|i: int, j: int|
        0 <= i < g.prims.len() && 0 <= j < g.prims[i].verts().len() implies #[trigger] g.prims[i].verts()[j]
            < g.vertices.len() by {
        assert(g.prims[i].verts()[j] == 3 * i + j);
        assert(3 * i + j < 3 * faces.len()) by (nonlinear_arith)
            requires 0 <= i < faces.len(), 0 <= j < 3;
    }
}

} // verus!
