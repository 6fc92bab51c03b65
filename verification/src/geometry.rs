//! The mesh model shared by the nodes: points, vertices that reference points,
//! and primitives that reference vertices.

use vstd::prelude::*;

verus! {

/// A primitive of a geometry: an ordered list of vertex indices and, for the
/// open kinds, whether the last vertex connects back to the first.
#[derive(Clone, Debug, PartialEq, Eq)]
pub enum Primitive {
    Polygon { vertices: Vec<usize> },
    Polyline { vertices: Vec<usize>, closed: bool },
    BezierCurve { vertices: Vec<usize>, closed: bool },
}

/// Topology of a geometry.
///
/// Points are numbered `0..num_points`. Vertex `v` references point
/// `vertices[v]`. A primitive references vertices by index. Indices are not
/// required to be in range: readers skip the ones that are not.
#[derive(Clone, Debug, PartialEq, Eq)]
pub struct Geometry {
    pub num_points: usize,
    pub vertices: Vec<usize>,
    pub primitives: Vec<Primitive>,
}

/// Abstract value of a primitive.
pub enum PrimModel {
    Polygon(Seq<usize>),
    Polyline(Seq<usize>, bool),
    BezierCurve(Seq<usize>, bool),
}

impl View for Primitive {
    type V = PrimModel;

    open spec fn view(&self) -> PrimModel {
        match self {
            Primitive::Polygon { vertices } => PrimModel::Polygon(vertices@),
            Primitive::Polyline { vertices, closed } => PrimModel::Polyline(vertices@, *closed),
            Primitive::BezierCurve { vertices, closed } => PrimModel::BezierCurve(
                vertices@,
                *closed,
            ),
        }
    }
}

impl PrimModel {
    pub open spec fn verts(self) -> Seq<usize> {
        match self {
            PrimModel::Polygon(v) => v,
            PrimModel::Polyline(v, _) => v,
            PrimModel::BezierCurve(v, _) => v,
        }
    }
}

/// Abstract value of a geometry.
#[verifier::ext_equal]
pub struct GeoModel {
    pub num_points: nat,
    pub vertices: Seq<usize>,
    pub prims: Seq<PrimModel>,
}

impl View for Geometry {
    type V = GeoModel;

    open spec fn view(&self) -> GeoModel {
        GeoModel {
            num_points: self.num_points as nat,
            vertices: self.vertices@,
            prims: self.primitives@.map_values(|p: Primitive| p@),
        }
    }
}

/// A geometry whose vertices reference existing points and whose
/// primitives reference existing vertices.
pub open spec fn geo_wf(g: GeoModel) -> bool {
    &&& forall|v: int| 0 <= v < g.vertices.len() ==> #[trigger] g.vertices[v] < g.num_points
    &&& forall|i: int, j: int|
        0 <= i < g.prims.len() && 0 <= j < g.prims[i].verts().len() ==> #[trigger] g.prims[i].verts()[j]
            < g.vertices.len()
}

/// The points referenced by `vids`, in order, skipping vertex indices that do
/// not exist in `verts`.
pub open spec fn point_ids_of(verts: Seq<usize>, vids: Seq<usize>) -> Seq<usize>
    decreases vids.len(),
{
    if vids.len() == 0 {
        Seq::empty()
    } else {
        let rest = point_ids_of(verts, vids.drop_last());
        let v = vids.last();
        if v < verts.len() {
            rest.push(verts[v as int])
        } else {
            rest
        }
    }
}

impl Primitive {
    pub fn vertex_list(&self) -> (r: &Vec<usize>)
        ensures
            r@ == self@.verts(),
    {
        match self {
            Primitive::Polygon { vertices } => vertices,
            Primitive::Polyline { vertices, .. } => vertices,
            Primitive::BezierCurve { vertices, .. } => vertices,
        }
    }
}

impl Geometry {
    /// An empty geometry.
    pub fn new() -> (g: Geometry)
        ensures
            g@.num_points == 0,
            g@.vertices == Seq::<usize>::empty(),
            g@.prims == Seq::<PrimModel>::empty(),
    {
        let g = Geometry { num_points: 0, vertices: Vec::new(), primitives: Vec::new() };
        assert(g@.prims =~= Seq::<PrimModel>::empty());
        g
    }

    /// Adds a point and returns its index.
    pub fn add_point(&mut self) -> (p: usize)
        requires
            old(self).num_points < usize::MAX,
        ensures
            p == old(self).num_points,
            final(self)@.num_points == old(self)@.num_points + 1,
            final(self)@.vertices == old(self)@.vertices,
            final(self)@.prims == old(self)@.prims,
    {
        let p = self.num_points;
        self.num_points = p + 1;
        p
    }

    /// Adds a vertex referencing point `p` and returns its index.
    pub fn add_vertex(&mut self, p: usize) -> (v: usize)
        ensures
            v == old(self)@.vertices.len(),
            final(self)@.num_points == old(self)@.num_points,
            final(self)@.vertices == old(self)@.vertices.push(p),
            final(self)@.prims == old(self)@.prims,
    {
        let v = self.vertices.len();
        self.vertices.push(p);
        v
    }

    /// Appends a primitive.
    pub fn add_primitive(&mut self, prim: Primitive)
        ensures
            final(self)@.num_points == old(self)@.num_points,
            final(self)@.vertices == old(self)@.vertices,
            final(self)@.prims == old(self)@.prims.push(prim@),
    {
        self.primitives.push(prim);
        proof {
            assert(self@.prims =~= old(self)@.prims.push(prim@));
        }
    }

    /// The points referenced by the vertices `vids`; vertex indices that do
    /// not exist are skipped.
    pub fn point_ids_from_vertices(&self, vids: &Vec<usize>) -> (out: Vec<usize>)
        ensures
            out@ == point_ids_of(self@.vertices, vids@),
    {
        let mut out: Vec<usize> = Vec::new();
        let mut i: usize = 0;
        while i < vids.len()
            invariant
                i <= vids.len(),
                out@ == point_ids_of(self@.vertices, vids@.take(i as int)),
            decreases vids.len() - i,
        {
            let vid = vids[i];
            proof {
                assert(vids@.take(i + 1).drop_last() =~= vids@.take(i as int));
            }
            if vid < self.vertices.len() {
                out.push(self.vertices[vid]);
            }
            i += 1;
        }
        assert(vids@.take(vids.len() as int) =~= vids@);
        out
    }

    /// Removes all vertices and primitives and keeps the points.
    pub fn reset_topology_keep_points(&mut self)
        ensures
            final(self)@.num_points == old(self)@.num_points,
            final(self)@.vertices == Seq::<usize>::empty(),
            final(self)@.prims == Seq::<PrimModel>::empty(),
    {
        self.vertices = Vec::new();
        self.primitives = Vec::new();
        assert(self@.prims =~= Seq::<PrimModel>::empty());
    }
}

} // verus!
