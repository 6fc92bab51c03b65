//! The reverse node: flips the winding of polygons and the direction of
//! polylines by reversing their vertex lists.

use vstd::prelude::*;
use crate::geometry::{Geometry, GeoModel, Primitive, PrimModel, geo_wf};
use crate::params::{Parameter, params_view, bool_param, get_bool};

verus! {

/// A primitive with its vertex order reversed; Bezier curves are kept as
/// they are.
pub open spec fn reversed_prim(p: PrimModel) -> PrimModel {
    match p {
        PrimModel::Polygon(v) => PrimModel::Polygon(v.reverse()),
        PrimModel::Polyline(v, c) => PrimModel::Polyline(v.reverse(), c),
        PrimModel::BezierCurve(v, c) => PrimModel::BezierCurve(v, c),
    }
}

/// A geometry with every polygon and polyline reversed.
pub open spec fn reversed_geo(g: GeoModel) -> GeoModel {
    GeoModel {
        num_points: g.num_points,
        vertices: g.vertices,
        prims: g.prims.map_values(|p: PrimModel| reversed_prim(p)),
    }
}

/// The elements of `v` in reverse order.
fn reversed_vec(v: &Vec<usize>) -> (r: Vec<usize>)
    ensures
        r@ == v@.reverse(),
{
    let mut r: Vec<usize> = Vec::new();
    let mut i: usize = v.len();
    while i > 0
        invariant
            i <= v.len(),
            r@ == v@.subrange(i as int, v@.len() as int).reverse(),
        decreases i,
    {
        i -= 1;
        r.push(v[i]);
        proof {
            assert(r@ =~= v@.subrange(i as int, v@.len() as int).reverse());
        }
    }
    proof {
        assert(v@.subrange(0, v@.len() as int) =~= v@);
    }
    r
}

/// A copy of `v`.
fn copied_vec(v: &Vec<usize>) -> (r: Vec<usize>)
    ensures
        r@ == v@,
{
    let r = v.clone();
    proof {
        assert(r@ =~= v@);
    }
    r
}

/// Reverses every polygon and polyline of `geo`.
pub fn reverse_primitives(geo: &mut Geometry)
    ensures
        final(geo)@ == reversed_geo(old(geo)@),
{
    let mut prims: Vec<Primitive> = Vec::new();
    let mut i: usize = 0;
    while i < geo.primitives.len()
        invariant
            i <= geo.primitives.len(),
            prims@.len() == i,
            forall|k: int| 0 <= k < i ==> (#[trigger] prims@[k])@ == reversed_prim(geo.primitives@[k]@),
        decreases geo.primitives.len() - i,
    {
        let p = match &geo.primitives[i] {
            Primitive::Polygon { vertices } => Primitive::Polygon { vertices: reversed_vec(vertices) },
            Primitive::Polyline { vertices, closed } => Primitive::Polyline {
                vertices: reversed_vec(vertices),
                closed: *closed,
            },
            Primitive::BezierCurve { vertices, closed } => Primitive::BezierCurve {
                vertices: copied_vec(vertices),
                closed: *closed,
            },
        };
        prims.push(p);
        i += 1;
    }
    let ghost g0 = geo@;
    geo.primitives = prims;
    proof {
        assert(geo@.prims =~= g0.prims.map_values(|p: PrimModel| reversed_prim(p)));
    }
}

/// A primitive with the winding of a polygon flipped; other primitives are
/// kept.
pub open spec fn flipped_prim(p: PrimModel) -> PrimModel {
    match p {
        PrimModel::Polygon(v) => PrimModel::Polygon(v.reverse()),
        _ => p,
    }
}

/// The geometry the bevel works on when its input is wound the other way:
/// a copy with every polygon reversed (polylines and curves are kept).
pub fn flip_input_winding(src: &Geometry) -> (g: Geometry)
    ensures
        g@.num_points == src@.num_points,
        g@.vertices == src@.vertices,
        g@.prims == src@.prims.map_values(|p: PrimModel| flipped_prim(p)),
{
    let mut prims: Vec<Primitive> = Vec::new();
    let mut i: usize = 0;
    while i < src.primitives.len()
        invariant
            i <= src.primitives.len(),
            prims@.len() == i,
            forall|k: int| 0 <= k < i ==> (#[trigger] prims@[k])@ == flipped_prim(src.primitives@[k]@),
        decreases src.primitives.len() - i,
    {
        let p = match &src.primitives[i] {
            Primitive::Polygon { vertices } => Primitive::Polygon { vertices: reversed_vec(vertices) },
            Primitive::Polyline { vertices, closed } => Primitive::Polyline {
                vertices: copied_vec(vertices),
                closed: *closed,
            },
            Primitive::BezierCurve { vertices, closed } => Primitive::BezierCurve {
                vertices: copied_vec(vertices),
                closed: *closed,
            },
        };
        prims.push(p);
        i += 1;
    }
    let g = Geometry { num_points: src.num_points, vertices: copied_vec(&src.vertices), primitives: prims };
    proof {
        assert(g@.prims =~= src@.prims.map_values(|p: PrimModel| flipped_prim(p)));
    }
    g
}

/// The node that reverses the vertex order of primitives.
pub struct ReverseNode;

/// The output of the reverse node for an optional input: nothing in gives an
/// empty geometry; otherwise the input, with polygons and polylines reversed
/// when `reverse_vertices` is on (the default).
pub open spec fn reverse_output(params: Seq<crate::params::ParamModel>, input: Option<GeoModel>) -> GeoModel {
    match input {
        None => GeoModel { num_points: 0, vertices: Seq::empty(), prims: Seq::empty() },
        Some(g) => if bool_param(params, "reverse_vertices"@, true) {
            reversed_geo(g)
        } else {
            g
        },
    }
}

impl ReverseNode {
    /// The output topology of the node (negating normals, when
    /// `reverse_normals` is on, is left to the caller).
    pub fn compute(&self, params: &[Parameter], input: Option<Geometry>) -> (r: Geometry)
        ensures
            r@ == reverse_output(params_view(params@), match input {
                Some(g) => Some(g@),
                None => None,
            }),
    {
        match input {
            None => Geometry::new(),
            Some(g) => {
                let mut out = g;
                if get_bool(params, "reverse_vertices", true) {
                    reverse_primitives(&mut out);
                }
                out
            },
        }
    }
}

/// Reversing twice gives back the original geometry.
pub proof fn lemma_reverse_twice(g: GeoModel)
    ensures
        reversed_geo(reversed_geo(g)) == g,
{
    let r = reversed_geo(reversed_geo(g));
    assert forall|i: int| 0 <= i < g.prims.len() implies r.prims[i] == g.prims[i] by {
        match g.prims[i] {
            PrimModel::Polygon(v) => {
                assert(v.reverse().reverse() =~= v);
            },
            PrimModel::Polyline(v, c) => {
                assert(v.reverse().reverse() =~= v);
            },
            PrimModel::BezierCurve(v, c) => {},
        }
    }
    assert(r.prims =~= g.prims);
    assert(r =~= g);
}

/// Reversing keeps the points, the vertices and the number of primitives,
/// and keeps each primitive's vertices as a multiset: only their order
/// changes.
pub proof fn lemma_reverse_keeps_vertex_sets(g: GeoModel)
    ensures
        reversed_geo(g).num_points == g.num_points,
        reversed_geo(g).vertices == g.vertices,
        reversed_geo(g).prims.len() == g.prims.len(),
        forall|i: int|
            0 <= i < g.prims.len() ==> (#[trigger] reversed_geo(g).prims[i]).verts().to_multiset()
                == g.prims[i].verts().to_multiset(),
{
    assert forall|i: int| 0 <= i < g.prims.len() implies (#[trigger] reversed_geo(g).prims[i]).verts().to_multiset()
        == g.prims[i].verts().to_multiset() by {
        let v = g.prims[i].verts();
        v.lemma_reverse_to_multiset();
    }
}

/// Reversing keeps a geometry well-formed.
pub proof fn lemma_reverse_keeps_wf(g: GeoModel)
    requires
        geo_wf(g),
    ensures
        geo_wf(reversed_geo(g)),
{
    let r = reversed_geo(g);
    assert forall|i: int, j: int|
        0 <= i < r.prims.len() && 0 <= j < r.prims[i].verts().len() implies #[trigger] r.prims[i].verts()[j]
            < r.vertices.len() by {
        let v = g.prims[i].verts();
        match g.prims[i] {
            PrimModel::BezierCurve(_, _) => {},
            _ => {
                assert(r.prims[i].verts()[j] == v[v.len() - 1 - j]);
            },
        }
    }
}

} // verus!
