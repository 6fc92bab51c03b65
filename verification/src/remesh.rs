//! The topology side of the remesh node: polygons fanned into triangles,
//! triangles turned back into a geometry, and its integer parameter.

use vstd::prelude::*;
use vstd::string::StringExecFns;
use crate::geometry::{Geometry, GeoModel, Primitive, PrimModel, geo_wf};
use crate::params::{Parameter, ParameterValue, ParamModel, ValueModel, params_view};

verus! {

/// The fan triangulation of a polygon with points `pts`: triangles
/// `(pts[0], pts[i], pts[i + 1])` for `i` from 1; nothing for fewer than
/// three points.
pub open spec fn fan(pts: Seq<usize>) -> Seq<[usize; 3]> {
    if pts.len() < 3 {
        Seq::empty()
    } else {
        Seq::new((pts.len() - 2) as nat, |i: int| [pts[0], pts[i + 1], pts[i + 2]])
    }
}

/// Appends the fan triangulation of `poly_pts` to `out`.
pub fn tri_fan(out: &mut Vec<[usize; 3]>, poly_pts: &[usize])
    ensures
        final(out)@ == old(out)@ + fan(poly_pts@),
{
    if poly_pts.len() < 3 {
        assert(old(out)@ + fan(poly_pts@) =~= old(out)@);
        return;
    }
    let p0 = poly_pts[0];
    let ghost start = out@;
    let mut i: usize = 1;
    while i < poly_pts.len() - 1
        invariant
            1 <= i <= poly_pts.len() - 1,
            poly_pts@.len() >= 3,
            p0 == poly_pts@[0],
            out@ == start + fan(poly_pts@).take(i - 1),
        decreases poly_pts.len() - 1 - i,
    {
        out.push([p0, poly_pts[i], poly_pts[i + 1]]);
        proof {
            assert(out@ =~= start + fan(poly_pts@).take(i as int));
        }
        i += 1;
    }
    assert(fan(poly_pts@).take(i - 1) =~= fan(poly_pts@));
}

/// The points of the vertices `vids` of `g`, or `None` when a vertex or its
/// point does not exist.
pub open spec fn polygon_points(g: GeoModel, vids: Seq<usize>) -> Option<Seq<usize>> {
    if forall|j: int| 0 <= j < vids.len() ==> #[trigger] vids[j] < g.vertices.len() && g.vertices[vids[j] as int] < g.num_points {
        Some(vids.map_values(|v: usize| g.vertices[v as int]))
    } else {
        None
    }
}

/// The triangles of the first `n` primitives of `g`: each polygon whose
/// vertices and points all exist is fanned; other primitives give nothing.
pub open spec fn triangles_of(g: GeoModel, n: int) -> Seq<[usize; 3]>
    decreases n,
{
    if n <= 0 {
        Seq::empty()
    } else {
        let prev = triangles_of(g, n - 1);
        match g.prims[n - 1] {
            PrimModel::Polygon(vids) => match polygon_points(g, vids) {
                Some(pts) => prev + fan(pts),
                None => prev,
            },
            _ => prev,
        }
    }
}

/// The points of the vertices `vids`, or `None` when one is missing.
fn polygon_points_of(geo: &Geometry, vids: &Vec<usize>) -> (r: Option<Vec<usize>>)
    ensures
        r matches Some(p) ==> polygon_points(geo@, vids@) == Some(p@),
        r is None ==> polygon_points(geo@, vids@) is None,
{
    let mut pts: Vec<usize> = Vec::new();
    let mut j: usize = 0;
    while j < vids.len()
        invariant
            j <= vids.len(),
            pts@.len() == j,
            forall|k: int| 0 <= k < j ==> #[trigger] vids@[k] < geo@.vertices.len() && geo@.vertices[vids@[k] as int] < geo@.num_points
                && pts@[k] == geo@.vertices[vids@[k] as int],
        decreases vids.len() - j,
    {
        let vid = vids[j];
        if vid >= geo.vertices.len() {
            return None;
        }
        let p = geo.vertices[vid];
        if p >= geo.num_points {
            return None;
        }
        pts.push(p);
        j += 1;
    }
    proof {
        assert(pts@ =~= vids@.map_values(|v: usize| geo@.vertices[v as int]));
    }
    Some(pts)
}

/// The triangles the remesh works on: every polygon of `geo` whose vertices
/// and points exist, fanned from its first point. (Without point positions
/// the node has nothing to do; the caller checks that.)
pub fn build_triangles(geo: &Geometry) -> (tris: Vec<[usize; 3]>)
    ensures
        tris@ == triangles_of(geo@, geo@.prims.len() as int),
{
    let mut tris: Vec<[usize; 3]> = Vec::new();
    let mut i: usize = 0;
    while i < geo.primitives.len()
        invariant
            i <= geo.primitives.len(),
            tris@ == triangles_of(geo@, i as int),
        decreases geo.primitives.len() - i,
    {
        match &geo.primitives[i] {
            Primitive::Polygon { vertices } => {
                match polygon_points_of(geo, vertices) {
                    Some(pts) => {
                        tri_fan(&mut tris, pts.as_slice());
                    },
                    None => {},
                }
            },
            _ => {},
        }
        i += 1;
    }
    tris
}

/// The geometry made of `n` points and the triangles `tris`: triangle `f`
/// uses vertices `3f`, `3f + 1`, `3f + 2`, which reference its three points;
/// empty when there are no points or no triangles.
pub open spec fn triangle_geo(n: nat, tris: Seq<[usize; 3]>) -> GeoModel {
    if n == 0 || tris.len() == 0 {
        GeoModel { num_points: 0, vertices: Seq::empty(), prims: Seq::empty() }
    } else {
        GeoModel {
            num_points: n,
            vertices: Seq::new(3 * tris.len(), |k: int| tris[k / 3][k % 3]),
            prims: Seq::new(tris.len(), |f: int| PrimModel::Polygon(Seq::new(3, |j: int| (3 * f + j) as usize))),
        }
    }
}

/// The geometry of `point_count` points and the triangles `tris`, each
/// triangle a polygon of three new vertices.
pub fn triangles_to_geo(point_count: usize, tris: &Vec<[usize; 3]>) -> (geo: Geometry)
    requires
        forall|f: int, j: int| 0 <= f < tris@.len() && 0 <= j < 3 ==> #[trigger] tris@[f][j] < point_count,
        3 * tris@.len() <= usize::MAX,
    ensures
        geo@ == triangle_geo(point_count as nat, tris@),
{
    let mut geo = Geometry::new();
    if point_count == 0 || tris.len() == 0 {
        proof {
            assert(geo@ =~= triangle_geo(point_count as nat, tris@));
        }
        return geo;
    }
    geo.num_points = point_count;
    let mut f: usize = 0;
    while f < tris.len()
        invariant
            f <= tris.len(),
            3 * tris@.len() <= usize::MAX,
            geo@.num_points == point_count,
            geo@.vertices == Seq::new(3 * f as nat, |k: int| tris@[k / 3][k % 3]),
            geo@.prims == Seq::new(f as nat, |g: int| PrimModel::Polygon(Seq::new(3, |j: int| (3 * g + j) as usize))),
        decreases tris.len() - f,
    {
        let t = tris[f];
        let va = geo.add_vertex(t[0]);
        let vb = geo.add_vertex(t[1]);
        let vc = geo.add_vertex(t[2]);
        let vids = vec![va, vb, vc];
        geo.add_primitive(Primitive::Polygon { vertices: vids });
        proof {
            assert forall|k: int| 0 <= k < 3 * (f + 1) implies #[trigger] geo@.vertices[k] == tris@[k / 3][k % 3] by {
                if k >= 3 * f {
                    assert(k / 3 == f as int) by (nonlinear_arith)
                        requires 3 * f <= k < 3 * f + 3;
                    assert(k % 3 == k - 3 * f) by (nonlinear_arith)
                        requires 3 * f <= k < 3 * f + 3;
                }
            }
            assert(geo@.vertices =~= Seq::new(3 * (f + 1) as nat, |k: int| tris@[k / 3][k % 3]));
            assert(vids@ =~= Seq::new(3, |j: int| (3 * f + j) as usize));
            assert(geo@.prims =~= Seq::new((f + 1) as nat, |g: int| PrimModel::Polygon(Seq::new(3, |j: int| (3 * g + j) as usize))));
        }
        f += 1;
    }
    geo
}

/// The value of the last integer parameter named `name`, or `default`.
pub open spec fn last_int_param(params: Seq<ParamModel>, name: Seq<char>, default: i32) -> i32
    decreases params.len(),
{
    if params.len() == 0 {
        default
    } else {
        match params.last().value {
            ValueModel::Int(v) => if params.last().name == name {
                v
            } else {
                last_int_param(params.drop_last(), name, default)
            },
            _ => last_int_param(params.drop_last(), name, default),
        }
    }
}

/// The node that refines a mesh towards a target edge length.
pub struct RemeshNode;

impl RemeshNode {
    /// The number of refinement passes: the last integer `iterations`
    /// parameter, taken as an unsigned number (a negative value wraps
    /// around), 5 by default.
    pub fn iterations(params: &[Parameter]) -> (r: u32)
        ensures
            r == last_int_param(params_view(params@), "iterations"@, 5) as u32,
    {
        let key = String::from_str("iterations");
        let ghost ps = params_view(params@);
        let mut iters: i32 = 5;
        let mut i: usize = 0;
        assert(ps.take(0) =~= Seq::<ParamModel>::empty());
        while i < params.len()
            invariant
                i <= params.len(),
                ps == params_view(params@),
                key@ == "iterations"@,
                iters == last_int_param(ps.take(i as int), "iterations"@, 5),
            decreases params.len() - i,
        {
            proof {
                assert(ps.take(i + 1).drop_last() =~= ps.take(i as int));
            }
            if params[i].name == key {
                match params[i].value {
                    ParameterValue::Int(v) => {
                        iters = v;
                    },
                    _ => {},
                }
            }
            i += 1;
        }
        assert(ps.take(i as int) =~= ps);
        iters as u32
    }
}

/// A fan over `k` points has `k - 2` triangles, all through the first point,
/// each using two consecutive points of the polygon.
pub proof fn lemma_fan_shape(pts: Seq<usize>)
    requires
        pts.len() >= 3,
    ensures
        fan(pts).len() == pts.len() - 2,
        forall|i: int| 0 <= i < fan(pts).len() ==> (#[trigger] fan(pts)[i])[0] == pts[0] && fan(pts)[i][1] == pts[i + 1] && fan(pts)[i][2] == pts[i + 2],
{
}

/// The triangles of a geometry reference only its points.
pub proof fn lemma_triangles_reference_points(g: GeoModel, n: int)
    requires
        0 <= n <= g.prims.len(),
    ensures
        forall|f: int, j: int| 0 <= f < triangles_of(g, n).len() && 0 <= j < 3 ==> #[trigger] triangles_of(g, n)[f][j] < g.num_points,
    decreases n,
{
    if n > 0 {
        lemma_triangles_reference_points(g, n - 1);
        let prev = triangles_of(g, n - 1);
        match g.prims[n - 1] {
            PrimModel::Polygon(vids) => match polygon_points(g, vids) {
                Some(pts) => {
                    let all = prev + fan(pts);
                    assert forall|f: int, j: int| 0 <= f < all.len() && 0 <= j < 3 implies #[trigger] all[f][j] < g.num_points by {
                        if f >= prev.len() {
                            let i = f - prev.len();
                            assert(pts[0] == g.vertices[vids[0] as int]);
                            assert(pts[i + 1] == g.vertices[vids[i + 1] as int]);
                            assert(pts[i + 2] == g.vertices[vids[i + 2] as int]);
                        }
                    }
                },
                None => {},
            },
            _ => {},
        }
    }
}

/// The geometry built from triangles over existing points is well-formed.
pub proof fn lemma_triangle_geo_wf(n: nat, tris: Seq<[usize; 3]>)
    requires
        forall|f: int, j: int| 0 <= f < tris.len() && 0 <= j < 3 ==> #[trigger] tris[f][j] < n,
        3 * tris.len() <= usize::MAX,
    ensures
        geo_wf(triangle_geo(n, tris)),
{
    let g = triangle_geo(n, tris);
    if n > 0 && tris.len() > 0 {
        assert forall|v: int| 0 <= v < g.vertices.len() implies #[trigger] g.vertices[v] < g.num_points by {
            assert(0 <= v / 3 < tris.len()) by (nonlinear_arith)
                requires 0 <= v < 3 * tris.len();
            assert(0 <= v % 3 < 3) by (nonlinear_arith)
                requires 0 <= v;
        }
        assert forall|i: int, j: int|
            0 <= i < g.prims.len() && 0 <= j < g.prims[i].verts().len() implies #[trigger] g.prims[i].verts()[j]
                < g.vertices.len() by {
            assert(3 * i + j < 3 * tris.len()) by (nonlinear_arith)
                requires 0 <= i < tris.len(), 0 <= j < 3;
        }
    }
}

} // verus!
