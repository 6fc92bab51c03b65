//! The topology of the poly-extrude node.
//!
//! Extruding builds new points, vertices and faces from the selected
//! polygons and polylines of a geometry. Where each new point lies is a
//! floating-point matter (normals, offsets, interpolation), so the library
//! records for every new point where it comes from and the caller computes
//! its position; every index, face and face group is decided here.

use vstd::prelude::*;
use std::collections::HashMap;
use crate::geometry::{Geometry, GeoModel, Primitive, PrimModel, geo_wf};
use crate::params::{Parameter, params_view, int_param, bool_param, str_param, get_int, get_bool, get_string};

verus! {

broadcast use vstd::std_specs::hash::group_hash_axioms;

/// Where a new point of an extrusion comes from.
#[derive(Clone, Copy, Debug, PartialEq, Eq, Structural)]
pub enum PointSource {
    /// A copy of input point `p`.
    Base(usize),
    /// Input point `p` moved along its normal averaged over the selection.
    Front(usize),
    /// Input point `p` moved along the normal of input polygon `prim`, and
    /// inset towards that polygon's centre.
    PolygonFront(usize, usize),
    /// The point `step / steps` of the way from output point `from` to
    /// output point `to`.
    Between { from: usize, to: usize, step: u32, steps: u32 },
}

/// The face group an output primitive belongs to; `Kept` for a primitive
/// copied from the input.
#[derive(Clone, Copy, Debug, PartialEq, Eq, Structural)]
pub enum FaceGroup {
    Front,
    Back,
    Side,
    Kept,
}

/// Which faces an extrusion outputs.
#[derive(Clone, Copy, Debug, PartialEq, Eq, Structural)]
pub struct ExtrudeFaces {
    pub front: bool,
    pub back: bool,
    pub side: bool,
}

/// The result of an extrusion: its topology, the source of each of its
/// points, and the face group of each of its primitives.
#[derive(Clone, Debug)]
pub struct Extrusion {
    pub geometry: Geometry,
    pub sources: Vec<PointSource>,
    pub groups: Vec<FaceGroup>,
}

/// Abstract value of an extrusion.
pub struct ExModel {
    pub geo: GeoModel,
    pub sources: Seq<PointSource>,
    pub groups: Seq<FaceGroup>,
}

impl View for Extrusion {
    type V = ExModel;

    open spec fn view(&self) -> ExModel {
        ExModel { geo: self.geometry@, sources: self.sources@, groups: self.groups@ }
    }
}

/// The empty extrusion.
pub open spec fn empty_model() -> ExModel {
    ExModel {
        geo: GeoModel { num_points: 0, vertices: Seq::empty(), prims: Seq::empty() },
        sources: Seq::empty(),
        groups: Seq::empty(),
    }
}

/// Whether primitive `i` is selected: `sel[i]`, false past the end.
pub open spec fn selected(sel: Seq<bool>, i: int) -> bool {
    0 <= i < sel.len() && sel[i]
}

/// Whether input point `p` exists and has one of the `npos` positions.
pub open spec fn has_pos(g: GeoModel, npos: nat, p: usize) -> bool {
    p < g.num_points && p < npos
}

/// The points of the vertices `vids`, when every vertex exists and its point
/// has a position.
pub open spec fn corner_points(g: GeoModel, npos: nat, vids: Seq<usize>) -> Option<Seq<usize>> {
    if forall|j: int|
        0 <= j < vids.len() ==> #[trigger] vids[j] < g.vertices.len() && has_pos(
            g,
            npos,
            g.vertices[vids[j] as int],
        ) {
        Some(Seq::new(vids.len(), |j: int| g.vertices[vids[j] as int]))
    } else {
        None
    }
}

/// The number of vertex references of the first `n` primitives.
pub open spec fn corner_count(prims: Seq<PrimModel>, n: int) -> nat
    decreases n,
{
    if n <= 0 {
        0
    } else {
        corner_count(prims, n - 1) + prims[n - 1].verts().len()
    }
}

/// The faces of one polygon extruded on its own: two new points per corner
/// (its front copy, then its base copy), each with a vertex of its own; the
/// front polygon, the back polygon (the base vertices in reverse order), and
/// one side quad per edge. The side quads run over the base vertices in the
/// order the back polygon left them.
pub open spec fn individual_block(st: ExModel, pts: Seq<usize>, prim: int, f: ExtrudeFaces) -> ExModel {
    let np0 = st.geo.num_points;
    let v0 = st.geo.vertices.len();
    let k = pts.len();
    let fv = Seq::new(k, |c: int| (v0 + 2 * c) as usize);
    let bv0 = Seq::new(k, |c: int| (v0 + 2 * c + 1) as usize);
    let bv = if f.back {
        bv0.reverse()
    } else {
        bv0
    };
    let fronts = if f.front {
        seq![PrimModel::Polygon(fv)]
    } else {
        Seq::empty()
    };
    let backs = if f.back {
        seq![PrimModel::Polygon(bv)]
    } else {
        Seq::empty()
    };
    let sides = if f.side {
        Seq::new(
            k,
            |c: int| PrimModel::Polygon(seq![bv[c], bv[(c + 1) % (k as int)], fv[(c + 1) % (k as int)], fv[c]]),
        )
    } else {
        Seq::empty()
    };
    let gf = if f.front {
        seq![FaceGroup::Front]
    } else {
        Seq::empty()
    };
    let gb = if f.back {
        seq![FaceGroup::Back]
    } else {
        Seq::empty()
    };
    let gs = if f.side {
        Seq::new(k, |c: int| FaceGroup::Side)
    } else {
        Seq::empty()
    };
    ExModel {
        geo: GeoModel {
            num_points: np0 + 2 * k,
            vertices: st.geo.vertices + Seq::new(2 * k, |m: int| (np0 + m) as usize),
            prims: st.geo.prims + fronts + backs + sides,
        },
        sources: st.sources + Seq::new(
            2 * k,
            |m: int|
                if m % 2 == 0 {
                    PointSource::PolygonFront(pts[m / 2], prim as usize)
                } else {
                    PointSource::Base(pts[m / 2])
                },
        ),
        groups: st.groups + gf + gb + gs,
    }
}

/// Individual extrusion after primitive `i`: a selected polygon of at least
/// three corners, all of them with positions, adds its block.
pub open spec fn individual_step(st: ExModel, g: GeoModel, npos: nat, sel: Seq<bool>, f: ExtrudeFaces, i: int) -> ExModel {
    match g.prims[i] {
        PrimModel::Polygon(vids) => {
            if selected(sel, i) && vids.len() >= 3 && corner_points(g, npos, vids) is Some {
                individual_block(st, corner_points(g, npos, vids)->0, i, f)
            } else {
                st
            }
        },
        _ => st,
    }
}

/// Individual extrusion over the first `n` primitives.
pub open spec fn individual_prefix(g: GeoModel, npos: nat, sel: Seq<bool>, f: ExtrudeFaces, n: int) -> ExModel
    decreases n,
{
    if n <= 0 {
        empty_model()
    } else {
        individual_step(individual_prefix(g, npos, sel, f, n - 1), g, npos, sel, f, n - 1)
    }
}

/// The points of the vertices `vids` when every vertex exists and its point
/// has a position (see `corner_points`).
pub fn corner_points_exec(geo: &Geometry, npos: usize, vids: &Vec<usize>) -> (r: Option<Vec<usize>>)
    ensures
        r is Some <==> corner_points(geo@, npos as nat, vids@) is Some,
        r matches Some(v) ==> corner_points(geo@, npos as nat, vids@) == Some(v@),
{
    let mut pts: Vec<usize> = Vec::new();
    let mut j: usize = 0;
    while j < vids.len()
        invariant
            j <= vids.len(),
            pts@.len() == j,
            forall|q: int|
                0 <= q < j ==> #[trigger] vids@[q] < geo@.vertices.len() && has_pos(
                    geo@,
                    npos as nat,
                    geo@.vertices[vids@[q] as int],
                ),
            forall|q: int| 0 <= q < j ==> #[trigger] pts@[q] == geo@.vertices[vids@[q] as int],
        decreases vids.len() - j,
    {
        let vid = vids[j];
        if vid >= geo.vertices.len() {
            assert(!(vids@[j as int] < geo@.vertices.len()));
            return None;
        }
        let p = geo.vertices[vid];
        if p >= geo.num_points || p >= npos {
            assert(!has_pos(geo@, npos as nat, geo@.vertices[vids@[j as int] as int]));
            return None;
        }
        pts.push(p);
        j += 1;
    }
    assert(pts@ =~= Seq::new(vids@.len(), |q: int| geo@.vertices[vids@[q] as int]));
    Some(pts)
}

/// Appends the block of one polygon extruded on its own (see
/// `individual_block`).
fn push_individual_block(
    geo: &mut Geometry,
    sources: &mut Vec<PointSource>,
    groups: &mut Vec<FaceGroup>,
    pts: &Vec<usize>,
    prim: usize,
    f: ExtrudeFaces,
)
    requires
        pts@.len() >= 1,
        old(geo)@.vertices.len() == old(geo)@.num_points,
        old(geo)@.num_points + 2 * pts@.len() <= usize::MAX,
    ensures
        ({
            let m = individual_block(
                ExModel { geo: old(geo)@, sources: old(sources)@, groups: old(groups)@ },
                pts@,
                prim as int,
                f,
            );
            &&& final(geo)@ == m.geo
            &&& final(sources)@ == m.sources
            &&& final(groups)@ == m.groups
        }),
{
    let ghost st = ExModel { geo: geo@, sources: sources@, groups: groups@ };
    let ghost np0 = geo@.num_points;
    let v0 = geo.vertices.len();
    let k = pts.len();
    let mut fv: Vec<usize> = Vec::new();
    let mut bv: Vec<usize> = Vec::new();
    let mut c: usize = 0;
    while c < k
        invariant
            c <= k,
            k == pts@.len(),
            v0 == np0,
            st.geo.vertices.len() == v0,
            st.geo.num_points == np0,
            np0 + 2 * k <= usize::MAX,
            geo@.num_points == np0 + 2 * c,
            geo@.vertices == st.geo.vertices + Seq::new(2 * c as nat, |m: int| (np0 + m) as usize),
            geo@.prims == st.geo.prims,
            sources@ == st.sources + Seq::new(
                2 * c as nat,
                |m: int|
                    if m % 2 == 0 {
                        PointSource::PolygonFront(pts@[m / 2], prim)
                    } else {
                        PointSource::Base(pts@[m / 2])
                    },
            ),
            groups@ == st.groups,
            fv@ == Seq::new(c as nat, |q: int| (v0 + 2 * q) as usize),
            bv@ == Seq::new(c as nat, |q: int| (v0 + 2 * q + 1) as usize),
        decreases k - c,
    {
        let ghost s0 = sources@;
        let ghost vs0 = geo@.vertices;
        let pf = geo.add_point();
        let pb = geo.add_point();
        let vf = geo.add_vertex(pf);
        let vb = geo.add_vertex(pb);
        fv.push(vf);
        bv.push(vb);
        sources.push(PointSource::PolygonFront(pts[c], prim));
        sources.push(PointSource::Base(pts[c]));
        proof {
            assert(geo@.vertices =~= st.geo.vertices + Seq::new(2 * (c + 1) as nat, |m: int| (np0 + m) as usize)) by {
                assert(vs0 =~= st.geo.vertices + Seq::new(2 * c as nat, |m: int| (np0 + m) as usize));
            }
            assert(sources@ =~= st.sources + Seq::new(
                2 * (c + 1) as nat,
                |m: int|
                    if m % 2 == 0 {
                        PointSource::PolygonFront(pts@[m / 2], prim)
                    } else {
                        PointSource::Base(pts@[m / 2])
                    },
            ));
            assert(fv@ =~= Seq::new((c + 1) as nat, |q: int| (v0 + 2 * q) as usize));
            assert(bv@ =~= Seq::new((c + 1) as nat, |q: int| (v0 + 2 * q + 1) as usize));
        }
        c += 1;
    }
    let ghost bv0 = bv@;
    let ghost fronts = if f.front {
        seq![PrimModel::Polygon(fv@)]
    } else {
        Seq::empty()
    };
    let ghost gf = if f.front {
        seq![FaceGroup::Front]
    } else {
        Seq::empty()
    };
    if f.front {
        let mut fv2: Vec<usize> = Vec::new();
        let mut q: usize = 0;
        while q < k
            invariant
                q <= k,
                k == fv@.len(),
                fv2@ == fv@.take(q as int),
            decreases k - q,
        {
            fv2.push(fv[q]);
            q += 1;
            assert(fv2@ =~= fv@.take(q as int));
        }
        assert(fv2@ =~= fv@);
        geo.add_primitive(Primitive::Polygon { vertices: fv2 });
        groups.push(FaceGroup::Front);
    }
    assert(geo@.prims =~= st.geo.prims + fronts);
    assert(groups@ =~= st.groups + gf);
    let ghost backs = if f.back {
        seq![PrimModel::Polygon(bv0.reverse())]
    } else {
        Seq::empty()
    };
    let ghost gb = if f.back {
        seq![FaceGroup::Back]
    } else {
        Seq::empty()
    };
    if f.back {
        let mut rev: Vec<usize> = Vec::new();
        let mut q: usize = 0;
        while q < k
            invariant
                q <= k,
                k == bv@.len(),
                bv@ == bv0,
                rev@ == bv0.reverse().take(q as int),
            decreases k - q,
        {
            rev.push(bv[k - 1 - q]);
            q += 1;
            assert(rev@ =~= bv0.reverse().take(q as int));
        }
        assert(rev@ =~= bv0.reverse());
        let mut rev2: Vec<usize> = Vec::new();
        let mut q2: usize = 0;
        while q2 < k
            invariant
                q2 <= k,
                k == rev@.len(),
                rev2@ == rev@.take(q2 as int),
            decreases k - q2,
        {
            rev2.push(rev[q2]);
            q2 += 1;
            assert(rev2@ =~= rev@.take(q2 as int));
        }
        assert(rev2@ =~= rev@);
        geo.add_primitive(Primitive::Polygon { vertices: rev2 });
        groups.push(FaceGroup::Back);
        bv = rev;
    }
    assert(geo@.prims =~= st.geo.prims + fronts + backs);
    assert(groups@ =~= st.groups + gf + gb);
    let ghost bvs = bv@;
    assert(bvs == if f.back {
        bv0.reverse()
    } else {
        bv0
    });
    if f.side {
        let ghost base_prims = geo@.prims;
        let ghost base_groups = groups@;
        let ghost base_vertices = geo@.vertices;
        let mut c: usize = 0;
        while c < k
            invariant
                c <= k,
                k >= 1,
                k == bv@.len(),
                k == fv@.len(),
                bv@ == bvs,
                geo@.num_points == np0 + 2 * k,
                geo@.vertices == base_vertices,
                geo@.prims == base_prims + Seq::new(
                    c as nat,
                    |q: int| PrimModel::Polygon(seq![bvs[q], bvs[(q + 1) % (k as int)], fv@[(q + 1) % (k as int)], fv@[q]]),
                ),
                groups@ == base_groups + Seq::new(c as nat, |q: int| FaceGroup::Side),
            decreases k - c,
        {
            let next = (c + 1) % k;
            let mut quad: Vec<usize> = Vec::new();
            quad.push(bv[c]);
            quad.push(bv[next]);
            quad.push(fv[next]);
            quad.push(fv[c]);
            let ghost p0 = geo@.prims;
            geo.add_primitive(Primitive::Polygon { vertices: quad });
            groups.push(FaceGroup::Side);
            proof {
                assert(quad@ =~= seq![bvs[c as int], bvs[(c + 1) % (k as int)], fv@[(c + 1) % (k as int)], fv@[c as int]]);
                assert(geo@.prims =~= base_prims + Seq::new(
                    (c + 1) as nat,
                    |q: int| PrimModel::Polygon(seq![bvs[q], bvs[(q + 1) % (k as int)], fv@[(q + 1) % (k as int)], fv@[q]]),
                ));
                assert(groups@ =~= base_groups + Seq::new((c + 1) as nat, |q: int| FaceGroup::Side));
            }
            c += 1;
        }
    }
    proof {
        let m = individual_block(st, pts@, prim as int, f);
        assert(fv@ =~= Seq::new(k as nat, |q: int| (st.geo.vertices.len() + 2 * q) as usize));
        assert(bv0 =~= Seq::new(k as nat, |q: int| (st.geo.vertices.len() + 2 * q + 1) as usize));
        assert(geo@.prims =~= m.geo.prims);
        assert(groups@ =~= m.groups);
        assert(geo@.vertices =~= m.geo.vertices);
        assert(sources@ =~= m.sources);
    }
}

proof fn lemma_corner_count_mono(prims: Seq<PrimModel>, a: int, b: int)
    requires
        a <= b,
    ensures
        corner_count(prims, a) <= corner_count(prims, b),
    decreases b - a,
{
    if a < b {
        lemma_corner_count_mono(prims, a, b - 1);
    }
}

/// Extrudes every selected polygon on its own (see `individual_prefix`):
/// polygons share no new points, and only polygons of at least three corners
/// whose points all have positions are extruded; everything else is dropped.
/// `npos` is the number of input point positions.
pub fn extrude_individual(geo: &Geometry, npos: usize, sel: &Vec<bool>, f: ExtrudeFaces) -> (r: Extrusion)
    requires
        2 * corner_count(geo@.prims, geo@.prims.len() as int) <= usize::MAX,
    ensures
        r@ == individual_prefix(geo@, npos as nat, sel@, f, geo@.prims.len() as int),
{
    let mut out_geo = Geometry::new();
    let mut sources: Vec<PointSource> = Vec::new();
    let mut groups: Vec<FaceGroup> = Vec::new();
    let ghost n = geo@.prims.len() as int;
    let mut i: usize = 0;
    proof {
        assert(ExModel { geo: out_geo@, sources: sources@, groups: groups@ } == individual_prefix(geo@, npos as nat, sel@, f, 0)) by {
            assert(out_geo@ =~= empty_model().geo);
        }
    }
    while i < geo.primitives.len()
        invariant
            i <= geo.primitives.len(),
            n == geo@.prims.len(),
            2 * corner_count(geo@.prims, n) <= usize::MAX,
            (ExModel { geo: out_geo@, sources: sources@, groups: groups@ }) == individual_prefix(geo@, npos as nat, sel@, f, i as int),
            out_geo@.vertices.len() == out_geo@.num_points,
            out_geo@.num_points <= 2 * corner_count(geo@.prims, i as int),
        decreases geo.primitives.len() - i,
    {
        let ghost st = individual_prefix(geo@, npos as nat, sel@, f, i as int);
        proof {
            lemma_corner_count_mono(geo@.prims, i + 1, n);
        }
        let is_sel = i < sel.len() && sel[i];
        match &geo.primitives[i] {
            Primitive::Polygon { vertices } => {
                assert(geo@.prims[i as int] == PrimModel::Polygon(vertices@));
                if is_sel && vertices.len() >= 3 {
                    match corner_points_exec(geo, npos, vertices) {
                        Some(pts) => {
                            push_individual_block(&mut out_geo, &mut sources, &mut groups, &pts, i, f);
                        },
                        None => {},
                    }
                }
            },
            _ => {},
        }
        proof {
            assert(ExModel { geo: out_geo@, sources: sources@, groups: groups@ } == individual_step(st, geo@, npos as nat, sel@, f, i as int));
        }
        i += 1;
    }
    Extrusion { geometry: out_geo, sources, groups }
}

/// An extrusion in progress: the output so far, the front point made for
/// each selected input point, and the base copy made for each input point.
pub struct ExState {
    pub m: ExModel,
    pub front: Map<usize, usize>,
    pub base: Map<usize, usize>,
}

/// `m` with one more point, which comes from `s`.
pub open spec fn with_point(m: ExModel, s: PointSource) -> ExModel {
    ExModel {
        geo: GeoModel { num_points: m.geo.num_points + 1, vertices: m.geo.vertices, prims: m.geo.prims },
        sources: m.sources.push(s),
        groups: m.groups,
    }
}

/// `m` with one more vertex, referencing point `p`.
pub open spec fn with_vertex(m: ExModel, p: usize) -> ExModel {
    ExModel {
        geo: GeoModel { num_points: m.geo.num_points, vertices: m.geo.vertices.push(p), prims: m.geo.prims },
        sources: m.sources,
        groups: m.groups,
    }
}

/// `m` with one more primitive, in face group `fg`.
pub open spec fn with_prim(m: ExModel, prim: PrimModel, fg: FaceGroup) -> ExModel {
    ExModel {
        geo: GeoModel { num_points: m.geo.num_points, vertices: m.geo.vertices, prims: m.geo.prims.push(prim) },
        sources: m.sources,
        groups: m.groups.push(fg),
    }
}

/// The base copy of input point `p`: the one made before, else a new point
/// when `p` has a position; `None` when it has none.
pub open spec fn base_of(st: ExState, g: GeoModel, npos: nat, p: usize) -> (Option<usize>, ExState) {
    if st.base.dom().contains(p) {
        (Some(st.base[p]), st)
    } else if has_pos(g, npos, p) {
        let np = st.m.geo.num_points as usize;
        (Some(np), ExState { m: with_point(st.m, PointSource::Base(p)), front: st.front, base: st.base.insert(p, np) })
    } else {
        (None, st)
    }
}

/// Copies the first `j` vertices `vids` onto base points, one new vertex
/// each: the state after, the new vertices, and whether every vertex so far
/// existed and had a base point (the walk stops at the first that does not).
pub open spec fn base_walk(st: ExState, g: GeoModel, npos: nat, vids: Seq<usize>, j: int) -> (ExState, Seq<usize>, bool)
    decreases j,
{
    if j <= 0 {
        (st, Seq::empty(), true)
    } else {
        let (s, vs, ok) = base_walk(st, g, npos, vids, j - 1);
        let vid = vids[j - 1];
        if !ok || vid >= g.vertices.len() {
            (s, vs, false)
        } else {
            let (b, s2) = base_of(s, g, npos, g.vertices[vid as int]);
            match b {
                Some(pb) => (
                    ExState { m: with_vertex(s2.m, pb), front: s2.front, base: s2.base },
                    vs.push(s2.m.geo.vertices.len() as usize),
                    true,
                ),
                None => (s2, vs, false),
            }
        }
    }
}

/// Number of points an extrusion state has.
pub open spec fn npoints(st: ExState) -> nat {
    st.m.geo.num_points
}

proof fn lemma_base_of_growth(st: ExState, g: GeoModel, npos: nat, p: usize)
    ensures
        npoints(base_of(st, g, npos, p).1) <= npoints(st) + 1,
        base_of(st, g, npos, p).1.front == st.front,
        base_of(st, g, npos, p).1.m.geo.vertices == st.m.geo.vertices,
        base_of(st, g, npos, p).1.m.geo.prims == st.m.geo.prims,
        base_of(st, g, npos, p).1.m.groups == st.m.groups,
        npoints(base_of(st, g, npos, p).1) == base_of(st, g, npos, p).1.m.sources.len() - st.m.sources.len() + npoints(st),
{
}

proof fn lemma_base_walk_growth(st: ExState, g: GeoModel, npos: nat, vids: Seq<usize>, j: int)
    requires
        0 <= j <= vids.len(),
    ensures
        npoints(base_walk(st, g, npos, vids, j).0) <= npoints(st) + j,
        base_walk(st, g, npos, vids, j).0.front == st.front,
        base_walk(st, g, npos, vids, j).0.m.geo.prims == st.m.geo.prims,
        base_walk(st, g, npos, vids, j).0.m.groups == st.m.groups,
    decreases j,
{
    if j > 0 {
        lemma_base_walk_growth(st, g, npos, vids, j - 1);
        let (s, vs, ok) = base_walk(st, g, npos, vids, j - 1);
        let vid = vids[j - 1];
        if ok && vid < g.vertices.len() {
            lemma_base_of_growth(s, g, npos, g.vertices[vid as int]);
        }
    }
}

proof fn lemma_base_walk_stops(st: ExState, g: GeoModel, npos: nat, vids: Seq<usize>, j: int, m: int)
    requires
        0 <= j <= m,
        !base_walk(st, g, npos, vids, j).2,
    ensures
        base_walk(st, g, npos, vids, m) == base_walk(st, g, npos, vids, j),
    decreases m - j,
{
    if m > j {
        lemma_base_walk_stops(st, g, npos, vids, j, m - 1);
    }
}

/// The exec state of an extrusion in progress.
struct Builder {
    geo: Geometry,
    sources: Vec<PointSource>,
    groups: Vec<FaceGroup>,
    front: HashMap<usize, usize>,
    base: HashMap<usize, usize>,
}

impl Builder {
    spec fn state(&self) -> ExState {
        ExState {
            m: ExModel { geo: self.geo@, sources: self.sources@, groups: self.groups@ },
            front: self.front@,
            base: self.base@,
        }
    }

    fn base_point(&mut self, g: &Geometry, npos: usize, p: usize) -> (r: Option<usize>)
        requires
            npoints(old(self).state()) < usize::MAX,
        ensures
            (r, final(self).state()) == base_of(old(self).state(), g@, npos as nat, p),
    {
        match self.base.get(&p) {
            Some(b) => Some(*b),
            None => {
                if p < g.num_points && p < npos {
                    let np = self.geo.add_point();
                    self.sources.push(PointSource::Base(p));
                    self.base.insert(p, np);
                    Some(np)
                } else {
                    None
                }
            },
        }
    }

    /// Walks `vids` onto base points (see `base_walk`).
    fn base_walk_exec(&mut self, g: &Geometry, npos: usize, vids: &Vec<usize>) -> (r: (Vec<usize>, bool))
        requires
            npoints(old(self).state()) + vids@.len() < usize::MAX,
        ensures
            ({
                let (s, vs, ok) = base_walk(old(self).state(), g@, npos as nat, vids@, vids@.len() as int);
                &&& final(self).state() == s
                &&& r.0@ == vs
                &&& r.1 == ok
            }),
    {
        let ghost st0 = self.state();
        let mut vs: Vec<usize> = Vec::new();
        let mut j: usize = 0;
        while j < vids.len()
            invariant
                j <= vids.len(),
                st0 == old(self).state(),
                npoints(st0) + vids@.len() < usize::MAX,
                ({
                    let (s, w, ok) = base_walk(st0, g@, npos as nat, vids@, j as int);
                    &&& self.state() == s
                    &&& vs@ == w
                    &&& ok
                }),
            decreases vids.len() - j,
        {
            proof {
                lemma_base_walk_growth(st0, g@, npos as nat, vids@, j as int);
            }
            let vid = vids[j];
            if vid >= g.vertices.len() {
                proof {
                    lemma_base_walk_stops(st0, g@, npos as nat, vids@, j + 1, vids@.len() as int);
                }
                return (vs, false);
            }
            match self.base_point(g, npos, g.vertices[vid]) {
                Some(pb) => {
                    let v = self.geo.add_vertex(pb);
                    vs.push(v);
                },
                None => {
                    proof {
                        lemma_base_walk_stops(st0, g@, npos as nat, vids@, j + 1, vids@.len() as int);
                    }
                    return (vs, false);
                },
            }
            j += 1;
        }
        (vs, true)
    }
}

/// `pts` followed by the points of the existing vertices among the first
/// `j` of `vids` that are not in it yet, each once, in order.
pub open spec fn gather_points(pts: Seq<usize>, g: GeoModel, vids: Seq<usize>, j: int) -> Seq<usize>
    decreases j,
{
    if j <= 0 {
        pts
    } else {
        let r = gather_points(pts, g, vids, j - 1);
        let vid = vids[j - 1];
        if vid < g.vertices.len() && !r.contains(g.vertices[vid as int]) {
            r.push(g.vertices[vid as int])
        } else {
            r
        }
    }
}

/// The points of the selected polygons and polylines among the first `n`
/// primitives, each once, in order of first appearance.
pub open spec fn selected_points(g: GeoModel, sel: Seq<bool>, n: int) -> Seq<usize>
    decreases n,
{
    if n <= 0 {
        Seq::empty()
    } else {
        let r = selected_points(g, sel, n - 1);
        if selected(sel, n - 1) {
            match g.prims[n - 1] {
                PrimModel::Polygon(v) => gather_points(r, g, v, v.len() as int),
                PrimModel::Polyline(v, _) => gather_points(r, g, v, v.len() as int),
                _ => r,
            }
        } else {
            r
        }
    }
}

/// The front point of each of the first `n` of `pts`: its position in `pts`.
pub open spec fn front_map(pts: Seq<usize>, n: int) -> Map<usize, usize>
    decreases n,
{
    if n <= 0 {
        Map::empty()
    } else {
        front_map(pts, n - 1).insert(pts[n - 1], (n - 1) as usize)
    }
}

/// The state once a front point is made for each point of `pts`, in order.
pub open spec fn front_state(pts: Seq<usize>) -> ExState {
    ExState {
        m: ExModel {
            geo: GeoModel { num_points: pts.len(), vertices: Seq::empty(), prims: Seq::empty() },
            sources: Seq::new(pts.len(), |q: int| PointSource::Front(pts[q])),
            groups: Seq::empty(),
        },
        front: front_map(pts, pts.len() as int),
        base: Map::empty(),
    }
}

proof fn lemma_front_map_dom(pts: Seq<usize>, n: int)
    requires
        0 <= n <= pts.len(),
    ensures
        forall|p: usize| #[trigger] front_map(pts, n).dom().contains(p) <==> pts.take(n).contains(p),
    decreases n,
{
    if n > 0 {
        lemma_front_map_dom(pts, n - 1);
        assert forall|p: usize| #[trigger] front_map(pts, n).dom().contains(p) <==> pts.take(n).contains(p) by {
            assert(front_map(pts, n - 1).dom().contains(p) <==> pts.take(n - 1).contains(p));
            if pts.take(n).contains(p) {
                let q = choose|q: int| 0 <= q < n && #[trigger] pts.take(n)[q] == p;
                if q < n - 1 {
                    assert(pts.take(n - 1)[q] == p);
                }
            }
            if pts.take(n - 1).contains(p) {
                let q = choose|q: int| 0 <= q < n - 1 && #[trigger] pts.take(n - 1)[q] == p;
                assert(pts.take(n)[q] == p);
            }
            if p == pts[n - 1] {
                assert(pts.take(n)[n - 1] == p);
            }
        }
    } else {
        assert(pts.take(0).len() == 0);
    }
}

proof fn lemma_gather_growth(pts: Seq<usize>, g: GeoModel, vids: Seq<usize>, j: int)
    requires
        0 <= j <= vids.len(),
    ensures
        gather_points(pts, g, vids, j).len() <= pts.len() + j,
        pts.len() <= gather_points(pts, g, vids, j).len(),
        gather_points(pts, g, vids, j).take(pts.len() as int) == pts,
    decreases j,
{
    if j > 0 {
        lemma_gather_growth(pts, g, vids, j - 1);
        let r = gather_points(pts, g, vids, j - 1);
        assert(r.push(0usize).take(pts.len() as int) =~= r.take(pts.len() as int));
        let vid = vids[j - 1];
        if vid < g.vertices.len() && !r.contains(g.vertices[vid as int]) {
            assert(r.push(g.vertices[vid as int]).take(pts.len() as int) =~= r.take(pts.len() as int));
        }
    } else {
        assert(pts.take(pts.len() as int) =~= pts);
    }
}

proof fn lemma_selected_points_len(g: GeoModel, sel: Seq<bool>, n: int)
    requires
        0 <= n <= g.prims.len(),
    ensures
        selected_points(g, sel, n).len() <= corner_count(g.prims, n),
    decreases n,
{
    if n > 0 {
        lemma_selected_points_len(g, sel, n - 1);
        let r = selected_points(g, sel, n - 1);
        match g.prims[n - 1] {
            PrimModel::Polygon(v) => lemma_gather_growth(r, g, v, v.len() as int),
            PrimModel::Polyline(v, _) => lemma_gather_growth(r, g, v, v.len() as int),
            _ => {},
        }
    }
}

/// The primitives copied from the input, before the faces.
pub open spec fn copy_step(st: ExState, g: GeoModel, npos: nat, sel: Seq<bool>, i: int) -> ExState {
    if selected(sel, i) {
        st
    } else {
        match g.prims[i] {
            PrimModel::Polygon(v) => {
                let (s, vs, ok) = base_walk(st, g, npos, v, v.len() as int);
                if ok && vs.len() > 0 {
                    ExState { m: with_prim(s.m, PrimModel::Polygon(vs), FaceGroup::Kept), front: s.front, base: s.base }
                } else {
                    s
                }
            },
            PrimModel::Polyline(v, closed) => {
                let (s, vs, ok) = base_walk(st, g, npos, v, v.len() as int);
                if ok && vs.len() > 0 {
                    ExState {
                        m: with_prim(s.m, PrimModel::Polyline(vs, closed), FaceGroup::Kept),
                        front: s.front,
                        base: s.base,
                    }
                } else {
                    s
                }
            },
            _ => st,
        }
    }
}

/// The copies of the unselected primitives among the first `n`.
pub open spec fn copy_prefix(st: ExState, g: GeoModel, npos: nat, sel: Seq<bool>, n: int) -> ExState
    decreases n,
{
    if n <= 0 {
        st
    } else {
        copy_step(copy_prefix(st, g, npos, sel, n - 1), g, npos, sel, n - 1)
    }
}

proof fn lemma_copy_prefix_growth(st: ExState, g: GeoModel, npos: nat, sel: Seq<bool>, n: int)
    requires
        0 <= n <= g.prims.len(),
    ensures
        npoints(copy_prefix(st, g, npos, sel, n)) <= npoints(st) + corner_count(g.prims, n),
        copy_prefix(st, g, npos, sel, n).front == st.front,
    decreases n,
{
    if n > 0 {
        lemma_copy_prefix_growth(st, g, npos, sel, n - 1);
        let s = copy_prefix(st, g, npos, sel, n - 1);
        match g.prims[n - 1] {
            PrimModel::Polygon(v) => lemma_base_walk_growth(s, g, npos, v, v.len() as int),
            PrimModel::Polyline(v, _) => lemma_base_walk_growth(s, g, npos, v, v.len() as int),
            _ => {},
        }
    }
}

/// Puts the first `j` vertices `vids` on front points, one new vertex each:
/// the state after, the new vertices, and whether every vertex so far
/// existed and had a front point (the walk stops at the first that does not).
pub open spec fn front_walk(st: ExState, g: GeoModel, vids: Seq<usize>, j: int) -> (ExState, Seq<usize>, bool)
    decreases j,
{
    if j <= 0 {
        (st, Seq::empty(), true)
    } else {
        let (s, vs, ok) = front_walk(st, g, vids, j - 1);
        let vid = vids[j - 1];
        if !ok || vid >= g.vertices.len() || !s.front.dom().contains(g.vertices[vid as int]) {
            (s, vs, false)
        } else {
            (
                ExState {
                    m: with_vertex(s.m, s.front[g.vertices[vid as int]]),
                    front: s.front,
                    base: s.base,
                },
                vs.push(s.m.geo.vertices.len() as usize),
                true,
            )
        }
    }
}

/// The front face of a selected polygon (when `f.front`), then its back
/// face over base points in reverse order (when `f.back`); each is output
/// only when all its corners were found and it has at least three.
pub open spec fn faces_step(st: ExState, g: GeoModel, npos: nat, sel: Seq<bool>, f: ExtrudeFaces, i: int) -> ExState {
    if !selected(sel, i) {
        st
    } else {
        match g.prims[i] {
            PrimModel::Polygon(v) => {
                let s1 = if f.front {
                    let (s, vs, ok) = front_walk(st, g, v, v.len() as int);
                    if ok && vs.len() >= 3 {
                        ExState { m: with_prim(s.m, PrimModel::Polygon(vs), FaceGroup::Front), front: s.front, base: s.base }
                    } else {
                        s
                    }
                } else {
                    st
                };
                if f.back {
                    let (s, vs, ok) = base_walk(s1, g, npos, v.reverse(), v.len() as int);
                    if ok && vs.len() >= 3 {
                        ExState { m: with_prim(s.m, PrimModel::Polygon(vs), FaceGroup::Back), front: s.front, base: s.base }
                    } else {
                        s
                    }
                } else {
                    s1
                }
            },
            _ => st,
        }
    }
}

/// The front and back faces of the selected polygons among the first `n`.
pub open spec fn faces_prefix(st: ExState, g: GeoModel, npos: nat, sel: Seq<bool>, f: ExtrudeFaces, n: int) -> ExState
    decreases n,
{
    if n <= 0 {
        st
    } else {
        faces_step(faces_prefix(st, g, npos, sel, f, n - 1), g, npos, sel, f, n - 1)
    }
}

proof fn lemma_front_walk_growth(st: ExState, g: GeoModel, vids: Seq<usize>, j: int)
    ensures
        npoints(front_walk(st, g, vids, j).0) == npoints(st),
        front_walk(st, g, vids, j).0.front == st.front,
    decreases j,
{
    if j > 0 {
        lemma_front_walk_growth(st, g, vids, j - 1);
    }
}

proof fn lemma_faces_prefix_growth(st: ExState, g: GeoModel, npos: nat, sel: Seq<bool>, f: ExtrudeFaces, n: int)
    requires
        0 <= n <= g.prims.len(),
    ensures
        npoints(faces_prefix(st, g, npos, sel, f, n)) <= npoints(st) + corner_count(g.prims, n),
        faces_prefix(st, g, npos, sel, f, n).front == st.front,
    decreases n,
{
    if n > 0 {
        lemma_faces_prefix_growth(st, g, npos, sel, f, n - 1);
        let s = faces_prefix(st, g, npos, sel, f, n - 1);
        match g.prims[n - 1] {
            PrimModel::Polygon(v) => {
                lemma_front_walk_growth(s, g, v, v.len() as int);
                let s1 = if f.front {
                    let (s2, vs, ok) = front_walk(s, g, v, v.len() as int);
                    if ok && vs.len() >= 3 {
                        ExState { m: with_prim(s2.m, PrimModel::Polygon(vs), FaceGroup::Front), front: s2.front, base: s2.base }
                    } else {
                        s2
                    }
                } else {
                    s
                };
                lemma_base_walk_growth(s1, g, npos, v.reverse(), v.len() as int);
            },
            _ => {},
        }
    }
}

/// The side quads from base points `pb1`, `pb2` towards front points `pf1`,
/// `pf2`, from division `d` on: division `d + 1` ends on two new points
/// `(d + 1) / div` of the way along each edge, the last one on the front
/// points, and its quad runs `last1, last2, c2, c1`.
pub open spec fn strip_steps(
    st: ExState,
    pb1: usize,
    pf1: usize,
    pb2: usize,
    pf2: usize,
    last1: usize,
    last2: usize,
    d: nat,
    div: nat,
) -> ExState
    decreases div - d,
{
    if d >= div {
        st
    } else {
        let step = d + 1;
        let (c1, m1) = if step == div {
            (pf1, st.m)
        } else {
            (
                st.m.geo.num_points as usize,
                with_point(st.m, PointSource::Between { from: pb1, to: pf1, step: step as u32, steps: div as u32 }),
            )
        };
        let (c2, m2) = if step == div {
            (pf2, m1)
        } else {
            (
                m1.geo.num_points as usize,
                with_point(m1, PointSource::Between { from: pb2, to: pf2, step: step as u32, steps: div as u32 }),
            )
        };
        let v0 = m2.geo.vertices.len();
        let m3 = with_vertex(with_vertex(with_vertex(with_vertex(m2, last1), last2), c2), c1);
        let quad = seq![v0 as usize, (v0 + 1) as usize, (v0 + 2) as usize, (v0 + 3) as usize];
        let m4 = with_prim(m3, PrimModel::Polygon(quad), FaceGroup::Side);
        strip_steps(ExState { m: m4, front: st.front, base: st.base }, pb1, pf1, pb2, pf2, c1, c2, step, div)
    }
}

/// The side of the edge from input point `p1` to `p2`: `div` quads from
/// their base copies to their front points (the base copy again for a point
/// without a front point); nothing when either has no base copy.
pub open spec fn side_strip(st: ExState, g: GeoModel, npos: nat, p1: usize, p2: usize, div: nat) -> ExState {
    let (b1, s1) = base_of(st, g, npos, p1);
    match b1 {
        None => s1,
        Some(pb1) => {
            let (b2, s2) = base_of(s1, g, npos, p2);
            match b2 {
                None => s2,
                Some(pb2) => {
                    let pf1 = if s2.front.dom().contains(p1) {
                        s2.front[p1]
                    } else {
                        pb1
                    };
                    let pf2 = if s2.front.dom().contains(p2) {
                        s2.front[p2]
                    } else {
                        pb2
                    };
                    strip_steps(s2, pb1, pf1, pb2, pf2, pb1, pb2, 0, div)
                },
            }
        },
    }
}

proof fn lemma_strip_steps_growth(
    st: ExState,
    pb1: usize,
    pf1: usize,
    pb2: usize,
    pf2: usize,
    last1: usize,
    last2: usize,
    d: nat,
    div: nat,
)
    requires
        d <= div,
    ensures
        npoints(strip_steps(st, pb1, pf1, pb2, pf2, last1, last2, d, div)) <= npoints(st) + 2 * (div - d),
        strip_steps(st, pb1, pf1, pb2, pf2, last1, last2, d, div).front == st.front,
    decreases div - d,
{
    if d < div {
        let step = d + 1;
        let (c1, m1) = if step == div {
            (pf1, st.m)
        } else {
            (
                st.m.geo.num_points as usize,
                with_point(st.m, PointSource::Between { from: pb1, to: pf1, step: step as u32, steps: div as u32 }),
            )
        };
        let (c2, m2) = if step == div {
            (pf2, m1)
        } else {
            (
                m1.geo.num_points as usize,
                with_point(m1, PointSource::Between { from: pb2, to: pf2, step: step as u32, steps: div as u32 }),
            )
        };
        let v0 = m2.geo.vertices.len();
        let m3 = with_vertex(with_vertex(with_vertex(with_vertex(m2, last1), last2), c2), c1);
        let quad = seq![v0 as usize, (v0 + 1) as usize, (v0 + 2) as usize, (v0 + 3) as usize];
        let m4 = with_prim(m3, PrimModel::Polygon(quad), FaceGroup::Side);
        lemma_strip_steps_growth(ExState { m: m4, front: st.front, base: st.base }, pb1, pf1, pb2, pf2, c1, c2, step, div);
    }
}

proof fn lemma_side_strip_growth(st: ExState, g: GeoModel, npos: nat, p1: usize, p2: usize, div: nat)
    ensures
        npoints(side_strip(st, g, npos, p1, p2, div)) <= npoints(st) + 2 * div + 2,
        side_strip(st, g, npos, p1, p2, div).front == st.front,
{
    let (b1, s1) = base_of(st, g, npos, p1);
    lemma_base_of_growth(st, g, npos, p1);
    if let Some(pb1) = b1 {
        let (b2, s2) = base_of(s1, g, npos, p2);
        lemma_base_of_growth(s1, g, npos, p2);
        if let Some(pb2) = b2 {
            let pf1 = if s2.front.dom().contains(p1) {
                s2.front[p1]
            } else {
                pb1
            };
            let pf2 = if s2.front.dom().contains(p2) {
                s2.front[p2]
            } else {
                pb2
            };
            lemma_strip_steps_growth(s2, pb1, pf1, pb2, pf2, pb1, pb2, 0, div);
        }
    }
}

/// A half-edge of a polygon: from point `origin` to point `dest` along
/// primitive `prim`, and its opposite half-edge, if any.
#[derive(Clone, Copy, Debug, PartialEq, Eq, Structural)]
pub struct PolyHalfEdge {
    pub origin: usize,
    pub dest: usize,
    pub prim: usize,
    pub pair: Option<usize>,
}

/// Whether half-edge `h` lies on the border of the selection: it has no
/// opposite half-edge, or that one's primitive is missing or not selected.
pub open spec fn on_border(g: GeoModel, sel: Seq<bool>, hes: Seq<PolyHalfEdge>, h: int) -> bool {
    match hes[h].pair {
        None => true,
        Some(q) => !(q < hes.len() && hes[q as int].prim < g.prims.len() && selected(sel, hes[q as int].prim as int)),
    }
}

/// The side of half-edge `h`, when it belongs to a selected primitive and
/// lies on the border of the selection.
pub open spec fn edge_step(st: ExState, g: GeoModel, npos: nat, sel: Seq<bool>, hes: Seq<PolyHalfEdge>, div: nat, h: int) -> ExState {
    let he = hes[h];
    if he.prim < g.prims.len() && selected(sel, he.prim as int) && on_border(g, sel, hes, h) {
        side_strip(st, g, npos, he.origin, he.dest, div)
    } else {
        st
    }
}

/// The sides of the first `n` half-edges.
pub open spec fn edges_prefix(st: ExState, g: GeoModel, npos: nat, sel: Seq<bool>, hes: Seq<PolyHalfEdge>, div: nat, n: int) -> ExState
    decreases n,
{
    if n <= 0 {
        st
    } else {
        edge_step(edges_prefix(st, g, npos, sel, hes, div, n - 1), g, npos, sel, hes, div, n - 1)
    }
}

/// The sides of the first `n` segments of a polyline with vertices `vids`;
/// a segment with a missing vertex has none.
pub open spec fn segments_of(st: ExState, g: GeoModel, npos: nat, vids: Seq<usize>, div: nat, n: int) -> ExState
    decreases n,
{
    if n <= 0 {
        st
    } else {
        let s = segments_of(st, g, npos, vids, div, n - 1);
        let v1 = vids[n - 1];
        let v2 = vids[n];
        if v1 < g.vertices.len() && v2 < g.vertices.len() {
            side_strip(s, g, npos, g.vertices[v1 as int], g.vertices[v2 as int], div)
        } else {
            s
        }
    }
}

/// The sides of the segments of the selected polylines among the first `n`
/// primitives.
pub open spec fn polyline_sides(st: ExState, g: GeoModel, npos: nat, sel: Seq<bool>, div: nat, n: int) -> ExState
    decreases n,
{
    if n <= 0 {
        st
    } else {
        let s = polyline_sides(st, g, npos, sel, div, n - 1);
        match g.prims[n - 1] {
            PrimModel::Polyline(v, _) => {
                if selected(sel, n - 1) && v.len() >= 2 {
                    segments_of(s, g, npos, v, div, v.len() - 1)
                } else {
                    s
                }
            },
            _ => s,
        }
    }
}

/// Connected extrusion. The selected points each get a front point, in order
/// of first appearance; when one of them has no position the result is
/// empty. The unselected polygons and polylines are copied onto base copies
/// of their points; each selected polygon gets its front face and its back
/// face; and, when `f.side`, every border half-edge and every segment of a
/// selected polyline gets a side of `div` quads.
pub open spec fn connected_extrusion(
    g: GeoModel,
    npos: nat,
    sel: Seq<bool>,
    hes: Seq<PolyHalfEdge>,
    f: ExtrudeFaces,
    div: nat,
) -> ExModel {
    let n = g.prims.len() as int;
    let pts = selected_points(g, sel, n);
    if exists|q: int| 0 <= q < pts.len() && !has_pos(g, npos, #[trigger] pts[q]) {
        empty_model()
    } else {
        let s1 = copy_prefix(front_state(pts), g, npos, sel, n);
        let s2 = faces_prefix(s1, g, npos, sel, f, n);
        if f.side {
            polyline_sides(edges_prefix(s2, g, npos, sel, hes, div, hes.len() as int), g, npos, sel, div, n).m
        } else {
            s2.m
        }
    }
}

proof fn lemma_edges_prefix_growth(st: ExState, g: GeoModel, npos: nat, sel: Seq<bool>, hes: Seq<PolyHalfEdge>, div: nat, n: int)
    requires
        0 <= n,
    ensures
        npoints(edges_prefix(st, g, npos, sel, hes, div, n)) <= npoints(st) + (2 * div + 2) * n,
        edges_prefix(st, g, npos, sel, hes, div, n).front == st.front,
    decreases n,
{
    if n > 0 {
        lemma_edges_prefix_growth(st, g, npos, sel, hes, div, n - 1);
        let s = edges_prefix(st, g, npos, sel, hes, div, n - 1);
        let he = hes[n - 1];
        lemma_side_strip_growth(s, g, npos, he.origin, he.dest, div);
        assert((2 * div + 2) * n == (2 * div + 2) * (n - 1) + (2 * div + 2)) by (nonlinear_arith);
    }
}

proof fn lemma_segments_of_growth(st: ExState, g: GeoModel, npos: nat, vids: Seq<usize>, div: nat, n: int)
    requires
        0 <= n,
    ensures
        npoints(segments_of(st, g, npos, vids, div, n)) <= npoints(st) + (2 * div + 2) * n,
        segments_of(st, g, npos, vids, div, n).front == st.front,
    decreases n,
{
    if n > 0 {
        lemma_segments_of_growth(st, g, npos, vids, div, n - 1);
        let s = segments_of(st, g, npos, vids, div, n - 1);
        let v1 = vids[n - 1];
        let v2 = vids[n];
        if v1 < g.vertices.len() && v2 < g.vertices.len() {
            lemma_side_strip_growth(s, g, npos, g.vertices[v1 as int], g.vertices[v2 as int], div);
        }
        assert((2 * div + 2) * n == (2 * div + 2) * (n - 1) + (2 * div + 2)) by (nonlinear_arith);
    }
}

proof fn lemma_polyline_sides_growth(st: ExState, g: GeoModel, npos: nat, sel: Seq<bool>, div: nat, n: int)
    requires
        0 <= n <= g.prims.len(),
    ensures
        npoints(polyline_sides(st, g, npos, sel, div, n)) <= npoints(st) + (2 * div + 2) * corner_count(g.prims, n),
        polyline_sides(st, g, npos, sel, div, n).front == st.front,
    decreases n,
{
    if n > 0 {
        lemma_polyline_sides_growth(st, g, npos, sel, div, n - 1);
        let s = polyline_sides(st, g, npos, sel, div, n - 1);
        let cc0 = corner_count(g.prims, n - 1);
        let k = g.prims[n - 1].verts().len();
        assert((2 * div + 2) * (cc0 + k) == (2 * div + 2) * cc0 + (2 * div + 2) * k) by (nonlinear_arith);
        match g.prims[n - 1] {
            PrimModel::Polyline(v, _) => {
                if selected(sel, n - 1) && v.len() >= 2 {
                    lemma_segments_of_growth(s, g, npos, v, div, v.len() - 1);
                    assert((2 * div + 2) * (v.len() - 1) <= (2 * div + 2) * k) by (nonlinear_arith)
                        requires v.len() == k;
                }
            },
            _ => {},
        }
        assert(0 <= (2 * div + 2) * k) by (nonlinear_arith);
    }
}

proof fn lemma_front_walk_stops(st: ExState, g: GeoModel, vids: Seq<usize>, j: int, m: int)
    requires
        0 <= j <= m,
        !front_walk(st, g, vids, j).2,
    ensures
        front_walk(st, g, vids, m) == front_walk(st, g, vids, j),
    decreases m - j,
{
    if m > j {
        lemma_front_walk_stops(st, g, vids, j, m - 1);
    }
}

proof fn lemma_front_map_prefix(pts: Seq<usize>, x: usize, n: int)
    requires
        0 <= n <= pts.len(),
    ensures
        front_map(pts.push(x), n) == front_map(pts, n),
    decreases n,
{
    if n > 0 {
        lemma_front_map_prefix(pts, x, n - 1);
        assert(pts.push(x)[n - 1] == pts[n - 1]);
    }
}

/// The selected points, in order of first appearance, and the front point
/// of each (its position in that list).
fn gather_selected(geo: &Geometry, sel: &Vec<bool>) -> (r: (Vec<usize>, HashMap<usize, usize>))
    ensures
        r.0@ == selected_points(geo@, sel@, geo@.prims.len() as int),
        r.1@ == front_map(r.0@, r.0@.len() as int),
{
    let mut pts: Vec<usize> = Vec::new();
    let mut front: HashMap<usize, usize> = HashMap::new();
    let mut i: usize = 0;
    proof {
        assert(front@ =~= front_map(pts@, 0));
    }
    while i < geo.primitives.len()
        invariant
            i <= geo.primitives.len(),
            pts@ == selected_points(geo@, sel@, i as int),
            front@ == front_map(pts@, pts@.len() as int),
        decreases geo.primitives.len() - i,
    {
        let is_sel = i < sel.len() && sel[i];
        if is_sel {
            let vids: &Vec<usize> = match &geo.primitives[i] {
                Primitive::Polygon { vertices } => vertices,
                Primitive::Polyline { vertices, .. } => vertices,
                Primitive::BezierCurve { vertices, .. } => vertices,
            };
            let is_curve = match &geo.primitives[i] {
                Primitive::BezierCurve { .. } => true,
                _ => false,
            };
            if !is_curve {
                let ghost r0 = pts@;
                let mut j: usize = 0;
                while j < vids.len()
                    invariant
                        j <= vids.len(),
                        pts@ == gather_points(r0, geo@, vids@, j as int),
                        front@ == front_map(pts@, pts@.len() as int),
                    decreases vids.len() - j,
                {
                    let vid = vids[j];
                    proof {
                        lemma_front_map_dom(pts@, pts@.len() as int);
                        assert(pts@.take(pts@.len() as int) =~= pts@);
                    }
                    if vid < geo.vertices.len() {
                        let p = geo.vertices[vid];
                        if !front.contains_key(&p) {
                            let ghost old_pts = pts@;
                            front.insert(p, pts.len());
                            pts.push(p);
                            proof {
                                lemma_front_map_prefix(old_pts, p, old_pts.len() as int);
                            }
                        }
                    }
                    j += 1;
                }
            }
        }
        proof {
            let r = selected_points(geo@, sel@, i as int);
            assert(selected_points(geo@, sel@, i + 1) == if selected(sel@, i as int) {
                match geo@.prims[i as int] {
                    PrimModel::Polygon(v) => gather_points(r, geo@, v, v.len() as int),
                    PrimModel::Polyline(v, _) => gather_points(r, geo@, v, v.len() as int),
                    _ => r,
                }
            } else {
                r
            });
        }
        i += 1;
    }
    (pts, front)
}

impl Builder {
    /// Puts the vertices `vids` on front points (see `front_walk`).
    fn front_walk_exec(&mut self, g: &Geometry, vids: &Vec<usize>) -> (r: (Vec<usize>, bool))
        ensures
            ({
                let (s, vs, ok) = front_walk(old(self).state(), g@, vids@, vids@.len() as int);
                &&& final(self).state() == s
                &&& r.0@ == vs
                &&& r.1 == ok
            }),
    {
        let ghost st0 = self.state();
        let mut vs: Vec<usize> = Vec::new();
        let mut j: usize = 0;
        while j < vids.len()
            invariant
                j <= vids.len(),
                st0 == old(self).state(),
                ({
                    let (s, w, ok) = front_walk(st0, g@, vids@, j as int);
                    &&& self.state() == s
                    &&& vs@ == w
                    &&& ok
                }),
            decreases vids.len() - j,
        {
            let vid = vids[j];
            if vid >= g.vertices.len() {
                proof {
                    lemma_front_walk_stops(st0, g@, vids@, j + 1, vids@.len() as int);
                }
                return (vs, false);
            }
            match self.front.get(&g.vertices[vid]) {
                Some(pf) => {
                    let v = self.geo.add_vertex(*pf);
                    vs.push(v);
                },
                None => {
                    proof {
                        lemma_front_walk_stops(st0, g@, vids@, j + 1, vids@.len() as int);
                    }
                    return (vs, false);
                },
            }
            j += 1;
        }
        (vs, true)
    }

    /// Copies primitive `i` when it is not selected (see `copy_step`).
    fn copy_prim(&mut self, g: &Geometry, npos: usize, sel: &Vec<bool>, i: usize)
        requires
            i < g@.prims.len(),
            npoints(old(self).state()) + g@.prims[i as int].verts().len() < usize::MAX,
        ensures
            final(self).state() == copy_step(old(self).state(), g@, npos as nat, sel@, i as int),
    {
        if i < sel.len() && sel[i] {
            return;
        }
        match &g.primitives[i] {
            Primitive::Polygon { vertices } => {
                let (vs, ok) = self.base_walk_exec(g, npos, vertices);
                if ok && vs.len() > 0 {
                    self.geo.add_primitive(Primitive::Polygon { vertices: vs });
                    self.groups.push(FaceGroup::Kept);
                }
            },
            Primitive::Polyline { vertices, closed } => {
                let (vs, ok) = self.base_walk_exec(g, npos, vertices);
                if ok && vs.len() > 0 {
                    self.geo.add_primitive(Primitive::Polyline { vertices: vs, closed: *closed });
                    self.groups.push(FaceGroup::Kept);
                }
            },
            _ => {},
        }
    }

    /// The front and back faces of primitive `i` (see `faces_step`).
    fn faces_of(&mut self, g: &Geometry, npos: usize, sel: &Vec<bool>, f: ExtrudeFaces, i: usize)
        requires
            i < g@.prims.len(),
            npoints(old(self).state()) + g@.prims[i as int].verts().len() < usize::MAX,
        ensures
            final(self).state() == faces_step(old(self).state(), g@, npos as nat, sel@, f, i as int),
    {
        if !(i < sel.len() && sel[i]) {
            return;
        }
        match &g.primitives[i] {
            Primitive::Polygon { vertices } => {
                let ghost st0 = self.state();
                if f.front {
                    let (vs, ok) = self.front_walk_exec(g, vertices);
                    if ok && vs.len() >= 3 {
                        self.geo.add_primitive(Primitive::Polygon { vertices: vs });
                        self.groups.push(FaceGroup::Front);
                    }
                }
                proof {
                    lemma_front_walk_growth(st0, g@, vertices@, vertices@.len() as int);
                }
                if f.back {
                    let mut rev: Vec<usize> = Vec::new();
                    let mut q: usize = 0;
                    while q < vertices.len()
                        invariant
                            q <= vertices.len(),
                            rev@ == vertices@.reverse().take(q as int),
                        decreases vertices.len() - q,
                    {
                        rev.push(vertices[vertices.len() - 1 - q]);
                        q += 1;
                        assert(rev@ =~= vertices@.reverse().take(q as int));
                    }
                    assert(rev@ =~= vertices@.reverse());
                    let (vs, ok) = self.base_walk_exec(g, npos, &rev);
                    if ok && vs.len() >= 3 {
                        self.geo.add_primitive(Primitive::Polygon { vertices: vs });
                        self.groups.push(FaceGroup::Back);
                    }
                }
            },
            _ => {},
        }
    }

    /// The side quads of one edge (see `strip_steps`).
    fn strip(&mut self, pb1: usize, pf1: usize, pb2: usize, pf2: usize, div: u32)
        requires
            npoints(old(self).state()) + 2 * div < usize::MAX,
        ensures
            final(self).state() == strip_steps(old(self).state(), pb1, pf1, pb2, pf2, pb1, pb2, 0, div as nat),
    {
        let ghost st0 = self.state();
        let mut last1 = pb1;
        let mut last2 = pb2;
        let mut d: u32 = 0;
        while d < div
            invariant
                d <= div,
                npoints(st0) + 2 * div < usize::MAX,
                npoints(self.state()) <= npoints(st0) + 2 * d,
                st0 == old(self).state(),
                strip_steps(self.state(), pb1, pf1, pb2, pf2, last1, last2, d as nat, div as nat)
                    == strip_steps(st0, pb1, pf1, pb2, pf2, pb1, pb2, 0, div as nat),
            decreases div - d,
        {
            let ghost s0 = self.state();
            let step = d + 1;
            let c1 = if step == div {
                pf1
            } else {
                let np = self.geo.add_point();
                self.sources.push(PointSource::Between { from: pb1, to: pf1, step, steps: div });
                np
            };
            let c2 = if step == div {
                pf2
            } else {
                let np = self.geo.add_point();
                self.sources.push(PointSource::Between { from: pb2, to: pf2, step, steps: div });
                np
            };
            let v0 = self.geo.add_vertex(last1);
            let v1 = self.geo.add_vertex(last2);
            let v2 = self.geo.add_vertex(c2);
            let v3 = self.geo.add_vertex(c1);
            let mut quad: Vec<usize> = Vec::new();
            quad.push(v0);
            quad.push(v1);
            quad.push(v2);
            quad.push(v3);
            self.geo.add_primitive(Primitive::Polygon { vertices: quad });
            self.groups.push(FaceGroup::Side);
            proof {
                assert(quad@ =~= seq![v0, (v0 + 1) as usize, (v0 + 2) as usize, (v0 + 3) as usize]);
                let (x1, m1) = if (d + 1) as nat == div as nat {
                    (pf1, s0.m)
                } else {
                    (
                        s0.m.geo.num_points as usize,
                        with_point(s0.m, PointSource::Between { from: pb1, to: pf1, step: (d + 1) as u32, steps: div }),
                    )
                };
                let (x2, m2) = if (d + 1) as nat == div as nat {
                    (pf2, m1)
                } else {
                    (
                        m1.geo.num_points as usize,
                        with_point(m1, PointSource::Between { from: pb2, to: pf2, step: (d + 1) as u32, steps: div }),
                    )
                };
                assert(x1 == c1 && x2 == c2);
                assert(self.state().m.geo =~= with_prim(
                    with_vertex(with_vertex(with_vertex(with_vertex(m2, last1), last2), c2), c1),
                    PrimModel::Polygon(quad@),
                    FaceGroup::Side,
                ).geo);
                assert(self.state().m.sources =~= m2.sources);
            }
            last1 = c1;
            last2 = c2;
            d = step;
        }
    }

    /// The side of the edge from `p1` to `p2` (see `side_strip`).
    fn side(&mut self, g: &Geometry, npos: usize, p1: usize, p2: usize, div: u32)
        requires
            npoints(old(self).state()) + 2 * div + 2 < usize::MAX,
        ensures
            final(self).state() == side_strip(old(self).state(), g@, npos as nat, p1, p2, div as nat),
    {
        let ghost st0 = self.state();
        match self.base_point(g, npos, p1) {
            None => {},
            Some(pb1) => {
                proof {
                    lemma_base_of_growth(st0, g@, npos as nat, p1);
                }
                let ghost st1 = self.state();
                match self.base_point(g, npos, p2) {
                    None => {},
                    Some(pb2) => {
                        proof {
                            lemma_base_of_growth(st1, g@, npos as nat, p2);
                        }
                        let pf1 = match self.front.get(&p1) {
                            Some(x) => *x,
                            None => pb1,
                        };
                        let pf2 = match self.front.get(&p2) {
                            Some(x) => *x,
                            None => pb2,
                        };
                        self.strip(pb1, pf1, pb2, pf2, div);
                    },
                }
            },
        }
    }
}

proof fn lemma_mul_mono(k: int, a: int, b: int)
    requires
        0 <= k,
        a <= b,
    ensures
        k * a <= k * b,
{
    assert(k * a <= k * b) by (nonlinear_arith)
        requires
            0 <= k,
            a <= b,
    ;
}

/// Extrudes the selection as connected pieces (see `connected_extrusion`):
/// neighbouring selected faces share their new points. `npos` is the number
/// of input point positions, `hes` the half-edges of the input's polygons,
/// and each side has `divisions` quads.
pub fn extrude_connected(
    geo: &Geometry,
    npos: usize,
    sel: &Vec<bool>,
    hes: &Vec<PolyHalfEdge>,
    f: ExtrudeFaces,
    divisions: u32,
) -> (r: Extrusion)
    requires
        (2 * divisions + 5) * (corner_count(geo@.prims, geo@.prims.len() as int) + hes@.len()) < usize::MAX,
    ensures
        r@ == connected_extrusion(geo@, npos as nat, sel@, hes@, f, divisions as nat),
{
    let ghost n = geo@.prims.len() as int;
    let ghost cc = corner_count(geo@.prims, n);
    let ghost kk: int = 2 * divisions + 2;
    let ghost tt = cc + hes@.len();
    proof {
        lemma_mul_mono(kk, 0, tt as int);
        assert((kk + 3) * tt == kk * tt + 3 * tt) by (nonlinear_arith);
        lemma_mul_mono(kk, hes@.len() as int, tt as int);
        lemma_mul_mono(kk, cc as int, tt as int);
        assert(kk * hes@.len() + kk * cc == kk * tt) by (nonlinear_arith)
            requires
                tt == cc + hes@.len(),
        ;
    }
    let (pts, front) = gather_selected(geo, sel);
    proof {
        lemma_selected_points_len(geo@, sel@, n);
    }
    let mut q: usize = 0;
    while q < pts.len()
        invariant
            q <= pts.len(),
            pts@ == selected_points(geo@, sel@, geo@.prims.len() as int),
            forall|t: int| 0 <= t < q ==> has_pos(geo@, npos as nat, #[trigger] pts@[t]),
        decreases pts.len() - q,
    {
        if !(pts[q] < geo.num_points && pts[q] < npos) {
            assert(!has_pos(geo@, npos as nat, pts@[q as int]));
            let r = Extrusion { geometry: Geometry::new(), sources: Vec::new(), groups: Vec::new() };
            assert(r@.geo =~= empty_model().geo);
            return r;
        }
        q += 1;
    }
    let mut b = Builder { geo: Geometry::new(), sources: Vec::new(), groups: Vec::new(), front, base: HashMap::new() };
    let mut q: usize = 0;
    while q < pts.len()
        invariant
            q <= pts.len(),
            pts@.len() <= cc,
            cc < usize::MAX,
            b.geo@.num_points == q,
            b.geo@.vertices == Seq::<usize>::empty(),
            b.geo@.prims == Seq::<PrimModel>::empty(),
            b.sources@ == Seq::new(q as nat, |t: int| PointSource::Front(pts@[t])),
            b.groups@ == Seq::<FaceGroup>::empty(),
            b.front@ == front_map(pts@, pts@.len() as int),
            b.base@ == Map::<usize, usize>::empty(),
        decreases pts.len() - q,
    {
        b.geo.add_point();
        b.sources.push(PointSource::Front(pts[q]));
        q += 1;
        assert(b.sources@ =~= Seq::new(q as nat, |t: int| PointSource::Front(pts@[t])));
    }
    let ghost s0 = front_state(pts@);
    assert(b.state().m.geo =~= s0.m.geo);
    assert(b.state().m.sources =~= s0.m.sources);
    let mut i: usize = 0;
    while i < geo.primitives.len()
        invariant
            i <= geo.primitives.len(),
            n == geo@.prims.len(),
            cc == corner_count(geo@.prims, n),
            npoints(s0) <= cc,
            3 * cc < usize::MAX,
            b.state() == copy_prefix(s0, geo@, npos as nat, sel@, i as int),
        decreases geo.primitives.len() - i,
    {
        proof {
            lemma_copy_prefix_growth(s0, geo@, npos as nat, sel@, i as int);
            lemma_corner_count_mono(geo@.prims, i + 1, n);
        }
        b.copy_prim(geo, npos, sel, i);
        i += 1;
    }
    let ghost s1 = b.state();
    proof {
        lemma_copy_prefix_growth(s0, geo@, npos as nat, sel@, n);
    }
    let mut i: usize = 0;
    while i < geo.primitives.len()
        invariant
            i <= geo.primitives.len(),
            n == geo@.prims.len(),
            cc == corner_count(geo@.prims, n),
            npoints(s1) <= 2 * cc,
            3 * cc < usize::MAX,
            b.state() == faces_prefix(s1, geo@, npos as nat, sel@, f, i as int),
        decreases geo.primitives.len() - i,
    {
        proof {
            lemma_faces_prefix_growth(s1, geo@, npos as nat, sel@, f, i as int);
            lemma_corner_count_mono(geo@.prims, i + 1, n);
        }
        b.faces_of(geo, npos, sel, f, i);
        i += 1;
    }
    let ghost s2 = b.state();
    proof {
        lemma_faces_prefix_growth(s1, geo@, npos as nat, sel@, f, n);
    }
    if f.side {
        let mut h: usize = 0;
        while h < hes.len()
            invariant
                h <= hes.len(),
                npoints(s2) <= 3 * cc,
                kk == 2 * divisions + 2,
                3 * cc + kk * hes@.len() + kk * cc < usize::MAX,
                0 <= kk * cc,
                b.state() == edges_prefix(s2, geo@, npos as nat, sel@, hes@, divisions as nat, h as int),
            decreases hes.len() - h,
        {
            proof {
                lemma_edges_prefix_growth(s2, geo@, npos as nat, sel@, hes@, divisions as nat, h as int);
                lemma_mul_mono(kk, h + 1, hes@.len() as int);
                assert(kk * (h + 1) == kk * h + kk) by (nonlinear_arith);
            }
            let he = hes[h];
            let is_border = match he.pair {
                None => true,
                Some(q) => !(q < hes.len() && hes[q].prim < geo.primitives.len() && hes[q].prim < sel.len() && sel[hes[q].prim]),
            };
            if he.prim < geo.primitives.len() && he.prim < sel.len() && sel[he.prim] && is_border {
                b.side(geo, npos, he.origin, he.dest, divisions);
            }
            h += 1;
        }
        let ghost s3 = b.state();
        proof {
            lemma_edges_prefix_growth(s2, geo@, npos as nat, sel@, hes@, divisions as nat, hes@.len() as int);
        }
        let mut i: usize = 0;
        while i < geo.primitives.len()
            invariant
                i <= geo.primitives.len(),
                n == geo@.prims.len(),
                cc == corner_count(geo@.prims, n),
                kk == 2 * divisions + 2,
                npoints(s3) + kk * cc < usize::MAX,
                b.state() == polyline_sides(s3, geo@, npos as nat, sel@, divisions as nat, i as int),
            decreases geo.primitives.len() - i,
        {
            proof {
                lemma_polyline_sides_growth(s3, geo@, npos as nat, sel@, divisions as nat, i as int);
                lemma_corner_count_mono(geo@.prims, i + 1, n);
                lemma_mul_mono(kk, corner_count(geo@.prims, i + 1) as int, cc as int);
                assert(kk * corner_count(geo@.prims, i + 1) == kk * corner_count(geo@.prims, i as int) + kk * geo@.prims[i as int].verts().len()) by (nonlinear_arith)
                    requires
                        corner_count(geo@.prims, i + 1) == corner_count(geo@.prims, i as int) + geo@.prims[i as int].verts().len(),
                ;
            }
            let ghost si = b.state();
            match &geo.primitives[i] {
                Primitive::Polyline { vertices, .. } => {
                    if i < sel.len() && sel[i] && vertices.len() >= 2 {
                        let ghost len = vertices@.len();
                        let mut j: usize = 0;
                        while j < vertices.len() - 1
                            invariant
                                j <= vertices.len() - 1,
                                vertices@.len() >= 2,
                                len == vertices@.len(),
                                kk == 2 * divisions + 2,
                                npoints(si) + kk * len < usize::MAX,
                                b.state() == segments_of(si, geo@, npos as nat, vertices@, divisions as nat, j as int),
                            decreases vertices.len() - 1 - j,
                        {
                            proof {
                                lemma_segments_of_growth(si, geo@, npos as nat, vertices@, divisions as nat, j as int);
                                lemma_mul_mono(kk, j + 1, len as int);
                                assert(kk * (j + 1) == kk * j + kk) by (nonlinear_arith);
                            }
                            let v1 = vertices[j];
                            let v2 = vertices[j + 1];
                            if v1 < geo.vertices.len() && v2 < geo.vertices.len() {
                                b.side(geo, npos, geo.vertices[v1], geo.vertices[v2], divisions);
                            }
                            j += 1;
                        }
                    }
                },
                _ => {},
            }
            i += 1;
        }
    }
    Extrusion { geometry: b.geo, sources: b.sources, groups: b.groups }
}

/// Whether point `q` of an extrusion can be placed: it copies or moves an
/// input point that has a position (and, for a polygon front, an existing
/// polygon), or lies between two earlier points.
pub open spec fn source_ok(s: PointSource, q: int, g: GeoModel, npos: nat) -> bool {
    match s {
        PointSource::Base(p) => has_pos(g, npos, p),
        PointSource::Front(p) => has_pos(g, npos, p),
        PointSource::PolygonFront(p, prim) => has_pos(g, npos, p) && prim < g.prims.len(),
        PointSource::Between { from, to, .. } => from < q && to < q,
    }
}

/// A well-formed extrusion of input `g`: its geometry is well formed, it has
/// one source per point and one face group per primitive, and every point
/// can be placed in order.
pub open spec fn extrusion_wf(m: ExModel, g: GeoModel, npos: nat) -> bool {
    &&& geo_wf(m.geo)
    &&& m.sources.len() == m.geo.num_points
    &&& m.groups.len() == m.geo.prims.len()
    &&& forall|q: int| 0 <= q < m.sources.len() ==> source_ok(#[trigger] m.sources[q], q, g, npos)
}

proof fn lemma_individual_block_wf(st: ExModel, pts: Seq<usize>, prim: int, f: ExtrudeFaces, g: GeoModel, npos: nat)
    requires
        extrusion_wf(st, g, npos),
        st.geo.vertices.len() == st.geo.num_points,
        pts.len() >= 1,
        0 <= prim < g.prims.len(),
        forall|c: int| 0 <= c < pts.len() ==> has_pos(g, npos, #[trigger] pts[c]),
    ensures
        extrusion_wf(individual_block(st, pts, prim, f), g, npos),
        individual_block(st, pts, prim, f).geo.vertices.len() == individual_block(st, pts, prim, f).geo.num_points,
{
    let m = individual_block(st, pts, prim, f);
    let np0 = st.geo.num_points;
    let v0 = st.geo.vertices.len();
    let k = pts.len();
    let fv = Seq::new(k, |c: int| (v0 + 2 * c) as usize);
    let bv0 = Seq::new(k, |c: int| (v0 + 2 * c + 1) as usize);
    let bv = if f.back {
        bv0.reverse()
    } else {
        bv0
    };
    assert forall|c: int| 0 <= c < k implies #[trigger] bv[c] < m.geo.vertices.len() && fv[c] < m.geo.vertices.len() by {
        if f.back {
            assert(bv[c] == bv0[k - 1 - c]);
        }
    }
    assert forall|v: int| 0 <= v < m.geo.vertices.len() implies #[trigger] m.geo.vertices[v] < m.geo.num_points by {
        if v >= st.geo.vertices.len() {
            assert(m.geo.vertices[v] == (np0 + (v - v0)) as usize);
        } else {
            assert(m.geo.vertices[v] == st.geo.vertices[v]);
        }
    }
    assert forall|i: int, j: int|
        0 <= i < m.geo.prims.len() && 0 <= j < m.geo.prims[i].verts().len() implies #[trigger] m.geo.prims[i].verts()[j]
            < m.geo.vertices.len() by {
        let fronts = if f.front {
            seq![PrimModel::Polygon(fv)]
        } else {
            Seq::empty()
        };
        let backs = if f.back {
            seq![PrimModel::Polygon(bv)]
        } else {
            Seq::empty()
        };
        let sides = if f.side {
            Seq::new(
                k,
                |c: int| PrimModel::Polygon(seq![bv[c], bv[(c + 1) % (k as int)], fv[(c + 1) % (k as int)], fv[c]]),
            )
        } else {
            Seq::empty()
        };
        let a = st.geo.prims.len();
        if i < a {
            assert(m.geo.prims[i] == st.geo.prims[i]);
        } else if i < a + fronts.len() {
            assert(m.geo.prims[i] == fronts[i - a]);
        } else if i < a + fronts.len() + backs.len() {
            assert(m.geo.prims[i] == backs[i - a - fronts.len()]);
        } else {
            let c = i - a - fronts.len() - backs.len();
            assert(m.geo.prims[i] == sides[c]);
            assert(bv[c] < m.geo.vertices.len() && fv[c] < m.geo.vertices.len());
            assert(bv[(c + 1) % (k as int)] < m.geo.vertices.len());
            assert(fv[(c + 1) % (k as int)] < m.geo.vertices.len());
        }
    }
    assert forall|q: int| 0 <= q < m.sources.len() implies source_ok(#[trigger] m.sources[q], q, g, npos) by {
        if q >= st.sources.len() {
            let t = q - st.sources.len();
            assert(has_pos(g, npos, pts[t / 2]));
        } else {
            assert(m.sources[q] == st.sources[q]);
        }
    }
}

proof fn lemma_individual_wf(g: GeoModel, npos: nat, sel: Seq<bool>, f: ExtrudeFaces, n: int)
    requires
        0 <= n <= g.prims.len(),
    ensures
        extrusion_wf(individual_prefix(g, npos, sel, f, n), g, npos),
        individual_prefix(g, npos, sel, f, n).geo.vertices.len() == individual_prefix(g, npos, sel, f, n).geo.num_points,
    decreases n,
{
    if n > 0 {
        lemma_individual_wf(g, npos, sel, f, n - 1);
        let st = individual_prefix(g, npos, sel, f, n - 1);
        match g.prims[n - 1] {
            PrimModel::Polygon(vids) => {
                if selected(sel, n - 1) && vids.len() >= 3 && corner_points(g, npos, vids) is Some {
                    let pts = corner_points(g, npos, vids)->0;
                    assert forall|c: int| 0 <= c < pts.len() implies has_pos(g, npos, #[trigger] pts[c]) by {
                        assert(vids[c] < g.vertices.len());
                    }
                    lemma_individual_block_wf(st, pts, n - 1, f, g, npos);
                }
            },
            _ => {},
        }
    }
}

/// Extruding polygons one by one gives a well-formed extrusion: every
/// vertex references one of its points, every primitive its vertices, each
/// point has a source that can be placed and each primitive a face group.
pub proof fn lemma_extrude_individual_well_formed(g: GeoModel, npos: nat, sel: Seq<bool>, f: ExtrudeFaces)
    ensures
        extrusion_wf(individual_prefix(g, npos, sel, f, g.prims.len() as int), g, npos),
{
    lemma_individual_wf(g, npos, sel, f, g.prims.len() as int);
}

/// Whether primitive `i` is a polygon that extrusion one by one extrudes:
/// selected, with three or more corners, each with a position.
pub open spec fn extrudes_alone(g: GeoModel, npos: nat, sel: Seq<bool>, i: int) -> bool {
    match g.prims[i] {
        PrimModel::Polygon(vids) => selected(sel, i) && vids.len() >= 3 && corner_points(g, npos, vids) is Some,
        _ => false,
    }
}

/// How many of the first `n` primitives extrude one by one.
pub open spec fn extruded_count(g: GeoModel, npos: nat, sel: Seq<bool>, n: int) -> nat
    decreases n,
{
    if n <= 0 {
        0
    } else {
        extruded_count(g, npos, sel, n - 1) + if extrudes_alone(g, npos, sel, n - 1) {
            1nat
        } else {
            0nat
        }
    }
}

/// How many corners the first `n` primitives that extrude one by one have.
pub open spec fn extruded_corners(g: GeoModel, npos: nat, sel: Seq<bool>, n: int) -> nat
    decreases n,
{
    if n <= 0 {
        0
    } else {
        extruded_corners(g, npos, sel, n - 1) + if extrudes_alone(g, npos, sel, n - 1) {
            g.prims[n - 1].verts().len()
        } else {
            0nat
        }
    }
}

/// Extruding polygons one by one makes two points, each with its own
/// vertex, per corner of every extruded polygon; one front and one back
/// polygon per extruded polygon when those are kept, and one side quad per
/// corner when the sides are kept.
pub proof fn lemma_extrude_individual_counts(g: GeoModel, npos: nat, sel: Seq<bool>, f: ExtrudeFaces, n: int)
    requires
        0 <= n <= g.prims.len(),
    ensures
        ({
            let m = individual_prefix(g, npos, sel, f, n);
            let polys = extruded_count(g, npos, sel, n);
            let corners = extruded_corners(g, npos, sel, n);
            &&& m.geo.num_points == 2 * corners
            &&& m.geo.vertices.len() == 2 * corners
            &&& m.sources.len() == 2 * corners
            &&& m.geo.prims.len() == (if f.front { polys } else { 0 }) + (if f.back { polys } else { 0 }) + (if f.side {
                corners
            } else {
                0
            })
            &&& m.groups.len() == m.geo.prims.len()
        }),
    decreases n,
{
    if n > 0 {
        lemma_extrude_individual_counts(g, npos, sel, f, n - 1);
        match g.prims[n - 1] {
            PrimModel::Polygon(vids) => {
                if extrudes_alone(g, npos, sel, n - 1) {
                    let pts = corner_points(g, npos, vids)->0;
                    assert(pts.len() == vids.len());
                }
            },
            _ => {},
        }
    }
}

/// A well-formed extrusion in progress: its output is well formed and the
/// front and base points it has made exist.
pub open spec fn state_wf(st: ExState, g: GeoModel, npos: nat) -> bool {
    &&& extrusion_wf(st.m, g, npos)
    &&& forall|p: usize| #[trigger] st.front.dom().contains(p) ==> st.front[p] < st.m.geo.num_points
    &&& forall|p: usize| #[trigger] st.base.dom().contains(p) ==> st.base[p] < st.m.geo.num_points
    &&& forall|q: int|
        0 <= q < st.m.sources.len() ==> (#[trigger] st.m.sources[q] matches PointSource::Base(p) ==> st.base.dom().contains(p))
    &&& forall|q1: int, q2: int|
        0 <= q1 < q2 < st.m.sources.len() && #[trigger] st.m.sources[q1] == #[trigger] st.m.sources[q2] ==> st.m.sources[q1] is Between
}

proof fn lemma_with_point_wf(st: ExState, s: PointSource, g: GeoModel, npos: nat)
    requires
        state_wf(st, g, npos),
        source_ok(s, st.m.sources.len() as int, g, npos),
        s is Between,
    ensures
        state_wf(ExState { m: with_point(st.m, s), front: st.front, base: st.base }, g, npos),
{
    let m = with_point(st.m, s);
    assert forall|q: int| 0 <= q < m.sources.len() implies source_ok(#[trigger] m.sources[q], q, g, npos) by {
        if q < st.m.sources.len() {
            assert(m.sources[q] == st.m.sources[q]);
        }
    }
    let st2 = ExState { m: m, front: st.front, base: st.base };
    assert forall|q: int| 0 <= q < st2.m.sources.len() implies (#[trigger] st2.m.sources[q] matches PointSource::Base(p) ==> st2.base.dom().contains(p)) by {
        if q < st.m.sources.len() {
            assert(m.sources[q] == st.m.sources[q]);
        }
    }
    assert forall|q1: int, q2: int|
        0 <= q1 < q2 < st2.m.sources.len() && #[trigger] st2.m.sources[q1] == #[trigger] st2.m.sources[q2] implies st2.m.sources[q1] is Between by {
        assert(m.sources[q1] == st.m.sources[q1]);
        if q2 < st.m.sources.len() {
            assert(m.sources[q2] == st.m.sources[q2]);
        }
    }
}

proof fn lemma_with_vertex_wf(st: ExState, p: usize, g: GeoModel, npos: nat)
    requires
        state_wf(st, g, npos),
        p < st.m.geo.num_points,
    ensures
        state_wf(ExState { m: with_vertex(st.m, p), front: st.front, base: st.base }, g, npos),
{
    let m = with_vertex(st.m, p);
    assert forall|v: int| 0 <= v < m.geo.vertices.len() implies #[trigger] m.geo.vertices[v] < m.geo.num_points by {
        if v < st.m.geo.vertices.len() {
            assert(m.geo.vertices[v] == st.m.geo.vertices[v]);
        }
    }
    assert forall|i: int, j: int|
        0 <= i < m.geo.prims.len() && 0 <= j < m.geo.prims[i].verts().len() implies #[trigger] m.geo.prims[i].verts()[j]
            < m.geo.vertices.len() by {
        assert(st.m.geo.prims[i].verts()[j] < st.m.geo.vertices.len());
    }
}

proof fn lemma_with_prim_wf(st: ExState, prim: PrimModel, fg: FaceGroup, g: GeoModel, npos: nat)
    requires
        state_wf(st, g, npos),
        forall|j: int| 0 <= j < prim.verts().len() ==> #[trigger] prim.verts()[j] < st.m.geo.vertices.len(),
    ensures
        state_wf(ExState { m: with_prim(st.m, prim, fg), front: st.front, base: st.base }, g, npos),
{
    let m = with_prim(st.m, prim, fg);
    assert forall|i: int, j: int|
        0 <= i < m.geo.prims.len() && 0 <= j < m.geo.prims[i].verts().len() implies #[trigger] m.geo.prims[i].verts()[j]
            < m.geo.vertices.len() by {
        if i < st.m.geo.prims.len() {
            assert(m.geo.prims[i] == st.m.geo.prims[i]);
        }
    }
}

proof fn lemma_base_of_wf(st: ExState, g: GeoModel, npos: nat, p: usize)
    requires
        state_wf(st, g, npos),
    ensures
        state_wf(base_of(st, g, npos, p).1, g, npos),
        base_of(st, g, npos, p).0 matches Some(b) ==> b < npoints(base_of(st, g, npos, p).1),
        npoints(st) <= npoints(base_of(st, g, npos, p).1),
{
    if !st.base.dom().contains(p) && has_pos(g, npos, p) {
        let np = st.m.geo.num_points as usize;
        let s2 = base_of(st, g, npos, p).1;
        let m = s2.m;
        assert forall|q: int| 0 <= q < m.sources.len() implies source_ok(#[trigger] m.sources[q], q, g, npos) by {
            if q < st.m.sources.len() {
                assert(m.sources[q] == st.m.sources[q]);
            }
        }
        assert forall|x: usize| #[trigger] s2.base.dom().contains(x) implies s2.base[x] < s2.m.geo.num_points by {
            if x != p {
                assert(st.base.dom().contains(x));
            }
        }
        assert forall|q: int| 0 <= q < s2.m.sources.len() implies (#[trigger] s2.m.sources[q] matches PointSource::Base(x) ==> s2.base.dom().contains(x)) by {
            if q < st.m.sources.len() {
                assert(m.sources[q] == st.m.sources[q]);
            }
        }
        assert forall|q1: int, q2: int|
            0 <= q1 < q2 < s2.m.sources.len() && #[trigger] s2.m.sources[q1] == #[trigger] s2.m.sources[q2] implies s2.m.sources[q1] is Between by {
            assert(m.sources[q1] == st.m.sources[q1]);
            if q2 < st.m.sources.len() {
                assert(m.sources[q2] == st.m.sources[q2]);
            } else {
                assert(m.sources[q2] == PointSource::Base(p));
                if st.m.sources[q1] == PointSource::Base(p) {
                    assert(st.base.dom().contains(p));
                }
            }
        }
    }
}

proof fn lemma_base_walk_wf(st: ExState, g: GeoModel, npos: nat, vids: Seq<usize>, j: int)
    requires
        state_wf(st, g, npos),
        0 <= j,
    ensures
        state_wf(base_walk(st, g, npos, vids, j).0, g, npos),
        forall|t: int|
            0 <= t < base_walk(st, g, npos, vids, j).1.len() ==> #[trigger] base_walk(st, g, npos, vids, j).1[t]
                < base_walk(st, g, npos, vids, j).0.m.geo.vertices.len(),
        st.m.geo.vertices.len() <= base_walk(st, g, npos, vids, j).0.m.geo.vertices.len(),
        npoints(st) <= npoints(base_walk(st, g, npos, vids, j).0),
    decreases j,
{
    if j > 0 {
        lemma_base_walk_wf(st, g, npos, vids, j - 1);
        let (s, vs, ok) = base_walk(st, g, npos, vids, j - 1);
        let vid = vids[j - 1];
        if ok && vid < g.vertices.len() {
            lemma_base_of_wf(s, g, npos, g.vertices[vid as int]);
            let (b, s2) = base_of(s, g, npos, g.vertices[vid as int]);
            if let Some(pb) = b {
                lemma_with_vertex_wf(s2, pb, g, npos);
            }
        }
    }
}

proof fn lemma_front_walk_wf(st: ExState, g: GeoModel, vids: Seq<usize>, j: int, npos: nat)
    requires
        state_wf(st, g, npos),
        0 <= j,
    ensures
        state_wf(front_walk(st, g, vids, j).0, g, npos),
        forall|t: int|
            0 <= t < front_walk(st, g, vids, j).1.len() ==> #[trigger] front_walk(st, g, vids, j).1[t]
                < front_walk(st, g, vids, j).0.m.geo.vertices.len(),
    decreases j,
{
    if j > 0 {
        lemma_front_walk_wf(st, g, vids, j - 1, npos);
        let (s, vs, ok) = front_walk(st, g, vids, j - 1);
        let vid = vids[j - 1];
        if ok && vid < g.vertices.len() && s.front.dom().contains(g.vertices[vid as int]) {
            lemma_with_vertex_wf(s, s.front[g.vertices[vid as int]], g, npos);
        }
    }
}

proof fn lemma_copy_prefix_wf(st: ExState, g: GeoModel, npos: nat, sel: Seq<bool>, n: int)
    requires
        state_wf(st, g, npos),
        0 <= n <= g.prims.len(),
    ensures
        state_wf(copy_prefix(st, g, npos, sel, n), g, npos),
    decreases n,
{
    if n > 0 {
        lemma_copy_prefix_wf(st, g, npos, sel, n - 1);
        let s = copy_prefix(st, g, npos, sel, n - 1);
        if !selected(sel, n - 1) {
            match g.prims[n - 1] {
                PrimModel::Polygon(v) => {
                    lemma_base_walk_wf(s, g, npos, v, v.len() as int);
                    let (s2, vs, ok) = base_walk(s, g, npos, v, v.len() as int);
                    if ok && vs.len() > 0 {
                        lemma_with_prim_wf(s2, PrimModel::Polygon(vs), FaceGroup::Kept, g, npos);
                    }
                },
                PrimModel::Polyline(v, closed) => {
                    lemma_base_walk_wf(s, g, npos, v, v.len() as int);
                    let (s2, vs, ok) = base_walk(s, g, npos, v, v.len() as int);
                    if ok && vs.len() > 0 {
                        lemma_with_prim_wf(s2, PrimModel::Polyline(vs, closed), FaceGroup::Kept, g, npos);
                    }
                },
                _ => {},
            }
        }
    }
}

proof fn lemma_faces_prefix_wf(st: ExState, g: GeoModel, npos: nat, sel: Seq<bool>, f: ExtrudeFaces, n: int)
    requires
        state_wf(st, g, npos),
        0 <= n <= g.prims.len(),
    ensures
        state_wf(faces_prefix(st, g, npos, sel, f, n), g, npos),
    decreases n,
{
    if n > 0 {
        lemma_faces_prefix_wf(st, g, npos, sel, f, n - 1);
        let s = faces_prefix(st, g, npos, sel, f, n - 1);
        if selected(sel, n - 1) {
            match g.prims[n - 1] {
                PrimModel::Polygon(v) => {
                    let s1 = if f.front {
                        lemma_front_walk_wf(s, g, v, v.len() as int, npos);
                        let (s2, vs, ok) = front_walk(s, g, v, v.len() as int);
                        if ok && vs.len() >= 3 {
                            lemma_with_prim_wf(s2, PrimModel::Polygon(vs), FaceGroup::Front, g, npos);
                            ExState { m: with_prim(s2.m, PrimModel::Polygon(vs), FaceGroup::Front), front: s2.front, base: s2.base }
                        } else {
                            s2
                        }
                    } else {
                        s
                    };
                    if f.back {
                        lemma_base_walk_wf(s1, g, npos, v.reverse(), v.len() as int);
                        let (s2, vs, ok) = base_walk(s1, g, npos, v.reverse(), v.len() as int);
                        if ok && vs.len() >= 3 {
                            lemma_with_prim_wf(s2, PrimModel::Polygon(vs), FaceGroup::Back, g, npos);
                        }
                    }
                },
                _ => {},
            }
        }
    }
}

proof fn lemma_strip_steps_wf(
    st: ExState,
    pb1: usize,
    pf1: usize,
    pb2: usize,
    pf2: usize,
    last1: usize,
    last2: usize,
    d: nat,
    div: nat,
    g: GeoModel,
    npos: nat,
)
    requires
        state_wf(st, g, npos),
        pb1 < npoints(st),
        pf1 < npoints(st),
        pb2 < npoints(st),
        pf2 < npoints(st),
        last1 < npoints(st),
        last2 < npoints(st),
    ensures
        state_wf(strip_steps(st, pb1, pf1, pb2, pf2, last1, last2, d, div), g, npos),
    decreases div - d,
{
    if d < div {
        let step = d + 1;
        let (c1, m1) = if step == div {
            (pf1, st.m)
        } else {
            lemma_with_point_wf(st, PointSource::Between { from: pb1, to: pf1, step: step as u32, steps: div as u32 }, g, npos);
            (
                st.m.geo.num_points as usize,
                with_point(st.m, PointSource::Between { from: pb1, to: pf1, step: step as u32, steps: div as u32 }),
            )
        };
        let s1 = ExState { m: m1, front: st.front, base: st.base };
        let (c2, m2) = if step == div {
            (pf2, m1)
        } else {
            lemma_with_point_wf(s1, PointSource::Between { from: pb2, to: pf2, step: step as u32, steps: div as u32 }, g, npos);
            (
                m1.geo.num_points as usize,
                with_point(m1, PointSource::Between { from: pb2, to: pf2, step: step as u32, steps: div as u32 }),
            )
        };
        let s2 = ExState { m: m2, front: st.front, base: st.base };
        let v0 = m2.geo.vertices.len();
        lemma_with_vertex_wf(s2, last1, g, npos);
        let sa = ExState { m: with_vertex(m2, last1), front: st.front, base: st.base };
        lemma_with_vertex_wf(sa, last2, g, npos);
        let sb = ExState { m: with_vertex(sa.m, last2), front: st.front, base: st.base };
        lemma_with_vertex_wf(sb, c2, g, npos);
        let sc = ExState { m: with_vertex(sb.m, c2), front: st.front, base: st.base };
        lemma_with_vertex_wf(sc, c1, g, npos);
        let m3 = with_vertex(with_vertex(with_vertex(with_vertex(m2, last1), last2), c2), c1);
        let s3 = ExState { m: m3, front: st.front, base: st.base };
        let quad = seq![v0 as usize, (v0 + 1) as usize, (v0 + 2) as usize, (v0 + 3) as usize];
        lemma_with_prim_wf(s3, PrimModel::Polygon(quad), FaceGroup::Side, g, npos);
        let m4 = with_prim(m3, PrimModel::Polygon(quad), FaceGroup::Side);
        lemma_strip_steps_wf(ExState { m: m4, front: st.front, base: st.base }, pb1, pf1, pb2, pf2, c1, c2, step, div, g, npos);
    }
}

proof fn lemma_side_strip_wf(st: ExState, g: GeoModel, npos: nat, p1: usize, p2: usize, div: nat)
    requires
        state_wf(st, g, npos),
    ensures
        state_wf(side_strip(st, g, npos, p1, p2, div), g, npos),
{
    lemma_base_of_wf(st, g, npos, p1);
    let (b1, s1) = base_of(st, g, npos, p1);
    if let Some(pb1) = b1 {
        lemma_base_of_wf(s1, g, npos, p2);
        let (b2, s2) = base_of(s1, g, npos, p2);
        if let Some(pb2) = b2 {
            let pf1 = if s2.front.dom().contains(p1) {
                s2.front[p1]
            } else {
                pb1
            };
            let pf2 = if s2.front.dom().contains(p2) {
                s2.front[p2]
            } else {
                pb2
            };
            lemma_strip_steps_wf(s2, pb1, pf1, pb2, pf2, pb1, pb2, 0, div, g, npos);
        }
    }
}

proof fn lemma_edges_prefix_wf(st: ExState, g: GeoModel, npos: nat, sel: Seq<bool>, hes: Seq<PolyHalfEdge>, div: nat, n: int)
    requires
        state_wf(st, g, npos),
    ensures
        state_wf(edges_prefix(st, g, npos, sel, hes, div, n), g, npos),
    decreases n,
{
    if n > 0 {
        lemma_edges_prefix_wf(st, g, npos, sel, hes, div, n - 1);
        let s = edges_prefix(st, g, npos, sel, hes, div, n - 1);
        lemma_side_strip_wf(s, g, npos, hes[n - 1].origin, hes[n - 1].dest, div);
    }
}

proof fn lemma_segments_of_wf(st: ExState, g: GeoModel, npos: nat, vids: Seq<usize>, div: nat, n: int)
    requires
        state_wf(st, g, npos),
    ensures
        state_wf(segments_of(st, g, npos, vids, div, n), g, npos),
    decreases n,
{
    if n > 0 {
        lemma_segments_of_wf(st, g, npos, vids, div, n - 1);
        let s = segments_of(st, g, npos, vids, div, n - 1);
        let v1 = vids[n - 1];
        let v2 = vids[n];
        if v1 < g.vertices.len() && v2 < g.vertices.len() {
            lemma_side_strip_wf(s, g, npos, g.vertices[v1 as int], g.vertices[v2 as int], div);
        }
    }
}

proof fn lemma_polyline_sides_wf(st: ExState, g: GeoModel, npos: nat, sel: Seq<bool>, div: nat, n: int)
    requires
        state_wf(st, g, npos),
    ensures
        state_wf(polyline_sides(st, g, npos, sel, div, n), g, npos),
    decreases n,
{
    if n > 0 {
        lemma_polyline_sides_wf(st, g, npos, sel, div, n - 1);
        let s = polyline_sides(st, g, npos, sel, div, n - 1);
        match g.prims[n - 1] {
            PrimModel::Polyline(v, _) => {
                if selected(sel, n - 1) && v.len() >= 2 {
                    lemma_segments_of_wf(s, g, npos, v, div, v.len() - 1);
                }
            },
            _ => {},
        }
    }
}

proof fn lemma_front_map_values(pts: Seq<usize>, n: int)
    requires
        0 <= n <= pts.len(),
    ensures
        forall|p: usize| #[trigger] front_map(pts, n).dom().contains(p) ==> front_map(pts, n)[p] < n,
    decreases n,
{
    if n > 0 {
        lemma_front_map_values(pts, n - 1);
        assert forall|p: usize| #[trigger] front_map(pts, n).dom().contains(p) implies front_map(pts, n)[p] < n by {
            if p != pts[n - 1] {
                assert(front_map(pts, n - 1).dom().contains(p));
            }
        }
    }
}

proof fn lemma_gather_distinct(pts: Seq<usize>, g: GeoModel, vids: Seq<usize>, j: int)
    requires
        forall|a: int, b: int| 0 <= a < b < pts.len() ==> #[trigger] pts[a] != #[trigger] pts[b],
    ensures
        forall|a: int, b: int|
            0 <= a < b < gather_points(pts, g, vids, j).len() ==> #[trigger] gather_points(pts, g, vids, j)[a]
                != #[trigger] gather_points(pts, g, vids, j)[b],
    decreases j,
{
    if j > 0 {
        lemma_gather_distinct(pts, g, vids, j - 1);
        let r = gather_points(pts, g, vids, j - 1);
        let vid = vids[j - 1];
        if vid < g.vertices.len() && !r.contains(g.vertices[vid as int]) {
            let r2 = r.push(g.vertices[vid as int]);
            assert forall|a: int, b: int| 0 <= a < b < r2.len() implies #[trigger] r2[a] != #[trigger] r2[b] by {
                if b == r.len() {
                    assert(r2[a] == r[a]);
                } else {
                    assert(r2[a] == r[a] && r2[b] == r[b]);
                }
            }
        }
    }
}

proof fn lemma_selected_points_distinct(g: GeoModel, sel: Seq<bool>, n: int)
    ensures
        forall|a: int, b: int|
            0 <= a < b < selected_points(g, sel, n).len() ==> #[trigger] selected_points(g, sel, n)[a]
                != #[trigger] selected_points(g, sel, n)[b],
    decreases n,
{
    if n > 0 {
        lemma_selected_points_distinct(g, sel, n - 1);
        let r = selected_points(g, sel, n - 1);
        match g.prims[n - 1] {
            PrimModel::Polygon(v) => lemma_gather_distinct(r, g, v, v.len() as int),
            PrimModel::Polyline(v, _) => lemma_gather_distinct(r, g, v, v.len() as int),
            _ => {},
        }
    }
}

/// The extrusion state a connected extrusion ends in, when it does not
/// give up on a point without a position.
pub open spec fn connected_final(
    g: GeoModel,
    npos: nat,
    sel: Seq<bool>,
    hes: Seq<PolyHalfEdge>,
    f: ExtrudeFaces,
    div: nat,
) -> ExState {
    let n = g.prims.len() as int;
    let pts = selected_points(g, sel, n);
    let s1 = copy_prefix(front_state(pts), g, npos, sel, n);
    let s2 = faces_prefix(s1, g, npos, sel, f, n);
    if f.side {
        polyline_sides(edges_prefix(s2, g, npos, sel, hes, div, hes.len() as int), g, npos, sel, div, n)
    } else {
        s2
    }
}

proof fn lemma_connected_state_wf(
    g: GeoModel,
    npos: nat,
    sel: Seq<bool>,
    hes: Seq<PolyHalfEdge>,
    f: ExtrudeFaces,
    div: nat,
)
    ensures
        connected_extrusion(g, npos, sel, hes, f, div) == empty_model() || (state_wf(
            connected_final(g, npos, sel, hes, f, div),
            g,
            npos,
        ) && connected_extrusion(g, npos, sel, hes, f, div) == connected_final(g, npos, sel, hes, f, div).m),
{
    let n = g.prims.len() as int;
    let pts = selected_points(g, sel, n);
    if !(exists|q: int| 0 <= q < pts.len() && !has_pos(g, npos, #[trigger] pts[q])) {
        let s0 = front_state(pts);
        lemma_front_map_values(pts, pts.len() as int);
        lemma_selected_points_distinct(g, sel, n);
        assert forall|q1: int, q2: int|
            0 <= q1 < q2 < s0.m.sources.len() && #[trigger] s0.m.sources[q1] == #[trigger] s0.m.sources[q2] implies s0.m.sources[q1] is Between by {
            assert(pts[q1] != pts[q2]);
        }
        assert forall|q: int| 0 <= q < s0.m.sources.len() implies source_ok(#[trigger] s0.m.sources[q], q, g, npos) by {
            assert(has_pos(g, npos, pts[q]));
        }
        assert(state_wf(s0, g, npos));
        lemma_copy_prefix_wf(s0, g, npos, sel, n);
        let s1 = copy_prefix(s0, g, npos, sel, n);
        lemma_faces_prefix_wf(s1, g, npos, sel, f, n);
        let s2 = faces_prefix(s1, g, npos, sel, f, n);
        if f.side {
            lemma_edges_prefix_wf(s2, g, npos, sel, hes, div, hes.len() as int);
            lemma_polyline_sides_wf(edges_prefix(s2, g, npos, sel, hes, div, hes.len() as int), g, npos, sel, div, n);
        }
    }
}

/// Connected extrusion gives a well-formed extrusion: every vertex
/// references one of its points, every primitive its vertices, each point
/// has a source that can be placed and each primitive a face group.
pub proof fn lemma_extrude_connected_well_formed(
    g: GeoModel,
    npos: nat,
    sel: Seq<bool>,
    hes: Seq<PolyHalfEdge>,
    f: ExtrudeFaces,
    div: nat,
)
    ensures
        extrusion_wf(connected_extrusion(g, npos, sel, hes, f, div), g, npos),
{
    lemma_connected_state_wf(g, npos, sel, hes, f, div);
    if connected_extrusion(g, npos, sel, hes, f, div) == empty_model() {
        assert(empty_model().geo.prims.len() == 0);
    }
}

/// Connected extrusion shares its new points: no input point gets two base
/// copies, and none two front points.
pub proof fn lemma_extrude_connected_shares_points(
    g: GeoModel,
    npos: nat,
    sel: Seq<bool>,
    hes: Seq<PolyHalfEdge>,
    f: ExtrudeFaces,
    div: nat,
)
    ensures
        ({
            let m = connected_extrusion(g, npos, sel, hes, f, div);
            forall|q1: int, q2: int|
                0 <= q1 < q2 < m.sources.len() && (m.sources[q1] is Base || m.sources[q1] is Front) ==> #[trigger] m.sources[q1]
                    != #[trigger] m.sources[q2]
        }),
{
    lemma_connected_state_wf(g, npos, sel, hes, f, div);
}

/// The half-edges of primitive `i` as `(origin, dest, prim)`: for a polygon
/// of at least three corners whose vertices all exist, one per corner, from
/// its point to the next corner's point; none otherwise.
pub open spec fn prim_half_edges(g: GeoModel, i: int) -> Seq<(usize, usize, usize)> {
    match g.prims[i] {
        PrimModel::Polygon(v) => {
            if v.len() >= 3 && forall|j: int| 0 <= j < v.len() ==> #[trigger] v[j] < g.vertices.len() {
                Seq::new(
                    v.len(),
                    |j: int| (g.vertices[v[j] as int], g.vertices[v[(j + 1) % (v.len() as int)] as int], i as usize),
                )
            } else {
                Seq::empty()
            }
        },
        _ => Seq::empty(),
    }
}

/// The half-edges of the first `n` primitives, primitive by primitive.
pub open spec fn half_edge_list(g: GeoModel, n: int) -> Seq<(usize, usize, usize)>
    decreases n,
{
    if n <= 0 {
        Seq::empty()
    } else {
        half_edge_list(g, n - 1) + prim_half_edges(g, n - 1)
    }
}

/// The hash key of a directed edge.
pub open spec fn dkey(a: usize, b: usize) -> u128 {
    (a as int * 0x1_0000_0000_0000_0000 + b as int) as u128
}

proof fn lemma_dkey_injective(a: usize, b: usize, c: usize, d: usize)
    ensures
        dkey(a, b) == dkey(c, d) <==> (a == c && b == d),
{
    assert(a as int * 0x1_0000_0000_0000_0000 + b as int <= u128::MAX) by (nonlinear_arith)
        requires
            a <= usize::MAX,
            b <= usize::MAX,
            usize::MAX < 0x1_0000_0000_0000_0000,
    ;
    assert(c as int * 0x1_0000_0000_0000_0000 + d as int <= u128::MAX) by (nonlinear_arith)
        requires
            c <= usize::MAX,
            d <= usize::MAX,
            usize::MAX < 0x1_0000_0000_0000_0000,
    ;
    if dkey(a, b) == dkey(c, d) {
        assert(a == c && b == d) by (nonlinear_arith)
            requires
                a as int * 0x1_0000_0000_0000_0000 + b as int == c as int * 0x1_0000_0000_0000_0000 + d as int,
                0 <= b < 0x1_0000_0000_0000_0000,
                0 <= d < 0x1_0000_0000_0000_0000,
                0 <= a,
                0 <= c,
        ;
    }
}

fn dkey_exec(a: usize, b: usize) -> (k: u128)
    ensures
        k == dkey(a, b),
{
    assert(a as int * 0x1_0000_0000_0000_0000 + b as int <= u128::MAX) by (nonlinear_arith)
        requires
            a <= usize::MAX,
            b <= usize::MAX,
            usize::MAX < 0x1_0000_0000_0000_0000,
    ;
    (a as u128) * 0x1_0000_0000_0000_0000u128 + (b as u128)
}

/// Whether half-edge `t` of `list` runs the other way along half-edge `h`.
pub open spec fn reverses(list: Seq<(usize, usize, usize)>, t: int, h: int) -> bool {
    list[t].0 == list[h].1 && list[t].1 == list[h].0
}

/// The opposite of half-edge `h`: the last half-edge that runs the other way
/// along it, if any.
pub open spec fn opposite(list: Seq<(usize, usize, usize)>, h: int) -> Option<usize> {
    if exists|t: int| 0 <= t < list.len() && reverses(list, t, h) {
        Some(
            (choose|t: int|
                0 <= t < list.len() && reverses(list, t, h) && forall|u: int|
                    0 <= u < list.len() && reverses(list, u, h) ==> u <= t) as usize,
        )
    } else {
        None
    }
}

/// The half-edges of the polygons of `g` with their opposites.
pub open spec fn polygon_half_edges_spec(g: GeoModel) -> Seq<PolyHalfEdge> {
    let list = half_edge_list(g, g.prims.len() as int);
    Seq::new(
        list.len(),
        |h: int| PolyHalfEdge { origin: list[h].0, dest: list[h].1, prim: list[h].2, pair: opposite(list, h) },
    )
}

/// The half-edges of the polygons of `geo` (see `half_edge_list`), each with
/// its opposite: the last half-edge that runs between the same points the
/// other way, if any.
pub fn polygon_half_edges(geo: &Geometry) -> (r: Vec<PolyHalfEdge>)
    ensures
        r@ == polygon_half_edges_spec(geo@),
{
    let mut list: Vec<PolyHalfEdge> = Vec::new();
    let mut i: usize = 0;
    while i < geo.primitives.len()
        invariant
            i <= geo.primitives.len(),
            list@.len() == half_edge_list(geo@, i as int).len(),
            forall|h: int|
                0 <= h < list@.len() ==> {
                    let e = half_edge_list(geo@, i as int)[h];
                    &&& (#[trigger] list@[h]).origin == e.0
                    &&& list@[h].dest == e.1
                    &&& list@[h].prim == e.2
                    &&& list@[h].pair is None
                },
        decreases geo.primitives.len() - i,
    {
        let ghost before = list@;
        let ghost base_list = half_edge_list(geo@, i as int);
        match &geo.primitives[i] {
            Primitive::Polygon { vertices } => {
                let k = vertices.len();
                let mut all_ok = true;
                let mut j: usize = 0;
                while j < k
                    invariant
                        j <= k,
                        k == vertices@.len(),
                        all_ok == forall|q: int| 0 <= q < j ==> #[trigger] vertices@[q] < geo@.vertices.len(),
                    decreases k - j,
                {
                    if vertices[j] >= geo.vertices.len() {
                        all_ok = false;
                    }
                    j += 1;
                }
                assert(geo@.prims[i as int] == PrimModel::Polygon(vertices@));
                if k >= 3 && all_ok {
                    let ghost phe = prim_half_edges(geo@, i as int);
                    let mut j: usize = 0;
                    while j < k
                        invariant
                            j <= k,
                            k == vertices@.len(),
                            k >= 3,
                            i < geo@.prims.len(),
                            geo@.prims[i as int] == PrimModel::Polygon(vertices@),
                            forall|q: int| 0 <= q < k ==> #[trigger] vertices@[q] < geo@.vertices.len(),
                            phe == prim_half_edges(geo@, i as int),
                            phe.len() == k,
                            list@.len() == before.len() + j,
                            forall|h: int| 0 <= h < before.len() ==> #[trigger] list@[h] == before[h],
                            forall|h: int|
                                0 <= h < j ==> {
                                    let e = phe[h];
                                    &&& (#[trigger] list@[before.len() + h]).origin == e.0
                                    &&& list@[before.len() + h].dest == e.1
                                    &&& list@[before.len() + h].prim == e.2
                                    &&& list@[before.len() + h].pair is None
                                },
                        decreases k - j,
                    {
                        let next = (j + 1) % k;
                        let o = geo.vertices[vertices[j]];
                        let d = geo.vertices[vertices[next]];
                        list.push(PolyHalfEdge { origin: o, dest: d, prim: i, pair: None });
                        assert(phe[j as int] == (o, d, i));
                        j += 1;
                    }
                }
            },
            _ => {},
        }
        proof {
            let phe = prim_half_edges(geo@, i as int);
            assert(half_edge_list(geo@, i + 1) == base_list + phe);
            assert forall|h: int| 0 <= h < list@.len() implies {
                let e = half_edge_list(geo@, i + 1)[h];
                &&& (#[trigger] list@[h]).origin == e.0
                &&& list@[h].dest == e.1
                &&& list@[h].prim == e.2
                &&& list@[h].pair is None
            } by {
                if h >= before.len() {
                    assert(list@[before.len() + (h - before.len())] == list@[h]);
                }
            }
        }
        i += 1;
    }
    let mut map: HashMap<u128, usize> = HashMap::new();
    let mut h: usize = 0;
    while h < list.len()
        invariant
            h <= list.len(),
            forall|k: u128| #[trigger] map@.contains_key(k) ==> map@[k] < h && dkey(list@[map@[k] as int].origin, list@[map@[k] as int].dest) == k,
            forall|q: int| 0 <= q < h ==> map@.contains_key(#[trigger] dkey(list@[q].origin, list@[q].dest)),
            forall|q: int| 0 <= q < h ==> q <= map@[#[trigger] dkey(list@[q].origin, list@[q].dest)],
        decreases list.len() - h,
    {
        let key = dkey_exec(list[h].origin, list[h].dest);
        map.insert(key, h);
        h += 1;
    }
    let ghost plain = list@;
    let mut out: Vec<PolyHalfEdge> = Vec::new();
    let mut h: usize = 0;
    while h < list.len()
        invariant
            h <= list.len(),
            list@ == plain,
            out@.len() == h,
            forall|k: u128| #[trigger] map@.contains_key(k) ==> map@[k] < list@.len() && dkey(list@[map@[k] as int].origin, list@[map@[k] as int].dest) == k,
            forall|q: int| 0 <= q < list@.len() ==> map@.contains_key(#[trigger] dkey(list@[q].origin, list@[q].dest)),
            forall|q: int| 0 <= q < list@.len() ==> q <= map@[#[trigger] dkey(list@[q].origin, list@[q].dest)],
            forall|q: int|
                0 <= q < h ==> (#[trigger] out@[q]).origin == list@[q].origin && out@[q].dest == list@[q].dest && out@[q].prim == list@[q].prim,
            forall|q: int|
                0 <= q < h ==> match (#[trigger] out@[q]).pair {
                    Some(t) => t < list@.len() && list@[t as int].origin == list@[q].dest && list@[t as int].dest == list@[q].origin
                        && forall|u: int| 0 <= u < list@.len() && list@[u].origin == list@[q].dest && list@[u].dest == list@[q].origin ==> u <= t,
                    None => forall|t: int| 0 <= t < list@.len() ==> !(list@[t].origin == list@[q].dest && list@[t].dest == list@[q].origin),
                },
        decreases list.len() - h,
    {
        let e = list[h];
        let rk = dkey_exec(e.dest, e.origin);
        let pair = match map.get(&rk) {
            Some(t) => {
                proof {
                    lemma_dkey_injective(list@[*t as int].origin, list@[*t as int].dest, e.dest, e.origin);
                    assert forall|u: int| 0 <= u < list@.len() && list@[u].origin == e.dest && list@[u].dest == e.origin implies u <= *t by {
                        assert(u <= map@[dkey(list@[u].origin, list@[u].dest)]);
                    }
                }
                Some(*t)
            },
            None => {
                proof {
                    assert forall|t: int| 0 <= t < list@.len() implies !(list@[t].origin == e.dest && list@[t].dest == e.origin) by {
                        if list@[t].origin == e.dest && list@[t].dest == e.origin {
                            assert(map@.contains_key(dkey(list@[t].origin, list@[t].dest)));
                        }
                    }
                }
                None
            },
        };
        out.push(PolyHalfEdge { origin: e.origin, dest: e.dest, prim: e.prim, pair });
        h += 1;
    }
    proof {
        let list_s = half_edge_list(geo@, geo@.prims.len() as int);
        let spec = polygon_half_edges_spec(geo@);
        assert forall|q: int| 0 <= q < out@.len() implies #[trigger] out@[q] == spec[q] by {
            assert forall|t: int| 0 <= t < list_s.len() implies (reverses(list_s, t, q) <==> (list@[t].origin == list@[q].dest && list@[t].dest == list@[q].origin)) by {
                assert(list@[t].origin == list_s[t].0 && list@[t].dest == list_s[t].1);
                assert(list@[q].origin == list_s[q].0 && list@[q].dest == list_s[q].1);
            }
            match out@[q].pair {
                Some(t) => {
                    assert(reverses(list_s, t as int, q));
                    let c = choose|t: int|
                        0 <= t < list_s.len() && reverses(list_s, t, q) && forall|u: int|
                            0 <= u < list_s.len() && reverses(list_s, u, q) ==> u <= t;
                    assert(c <= t && t <= c);
                },
                None => {
                    assert(!(exists|t: int| 0 <= t < list_s.len() && reverses(list_s, t, q)));
                },
            }
        }
        assert(out@ =~= spec);
    }
    out
}

proof fn lemma_half_edge_list_len(g: GeoModel, n: int)
    requires
        0 <= n <= g.prims.len(),
    ensures
        half_edge_list(g, n).len() <= corner_count(g.prims, n),
    decreases n,
{
    if n > 0 {
        lemma_half_edge_list_len(g, n - 1);
    }
}

/// The settings of the poly-extrude node that the topology depends on.
#[derive(Clone, Debug)]
pub struct ExtrudeSettings {
    /// The primitive group to extrude; every primitive when empty.
    pub group: String,
    /// Whether each polygon is extruded on its own.
    pub individual: bool,
    /// The number of quads along each side.
    pub divisions: u32,
    pub faces: ExtrudeFaces,
    pub front_group: String,
    pub back_group: String,
    pub side_group: String,
}

/// The node that extrudes polygons and polylines.
pub struct PolyExtrudeNode;

impl PolyExtrudeNode {
    /// The settings read from `params`: split mode 1 extrudes polygons one
    /// by one; the divisions are at least one; the front and side faces are
    /// output and the back faces not, unless set otherwise.
    pub fn settings(params: &[Parameter]) -> (s: ExtrudeSettings)
        ensures
            s.group@ == str_param(params_view(params@), "group"@, ""@),
            s.individual == (int_param(params_view(params@), "split"@, 0) == 1),
            s.divisions as int == if int_param(params_view(params@), "divisions"@, 1) < 1 {
                1
            } else {
                int_param(params_view(params@), "divisions"@, 1) as int
            },
            s.faces.front == bool_param(params_view(params@), "output_front"@, true),
            s.faces.back == bool_param(params_view(params@), "output_back"@, false),
            s.faces.side == bool_param(params_view(params@), "output_side"@, true),
            s.front_group@ == str_param(params_view(params@), "front_grp"@, "extrudeFront"@),
            s.back_group@ == str_param(params_view(params@), "back_grp"@, "extrudeBack"@),
            s.side_group@ == str_param(params_view(params@), "side_grp"@, "extrudeSide"@),
    {
        let d = get_int(params, "divisions", 1);
        let divisions: u32 = if d < 1 {
            1
        } else {
            d as u32
        };
        ExtrudeSettings {
            group: get_string(params, "group", ""),
            individual: get_int(params, "split", 0) == 1,
            divisions,
            faces: ExtrudeFaces {
                front: get_bool(params, "output_front", true),
                back: get_bool(params, "output_back", false),
                side: get_bool(params, "output_side", true),
            },
            front_group: get_string(params, "front_grp", "extrudeFront"),
            back_group: get_string(params, "back_grp", "extrudeBack"),
            side_group: get_string(params, "side_grp", "extrudeSide"),
        }
    }

    /// The extrusion of the primitives of `geo` selected by `sel`, one by one
    /// or as connected pieces as `s` says. `npos` is the number of input
    /// point positions.
    pub fn extrude(geo: &Geometry, npos: usize, sel: &Vec<bool>, s: &ExtrudeSettings) -> (r: Extrusion)
        requires
            (4 * s.divisions + 10) * corner_count(geo@.prims, geo@.prims.len() as int) < usize::MAX,
        ensures
            r@ == if s.individual {
                individual_prefix(geo@, npos as nat, sel@, s.faces, geo@.prims.len() as int)
            } else {
                connected_extrusion(geo@, npos as nat, sel@, polygon_half_edges_spec(geo@), s.faces, s.divisions as nat)
            },
    {
        let ghost cc = corner_count(geo@.prims, geo@.prims.len() as int);
        proof {
            assert(2 * cc <= (4 * s.divisions + 10) * cc) by (nonlinear_arith);
        }
        if s.individual {
            extrude_individual(geo, npos, sel, s.faces)
        } else {
            let hes = polygon_half_edges(geo);
            proof {
                lemma_half_edge_list_len(geo@, geo@.prims.len() as int);
                let k: int = 2 * s.divisions + 5;
                lemma_mul_mono(k, (cc + hes@.len()) as int, (2 * cc) as int);
                assert(k * (2 * cc) == (4 * s.divisions + 10) * cc) by (nonlinear_arith)
                    requires
                        k == 2 * s.divisions + 5,
                ;
            }
            extrude_connected(geo, npos, sel, &hes, s.faces, s.divisions)
        }
    }
}

} // verus!
