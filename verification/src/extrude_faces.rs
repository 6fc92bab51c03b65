//! Which way the faces of a connected extrusion face: a front face runs
//! over the front points of its polygon's corners in the polygon's order, a
//! back face over the base copies of the corners in reverse order.

use vstd::prelude::*;
use crate::geometry::{GeoModel, PrimModel};
use crate::extrude::{
    base_of, base_walk, connected_extrusion, copy_prefix, edge_step, edges_prefix, empty_model,
    faces_prefix, faces_step, front_state, front_map, front_walk, polyline_sides, segments_of, selected,
    selected_points, side_strip, strip_steps, with_point, with_prim, with_vertex, has_pos, individual_block,
    individual_prefix, individual_step, corner_points, ExModel, ExState,
    ExtrudeFaces, FaceGroup, PointSource, PolyHalfEdge,
};

verus! {

/// The source of the point that output vertex `vid` of `m` references, when
/// both exist.
pub open spec fn corner_source(m: ExModel, vid: usize) -> Option<PointSource> {
    if vid < m.geo.vertices.len() && m.geo.vertices[vid as int] < m.sources.len() {
        Some(m.sources[m.geo.vertices[vid as int] as int])
    } else {
        None
    }
}

/// Whether output primitive `k` of `m` is the front face of input polygon
/// `i`: a selected polygon of `g` whose corners it runs over, in the same
/// order, each on the front point of the corner's input point.
pub open spec fn front_face_of(m: ExModel, g: GeoModel, sel: Seq<bool>, k: int, i: int) -> bool {
    &&& 0 <= i < g.prims.len()
    &&& selected(sel, i)
    &&& g.prims[i] is Polygon
    &&& m.geo.prims[k] is Polygon
    &&& m.geo.prims[k].verts().len() == g.prims[i].verts().len()
    &&& forall|t: int|
        0 <= t < g.prims[i].verts().len() ==> g.prims[i].verts()[t] < g.vertices.len() && #[trigger] corner_source(
            m,
            m.geo.prims[k].verts()[t],
        ) == Some(PointSource::Front(g.vertices[g.prims[i].verts()[t] as int]))
}

/// Whether output primitive `k` of `m` is the back face of input polygon
/// `i`: a selected polygon of `g` whose corners it runs over in reverse
/// order, each on the base copy of the corner's input point.
pub open spec fn back_face_of(m: ExModel, g: GeoModel, sel: Seq<bool>, k: int, i: int) -> bool {
    &&& 0 <= i < g.prims.len()
    &&& selected(sel, i)
    &&& g.prims[i] is Polygon
    &&& m.geo.prims[k] is Polygon
    &&& m.geo.prims[k].verts().len() == g.prims[i].verts().len()
    &&& forall|t: int|
        0 <= t < g.prims[i].verts().len() ==> {
            let c = g.prims[i].verts()[g.prims[i].verts().len() - 1 - t];
            c < g.vertices.len() && #[trigger] corner_source(m, m.geo.prims[k].verts()[t]) == Some(
                PointSource::Base(g.vertices[c as int]),
            )
        }
}

/// Every front and back face of `m` is the face of a selected input polygon.
pub open spec fn faces_face_out(m: ExModel, g: GeoModel, sel: Seq<bool>) -> bool {
    &&& m.groups.len() == m.geo.prims.len()
    &&& forall|k: int|
        0 <= k < m.geo.prims.len() ==> (#[trigger] m.groups[k] == FaceGroup::Front ==> exists|i: int|
            #[trigger] front_face_of(m, g, sel, k, i))
    &&& forall|k: int|
        0 <= k < m.geo.prims.len() ==> (#[trigger] m.groups[k] == FaceGroup::Back ==> exists|i: int|
            #[trigger] back_face_of(m, g, sel, k, i))
}

/// `b` extends `a`: every point source, vertex, primitive and face group of
/// `a` is still there, and as many primitives as groups were added.
pub open spec fn extends(a: ExModel, b: ExModel) -> bool {
    &&& a.sources.len() <= b.sources.len()
    &&& forall|q: int| 0 <= q < a.sources.len() ==> #[trigger] b.sources[q] == a.sources[q]
    &&& a.geo.vertices.len() <= b.geo.vertices.len()
    &&& forall|q: int| 0 <= q < a.geo.vertices.len() ==> #[trigger] b.geo.vertices[q] == a.geo.vertices[q]
    &&& a.geo.prims.len() <= b.geo.prims.len()
    &&& forall|q: int| 0 <= q < a.geo.prims.len() ==> #[trigger] b.geo.prims[q] == a.geo.prims[q]
    &&& a.groups.len() <= b.groups.len()
    &&& forall|q: int| 0 <= q < a.groups.len() ==> #[trigger] b.groups[q] == a.groups[q]
    &&& b.geo.prims.len() - a.geo.prims.len() == b.groups.len() - a.groups.len()
}

/// `b` extends `a` with no front or back face.
pub open spec fn extends_plain(a: ExModel, b: ExModel) -> bool {
    &&& extends(a, b)
    &&& forall|q: int| a.groups.len() <= q < b.groups.len() ==> #[trigger] b.groups[q] != FaceGroup::Front
        && b.groups[q] != FaceGroup::Back
}

/// The front and base maps of a state point at points with the matching
/// source, and every point has a source.
pub open spec fn maps_ok(st: ExState) -> bool {
    &&& st.m.sources.len() == st.m.geo.num_points
    &&& forall|p: usize|
        #[trigger] st.base.dom().contains(p) ==> st.base[p] < st.m.sources.len() && st.m.sources[st.base[p] as int]
            == PointSource::Base(p)
    &&& forall|p: usize|
        #[trigger] st.front.dom().contains(p) ==> st.front[p] < st.m.sources.len() && st.m.sources[st.front[p] as int]
            == PointSource::Front(p)
}

proof fn lemma_extends_trans(a: ExModel, b: ExModel, c: ExModel)
    requires
        extends_plain(a, b),
        extends_plain(b, c),
    ensures
        extends_plain(a, c),
{
    assert forall|q: int| a.groups.len() <= q < c.groups.len() implies #[trigger] c.groups[q] != FaceGroup::Front
        && c.groups[q] != FaceGroup::Back by {
        if q < b.groups.len() {
            assert(c.groups[q] == b.groups[q]);
        }
    }
}

proof fn lemma_extends_refl(a: ExModel)
    ensures
        extends_plain(a, a),
{
}

proof fn lemma_face_props_extend(a: ExModel, b: ExModel, g: GeoModel, sel: Seq<bool>, k: int, i: int)
    requires
        extends(a, b),
        0 <= k < a.geo.prims.len(),
    ensures
        front_face_of(a, g, sel, k, i) ==> front_face_of(b, g, sel, k, i),
        back_face_of(a, g, sel, k, i) ==> back_face_of(b, g, sel, k, i),
{
    assert(b.geo.prims[k] == a.geo.prims[k]);
    let vs = a.geo.prims[k].verts();
    assert forall|t: int| 0 <= t < vs.len() && corner_source(a, vs[t]) is Some implies corner_source(b, vs[t])
        == corner_source(a, vs[t]) by {
        let vid = vs[t];
        assert(b.geo.vertices[vid as int] == a.geo.vertices[vid as int]);
        assert(b.sources[a.geo.vertices[vid as int] as int] == a.sources[a.geo.vertices[vid as int] as int]);
    }
    if front_face_of(a, g, sel, k, i) {
        assert forall|t: int| 0 <= t < g.prims[i].verts().len() implies g.prims[i].verts()[t] < g.vertices.len()
            && #[trigger] corner_source(b, b.geo.prims[k].verts()[t]) == Some(
            PointSource::Front(g.vertices[g.prims[i].verts()[t] as int]),
        ) by {
            assert(corner_source(a, vs[t]) is Some);
        }
    }
    if back_face_of(a, g, sel, k, i) {
        assert forall|t: int| 0 <= t < g.prims[i].verts().len() implies {
            let c = g.prims[i].verts()[g.prims[i].verts().len() - 1 - t];
            c < g.vertices.len() && #[trigger] corner_source(b, b.geo.prims[k].verts()[t]) == Some(
                PointSource::Base(g.vertices[c as int]),
            )
        } by {
            assert(corner_source(a, vs[t]) is Some);
        }
    }
}

/// The faces of `a` keep facing out in anything that extends it without
/// new front or back faces.
proof fn lemma_faces_face_out_extend(a: ExModel, b: ExModel, g: GeoModel, sel: Seq<bool>)
    requires
        faces_face_out(a, g, sel),
        extends_plain(a, b),
    ensures
        faces_face_out(b, g, sel),
{
    assert forall|k: int| 0 <= k < b.geo.prims.len() implies (#[trigger] b.groups[k] == FaceGroup::Front ==> exists|i: int|
        #[trigger] front_face_of(b, g, sel, k, i)) by {
        if k < a.geo.prims.len() && b.groups[k] == FaceGroup::Front {
            assert(a.groups[k] == b.groups[k]);
            let i = choose|i: int| #[trigger] front_face_of(a, g, sel, k, i);
            lemma_face_props_extend(a, b, g, sel, k, i);
        }
    }
    assert forall|k: int| 0 <= k < b.geo.prims.len() implies (#[trigger] b.groups[k] == FaceGroup::Back ==> exists|i: int|
        #[trigger] back_face_of(b, g, sel, k, i)) by {
        if k < a.geo.prims.len() && b.groups[k] == FaceGroup::Back {
            assert(a.groups[k] == b.groups[k]);
            let i = choose|i: int| #[trigger] back_face_of(a, g, sel, k, i);
            lemma_face_props_extend(a, b, g, sel, k, i);
        }
    }
}

proof fn lemma_with_point_ext(m: ExModel, s: PointSource)
    ensures
        extends_plain(m, with_point(m, s)),
{
}

proof fn lemma_with_vertex_ext(m: ExModel, p: usize)
    ensures
        extends_plain(m, with_vertex(m, p)),
{
}

proof fn lemma_with_prim_ext(m: ExModel, prim: PrimModel, fg: FaceGroup)
    ensures
        extends(m, with_prim(m, prim, fg)),
        fg != FaceGroup::Front && fg != FaceGroup::Back ==> extends_plain(m, with_prim(m, prim, fg)),
{
}

/// The points and vertices of `m` can be numbered by `usize`.
pub open spec fn bounded(m: ExModel) -> bool {
    &&& m.sources.len() <= usize::MAX
    &&& m.geo.vertices.len() <= usize::MAX
}

proof fn lemma_base_of_grow(st: ExState, g: GeoModel, npos: nat, p: usize)
    ensures
        extends_plain(st.m, base_of(st, g, npos, p).1.m),
        base_of(st, g, npos, p).1.m.geo.num_points >= st.m.geo.num_points,
        base_of(st, g, npos, p).1.m.geo.vertices == st.m.geo.vertices,
        base_of(st, g, npos, p).1.front == st.front,
{
    if !st.base.dom().contains(p) && has_pos(g, npos, p) {
        lemma_with_point_ext(st.m, PointSource::Base(p));
    }
}

proof fn lemma_base_of_maps(st: ExState, g: GeoModel, npos: nat, p: usize)
    requires
        maps_ok(st),
        bounded(base_of(st, g, npos, p).1.m),
    ensures
        maps_ok(base_of(st, g, npos, p).1),
        base_of(st, g, npos, p).0 matches Some(b) ==> b < base_of(st, g, npos, p).1.m.sources.len()
            && base_of(st, g, npos, p).1.m.sources[b as int] == PointSource::Base(p),
{
    if !st.base.dom().contains(p) && has_pos(g, npos, p) {
        let s2 = base_of(st, g, npos, p).1;
        assert forall|x: usize| #[trigger] s2.base.dom().contains(x) implies s2.base[x] < s2.m.sources.len()
            && s2.m.sources[s2.base[x] as int] == PointSource::Base(x) by {
            if x != p {
                assert(st.base.dom().contains(x));
                assert(s2.m.sources[st.base[x] as int] == st.m.sources[st.base[x] as int]);
            }
        }
        assert forall|x: usize| #[trigger] s2.front.dom().contains(x) implies s2.front[x] < s2.m.sources.len()
            && s2.m.sources[s2.front[x] as int] == PointSource::Front(x) by {
            assert(s2.m.sources[st.front[x] as int] == st.m.sources[st.front[x] as int]);
        }
    }
}

/// What a base walk over `vids` gives when it succeeds: one new vertex per
/// vertex of `vids`, on the base copy of that vertex's point.
pub open spec fn walk_on_bases(m: ExModel, g: GeoModel, vids: Seq<usize>, vs: Seq<usize>, j: int) -> bool {
    &&& vs.len() == j
    &&& forall|t: int|
        0 <= t < j ==> vids[t] < g.vertices.len() && #[trigger] corner_source(m, vs[t]) == Some(
            PointSource::Base(g.vertices[vids[t] as int]),
        )
}

/// What a front walk over `vids` gives when it succeeds: one new vertex per
/// vertex of `vids`, on the front point of that vertex's point.
pub open spec fn walk_on_fronts(m: ExModel, g: GeoModel, vids: Seq<usize>, vs: Seq<usize>, j: int) -> bool {
    &&& vs.len() == j
    &&& forall|t: int|
        0 <= t < j ==> vids[t] < g.vertices.len() && #[trigger] corner_source(m, vs[t]) == Some(
            PointSource::Front(g.vertices[vids[t] as int]),
        )
}

proof fn lemma_corner_source_extend(a: ExModel, b: ExModel, vid: usize)
    requires
        extends(a, b),
        corner_source(a, vid) is Some,
    ensures
        corner_source(b, vid) == corner_source(a, vid),
{
    assert(b.geo.vertices[vid as int] == a.geo.vertices[vid as int]);
    assert(b.sources[a.geo.vertices[vid as int] as int] == a.sources[a.geo.vertices[vid as int] as int]);
}

proof fn lemma_base_walk_grow(st: ExState, g: GeoModel, npos: nat, vids: Seq<usize>, j: int)
    ensures
        extends_plain(st.m, base_walk(st, g, npos, vids, j).0.m),
        base_walk(st, g, npos, vids, j).0.m.geo.num_points >= st.m.geo.num_points,
        base_walk(st, g, npos, vids, j).0.front == st.front,
    decreases j,
{
    if j > 0 {
        lemma_base_walk_grow(st, g, npos, vids, j - 1);
        let (s, vs, ok) = base_walk(st, g, npos, vids, j - 1);
        let vid = vids[j - 1];
        if ok && vid < g.vertices.len() {
            let p = g.vertices[vid as int];
            lemma_base_of_grow(s, g, npos, p);
            let (b, s2) = base_of(s, g, npos, p);
            lemma_extends_trans(st.m, s.m, s2.m);
            if let Some(pb) = b {
                lemma_with_vertex_ext(s2.m, pb);
                lemma_extends_trans(st.m, s2.m, with_vertex(s2.m, pb));
            }
        }
    }
}

proof fn lemma_base_walk_maps(st: ExState, g: GeoModel, npos: nat, vids: Seq<usize>, j: int)
    requires
        maps_ok(st),
        0 <= j <= vids.len(),
        bounded(base_walk(st, g, npos, vids, j).0.m),
    ensures
        maps_ok(base_walk(st, g, npos, vids, j).0),
        base_walk(st, g, npos, vids, j).2 ==> walk_on_bases(
            base_walk(st, g, npos, vids, j).0.m,
            g,
            vids,
            base_walk(st, g, npos, vids, j).1,
            j,
        ),
    decreases j,
{
    if j > 0 {
        let (s, vs, ok) = base_walk(st, g, npos, vids, j - 1);
        let vid = vids[j - 1];
        if ok && vid < g.vertices.len() {
            let p = g.vertices[vid as int];
            lemma_base_of_grow(s, g, npos, p);
            let (b, s2) = base_of(s, g, npos, p);
            if let Some(pb) = b {
                lemma_with_vertex_ext(s2.m, pb);
                let m3 = with_vertex(s2.m, pb);
                lemma_extends_trans(s.m, s2.m, m3);
            }
            lemma_base_walk_maps(st, g, npos, vids, j - 1);
            lemma_base_of_maps(s, g, npos, p);
            if let Some(pb) = b {
                let m3 = with_vertex(s2.m, pb);
                let vs3 = vs.push(s2.m.geo.vertices.len() as usize);
                assert forall|t: int| 0 <= t < j implies vids[t] < g.vertices.len() && #[trigger] corner_source(m3, vs3[t])
                    == Some(PointSource::Base(g.vertices[vids[t] as int])) by {
                    if t < j - 1 {
                        assert(vs3[t] == vs[t]);
                        assert(corner_source(s.m, vs[t]) == Some(PointSource::Base(g.vertices[vids[t] as int])));
                        lemma_corner_source_extend(s.m, m3, vs[t]);
                    } else {
                        assert(m3.geo.vertices[s2.m.geo.vertices.len() as int] == pb);
                    }
                }
            }
        } else {
            lemma_base_walk_maps(st, g, npos, vids, j - 1);
        }
    }
}

proof fn lemma_front_walk_grow(st: ExState, g: GeoModel, vids: Seq<usize>, j: int)
    ensures
        extends_plain(st.m, front_walk(st, g, vids, j).0.m),
        front_walk(st, g, vids, j).0.m.geo.num_points == st.m.geo.num_points,
        front_walk(st, g, vids, j).0.front == st.front,
        front_walk(st, g, vids, j).0.base == st.base,
    decreases j,
{
    if j > 0 {
        lemma_front_walk_grow(st, g, vids, j - 1);
        let (s, vs, ok) = front_walk(st, g, vids, j - 1);
        let vid = vids[j - 1];
        if ok && vid < g.vertices.len() && s.front.dom().contains(g.vertices[vid as int]) {
            let pf = s.front[g.vertices[vid as int]];
            lemma_with_vertex_ext(s.m, pf);
            lemma_extends_trans(st.m, s.m, with_vertex(s.m, pf));
        }
    }
}

proof fn lemma_front_walk_maps(st: ExState, g: GeoModel, vids: Seq<usize>, j: int)
    requires
        maps_ok(st),
        0 <= j <= vids.len(),
        bounded(front_walk(st, g, vids, j).0.m),
    ensures
        maps_ok(front_walk(st, g, vids, j).0),
        front_walk(st, g, vids, j).2 ==> walk_on_fronts(
            front_walk(st, g, vids, j).0.m,
            g,
            vids,
            front_walk(st, g, vids, j).1,
            j,
        ),
    decreases j,
{
    if j > 0 {
        let (s, vs, ok) = front_walk(st, g, vids, j - 1);
        let vid = vids[j - 1];
        lemma_front_walk_grow(st, g, vids, j - 1);
        if ok && vid < g.vertices.len() && s.front.dom().contains(g.vertices[vid as int]) {
            let p = g.vertices[vid as int];
            let pf = s.front[p];
            let m3 = with_vertex(s.m, pf);
            lemma_with_vertex_ext(s.m, pf);
            lemma_front_walk_maps(st, g, vids, j - 1);
            let vs3 = vs.push(s.m.geo.vertices.len() as usize);
            assert forall|t: int| 0 <= t < j implies vids[t] < g.vertices.len() && #[trigger] corner_source(m3, vs3[t])
                == Some(PointSource::Front(g.vertices[vids[t] as int])) by {
                if t < j - 1 {
                    assert(vs3[t] == vs[t]);
                    assert(corner_source(s.m, vs[t]) == Some(PointSource::Front(g.vertices[vids[t] as int])));
                    lemma_corner_source_extend(s.m, m3, vs[t]);
                } else {
                    assert(m3.geo.vertices[s.m.geo.vertices.len() as int] == pf);
                }
            }
        } else {
            lemma_front_walk_maps(st, g, vids, j - 1);
        }
    }
}

proof fn lemma_extends_trans_any(a: ExModel, b: ExModel, c: ExModel)
    requires
        extends(a, b),
        extends(b, c),
    ensures
        extends(a, c),
{
}

proof fn lemma_copy_prefix_grow(st: ExState, g: GeoModel, npos: nat, sel: Seq<bool>, n: int)
    ensures
        extends_plain(st.m, copy_prefix(st, g, npos, sel, n).m),
        copy_prefix(st, g, npos, sel, n).m.geo.num_points >= st.m.geo.num_points,
        copy_prefix(st, g, npos, sel, n).front == st.front,
    decreases n,
{
    if n > 0 {
        lemma_copy_prefix_grow(st, g, npos, sel, n - 1);
        let s = copy_prefix(st, g, npos, sel, n - 1);
        if !selected(sel, n - 1) {
            match g.prims[n - 1] {
                PrimModel::Polygon(v) => {
                    lemma_base_walk_grow(s, g, npos, v, v.len() as int);
                    let (s2, vs, ok) = base_walk(s, g, npos, v, v.len() as int);
                    lemma_extends_trans(st.m, s.m, s2.m);
                    lemma_with_prim_ext(s2.m, PrimModel::Polygon(vs), FaceGroup::Kept);
                    lemma_extends_trans(st.m, s2.m, with_prim(s2.m, PrimModel::Polygon(vs), FaceGroup::Kept));
                },
                PrimModel::Polyline(v, c) => {
                    lemma_base_walk_grow(s, g, npos, v, v.len() as int);
                    let (s2, vs, ok) = base_walk(s, g, npos, v, v.len() as int);
                    lemma_extends_trans(st.m, s.m, s2.m);
                    lemma_with_prim_ext(s2.m, PrimModel::Polyline(vs, c), FaceGroup::Kept);
                    lemma_extends_trans(st.m, s2.m, with_prim(s2.m, PrimModel::Polyline(vs, c), FaceGroup::Kept));
                },
                _ => {},
            }
        }
    }
}

proof fn lemma_copy_prefix_maps(st: ExState, g: GeoModel, npos: nat, sel: Seq<bool>, n: int)
    requires
        maps_ok(st),
        0 <= n <= g.prims.len(),
        bounded(copy_prefix(st, g, npos, sel, n).m),
    ensures
        maps_ok(copy_prefix(st, g, npos, sel, n)),
    decreases n,
{
    if n > 0 {
        let s = copy_prefix(st, g, npos, sel, n - 1);
        lemma_copy_prefix_grow(s, g, npos, sel, 0);
        if !selected(sel, n - 1) {
            match g.prims[n - 1] {
                PrimModel::Polygon(v) => {
                    lemma_base_walk_grow(s, g, npos, v, v.len() as int);
                    lemma_copy_prefix_maps(st, g, npos, sel, n - 1);
                    lemma_base_walk_maps(s, g, npos, v, v.len() as int);
                },
                PrimModel::Polyline(v, c) => {
                    lemma_base_walk_grow(s, g, npos, v, v.len() as int);
                    lemma_copy_prefix_maps(st, g, npos, sel, n - 1);
                    lemma_base_walk_maps(s, g, npos, v, v.len() as int);
                },
                _ => {
                    lemma_copy_prefix_maps(st, g, npos, sel, n - 1);
                },
            }
        } else {
            lemma_copy_prefix_maps(st, g, npos, sel, n - 1);
        }
    }
}

/// The front half of a face step: the state after the front face (if any).
spec fn front_half(st: ExState, g: GeoModel, v: Seq<usize>, f: ExtrudeFaces) -> ExState {
    if f.front {
        let (s, vs, ok) = front_walk(st, g, v, v.len() as int);
        if ok && vs.len() >= 3 {
            ExState { m: with_prim(s.m, PrimModel::Polygon(vs), FaceGroup::Front), front: s.front, base: s.base }
        } else {
            s
        }
    } else {
        st
    }
}

proof fn lemma_faces_step_grow(st: ExState, g: GeoModel, npos: nat, sel: Seq<bool>, f: ExtrudeFaces, i: int)
    requires
        0 <= i < g.prims.len(),
    ensures
        extends(st.m, faces_step(st, g, npos, sel, f, i).m),
        faces_step(st, g, npos, sel, f, i).m.geo.num_points >= st.m.geo.num_points,
{
    if selected(sel, i) {
        if let PrimModel::Polygon(v) = g.prims[i] {
            lemma_front_walk_grow(st, g, v, v.len() as int);
            let (s, vs, ok) = front_walk(st, g, v, v.len() as int);
            lemma_with_prim_ext(s.m, PrimModel::Polygon(vs), FaceGroup::Front);
            let s1 = front_half(st, g, v, f);
            assert(extends(st.m, s1.m));
            lemma_base_walk_grow(s1, g, npos, v.reverse(), v.len() as int);
            let (s2, vs2, ok2) = base_walk(s1, g, npos, v.reverse(), v.len() as int);
            lemma_with_prim_ext(s2.m, PrimModel::Polygon(vs2), FaceGroup::Back);
            lemma_extends_trans_any(st.m, s1.m, s2.m);
            lemma_extends_trans_any(st.m, s2.m, with_prim(s2.m, PrimModel::Polygon(vs2), FaceGroup::Back));
        }
    }
}

proof fn lemma_faces_step_face_out(st: ExState, g: GeoModel, npos: nat, sel: Seq<bool>, f: ExtrudeFaces, i: int)
    requires
        0 <= i < g.prims.len(),
        maps_ok(st),
        faces_face_out(st.m, g, sel),
        bounded(faces_step(st, g, npos, sel, f, i).m),
    ensures
        maps_ok(faces_step(st, g, npos, sel, f, i)),
        faces_face_out(faces_step(st, g, npos, sel, f, i).m, g, sel),
{
    if selected(sel, i) {
        if let PrimModel::Polygon(v) = g.prims[i] {
            let n = v.len() as int;
            lemma_front_walk_grow(st, g, v, n);
            let (s, vs, ok) = front_walk(st, g, v, n);
            let s1 = front_half(st, g, v, f);
            lemma_with_prim_ext(s.m, PrimModel::Polygon(vs), FaceGroup::Front);
            lemma_base_walk_grow(s1, g, npos, v.reverse(), n);
            let (s2, vs2, ok2) = base_walk(s1, g, npos, v.reverse(), n);
            lemma_with_prim_ext(s2.m, PrimModel::Polygon(vs2), FaceGroup::Back);
            if f.back {
                lemma_extends_trans_any(s1.m, s2.m, faces_step(st, g, npos, sel, f, i).m);
            }
            assert(bounded(s1.m));
            if f.front {
                assert(bounded(s.m));
                lemma_front_walk_maps(st, g, v, n);
                lemma_faces_face_out_extend(st.m, s.m, g, sel);
            }
            if f.front && ok && vs.len() >= 3 {
                let m1 = s1.m;
                let k = s.m.geo.prims.len() as int;
                assert(front_face_of(m1, g, sel, k, i)) by {
                    assert(m1.geo.prims[k] == PrimModel::Polygon(vs));
                    assert forall|t: int| 0 <= t < v.len() implies v[t] < g.vertices.len() && #[trigger] corner_source(
                        m1,
                        m1.geo.prims[k].verts()[t],
                    ) == Some(PointSource::Front(g.vertices[v[t] as int])) by {
                        assert(corner_source(s.m, vs[t]) == Some(PointSource::Front(g.vertices[v[t] as int])));
                        lemma_corner_source_extend(s.m, m1, vs[t]);
                    }
                }
                assert forall|q: int| 0 <= q < m1.geo.prims.len() implies (#[trigger] m1.groups[q] == FaceGroup::Front
                    ==> exists|i2: int| #[trigger] front_face_of(m1, g, sel, q, i2)) by {
                    if q < k && m1.groups[q] == FaceGroup::Front {
                        assert(s.m.groups[q] == m1.groups[q]);
                        let i2 = choose|i2: int| #[trigger] front_face_of(s.m, g, sel, q, i2);
                        lemma_face_props_extend(s.m, m1, g, sel, q, i2);
                    }
                }
                assert forall|q: int| 0 <= q < m1.geo.prims.len() implies (#[trigger] m1.groups[q] == FaceGroup::Back
                    ==> exists|i2: int| #[trigger] back_face_of(m1, g, sel, q, i2)) by {
                    if q < k && m1.groups[q] == FaceGroup::Back {
                        assert(s.m.groups[q] == m1.groups[q]);
                        let i2 = choose|i2: int| #[trigger] back_face_of(s.m, g, sel, q, i2);
                        lemma_face_props_extend(s.m, m1, g, sel, q, i2);
                    }
                }
            }
            assert(faces_face_out(s1.m, g, sel));
            assert(maps_ok(s1));
            if f.back {
                lemma_base_walk_maps(s1, g, npos, v.reverse(), n);
                lemma_faces_face_out_extend(s1.m, s2.m, g, sel);
            }
            if f.back && ok2 && vs2.len() >= 3 {
                let m2 = with_prim(s2.m, PrimModel::Polygon(vs2), FaceGroup::Back);
                let k = s2.m.geo.prims.len() as int;
                assert(back_face_of(m2, g, sel, k, i)) by {
                    assert(m2.geo.prims[k] == PrimModel::Polygon(vs2));
                    assert forall|t: int| 0 <= t < v.len() implies {
                        let c = v[v.len() - 1 - t];
                        c < g.vertices.len() && #[trigger] corner_source(m2, m2.geo.prims[k].verts()[t]) == Some(
                            PointSource::Base(g.vertices[c as int]),
                        )
                    } by {
                        assert(v.reverse()[t] == v[v.len() - 1 - t]);
                        assert(corner_source(s2.m, vs2[t]) == Some(PointSource::Base(g.vertices[v.reverse()[t] as int])));
                        lemma_corner_source_extend(s2.m, m2, vs2[t]);
                    }
                }
                assert forall|q: int| 0 <= q < m2.geo.prims.len() implies (#[trigger] m2.groups[q] == FaceGroup::Front
                    ==> exists|i2: int| #[trigger] front_face_of(m2, g, sel, q, i2)) by {
                    if q < k && m2.groups[q] == FaceGroup::Front {
                        assert(s2.m.groups[q] == m2.groups[q]);
                        let i2 = choose|i2: int| #[trigger] front_face_of(s2.m, g, sel, q, i2);
                        lemma_face_props_extend(s2.m, m2, g, sel, q, i2);
                    }
                }
                assert forall|q: int| 0 <= q < m2.geo.prims.len() implies (#[trigger] m2.groups[q] == FaceGroup::Back
                    ==> exists|i2: int| #[trigger] back_face_of(m2, g, sel, q, i2)) by {
                    if q < k && m2.groups[q] == FaceGroup::Back {
                        assert(s2.m.groups[q] == m2.groups[q]);
                        let i2 = choose|i2: int| #[trigger] back_face_of(s2.m, g, sel, q, i2);
                        lemma_face_props_extend(s2.m, m2, g, sel, q, i2);
                    }
                }
            }
        }
    }
}

proof fn lemma_faces_prefix_grow(st: ExState, g: GeoModel, npos: nat, sel: Seq<bool>, f: ExtrudeFaces, n: int)
    requires
        0 <= n <= g.prims.len(),
    ensures
        extends(st.m, faces_prefix(st, g, npos, sel, f, n).m),
        faces_prefix(st, g, npos, sel, f, n).m.geo.num_points >= st.m.geo.num_points,
    decreases n,
{
    if n > 0 {
        lemma_faces_prefix_grow(st, g, npos, sel, f, n - 1);
        let s = faces_prefix(st, g, npos, sel, f, n - 1);
        lemma_faces_step_grow(s, g, npos, sel, f, n - 1);
        lemma_extends_trans_any(st.m, s.m, faces_step(s, g, npos, sel, f, n - 1).m);
    }
}

proof fn lemma_faces_prefix_face_out(st: ExState, g: GeoModel, npos: nat, sel: Seq<bool>, f: ExtrudeFaces, n: int)
    requires
        0 <= n <= g.prims.len(),
        maps_ok(st),
        faces_face_out(st.m, g, sel),
        bounded(faces_prefix(st, g, npos, sel, f, n).m),
    ensures
        maps_ok(faces_prefix(st, g, npos, sel, f, n)),
        faces_face_out(faces_prefix(st, g, npos, sel, f, n).m, g, sel),
    decreases n,
{
    if n > 0 {
        let s = faces_prefix(st, g, npos, sel, f, n - 1);
        lemma_faces_step_grow(s, g, npos, sel, f, n - 1);
        lemma_faces_prefix_face_out(st, g, npos, sel, f, n - 1);
        lemma_faces_step_face_out(s, g, npos, sel, f, n - 1);
    }
}

proof fn lemma_strip_steps_grow(
    st: ExState,
    pb1: usize,
    pf1: usize,
    pb2: usize,
    pf2: usize,
    last1: usize,
    last2: usize,
    d: nat,
    div: nat,
)
    ensures
        extends_plain(st.m, strip_steps(st, pb1, pf1, pb2, pf2, last1, last2, d, div).m),
    decreases div - d,
{
    if d < div {
        let step = d + 1;
        let (c1, m1) = if step == div {
            (pf1, st.m)
        } else {
            (
                st.m.geo.num_points as usize,
                with_point(st.m, PointSource::Between { from: pb1, to: pf1, step: step as u32, steps: div as u32 }),
            )
        };
        let (c2, m2) = if step == div {
            (pf2, m1)
        } else {
            (
                m1.geo.num_points as usize,
                with_point(m1, PointSource::Between { from: pb2, to: pf2, step: step as u32, steps: div as u32 }),
            )
        };
        let v0 = m2.geo.vertices.len();
        let m3 = with_vertex(with_vertex(with_vertex(with_vertex(m2, last1), last2), c2), c1);
        let quad = seq![v0 as usize, (v0 + 1) as usize, (v0 + 2) as usize, (v0 + 3) as usize];
        let m4 = with_prim(m3, PrimModel::Polygon(quad), FaceGroup::Side);
        assert(extends_plain(st.m, m4));
        lemma_strip_steps_grow(ExState { m: m4, front: st.front, base: st.base }, pb1, pf1, pb2, pf2, c1, c2, step, div);
        lemma_extends_trans(
            st.m,
            m4,
            strip_steps(ExState { m: m4, front: st.front, base: st.base }, pb1, pf1, pb2, pf2, c1, c2, step, div).m,
        );
    }
}

proof fn lemma_side_strip_grow(st: ExState, g: GeoModel, npos: nat, p1: usize, p2: usize, div: nat)
    ensures
        extends_plain(st.m, side_strip(st, g, npos, p1, p2, div).m),
{
    let (b1, s1) = base_of(st, g, npos, p1);
    lemma_base_of_grow(st, g, npos, p1);
    if let Some(pb1) = b1 {
        let (b2, s2) = base_of(s1, g, npos, p2);
        lemma_base_of_grow(s1, g, npos, p2);
        lemma_extends_trans(st.m, s1.m, s2.m);
        if let Some(pb2) = b2 {
            let pf1 = if s2.front.dom().contains(p1) {
                s2.front[p1]
            } else {
                pb1
            };
            let pf2 = if s2.front.dom().contains(p2) {
                s2.front[p2]
            } else {
                pb2
            };
            lemma_strip_steps_grow(s2, pb1, pf1, pb2, pf2, pb1, pb2, 0, div);
            lemma_extends_trans(st.m, s2.m, strip_steps(s2, pb1, pf1, pb2, pf2, pb1, pb2, 0, div).m);
        }
    }
}

proof fn lemma_edges_prefix_grow(st: ExState, g: GeoModel, npos: nat, sel: Seq<bool>, hes: Seq<PolyHalfEdge>, div: nat, n: int)
    ensures
        extends_plain(st.m, edges_prefix(st, g, npos, sel, hes, div, n).m),
    decreases n,
{
    if n > 0 {
        lemma_edges_prefix_grow(st, g, npos, sel, hes, div, n - 1);
        let s = edges_prefix(st, g, npos, sel, hes, div, n - 1);
        let he = hes[n - 1];
        lemma_side_strip_grow(s, g, npos, he.origin, he.dest, div);
        lemma_extends_trans(st.m, s.m, edge_step(s, g, npos, sel, hes, div, n - 1).m);
    }
}

proof fn lemma_segments_of_grow(st: ExState, g: GeoModel, npos: nat, vids: Seq<usize>, div: nat, n: int)
    ensures
        extends_plain(st.m, segments_of(st, g, npos, vids, div, n).m),
    decreases n,
{
    if n > 0 {
        lemma_segments_of_grow(st, g, npos, vids, div, n - 1);
        let s = segments_of(st, g, npos, vids, div, n - 1);
        let v1 = vids[n - 1];
        let v2 = vids[n];
        if v1 < g.vertices.len() && v2 < g.vertices.len() {
            lemma_side_strip_grow(s, g, npos, g.vertices[v1 as int], g.vertices[v2 as int], div);
            lemma_extends_trans(st.m, s.m, segments_of(st, g, npos, vids, div, n).m);
        }
    }
}

proof fn lemma_polyline_sides_grow(st: ExState, g: GeoModel, npos: nat, sel: Seq<bool>, div: nat, n: int)
    ensures
        extends_plain(st.m, polyline_sides(st, g, npos, sel, div, n).m),
    decreases n,
{
    if n > 0 {
        lemma_polyline_sides_grow(st, g, npos, sel, div, n - 1);
        let s = polyline_sides(st, g, npos, sel, div, n - 1);
        if let PrimModel::Polyline(v, _) = g.prims[n - 1] {
            if selected(sel, n - 1) && v.len() >= 2 {
                lemma_segments_of_grow(s, g, npos, v, div, v.len() - 1);
                lemma_extends_trans(st.m, s.m, polyline_sides(st, g, npos, sel, div, n).m);
            }
        }
    }
}

proof fn lemma_front_map_points(pts: Seq<usize>, n: int)
    requires
        0 <= n <= pts.len(),
        pts.len() <= usize::MAX,
    ensures
        forall|p: usize| #[trigger] front_map(pts, n).dom().contains(p) ==> front_map(pts, n)[p] < n && pts[front_map(pts, n)[p] as int] == p,
    decreases n,
{
    if n > 0 {
        lemma_front_map_points(pts, n - 1);
        assert forall|p: usize| #[trigger] front_map(pts, n).dom().contains(p) implies front_map(pts, n)[p] < n
            && pts[front_map(pts, n)[p] as int] == p by {
            if p != pts[n - 1] {
                assert(front_map(pts, n - 1).dom().contains(p));
            }
        }
    }
}

/// In a connected extrusion every face faces out: each front face is the
/// front face of a selected input polygon, over the front points of its
/// corners in the polygon's order, and each back face is the back face of a
/// selected input polygon, over the base copies of its corners in reverse
/// order (so that it faces the other way).
pub proof fn lemma_extrude_connected_faces_face_out(
    g: GeoModel,
    npos: nat,
    sel: Seq<bool>,
    hes: Seq<PolyHalfEdge>,
    f: ExtrudeFaces,
    div: nat,
)
    requires
        bounded(connected_extrusion(g, npos, sel, hes, f, div)),
    ensures
        faces_face_out(connected_extrusion(g, npos, sel, hes, f, div), g, sel),
{
    let n = g.prims.len() as int;
    let pts = selected_points(g, sel, n);
    if !(exists|q: int| 0 <= q < pts.len() && !has_pos(g, npos, #[trigger] pts[q])) {
        let s0 = front_state(pts);
        lemma_copy_prefix_grow(s0, g, npos, sel, n);
        lemma_faces_prefix_grow(copy_prefix(s0, g, npos, sel, n), g, npos, sel, f, n);
        if f.side {
            let s2 = faces_prefix(copy_prefix(s0, g, npos, sel, n), g, npos, sel, f, n);
            let s3 = edges_prefix(s2, g, npos, sel, hes, div, hes.len() as int);
            lemma_edges_prefix_grow(s2, g, npos, sel, hes, div, hes.len() as int);
            lemma_polyline_sides_grow(s3, g, npos, sel, div, n);
        }
        lemma_front_map_points(pts, pts.len() as int);
        assert(maps_ok(s0));
        assert(faces_face_out(s0.m, g, sel));
        lemma_copy_prefix_grow(s0, g, npos, sel, n);
        let s1 = copy_prefix(s0, g, npos, sel, n);
        lemma_faces_face_out_extend(s0.m, s1.m, g, sel);
        lemma_faces_prefix_grow(s1, g, npos, sel, f, n);
        let s2 = faces_prefix(s1, g, npos, sel, f, n);
        let m = connected_extrusion(g, npos, sel, hes, f, div);
        if f.side {
            let s3 = edges_prefix(s2, g, npos, sel, hes, div, hes.len() as int);
            lemma_edges_prefix_grow(s2, g, npos, sel, hes, div, hes.len() as int);
            lemma_polyline_sides_grow(s3, g, npos, sel, div, n);
            lemma_extends_trans(s2.m, s3.m, m);
        }
        assert(extends_plain(s2.m, m));
        assert(bounded(s2.m));
        assert(bounded(s1.m));
        lemma_copy_prefix_maps(s0, g, npos, sel, n);
        lemma_faces_prefix_face_out(s1, g, npos, sel, f, n);
        lemma_faces_face_out_extend(s2.m, m, g, sel);
    } else {
        assert(connected_extrusion(g, npos, sel, hes, f, div) == empty_model());
    }
}

/// Whether output primitive `k` of `m` is the front face of input polygon
/// `i` extruded on its own: it runs over the polygon's corners in the same
/// order, each on a point placed from that corner and polygon `i`.
pub open spec fn own_front_face_of(m: ExModel, g: GeoModel, sel: Seq<bool>, k: int, i: int) -> bool {
    &&& 0 <= i < g.prims.len()
    &&& selected(sel, i)
    &&& g.prims[i] is Polygon
    &&& m.geo.prims[k] is Polygon
    &&& m.geo.prims[k].verts().len() == g.prims[i].verts().len()
    &&& forall|t: int|
        0 <= t < g.prims[i].verts().len() ==> g.prims[i].verts()[t] < g.vertices.len() && #[trigger] corner_source(
            m,
            m.geo.prims[k].verts()[t],
        ) == Some(PointSource::PolygonFront(g.vertices[g.prims[i].verts()[t] as int], i as usize))
}

/// Every front and back face of an extrusion one polygon at a time is the
/// face of a selected input polygon, the back face running the other way.
pub open spec fn own_faces_face_out(m: ExModel, g: GeoModel, sel: Seq<bool>) -> bool {
    &&& m.groups.len() == m.geo.prims.len()
    &&& m.sources.len() == m.geo.num_points
    &&& m.geo.vertices.len() == m.geo.num_points
    &&& forall|k: int|
        0 <= k < m.geo.prims.len() ==> (#[trigger] m.groups[k] == FaceGroup::Front ==> exists|i: int|
            #[trigger] own_front_face_of(m, g, sel, k, i))
    &&& forall|k: int|
        0 <= k < m.geo.prims.len() ==> (#[trigger] m.groups[k] == FaceGroup::Back ==> exists|i: int|
            #[trigger] back_face_of(m, g, sel, k, i))
}

proof fn lemma_own_front_extend(a: ExModel, b: ExModel, g: GeoModel, sel: Seq<bool>, k: int, i: int)
    requires
        extends(a, b),
        0 <= k < a.geo.prims.len(),
        own_front_face_of(a, g, sel, k, i),
    ensures
        own_front_face_of(b, g, sel, k, i),
{
    assert(b.geo.prims[k] == a.geo.prims[k]);
    let vs = a.geo.prims[k].verts();
    assert forall|t: int| 0 <= t < g.prims[i].verts().len() implies g.prims[i].verts()[t] < g.vertices.len()
        && #[trigger] corner_source(b, b.geo.prims[k].verts()[t]) == Some(
        PointSource::PolygonFront(g.vertices[g.prims[i].verts()[t] as int], i as usize),
    ) by {
        assert(corner_source(a, vs[t]) is Some);
        lemma_corner_source_extend(a, b, vs[t]);
    }
}

proof fn lemma_own_block_face_out(st: ExModel, g: GeoModel, npos: nat, sel: Seq<bool>, f: ExtrudeFaces, i: int)
    requires
        own_faces_face_out(st, g, sel),
        0 <= i < g.prims.len(),
        bounded(individual_step(st, g, npos, sel, f, i)),
    ensures
        own_faces_face_out(individual_step(st, g, npos, sel, f, i), g, sel),
        extends(st, individual_step(st, g, npos, sel, f, i)),
{
    if let PrimModel::Polygon(vids) = g.prims[i] {
        if selected(sel, i) && vids.len() >= 3 && corner_points(g, npos, vids) is Some {
            let pts = corner_points(g, npos, vids)->0;
            let m = individual_block(st, pts, i, f);
            let np0 = st.geo.num_points;
            let v0 = st.geo.vertices.len();
            let kk = pts.len();
            let p0 = st.geo.prims.len();
            assert(extends(st, m)) by {
                assert forall|q: int| 0 <= q < st.sources.len() implies #[trigger] m.sources[q] == st.sources[q] by {}
                assert forall|q: int| 0 <= q < v0 implies #[trigger] m.geo.vertices[q] == st.geo.vertices[q] by {}
                assert forall|q: int| 0 <= q < p0 implies #[trigger] m.geo.prims[q] == st.geo.prims[q] by {}
                assert forall|q: int| 0 <= q < st.groups.len() implies #[trigger] m.groups[q] == st.groups[q] by {}
            }
            assert forall|c: int| 0 <= c < kk implies #[trigger] corner_source(m, (v0 + 2 * c) as usize) == Some(
                PointSource::PolygonFront(pts[c], i as usize),
            ) && corner_source(m, (v0 + 2 * c + 1) as usize) == Some(PointSource::Base(pts[c])) by {
                assert(m.geo.vertices[v0 + 2 * c] == np0 + 2 * c);
                assert(m.geo.vertices[v0 + 2 * c + 1] == np0 + 2 * c + 1);
                assert(m.sources[np0 + 2 * c] == PointSource::PolygonFront(pts[(2 * c) / 2], i as usize));
                assert((2 * c) / 2 == c);
                assert((2 * c + 1) / 2 == c);
                assert((2 * c + 1) % 2 == 1);
                assert(m.sources[np0 + 2 * c + 1] == PointSource::Base(pts[(2 * c + 1) / 2]));
            }
            let nf: int = if f.front { 1 } else { 0 };
            let nb: int = if f.back { 1 } else { 0 };
            assert forall|k: int| 0 <= k < m.geo.prims.len() implies (#[trigger] m.groups[k] == FaceGroup::Front
                ==> exists|i2: int| #[trigger] own_front_face_of(m, g, sel, k, i2)) by {
                if m.groups[k] == FaceGroup::Front {
                    if k < p0 {
                        assert(st.groups[k] == m.groups[k]);
                        let i2 = choose|i2: int| #[trigger] own_front_face_of(st, g, sel, k, i2);
                        lemma_own_front_extend(st, m, g, sel, k, i2);
                    } else {
                        assert(k == p0 && f.front);
                        assert(own_front_face_of(m, g, sel, k, i)) by {
                            assert forall|t: int| 0 <= t < vids.len() implies vids[t] < g.vertices.len()
                                && #[trigger] corner_source(m, m.geo.prims[k].verts()[t]) == Some(
                                PointSource::PolygonFront(g.vertices[vids[t] as int], i as usize),
                            ) by {
                                assert(m.geo.prims[k].verts()[t] == (v0 + 2 * t) as usize);
                                assert(corner_source(m, (v0 + 2 * t) as usize) == Some(
                                    PointSource::PolygonFront(pts[t], i as usize),
                                ));
                            }
                        }
                    }
                }
            }
            assert forall|k: int| 0 <= k < m.geo.prims.len() implies (#[trigger] m.groups[k] == FaceGroup::Back
                ==> exists|i2: int| #[trigger] back_face_of(m, g, sel, k, i2)) by {
                if m.groups[k] == FaceGroup::Back {
                    if k < p0 {
                        assert(st.groups[k] == m.groups[k]);
                        let i2 = choose|i2: int| #[trigger] back_face_of(st, g, sel, k, i2);
                        lemma_face_props_extend(st, m, g, sel, k, i2);
                    } else {
                        assert(k == p0 + nf && f.back);
                        assert(back_face_of(m, g, sel, k, i)) by {
                            assert forall|t: int| 0 <= t < vids.len() implies {
                                let c = vids[vids.len() - 1 - t];
                                c < g.vertices.len() && #[trigger] corner_source(m, m.geo.prims[k].verts()[t]) == Some(
                                    PointSource::Base(g.vertices[c as int]),
                                )
                            } by {
                                let c = kk - 1 - t;
                                assert(m.geo.prims[k].verts()[t] == (v0 + 2 * c + 1) as usize);
                                assert(corner_source(m, (v0 + 2 * c + 1) as usize) == Some(PointSource::Base(pts[c])));
                            }
                        }
                    }
                }
            }
        }
    }
}

proof fn lemma_own_prefix_face_out(g: GeoModel, npos: nat, sel: Seq<bool>, f: ExtrudeFaces, n: int)
    requires
        0 <= n <= g.prims.len(),
        bounded(individual_prefix(g, npos, sel, f, n)),
    ensures
        own_faces_face_out(individual_prefix(g, npos, sel, f, n), g, sel),
    decreases n,
{
    if n > 0 {
        let s = individual_prefix(g, npos, sel, f, n - 1);
        lemma_own_step_grow(s, g, npos, sel, f, n - 1);
        lemma_own_prefix_face_out(g, npos, sel, f, n - 1);
        lemma_own_block_face_out(s, g, npos, sel, f, n - 1);
    }
}

proof fn lemma_own_step_grow(st: ExModel, g: GeoModel, npos: nat, sel: Seq<bool>, f: ExtrudeFaces, i: int)
    requires
        0 <= i < g.prims.len(),
    ensures
        individual_step(st, g, npos, sel, f, i).sources.len() >= st.sources.len(),
        individual_step(st, g, npos, sel, f, i).geo.vertices.len() >= st.geo.vertices.len(),
{
}

/// Extruding polygons one by one, every face faces out: each front face is
/// the front face of a selected input polygon, over points placed from its
/// corners in the polygon's order, and each back face is the back face of a
/// selected input polygon, over the base copies of its corners in reverse
/// order.
pub proof fn lemma_extrude_individual_faces_face_out(g: GeoModel, npos: nat, sel: Seq<bool>, f: ExtrudeFaces)
    requires
        bounded(individual_prefix(g, npos, sel, f, g.prims.len() as int)),
    ensures
        own_faces_face_out(individual_prefix(g, npos, sel, f, g.prims.len() as int), g, sel),
{
    lemma_own_prefix_face_out(g, npos, sel, f, g.prims.len() as int);
}

} // verus!
