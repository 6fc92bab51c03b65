//! ConvertLine: turns every primitive into two-point line segments.
//!
//! Polylines and curves become one segment per consecutive pair of distinct
//! points (plus the closing pair when closed). Polygon boundaries become
//! segments too, but an edge shared by several polygons is emitted once.

use vstd::prelude::*;
use crate::geometry::{point_ids_of, GeoModel, Geometry, PrimModel, Primitive};

verus! {

broadcast use vstd::std_specs::hash::group_hash_axioms;

/// Key identifying the unordered point pair `{a, b}`.
pub open spec fn edge_key(a: usize, b: usize) -> u128 {
    if a < b {
        (a * 0x1_0000_0000_0000_0000 + b) as u128
    } else {
        (b * 0x1_0000_0000_0000_0000 + a) as u128
    }
}

/// Segments `(pts[i], pts[i + 1])` for `i < k`, skipping pairs of equal points.
pub open spec fn chain_segments(pts: Seq<usize>, k: int) -> Seq<(usize, usize)>
    decreases k,
{
    if k <= 0 {
        Seq::empty()
    } else {
        let r = chain_segments(pts, k - 1);
        if pts[k - 1] != pts[k] {
            r.push((pts[k - 1], pts[k]))
        } else {
            r
        }
    }
}

/// Segments of an open or closed point chain.
pub open spec fn polyline_segments(pts: Seq<usize>, closed: bool) -> Seq<(usize, usize)> {
    if pts.len() < 2 {
        Seq::empty()
    } else {
        let base = chain_segments(pts, pts.len() - 1);
        if closed && pts.len() > 2 && pts[pts.len() - 1] != pts[0] {
            base.push((pts[pts.len() - 1], pts[0]))
        } else {
            base
        }
    }
}

/// The first `k` boundary edges of a polygon, skipping degenerate edges and
/// edges whose key is already in the set; returns the emitted segments and the
/// grown set.
pub open spec fn polygon_edges(pts: Seq<usize>, k: int, seen: Set<u128>) -> (Seq<(usize, usize)>, Set<u128>)
    decreases k,
{
    if k <= 0 {
        (Seq::empty(), seen)
    } else {
        let (segs, s) = polygon_edges(pts, k - 1, seen);
        let a = pts[k - 1];
        let b = pts[k % pts.len() as int];
        if a == b || s.contains(edge_key(a, b)) {
            (segs, s)
        } else {
            (segs.push((a, b)), s.insert(edge_key(a, b)))
        }
    }
}

pub open spec fn polygon_segments(pts: Seq<usize>, seen: Set<u128>) -> (Seq<(usize, usize)>, Set<u128>) {
    if pts.len() < 2 {
        (Seq::empty(), seen)
    } else {
        polygon_edges(pts, pts.len() as int, seen)
    }
}

/// Segments that one primitive contributes, given the polygon edges seen so far.
pub open spec fn convert_step(verts: Seq<usize>, prim: PrimModel, seen: Set<u128>) -> (Seq<(usize, usize)>, Set<u128>) {
    match prim {
        PrimModel::Polyline(v, c) => (polyline_segments(point_ids_of(verts, v), c), seen),
        PrimModel::Polygon(v) => polygon_segments(point_ids_of(verts, v), seen),
        PrimModel::BezierCurve(v, c) => (polyline_segments(point_ids_of(verts, v), c), seen),
    }
}

/// Segments of the first `k` primitives of `g`, with the polygon edge keys seen.
pub open spec fn convert_prefix(g: GeoModel, k: int) -> (Seq<(usize, usize)>, Set<u128>)
    decreases k,
{
    if k <= 0 {
        (Seq::empty(), Set::empty())
    } else {
        let (segs, s) = convert_prefix(g, k - 1);
        let (ns, s2) = convert_step(g.vertices, g.prims[k - 1], s);
        (segs + ns, s2)
    }
}

/// All segments that ConvertLine produces from `g`, in order.
pub open spec fn line_segments(g: GeoModel) -> Seq<(usize, usize)> {
    convert_prefix(g, g.prims.len() as int).0
}

/// `g` with one open two-vertex polyline from point `s.0` to point `s.1` added.
pub open spec fn emit_segment(g: GeoModel, s: (usize, usize)) -> GeoModel {
    GeoModel {
        num_points: g.num_points,
        vertices: g.vertices.push(s.0).push(s.1),
        prims: g.prims.push(
            PrimModel::Polyline(seq![g.vertices.len() as usize, (g.vertices.len() + 1) as usize], false),
        ),
    }
}

/// `g` with one segment primitive added per element of `segs`, in order.
pub open spec fn append_segments(g: GeoModel, segs: Seq<(usize, usize)>) -> GeoModel
    decreases segs.len(),
{
    if segs.len() == 0 {
        g
    } else {
        emit_segment(append_segments(g, segs.drop_last()), segs.last())
    }
}

pub proof fn lemma_append_segments_concat(g: GeoModel, s1: Seq<(usize, usize)>, s2: Seq<(usize, usize)>)
    ensures
        append_segments(g, s1 + s2) == append_segments(append_segments(g, s1), s2),
    decreases s2.len(),
{
    if s2.len() == 0 {
        assert(s1 + s2 =~= s1);
    } else {
        assert((s1 + s2).drop_last() =~= s1 + s2.drop_last());
        lemma_append_segments_concat(g, s1, s2.drop_last());
    }
}

pub proof fn lemma_append_segments_push(g: GeoModel, s: Seq<(usize, usize)>, x: (usize, usize))
    ensures
        append_segments(g, s.push(x)) == emit_segment(append_segments(g, s), x),
{
    assert(s.push(x).drop_last() =~= s);
}

#[verifier::spinoff_prover]
proof fn lemma_append_segments_shape(g: GeoModel, segs: Seq<(usize, usize)>)
    ensures
        append_segments(g, segs).num_points == g.num_points,
        append_segments(g, segs).vertices.len() == g.vertices.len() + 2 * segs.len(),
        append_segments(g, segs).prims.len() == g.prims.len() + segs.len(),
        forall|i: int| 0 <= i < g.vertices.len() ==> #[trigger] append_segments(g, segs).vertices[i] == g.vertices[i],
        forall|i: int| 0 <= i < g.prims.len() ==> #[trigger] append_segments(g, segs).prims[i] == g.prims[i],
        forall|i: int|
            0 <= i < segs.len() ==> {
                &&& #[trigger] append_segments(g, segs).vertices[g.vertices.len() + 2 * i] == segs[i].0
                &&& append_segments(g, segs).vertices[g.vertices.len() + 2 * i + 1] == segs[i].1
                &&& append_segments(g, segs).prims[g.prims.len() + i] == PrimModel::Polyline(
                    seq![(g.vertices.len() + 2 * i) as usize, (g.vertices.len() + 2 * i + 1) as usize],
                    false,
                )
            },
    decreases segs.len(),
{
    if segs.len() > 0 {
        lemma_append_segments_shape(g, segs.drop_last());
        let prev = append_segments(g, segs.drop_last());
        assert forall|i: int| 0 <= i < segs.len() implies {
            &&& #[trigger] append_segments(g, segs).vertices[g.vertices.len() + 2 * i] == segs[i].0
            &&& append_segments(g, segs).vertices[g.vertices.len() + 2 * i + 1] == segs[i].1
            &&& append_segments(g, segs).prims[g.prims.len() + i] == PrimModel::Polyline(
                seq![(g.vertices.len() + 2 * i) as usize, (g.vertices.len() + 2 * i + 1) as usize],
                false,
            )
        } by {
            let cur = append_segments(g, segs);
            assert(cur == emit_segment(prev, segs.last()));
            if i < segs.len() - 1 {
                assert(segs.drop_last()[i] == segs[i]);
                assert(cur.vertices[g.vertices.len() + 2 * i] == prev.vertices[g.vertices.len() + 2 * i]);
                assert(cur.vertices[g.vertices.len() + 2 * i + 1] == prev.vertices[g.vertices.len() + 2 * i + 1]);
                assert(cur.prims[g.prims.len() + i] == prev.prims[g.prims.len() + i]);
            } else {
                assert(prev.vertices.len() == g.vertices.len() + 2 * i);
                assert(prev.prims.len() == g.prims.len() + i);
                assert(cur.vertices[g.vertices.len() + 2 * i] == segs.last().0);
                assert(cur.vertices[g.vertices.len() + 2 * i + 1] == segs.last().1);
            }
        }
    }
}

/// Adds vertices for points `p0` and `p1` and an open polyline through them.
pub fn add_segment_primitive(geo: &mut Geometry, p0: usize, p1: usize)
    ensures
        final(geo)@ == emit_segment(old(geo)@, (p0, p1)),
{
    let v0 = geo.add_vertex(p0);
    let v1 = geo.add_vertex(p1);
    let mut verts: Vec<usize> = Vec::new();
    verts.push(v0);
    verts.push(v1);
    proof {
        assert(verts@ =~= seq![old(geo)@.vertices.len() as usize, (old(geo)@.vertices.len() + 1) as usize]);
    }
    geo.add_primitive(Primitive::Polyline { vertices: verts, closed: false });
    proof {
        assert(geo@ =~= emit_segment(old(geo)@, (p0, p1)));
    }
}

/// Adds one segment per consecutive pair of distinct points of `point_ids`,
/// and the closing pair when `closed` and there are more than two points.
pub fn add_open_polyline_segments(geo: &mut Geometry, point_ids: &Vec<usize>, closed: bool)
    ensures
        final(geo)@ == append_segments(old(geo)@, polyline_segments(point_ids@, closed)),
{
    let ghost g0 = geo@;
    if point_ids.len() < 2 {
        assert(append_segments(g0, Seq::<(usize, usize)>::empty()) == g0);
        return;
    }
    let n = point_ids.len();
    let mut i: usize = 0;
    while i < n - 1
        invariant
            n == point_ids@.len(),
            n >= 2,
            i <= n - 1,
            geo@ == append_segments(g0, chain_segments(point_ids@, i as int)),
        decreases n - 1 - i,
    {
        let a = point_ids[i];
        let b = point_ids[i + 1];
        if a != b {
            add_segment_primitive(geo, a, b);
            proof {
                lemma_append_segments_push(g0, chain_segments(point_ids@, i as int), (a, b));
            }
        }
        i += 1;
    }
    if closed && n > 2 {
        let a = point_ids[n - 1];
        let b = point_ids[0];
        if a != b {
            add_segment_primitive(geo, a, b);
            proof {
                lemma_append_segments_push(g0, chain_segments(point_ids@, (n - 1) as int), (a, b));
            }
        }
    }
}

/// Key of the unordered pair `{a, b}`: the smaller index in the high half.
pub fn undirected_key(a: usize, b: usize) -> (k: u128)
    ensures
        k == edge_key(a, b),
{
    if a < b {
        (a as u128) * 0x1_0000_0000_0000_0000u128 + (b as u128)
    } else {
        (b as u128) * 0x1_0000_0000_0000_0000u128 + (a as u128)
    }
}

/// Adds one segment per boundary edge of the polygon `point_ids`, skipping
/// degenerate edges and edges whose unordered pair is already in `seen`;
/// every emitted pair is added to `seen`.
pub fn add_polygon_edges_unique(geo: &mut Geometry, point_ids: &Vec<usize>, seen: &mut std::collections::HashSet<u128>)
    ensures
        final(geo)@ == append_segments(old(geo)@, polygon_segments(point_ids@, old(seen)@).0),
        final(seen)@ == polygon_segments(point_ids@, old(seen)@).1,
{
    let ghost g0 = geo@;
    let ghost s0 = seen@;
    let n = point_ids.len();
    if n < 2 {
        assert(append_segments(g0, Seq::<(usize, usize)>::empty()) == g0);
        return;
    }
    let mut i: usize = 0;
    while i < n
        invariant
            n == point_ids@.len(),
            n >= 2,
            i <= n,
            geo@ == append_segments(g0, polygon_edges(point_ids@, i as int, s0).0),
            seen@ == polygon_edges(point_ids@, i as int, s0).1,
        decreases n - i,
    {
        let a = point_ids[i];
        let b = point_ids[(i + 1) % n];
        if a != b {
            let key = undirected_key(a, b);
            if seen.insert(key) {
                add_segment_primitive(geo, a, b);
                proof {
                    lemma_append_segments_push(g0, polygon_edges(point_ids@, i as int, s0).0, (a, b));
                }
            }
        }
        i += 1;
    }
}

/// The ConvertLine node.
pub struct ConvertLineNode;

impl ConvertLineNode {
    /// Keeps the points of `input` and replaces its topology by open
    /// two-point polylines: the segments of every polyline and curve, and the
    /// boundary edges of the polygons with edges shared between polygons
    /// emitted once.
    pub fn compute(&self, input: &Geometry) -> (out: Geometry)
        ensures
            out@ == append_segments(
                GeoModel { num_points: input@.num_points, vertices: Seq::empty(), prims: Seq::empty() },
                line_segments(input@),
            ),
    {
        let mut out = Geometry { num_points: input.num_points, vertices: Vec::new(), primitives: Vec::new() };
        out.reset_topology_keep_points();
        let ghost g0 = out@;
        assert(append_segments(g0, Seq::<(usize, usize)>::empty()) == g0);
        let mut seen: std::collections::HashSet<u128> = std::collections::HashSet::new();
        let mut k: usize = 0;
        while k < input.primitives.len()
            invariant
                k <= input.primitives.len(),
                g0 == (GeoModel { num_points: input@.num_points, vertices: Seq::empty(), prims: Seq::empty() }),
                out@ == append_segments(g0, convert_prefix(input@, k as int).0),
                seen@ == convert_prefix(input@, k as int).1,
            decreases input.primitives.len() - k,
        {
            let ghost before = convert_prefix(input@, k as int).0;
            let prim = &input.primitives[k];
            assert(input@.prims[k as int] == prim@);
            match prim {
                Primitive::Polyline { vertices, closed } => {
                    let pts = input.point_ids_from_vertices(vertices);
                    add_open_polyline_segments(&mut out, &pts, *closed);
                }
                Primitive::Polygon { vertices } => {
                    let pts = input.point_ids_from_vertices(vertices);
                    add_polygon_edges_unique(&mut out, &pts, &mut seen);
                }
                Primitive::BezierCurve { vertices, closed } => {
                    let pts = input.point_ids_from_vertices(vertices);
                    add_open_polyline_segments(&mut out, &pts, *closed);
                }
            }
            proof {
                let step = convert_step(input@.vertices, input@.prims[k as int], convert_prefix(input@, k as int).1);
                lemma_append_segments_concat(g0, before, step.0);
            }
            k += 1;
        }
        out
    }
}

/// Every segment that ConvertLine emits joins two different points.
pub proof fn lemma_line_segments_distinct(g: GeoModel)
    ensures
        forall|i: int| 0 <= i < line_segments(g).len() ==> #[trigger] line_segments(g)[i].0 != line_segments(g)[i].1,
{
    lemma_convert_prefix_distinct(g, g.prims.len() as int);
}

proof fn lemma_chain_distinct(pts: Seq<usize>, k: int)
    requires
        k < pts.len(),
    ensures
        forall|i: int| 0 <= i < chain_segments(pts, k).len() ==> #[trigger] chain_segments(pts, k)[i].0 != chain_segments(pts, k)[i].1,
    decreases k,
{
    if k > 0 {
        lemma_chain_distinct(pts, k - 1);
        let r = chain_segments(pts, k - 1);
        assert forall|i: int| 0 <= i < chain_segments(pts, k).len() implies #[trigger] chain_segments(pts, k)[i].0 != chain_segments(pts, k)[i].1 by {
            if i < r.len() {
                assert(chain_segments(pts, k)[i] == r[i]);
            }
        }
    }
}

proof fn lemma_polygon_edges_distinct(pts: Seq<usize>, k: int, seen: Set<u128>)
    ensures
        forall|i: int| 0 <= i < polygon_edges(pts, k, seen).0.len() ==> #[trigger] polygon_edges(pts, k, seen).0[i].0 != polygon_edges(pts, k, seen).0[i].1,
    decreases k,
{
    if k > 0 {
        lemma_polygon_edges_distinct(pts, k - 1, seen);
        let r = polygon_edges(pts, k - 1, seen).0;
        assert forall|i: int| 0 <= i < polygon_edges(pts, k, seen).0.len() implies #[trigger] polygon_edges(pts, k, seen).0[i].0 != polygon_edges(pts, k, seen).0[i].1 by {
            if i < r.len() {
                assert(polygon_edges(pts, k, seen).0[i] == r[i]);
            }
        }
    }
}

proof fn lemma_convert_prefix_distinct(g: GeoModel, k: int)
    ensures
        forall|i: int| 0 <= i < convert_prefix(g, k).0.len() ==> #[trigger] convert_prefix(g, k).0[i].0 != convert_prefix(g, k).0[i].1,
    decreases k,
{
    if k > 0 {
        lemma_convert_prefix_distinct(g, k - 1);
        let (segs, s) = convert_prefix(g, k - 1);
        let step = convert_step(g.vertices, g.prims[k - 1], s);
        match g.prims[k - 1] {
            PrimModel::Polygon(v) => {
                let pts = point_ids_of(g.vertices, v);
                if pts.len() >= 2 {
                    lemma_polygon_edges_distinct(pts, pts.len() as int, s);
                }
            },
            PrimModel::Polyline(v, c) => {
                let pts = point_ids_of(g.vertices, v);
                if pts.len() >= 2 {
                    lemma_chain_distinct(pts, pts.len() - 1);
                }
            },
            PrimModel::BezierCurve(v, c) => {
                let pts = point_ids_of(g.vertices, v);
                if pts.len() >= 2 {
                    lemma_chain_distinct(pts, pts.len() - 1);
                }
            },
        }
        assert forall|i: int| 0 <= i < convert_prefix(g, k).0.len() implies #[trigger] convert_prefix(g, k).0[i].0 != convert_prefix(g, k).0[i].1 by {
            if i >= segs.len() {
                assert(convert_prefix(g, k).0[i] == step.0[i - segs.len()]);
            } else {
                assert(convert_prefix(g, k).0[i] == segs[i]);
            }
        }
    }
}

/// ConvertLine's output is made only of open two-vertex polylines, each
/// between two different points, and keeps the input's points.
pub proof fn lemma_convert_line_output_shape(input: GeoModel)
    ensures
        ({
            let out = append_segments(
                GeoModel { num_points: input.num_points, vertices: Seq::empty(), prims: Seq::empty() },
                line_segments(input),
            );
            &&& out.num_points == input.num_points
            &&& out.vertices.len() == 2 * out.prims.len()
            &&& forall|i: int|
                0 <= i < out.prims.len() ==> {
                    &&& #[trigger] out.prims[i] == PrimModel::Polyline(seq![(2 * i) as usize, (2 * i + 1) as usize], false)
                    &&& out.vertices[2 * i] != out.vertices[2 * i + 1]
                }
        }),
{
    let g0 = GeoModel { num_points: input.num_points, vertices: Seq::empty(), prims: Seq::empty() };
    let segs = line_segments(input);
    lemma_append_segments_shape(g0, segs);
    lemma_line_segments_distinct(input);
    let out = append_segments(g0, segs);
    assert forall|i: int| 0 <= i < out.prims.len() implies {
        &&& #[trigger] out.prims[i] == PrimModel::Polyline(seq![(2 * i) as usize, (2 * i + 1) as usize], false)
        &&& out.vertices[2 * i] != out.vertices[2 * i + 1]
    } by {
        assert(out.vertices[0 + 2 * i] == segs[i].0);
        assert(out.prims[0 + i] == PrimModel::Polyline(seq![(0 + 2 * i) as usize, (0 + 2 * i + 1) as usize], false));
    }
}

/// What ConvertLine outputs for `g` (see `ConvertLineNode::compute`).
pub open spec fn convert_line_output(g: GeoModel) -> GeoModel {
    append_segments(GeoModel { num_points: g.num_points, vertices: Seq::empty(), prims: Seq::empty() }, line_segments(g))
}

/// Whether `out` holds, as its `j`-th primitive, an open two-vertex
/// polyline from point `a` to point `b`, for some `j`.
pub open spec fn has_segment(out: GeoModel, a: usize, b: usize) -> bool {
    exists|j: int|
        0 <= j < out.prims.len() && #[trigger] out.prims[j] == PrimModel::Polyline(
            seq![(2 * j) as usize, (2 * j + 1) as usize],
            false,
        ) && out.vertices[2 * j] == a && out.vertices[2 * j + 1] == b
}

/// The point chain of a polyline or curve, with whether it is closed.
pub open spec fn chain_of(verts: Seq<usize>, prim: PrimModel) -> Option<(Seq<usize>, bool)> {
    match prim {
        PrimModel::Polyline(v, c) => Some((point_ids_of(verts, v), c)),
        PrimModel::BezierCurve(v, c) => Some((point_ids_of(verts, v), c)),
        PrimModel::Polygon(_) => None,
    }
}

proof fn lemma_convert_prefix_grows(g: GeoModel, k: int, m: int)
    requires
        0 <= k <= m,
    ensures
        convert_prefix(g, k).0.len() <= convert_prefix(g, m).0.len(),
        forall|x: int| 0 <= x < convert_prefix(g, k).0.len() ==> #[trigger] convert_prefix(g, m).0[x] == convert_prefix(g, k).0[x],
    decreases m - k,
{
    if k < m {
        lemma_convert_prefix_grows(g, k, m - 1);
        let (segs, st) = convert_prefix(g, m - 1);
        let step = convert_step(g.vertices, g.prims[m - 1], st);
        assert(convert_prefix(g, m).0 == segs + step.0);
    }
}

/// A segment that primitive `i` contributes is a segment of the output.
proof fn lemma_step_segment_in_output(g: GeoModel, i: int, x: int)
    requires
        0 <= i < g.prims.len(),
        0 <= x < convert_step(g.vertices, g.prims[i], convert_prefix(g, i).1).0.len(),
    ensures
        has_segment(
            convert_line_output(g),
            convert_step(g.vertices, g.prims[i], convert_prefix(g, i).1).0[x].0,
            convert_step(g.vertices, g.prims[i], convert_prefix(g, i).1).0[x].1,
        ),
{
    let (segs, st) = convert_prefix(g, i);
    let step = convert_step(g.vertices, g.prims[i], st).0;
    assert(convert_prefix(g, i + 1).0 == segs + step);
    let y = segs.len() + x;
    assert(convert_prefix(g, i + 1).0[y] == step[x]);
    lemma_convert_prefix_grows(g, i + 1, g.prims.len() as int);
    let all = line_segments(g);
    assert(all[y] == step[x]);
    let g0 = GeoModel { num_points: g.num_points, vertices: Seq::empty(), prims: Seq::empty() };
    lemma_append_segments_shape(g0, all);
    let out = convert_line_output(g);
    assert(out.vertices[0 + 2 * y] == all[y].0);
    assert(out.prims[0 + y] == PrimModel::Polyline(seq![(0 + 2 * y) as usize, (0 + 2 * y + 1) as usize], false));
    assert(out.prims[y] == PrimModel::Polyline(seq![(2 * y) as usize, (2 * y + 1) as usize], false));
}

proof fn lemma_chain_has(pts: Seq<usize>, k: int, j: int)
    requires
        0 <= j < k < pts.len(),
        pts[j] != pts[j + 1],
    ensures
        chain_segments(pts, k).contains((pts[j], pts[j + 1])),
    decreases k,
{
    if j < k - 1 {
        lemma_chain_has(pts, k - 1, j);
        let r = chain_segments(pts, k - 1);
        let w = choose|w: int| 0 <= w < r.len() && r[w] == (pts[j], pts[j + 1]);
        assert(chain_segments(pts, k)[w] == r[w]);
    } else {
        let r = chain_segments(pts, k - 1);
        assert(chain_segments(pts, k)[r.len() as int] == (pts[j], pts[j + 1]));
    }
}

proof fn lemma_polyline_segments_has(pts: Seq<usize>, closed: bool, a: usize, b: usize)
    requires
        chain_segments(pts, pts.len() - 1).contains((a, b)) || (closed && pts.len() >= 3 && pts.last() != pts[0]
            && a == pts.last() && b == pts[0]),
        pts.len() >= 2,
    ensures
        polyline_segments(pts, closed).contains((a, b)),
{
    let base = chain_segments(pts, pts.len() - 1);
    if closed && pts.len() > 2 && pts[pts.len() - 1] != pts[0] {
        let full = base.push((pts[pts.len() - 1], pts[0]));
        if base.contains((a, b)) {
            let w = choose|w: int| 0 <= w < base.len() && base[w] == (a, b);
            assert(full[w] == base[w]);
        } else {
            assert(full[base.len() as int] == (a, b));
        }
    }
}

/// ConvertLine keeps every step of a polyline or curve: for each two
/// consecutive different points of its chain, the output holds a segment
/// from the first to the second; and when it is closed, with three or more
/// points whose last differs from its first, a segment from its last point
/// back to its first.
pub proof fn lemma_convert_line_keeps_chain_steps(g: GeoModel, i: int, j: int)
    requires
        0 <= i < g.prims.len(),
        chain_of(g.vertices, g.prims[i]) is Some,
    ensures
        ({
            let (pts, closed) = chain_of(g.vertices, g.prims[i])->0;
            &&& (0 <= j < pts.len() - 1 && pts[j] != pts[j + 1]) ==> has_segment(
                convert_line_output(g),
                pts[j],
                pts[j + 1],
            )
            &&& (closed && pts.len() >= 3 && pts.last() != pts[0]) ==> has_segment(
                convert_line_output(g),
                pts.last(),
                pts[0],
            )
        }),
{
    let (pts, closed) = chain_of(g.vertices, g.prims[i])->0;
    let st = convert_prefix(g, i).1;
    let step = convert_step(g.vertices, g.prims[i], st).0;
    assert(step == polyline_segments(pts, closed));
    if 0 <= j < pts.len() - 1 && pts[j] != pts[j + 1] {
        lemma_chain_has(pts, pts.len() - 1, j);
        lemma_polyline_segments_has(pts, closed, pts[j], pts[j + 1]);
        let x = choose|x: int| 0 <= x < step.len() && step[x] == (pts[j], pts[j + 1]);
        lemma_step_segment_in_output(g, i, x);
    }
    if closed && pts.len() >= 3 && pts.last() != pts[0] {
        lemma_polyline_segments_has(pts, closed, pts.last(), pts[0]);
        let x = choose|x: int| 0 <= x < step.len() && step[x] == (pts.last(), pts[0]);
        lemma_step_segment_in_output(g, i, x);
    }
}

proof fn lemma_edge_key_injective(a: usize, b: usize, c: usize, d: usize)
    requires
        edge_key(a, b) == edge_key(c, d),
    ensures
        (a == c && b == d) || (a == d && b == c),
{
    let m: int = 0x1_0000_0000_0000_0000;
    let (x, y) = if a < b { (a as int, b as int) } else { (b as int, a as int) };
    let (u, v) = if c < d { (c as int, d as int) } else { (d as int, c as int) };
    assert(0 <= x < m && 0 <= y < m && 0 <= u < m && 0 <= v < m);
    assert(0 <= x * m + y <= 0xffff_ffff_ffff_ffff_ffff_ffff_ffff_ffff) by (nonlinear_arith)
        requires
            0 <= x < m,
            0 <= y < m,
            m == 0x1_0000_0000_0000_0000int,
    ;
    assert(0 <= u * m + v <= 0xffff_ffff_ffff_ffff_ffff_ffff_ffff_ffff) by (nonlinear_arith)
        requires
            0 <= u < m,
            0 <= v < m,
            m == 0x1_0000_0000_0000_0000int,
    ;
    assert(edge_key(a, b) == x * m + y);
    assert(edge_key(c, d) == u * m + v);
    assert(x == u && y == v) by (nonlinear_arith)
        requires
            x * m + y == u * m + v,
            0 <= y < m,
            0 <= v < m,
            0 <= x,
            0 <= u,
            m > 0,
    ;
}

proof fn lemma_polygon_edges_keys(pts: Seq<usize>, k: int, seen: Set<u128>)
    requires
        0 <= k <= pts.len(),
        pts.len() >= 1,
    ensures
        seen.subset_of(polygon_edges(pts, k, seen).1),
        forall|t: int|
            0 <= t < k && pts[t] != pts[(t + 1) % (pts.len() as int)] ==> #[trigger] polygon_edges(pts, k, seen).1.contains(
                edge_key(pts[t], pts[(t + 1) % (pts.len() as int)]),
            ),
        forall|key: u128|
            #[trigger] polygon_edges(pts, k, seen).1.contains(key) ==> seen.contains(key) || exists|x: int|
                0 <= x < polygon_edges(pts, k, seen).0.len() && edge_key(
                    #[trigger] polygon_edges(pts, k, seen).0[x].0,
                    polygon_edges(pts, k, seen).0[x].1,
                ) == key,
    decreases k,
{
    if k > 0 {
        lemma_polygon_edges_keys(pts, k - 1, seen);
        let (segs, st) = polygon_edges(pts, k - 1, seen);
        let a = pts[k - 1];
        let b = pts[k % pts.len() as int];
        let r = polygon_edges(pts, k, seen);
        assert forall|key: u128| #[trigger] r.1.contains(key) implies seen.contains(key) || exists|x: int|
            0 <= x < r.0.len() && edge_key(#[trigger] r.0[x].0, r.0[x].1) == key by {
            if st.contains(key) {
                if !seen.contains(key) {
                    let x = choose|x: int| 0 <= x < segs.len() && edge_key(#[trigger] segs[x].0, segs[x].1) == key;
                    assert(r.0[x] == segs[x]);
                }
            } else {
                assert(r.0[segs.len() as int] == (a, b));
                assert(key == edge_key(a, b));
                assert(edge_key(r.0[segs.len() as int].0, r.0[segs.len() as int].1) == key);
            }
        }
    }
}

proof fn lemma_convert_prefix_keys(g: GeoModel, k: int)
    requires
        0 <= k <= g.prims.len(),
    ensures
        forall|key: u128|
            #[trigger] convert_prefix(g, k).1.contains(key) ==> exists|x: int|
                0 <= x < convert_prefix(g, k).0.len() && edge_key(
                    #[trigger] convert_prefix(g, k).0[x].0,
                    convert_prefix(g, k).0[x].1,
                ) == key,
    decreases k,
{
    if k > 0 {
        lemma_convert_prefix_keys(g, k - 1);
        let (segs, st) = convert_prefix(g, k - 1);
        let step = convert_step(g.vertices, g.prims[k - 1], st);
        let all = convert_prefix(g, k).0;
        assert(all == segs + step.0);
        assert forall|key: u128| #[trigger] convert_prefix(g, k).1.contains(key) implies exists|x: int|
            0 <= x < all.len() && edge_key(#[trigger] all[x].0, all[x].1) == key by {
            let from_before = st.contains(key);
            if !from_before {
                match g.prims[k - 1] {
                    PrimModel::Polygon(v) => {
                        let pts = point_ids_of(g.vertices, v);
                        if pts.len() >= 2 {
                            lemma_polygon_edges_keys(pts, pts.len() as int, st);
                            let x = choose|x: int| 0 <= x < step.0.len() && edge_key(#[trigger] step.0[x].0, step.0[x].1) == key;
                            assert(all[segs.len() + x] == step.0[x]);
                        }
                    },
                    _ => {},
                }
            } else {
                let x = choose|x: int| 0 <= x < segs.len() && edge_key(#[trigger] segs[x].0, segs[x].1) == key;
                assert(all[x] == segs[x]);
            }
        }
    }
}

/// The point ids of polygon `prim`, when it is one.
pub open spec fn polygon_of(verts: Seq<usize>, prim: PrimModel) -> Option<Seq<usize>> {
    match prim {
        PrimModel::Polygon(v) => Some(point_ids_of(verts, v)),
        _ => None,
    }
}

/// ConvertLine keeps every edge of every polygon: for each edge between two
/// different points, from a corner to the next one (the last corner to the
/// first), the output holds a segment joining them, in one direction or
/// the other.
pub proof fn lemma_convert_line_keeps_polygon_edges(g: GeoModel, i: int, t: int)
    requires
        0 <= i < g.prims.len(),
        polygon_of(g.vertices, g.prims[i]) is Some,
        polygon_of(g.vertices, g.prims[i])->0.len() >= 2,
        0 <= t < polygon_of(g.vertices, g.prims[i])->0.len(),
        polygon_of(g.vertices, g.prims[i])->0[t] != polygon_of(g.vertices, g.prims[i])->0[(t + 1) % (polygon_of(
            g.vertices,
            g.prims[i],
        )->0.len() as int)],
    ensures
        ({
            let pts = polygon_of(g.vertices, g.prims[i])->0;
            let a = pts[t];
            let b = pts[(t + 1) % (pts.len() as int)];
            has_segment(convert_line_output(g), a, b) || has_segment(convert_line_output(g), b, a)
        }),
{
    let pts = polygon_of(g.vertices, g.prims[i])->0;
    let a = pts[t];
    let b = pts[(t + 1) % (pts.len() as int)];
    let st = convert_prefix(g, i).1;
    lemma_polygon_edges_keys(pts, pts.len() as int, st);
    let key = edge_key(a, b);
    assert(convert_prefix(g, i + 1).1 == polygon_edges(pts, pts.len() as int, st).1);
    assert(convert_prefix(g, i + 1).1.contains(key));
    lemma_convert_prefix_keys(g, i + 1);
    let pre = convert_prefix(g, i + 1).0;
    let x = choose|x: int| 0 <= x < pre.len() && edge_key(#[trigger] pre[x].0, pre[x].1) == key;
    lemma_convert_prefix_grows(g, i + 1, g.prims.len() as int);
    let all = line_segments(g);
    assert(all[x] == pre[x]);
    lemma_edge_key_injective(pre[x].0, pre[x].1, a, b);
    let g0 = GeoModel { num_points: g.num_points, vertices: Seq::empty(), prims: Seq::empty() };
    lemma_append_segments_shape(g0, all);
    let out = convert_line_output(g);
    assert(out.vertices[0 + 2 * x] == all[x].0);
    assert(out.prims[0 + x] == PrimModel::Polyline(seq![(0 + 2 * x) as usize, (0 + 2 * x + 1) as usize], false));
    assert(out.prims[x] == PrimModel::Polyline(seq![(2 * x) as usize, (2 * x + 1) as usize], false));
}

/// The unordered pair of segment `s`.
pub open spec fn seg_pair_key(s: (usize, usize)) -> u128 {
    edge_key(s.0, s.1)
}

proof fn lemma_polygon_edges_fresh(pts: Seq<usize>, k: int, seen: Set<u128>)
    requires
        0 <= k <= pts.len(),
        pts.len() >= 1,
    ensures
        seen.subset_of(polygon_edges(pts, k, seen).1),
        forall|x: int|
            0 <= x < polygon_edges(pts, k, seen).0.len() ==> polygon_edges(pts, k, seen).1.contains(
                seg_pair_key(#[trigger] polygon_edges(pts, k, seen).0[x]),
            ) && !seen.contains(seg_pair_key(polygon_edges(pts, k, seen).0[x])),
        forall|x: int, y: int|
            0 <= x < y < polygon_edges(pts, k, seen).0.len() ==> seg_pair_key(#[trigger] polygon_edges(pts, k, seen).0[x])
                != seg_pair_key(#[trigger] polygon_edges(pts, k, seen).0[y]),
    decreases k,
{
    if k > 0 {
        lemma_polygon_edges_fresh(pts, k - 1, seen);
        let (segs, st) = polygon_edges(pts, k - 1, seen);
        let r = polygon_edges(pts, k, seen);
        let a = pts[k - 1];
        let b = pts[k % pts.len() as int];
        if !(a == b || st.contains(edge_key(a, b))) {
            assert forall|x: int| 0 <= x < r.0.len() implies r.1.contains(seg_pair_key(#[trigger] r.0[x]))
                && !seen.contains(seg_pair_key(r.0[x])) by {
                if x < segs.len() {
                    assert(r.0[x] == segs[x]);
                }
            }
            assert forall|x: int, y: int| 0 <= x < y < r.0.len() implies seg_pair_key(#[trigger] r.0[x])
                != seg_pair_key(#[trigger] r.0[y]) by {
                assert(r.0[x] == segs[x]);
                if y < segs.len() {
                    assert(r.0[y] == segs[y]);
                }
            }
        }
    }
}

/// Whether every primitive of `g` is a polygon.
pub open spec fn polygons_only(g: GeoModel) -> bool {
    forall|i: int| 0 <= i < g.prims.len() ==> #[trigger] g.prims[i] is Polygon
}

proof fn lemma_convert_prefix_fresh(g: GeoModel, k: int)
    requires
        0 <= k <= g.prims.len(),
        polygons_only(g),
    ensures
        forall|x: int|
            0 <= x < convert_prefix(g, k).0.len() ==> convert_prefix(g, k).1.contains(
                seg_pair_key(#[trigger] convert_prefix(g, k).0[x]),
            ),
        forall|x: int, y: int|
            0 <= x < y < convert_prefix(g, k).0.len() ==> seg_pair_key(#[trigger] convert_prefix(g, k).0[x])
                != seg_pair_key(#[trigger] convert_prefix(g, k).0[y]),
    decreases k,
{
    if k > 0 {
        lemma_convert_prefix_fresh(g, k - 1);
        let (segs, st) = convert_prefix(g, k - 1);
        assert(g.prims[k - 1] is Polygon);
        let pts = point_ids_of(g.vertices, g.prims[k - 1]->Polygon_0);
        let step = convert_step(g.vertices, g.prims[k - 1], st);
        let all = convert_prefix(g, k).0;
        assert(all == segs + step.0);
        if pts.len() >= 2 {
            lemma_polygon_edges_fresh(pts, pts.len() as int, st);
            assert forall|x: int| 0 <= x < all.len() implies convert_prefix(g, k).1.contains(seg_pair_key(#[trigger] all[x])) by {
                if x < segs.len() {
                    assert(all[x] == segs[x]);
                } else {
                    assert(all[x] == step.0[x - segs.len()]);
                }
            }
            assert forall|x: int, y: int| 0 <= x < y < all.len() implies seg_pair_key(#[trigger] all[x])
                != seg_pair_key(#[trigger] all[y]) by {
                if y < segs.len() {
                    assert(all[x] == segs[x] && all[y] == segs[y]);
                } else if x < segs.len() {
                    assert(all[x] == segs[x] && all[y] == step.0[y - segs.len()]);
                    assert(st.contains(seg_pair_key(segs[x])));
                } else {
                    assert(all[x] == step.0[x - segs.len()] && all[y] == step.0[y - segs.len()]);
                }
            }
        } else {
            assert(step.0 =~= Seq::<(usize, usize)>::empty());
            assert(all =~= segs);
        }
    }
}

/// On polygons, ConvertLine emits each edge once: no two output segments
/// join the same two points, in either direction.
pub proof fn lemma_convert_line_polygon_edges_once(g: GeoModel, x: int, y: int)
    requires
        polygons_only(g),
        0 <= x < y < convert_line_output(g).prims.len(),
    ensures
        ({
            let out = convert_line_output(g);
            let (a, b) = (out.vertices[2 * x], out.vertices[2 * x + 1]);
            let (c, d) = (out.vertices[2 * y], out.vertices[2 * y + 1]);
            !((a == c && b == d) || (a == d && b == c))
        }),
{
    let all = line_segments(g);
    let g0 = GeoModel { num_points: g.num_points, vertices: Seq::empty(), prims: Seq::empty() };
    lemma_append_segments_shape(g0, all);
    lemma_convert_prefix_fresh(g, g.prims.len() as int);
    let out = convert_line_output(g);
    assert(out.vertices[0 + 2 * x] == all[x].0);
    assert(out.vertices[0 + 2 * x + 1] == all[x].1);
    assert(out.vertices[0 + 2 * y] == all[y].0);
    assert(out.vertices[0 + 2 * y + 1] == all[y].1);
    assert(seg_pair_key(all[x]) != seg_pair_key(all[y]));
    if all[x].0 == all[y].1 && all[x].1 == all[y].0 {
        assert(edge_key(all[x].0, all[x].1) == edge_key(all[y].0, all[y].1));
    }
}

} // verus!
