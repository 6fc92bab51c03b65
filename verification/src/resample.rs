//! The topology of resampling polygon edges: every edge of the selected
//! polygons gets its new points once, shared by the polygons on both sides,
//! and each polygon runs through the new points of its edges in order.
//!
//! How many points an edge gets depends on its length, a floating-point
//! matter decided by the caller; which points and vertices exist, and how
//! the polygons use them, is decided here.

use vstd::prelude::*;
use std::collections::HashMap;
use crate::geometry::{Geometry, GeoModel, Primitive, PrimModel, geo_wf};
use crate::extrude::selected;

verus! {

broadcast use vstd::std_specs::hash::group_hash_axioms;

/// A new point of a resampled edge: `step / steps` of the way from point
/// `from` to point `to`.
#[derive(Clone, Copy, Debug, PartialEq, Eq, Structural)]
pub struct EdgePoint {
    pub from: usize,
    pub to: usize,
    pub step: usize,
    pub steps: usize,
}

/// The points around primitive `i`, when it is a polygon of at least three
/// corners whose vertices all exist.
pub open spec fn ring_of(g: GeoModel, i: int) -> Option<Seq<usize>> {
    match g.prims[i] {
        PrimModel::Polygon(v) => if v.len() >= 3 && forall|j: int| 0 <= j < v.len() ==> #[trigger] v[j] < g.vertices.len() {
            Some(Seq::new(v.len(), |j: int| g.vertices[v[j] as int]))
        } else {
            None
        },
        _ => None,
    }
}

/// Whether `e` joins `a` and `b`, in either direction.
pub open spec fn same_edge(e: (usize, usize), a: usize, b: usize) -> bool {
    (e.0 == a && e.1 == b) || (e.0 == b && e.1 == a)
}

/// Whether `list` has an edge joining `a` and `b`.
pub open spec fn has_edge(list: Seq<(usize, usize)>, a: usize, b: usize) -> bool {
    exists|j: int| 0 <= j < list.len() && #[trigger] same_edge(list[j], a, b)
}

/// `list` followed by the first `m` edges of `ring` that it does not have
/// yet, each in the direction the ring runs.
pub open spec fn add_ring_edges(list: Seq<(usize, usize)>, ring: Seq<usize>, m: int) -> Seq<(usize, usize)>
    decreases m,
{
    if m <= 0 {
        list
    } else {
        let l = add_ring_edges(list, ring, m - 1);
        let a = ring[m - 1];
        let b = ring[m % (ring.len() as int)];
        if has_edge(l, a, b) {
            l
        } else {
            l.push((a, b))
        }
    }
}

/// The edges of the selected polygons among the first `n` primitives, each
/// once, in the order and direction they are first met.
pub open spec fn unique_edges(g: GeoModel, sel: Seq<bool>, n: int) -> Seq<(usize, usize)>
    decreases n,
{
    if n <= 0 {
        Seq::empty()
    } else {
        let l = unique_edges(g, sel, n - 1);
        if selected(sel, n - 1) && ring_of(g, n - 1) is Some {
            let r = ring_of(g, n - 1)->0;
            add_ring_edges(l, r, r.len() as int)
        } else {
            l
        }
    }
}

/// The number of new points of the first `j` edges.
pub open spec fn offset(counts: Seq<usize>, j: int) -> nat
    decreases j,
{
    if j <= 0 {
        0
    } else {
        offset(counts, j - 1) + counts[j - 1] as nat
    }
}

/// The new points of the first `j` edges: `counts[e]` points along edge `e`,
/// evenly from its first point to its second.
pub open spec fn edge_points(list: Seq<(usize, usize)>, counts: Seq<usize>, j: int) -> Seq<EdgePoint>
    decreases j,
{
    if j <= 0 {
        Seq::empty()
    } else {
        let e = j - 1;
        edge_points(list, counts, e) + Seq::new(
            counts[e] as nat,
            |t: int| EdgePoint { from: list[e].0, to: list[e].1, step: (t + 1) as usize, steps: (counts[e] + 1) as usize },
        )
    }
}

/// The position in `list` of the edge joining `a` and `b`.
pub open spec fn edge_pos(list: Seq<(usize, usize)>, a: usize, b: usize) -> int {
    choose|j: int| 0 <= j < list.len() && same_edge(list[j], a, b)
}

/// The new points along the edge from `a` to `b`, in order from `a`: those
/// of its entry in `list`, numbered from `base`, reversed when the entry
/// runs the other way.
pub open spec fn mid_points(list: Seq<(usize, usize)>, counts: Seq<usize>, base: nat, a: usize, b: usize) -> Seq<usize> {
    let j = edge_pos(list, a, b);
    let pts = Seq::new(counts[j] as nat, |t: int| (base + offset(counts, j) + t) as usize);
    if list[j] == (a, b) {
        pts
    } else {
        pts.reverse()
    }
}

/// The polygon with vertices `vids` around `ring`, resampled, over its first
/// `c` corners: each corner keeps its vertex and is followed by one new
/// vertex per new point of the edge it starts. Gives all vertices and the
/// polygon's vertex list.
pub open spec fn corner_fold(
    vs: Seq<usize>,
    vids: Seq<usize>,
    ring: Seq<usize>,
    list: Seq<(usize, usize)>,
    counts: Seq<usize>,
    base: nat,
    c: int,
) -> (Seq<usize>, Seq<usize>)
    decreases c,
{
    if c <= 0 {
        (vs, Seq::empty())
    } else {
        let (vs1, l1) = corner_fold(vs, vids, ring, list, counts, base, c - 1);
        let k = c - 1;
        let mids = mid_points(list, counts, base, ring[k], ring[(k + 1) % (ring.len() as int)]);
        let nv = vs1.len();
        (vs1 + mids, l1.push(vids[k]) + Seq::new(mids.len(), |t: int| (nv + t) as usize))
    }
}

/// The vertices and primitives after the first `n` primitives are
/// resampled: a selected polygon with a ring gets its resampled vertex
/// list; every other primitive is kept.
pub open spec fn rebuild(
    g: GeoModel,
    sel: Seq<bool>,
    list: Seq<(usize, usize)>,
    counts: Seq<usize>,
    n: int,
) -> (Seq<usize>, Seq<PrimModel>)
    decreases n,
{
    if n <= 0 {
        (g.vertices, Seq::empty())
    } else {
        let (vs, ps) = rebuild(g, sel, list, counts, n - 1);
        if selected(sel, n - 1) && ring_of(g, n - 1) is Some {
            let r = ring_of(g, n - 1)->0;
            let (vs2, l) = corner_fold(vs, g.prims[n - 1].verts(), r, list, counts, g.num_points, r.len() as int);
            (vs2, ps.push(PrimModel::Polygon(l)))
        } else {
            (vs, ps.push(g.prims[n - 1]))
        }
    }
}

/// The geometry with the polygon edges resampled: the new points after the
/// input's, the new vertices after the input's, and the selected polygons
/// rewritten.
pub open spec fn resampled_geo(g: GeoModel, sel: Seq<bool>, counts: Seq<usize>) -> GeoModel {
    let list = unique_edges(g, sel, g.prims.len() as int);
    let (vs, ps) = rebuild(g, sel, list, counts, g.prims.len() as int);
    GeoModel { num_points: g.num_points + offset(counts, list.len() as int), vertices: vs, prims: ps }
}

/// The hash key of the edge joining `a` and `b`, in either direction.
pub open spec fn edge_key(a: usize, b: usize) -> u128 {
    let (lo, hi) = if a <= b {
        (a, b)
    } else {
        (b, a)
    };
    (lo as int * 0x1_0000_0000_0000_0000 + hi as int) as u128
}

proof fn lemma_edge_key(a: usize, b: usize, c: usize, d: usize)
    ensures
        edge_key(a, b) == edge_key(c, d) <==> same_edge((a, b), c, d),
{
    let (lo, hi) = if a <= b {
        (a, b)
    } else {
        (b, a)
    };
    let (lo2, hi2) = if c <= d {
        (c, d)
    } else {
        (d, c)
    };
    assert(lo as int * 0x1_0000_0000_0000_0000 + hi as int <= u128::MAX) by (nonlinear_arith)
        requires
            lo <= usize::MAX,
            hi <= usize::MAX,
            usize::MAX < 0x1_0000_0000_0000_0000,
    ;
    assert(lo2 as int * 0x1_0000_0000_0000_0000 + hi2 as int <= u128::MAX) by (nonlinear_arith)
        requires
            lo2 <= usize::MAX,
            hi2 <= usize::MAX,
            usize::MAX < 0x1_0000_0000_0000_0000,
    ;
    if edge_key(a, b) == edge_key(c, d) {
        assert(lo == lo2 && hi == hi2) by (nonlinear_arith)
            requires
                lo as int * 0x1_0000_0000_0000_0000 + hi as int == lo2 as int * 0x1_0000_0000_0000_0000 + hi2 as int,
                0 <= hi < 0x1_0000_0000_0000_0000,
                0 <= hi2 < 0x1_0000_0000_0000_0000,
                0 <= lo,
                0 <= lo2,
        ;
    }
}

/// The key of the edge between points `a` and `b`, whichever way it runs
/// (see `edge_key`).
pub fn undirected_edge_key(a: usize, b: usize) -> (k: u128)
    ensures
        k == edge_key(a, b),
{
    let (lo, hi) = if a <= b {
        (a, b)
    } else {
        (b, a)
    };
    assert(lo as int * 0x1_0000_0000_0000_0000 + hi as int <= u128::MAX) by (nonlinear_arith)
        requires
            lo <= usize::MAX,
            hi <= usize::MAX,
            usize::MAX < 0x1_0000_0000_0000_0000,
    ;
    (lo as u128) * 0x1_0000_0000_0000_0000u128 + (hi as u128)
}

/// The points around primitive `i` (see `ring_of`).
fn ring_exec(geo: &Geometry, i: usize) -> (r: Option<Vec<usize>>)
    requires
        i < geo@.prims.len(),
    ensures
        r is Some <==> ring_of(geo@, i as int) is Some,
        r matches Some(v) ==> ring_of(geo@, i as int) == Some(v@),
{
    match &geo.primitives[i] {
        Primitive::Polygon { vertices } => {
            assert(geo@.prims[i as int] == PrimModel::Polygon(vertices@));
            if vertices.len() < 3 {
                return None;
            }
            let mut ring: Vec<usize> = Vec::new();
            let mut j: usize = 0;
            while j < vertices.len()
                invariant
                    j <= vertices.len(),
                    i < geo@.prims.len(),
                    geo@.prims[i as int] == PrimModel::Polygon(vertices@),
                    ring@.len() == j,
                    forall|q: int| 0 <= q < j ==> #[trigger] vertices@[q] < geo@.vertices.len(),
                    forall|q: int| 0 <= q < j ==> #[trigger] ring@[q] == geo@.vertices[vertices@[q] as int],
                decreases vertices.len() - j,
            {
                if vertices[j] >= geo.vertices.len() {
                    assert(!(vertices@[j as int] < geo@.vertices.len()));
                    return None;
                }
                ring.push(geo.vertices[vertices[j]]);
                j += 1;
            }
            assert(ring@ =~= Seq::new(vertices@.len(), |q: int| geo@.vertices[vertices@[q] as int]));
            Some(ring)
        },
        _ => None,
    }
}

/// The edges of the selected polygons of `geo`, each once, in the order and
/// direction they are first met (see `unique_edges`).
pub fn polygon_edges(geo: &Geometry, sel: &Vec<bool>) -> (r: Vec<(usize, usize)>)
    ensures
        r@ == unique_edges(geo@, sel@, geo@.prims.len() as int),
{
    let mut list: Vec<(usize, usize)> = Vec::new();
    let mut keys: HashMap<u128, usize> = HashMap::new();
    let mut i: usize = 0;
    while i < geo.primitives.len()
        invariant
            i <= geo.primitives.len(),
            list@ == unique_edges(geo@, sel@, i as int),
            forall|k: u128| #[trigger] keys@.contains_key(k) <==> exists|j: int|
                0 <= j < list@.len() && edge_key(list@[j].0, list@[j].1) == k,
        decreases geo.primitives.len() - i,
    {
        let is_sel = i < sel.len() && sel[i];
        if is_sel {
            match ring_exec(geo, i) {
                Some(ring) => {
                    let n = ring.len();
                    let ghost l0 = list@;
                    let mut m: usize = 0;
                    while m < n
                        invariant
                            m <= n,
                            n == ring@.len(),
                            n >= 3,
                            list@ == add_ring_edges(l0, ring@, m as int),
                            forall|k: u128| #[trigger] keys@.contains_key(k) <==> exists|j: int|
                                0 <= j < list@.len() && edge_key(list@[j].0, list@[j].1) == k,
                        decreases n - m,
                    {
                        let a = ring[m];
                        let b = ring[(m + 1) % n];
                        let k = undirected_edge_key(a, b);
                        proof {
                            assert forall|j: int| 0 <= j < list@.len() implies (edge_key(list@[j].0, list@[j].1) == k
                                <==> #[trigger] same_edge(list@[j], a, b)) by {
                                lemma_edge_key(list@[j].0, list@[j].1, a, b);
                                if same_edge(list@[j], a, b) {
                                    lemma_edge_key(a, b, list@[j].0, list@[j].1);
                                }
                            }
                        }
                        if !keys.contains_key(&k) {
                            let ghost before = list@;
                            keys.insert(k, list.len());
                            list.push((a, b));
                            proof {
                                assert(!has_edge(before, a, b)) by {
                                    if has_edge(before, a, b) {
                                        let j = choose|j: int| 0 <= j < before.len() && #[trigger] same_edge(before[j], a, b);
                                        assert(edge_key(before[j].0, before[j].1) == k);
                                    }
                                }
                                assert forall|kk: u128| #[trigger] keys@.contains_key(kk) <==> exists|j: int|
                                    0 <= j < list@.len() && edge_key(list@[j].0, list@[j].1) == kk by {
                                    if kk == k {
                                        assert(edge_key(list@[before.len() as int].0, list@[before.len() as int].1) == kk);
                                    } else if keys@.contains_key(kk) {
                                        let j = choose|j: int| 0 <= j < before.len() && edge_key(before[j].0, before[j].1) == kk;
                                        assert(list@[j] == before[j]);
                                    } else {
                                        if exists|j: int| 0 <= j < list@.len() && edge_key(list@[j].0, list@[j].1) == kk {
                                            let j = choose|j: int| 0 <= j < list@.len() && edge_key(list@[j].0, list@[j].1) == kk;
                                            if j < before.len() {
                                                assert(list@[j] == before[j]);
                                            }
                                        }
                                    }
                                }
                            }
                        } else {
                            proof {
                                let j = choose|j: int| 0 <= j < list@.len() && edge_key(list@[j].0, list@[j].1) == k;
                                assert(same_edge(list@[j], a, b));
                            }
                        }
                        m += 1;
                    }
                },
                None => {},
            }
        }
        i += 1;
    }
    list
}

/// Whether no two edges of `list` join the same two points.
pub open spec fn edges_distinct(list: Seq<(usize, usize)>) -> bool {
    forall|j1: int, j2: int|
        #![trigger list[j1], list[j2]]
        0 <= j1 < j2 < list.len() ==> !same_edge(list[j1], list[j2].0, list[j2].1)
}

proof fn lemma_add_ring_edges(list: Seq<(usize, usize)>, ring: Seq<usize>, m: int)
    requires
        0 <= m <= ring.len(),
        ring.len() >= 1,
        edges_distinct(list),
    ensures
        add_ring_edges(list, ring, m).len() >= list.len(),
        add_ring_edges(list, ring, m).take(list.len() as int) == list,
        edges_distinct(add_ring_edges(list, ring, m)),
        forall|q: int| 0 <= q < m ==> has_edge(add_ring_edges(list, ring, m), #[trigger] ring[q], ring[(q + 1) % (ring.len() as int)]),
    decreases m,
{
    if m > 0 {
        lemma_add_ring_edges(list, ring, m - 1);
        let l = add_ring_edges(list, ring, m - 1);
        let a = ring[m - 1];
        let b = ring[m % (ring.len() as int)];
        assert((m - 1 + 1) % (ring.len() as int) == m % (ring.len() as int));
        if !has_edge(l, a, b) {
            let l2 = l.push((a, b));
            assert(l2.take(list.len() as int) =~= l.take(list.len() as int));
            assert forall|j1: int, j2: int| #![trigger l2[j1], l2[j2]] 0 <= j1 < j2 < l2.len() implies !same_edge(l2[j1], l2[j2].0, l2[j2].1) by {
                if j2 == l.len() {
                    assert(l2[j1] == l[j1]);
                    if same_edge(l[j1], a, b) {
                        assert(has_edge(l, a, b));
                    }
                } else {
                    assert(l2[j1] == l[j1] && l2[j2] == l[j2]);
                }
            }
            assert forall|q: int| 0 <= q < m implies has_edge(l2, #[trigger] ring[q], ring[(q + 1) % (ring.len() as int)]) by {
                if q < m - 1 {
                    let j = choose|j: int| 0 <= j < l.len() && #[trigger] same_edge(l[j], ring[q], ring[(q + 1) % (ring.len() as int)]);
                    assert(l2[j] == l[j]);
                } else {
                    assert(same_edge(l2[l.len() as int], a, b));
                }
            }
        } else {
            assert forall|q: int| 0 <= q < m implies has_edge(l, #[trigger] ring[q], ring[(q + 1) % (ring.len() as int)]) by {
            }
        }
    } else {
        assert(list.take(list.len() as int) =~= list);
    }
}

proof fn lemma_unique_edges(g: GeoModel, sel: Seq<bool>, n: int)
    requires
        0 <= n <= g.prims.len(),
    ensures
        edges_distinct(unique_edges(g, sel, n)),
        forall|i: int, k: int|
            0 <= i < n && selected(sel, i) && ring_of(g, i) is Some && 0 <= k < ring_of(g, i)->0.len() ==> has_edge(
                unique_edges(g, sel, n),
                #[trigger] ring_of(g, i)->0[k],
                ring_of(g, i)->0[(k + 1) % (ring_of(g, i)->0.len() as int)],
            ),
    decreases n,
{
    if n > 0 {
        lemma_unique_edges(g, sel, n - 1);
        let l = unique_edges(g, sel, n - 1);
        if selected(sel, n - 1) && ring_of(g, n - 1) is Some {
            let r = ring_of(g, n - 1)->0;
            lemma_add_ring_edges(l, r, r.len() as int);
            let l2 = unique_edges(g, sel, n);
            assert forall|i: int, k: int|
                0 <= i < n && selected(sel, i) && ring_of(g, i) is Some && 0 <= k < ring_of(g, i)->0.len() implies has_edge(
                    l2,
                    #[trigger] ring_of(g, i)->0[k],
                    ring_of(g, i)->0[(k + 1) % (ring_of(g, i)->0.len() as int)],
                ) by {
                if i < n - 1 {
                    let ri = ring_of(g, i)->0;
                    let a = ri[k];
                    let b = ri[(k + 1) % (ri.len() as int)];
                    assert(has_edge(l, a, b));
                    let j = choose|j: int| 0 <= j < l.len() && #[trigger] same_edge(l[j], a, b);
                    assert(l2.take(l.len() as int)[j] == l[j]);
                    assert(same_edge(l2[j], a, b));
                }
            }
        }
    }
}

proof fn lemma_edge_pos(list: Seq<(usize, usize)>, e: int, a: usize, b: usize)
    requires
        edges_distinct(list),
        0 <= e < list.len(),
        same_edge(list[e], a, b),
    ensures
        edge_pos(list, a, b) == e,
{
    let w = edge_pos(list, a, b);
    assert(0 <= w < list.len() && same_edge(list[w], a, b));
    if w < e {
        assert(!same_edge(list[w], list[e].0, list[e].1));
    } else if w > e {
        assert(!same_edge(list[e], list[w].0, list[w].1));
    }
}

proof fn lemma_offset_mono(counts: Seq<usize>, a: int, b: int)
    requires
        0 <= a <= b,
    ensures
        offset(counts, a) <= offset(counts, b),
    decreases b - a,
{
    if a < b {
        lemma_offset_mono(counts, a, b - 1);
    }
}

fn copy_ids(v: &Vec<usize>) -> (r: Vec<usize>)
    ensures
        r@ == v@,
{
    let r = v.clone();
    assert(r@ =~= v@);
    r
}

fn copy_prim(p: &Primitive) -> (r: Primitive)
    ensures
        r@ == p@,
{
    match p {
        Primitive::Polygon { vertices } => Primitive::Polygon { vertices: copy_ids(vertices) },
        Primitive::Polyline { vertices, closed } => Primitive::Polyline { vertices: copy_ids(vertices), closed: *closed },
        Primitive::BezierCurve { vertices, closed } => Primitive::BezierCurve { vertices: copy_ids(vertices), closed: *closed },
    }
}

fn lookup_edge(keys: &HashMap<u128, usize>, edges: &Vec<(usize, usize)>, pa: usize, pb: usize) -> (e: usize)
    requires
        edges_distinct(edges@),
        has_edge(edges@, pa, pb),
        forall|k: u128| #[trigger] keys@.contains_key(k) ==> keys@[k] < edges@.len() && edge_key(edges@[keys@[k] as int].0, edges@[keys@[k] as int].1) == k,
        forall|q: int| 0 <= q < edges@.len() ==> keys@.contains_key(#[trigger] edge_key(edges@[q].0, edges@[q].1)),
    ensures
        e < edges@.len(),
        e == edge_pos(edges@, pa, pb),
        same_edge(edges@[e as int], pa, pb),
{
    let key = undirected_edge_key(pa, pb);
    proof {
        let w = choose|w: int| 0 <= w < edges@.len() && #[trigger] same_edge(edges@[w], pa, pb);
        lemma_edge_key(edges@[w].0, edges@[w].1, pa, pb);
        assert(keys@.contains_key(edge_key(edges@[w].0, edges@[w].1)));
    }
    let e = match keys.get(&key) {
        Some(e) => *e,
        None => {
            proof {
                assert(false);
            }
            0
        },
    };
    proof {
        lemma_edge_key(edges@[e as int].0, edges@[e as int].1, pa, pb);
        lemma_edge_pos(edges@, e as int, pa, pb);
    }
    e
}

/// Appends one vertex per point `s..s + c`, in increasing order when
/// `forward` and decreasing otherwise, and their indices to `list`.
fn push_mids(vertices: &mut Vec<usize>, list: &mut Vec<usize>, s: usize, c: usize, forward: bool)
    requires
        s + c <= usize::MAX,
    ensures
        final(vertices)@ == old(vertices)@ + Seq::new(c as nat, |q: int| if forward {
            (s + q) as usize
        } else {
            (s + c - 1 - q) as usize
        }),
        final(list)@ == old(list)@ + Seq::new(c as nat, |q: int| (old(vertices)@.len() + q) as usize),
{
    let ghost v0 = vertices@;
    let ghost l0 = list@;
    let mut t: usize = 0;
    while t < c
        invariant
            t <= c,
            s + c <= usize::MAX,
            vertices@ == v0 + Seq::new(t as nat, |q: int| if forward {
                (s + q) as usize
            } else {
                (s + c - 1 - q) as usize
            }),
            list@ == l0 + Seq::new(t as nat, |q: int| (v0.len() + q) as usize),
        decreases c - t,
    {
        let pt = if forward {
            s + t
        } else {
            s + c - 1 - t
        };
        let v = vertices.len();
        vertices.push(pt);
        list.push(v);
        t += 1;
        assert(vertices@ =~= v0 + Seq::new(t as nat, |q: int| if forward {
            (s + q) as usize
        } else {
            (s + c - 1 - q) as usize
        }));
        assert(list@ =~= l0 + Seq::new(t as nat, |q: int| (v0.len() + q) as usize));
    }
}

/// A geometry with resampled polygon edges, and the source of each of its
/// new points (the first new point comes right after the input's points).
pub struct Resampled {
    pub geometry: Geometry,
    pub points: Vec<EdgePoint>,
}

/// Appends one corner of a resampled polygon: its vertex `vid` goes to
/// `list`, and the new points of the edge from `pa` to `pb` go to
/// `vertices` in the direction of travel, each also listed in `list`.
fn resample_corner(
    vertices: &mut Vec<usize>,
    list: &mut Vec<usize>,
    keys: &HashMap<u128, usize>,
    edges: &Vec<(usize, usize)>,
    counts: &Vec<usize>,
    starts: &Vec<usize>,
    base: usize,
    pa: usize,
    pb: usize,
    vid: usize,
)
    requires
        edges_distinct(edges@),
        has_edge(edges@, pa, pb),
        counts@.len() == edges@.len(),
        base + offset(counts@, edges@.len() as int) <= usize::MAX,
        starts@.len() == edges@.len(),
        forall|q: int| 0 <= q < edges@.len() ==> #[trigger] starts@[q] == base + offset(counts@, q),
        forall|k: u128| #[trigger] keys@.contains_key(k) ==> keys@[k] < edges@.len() && edge_key(edges@[keys@[k] as int].0, edges@[keys@[k] as int].1) == k,
        forall|q: int| 0 <= q < edges@.len() ==> keys@.contains_key(#[trigger] edge_key(edges@[q].0, edges@[q].1)),
    ensures
        ({
            let mids = mid_points(edges@, counts@, base as nat, pa, pb);
            &&& final(vertices)@ == old(vertices)@ + mids
            &&& final(list)@ == old(list)@.push(vid) + Seq::new(mids.len(), |t: int| (old(vertices)@.len() + t) as usize)
        }),
{
    let e = lookup_edge(keys, edges, pa, pb);
    proof {
        lemma_offset_mono(counts@, e + 1, edges@.len() as int);
    }
    list.push(vid);
    let c = counts[e];
    let s = starts[e];
    let forward = edges[e].0 == pa && edges[e].1 == pb;
    let ghost pts = Seq::new(c as nat, |t: int| (base + offset(counts@, e as int) + t) as usize);
    let ghost mids = if forward {
        pts
    } else {
        pts.reverse()
    };
    assert(mids == mid_points(edges@, counts@, base as nat, pa, pb));
    push_mids(vertices, list, s, c, forward);
    assert(mids =~= Seq::new(c as nat, |q: int| if forward {
        (s + q) as usize
    } else {
        (s + c - 1 - q) as usize
    }));
}

/// Resamples the edges of the selected polygons of `geo` (see
/// `resampled_geo`): `edges` are the polygon edges (see `polygon_edges`)
/// and `counts` the number of new points each gets.
pub fn resample_polygon_edges(geo: &Geometry, sel: &Vec<bool>, edges: &Vec<(usize, usize)>, counts: &Vec<usize>) -> (r:
    Resampled)
    requires
        edges@ == unique_edges(geo@, sel@, geo@.prims.len() as int),
        counts@.len() == edges@.len(),
        geo@.num_points + offset(counts@, edges@.len() as int) <= usize::MAX,
        forall|e: int| 0 <= e < counts@.len() ==> #[trigger] counts@[e] < usize::MAX,
    ensures
        r.geometry@ == resampled_geo(geo@, sel@, counts@),
        r.points@ == edge_points(edges@, counts@, edges@.len() as int),
{
    let ghost g = geo@;
    let ghost ne = edges@.len() as int;
    let base = geo.num_points;
    proof {
        lemma_unique_edges(g, sel@, g.prims.len() as int);
    }
    let mut num_points = base;
    let mut points: Vec<EdgePoint> = Vec::new();
    let mut starts: Vec<usize> = Vec::new();
    let mut keys: HashMap<u128, usize> = HashMap::new();
    let mut j: usize = 0;
    while j < edges.len()
        invariant
            j <= edges.len(),
            ne == edges@.len(),
            counts@.len() == edges@.len(),
            g == geo@,
            base == g.num_points,
            edges_distinct(edges@),
            base + offset(counts@, ne) <= usize::MAX,
            forall|e: int| 0 <= e < counts@.len() ==> #[trigger] counts@[e] < usize::MAX,
            num_points == base + offset(counts@, j as int),
            points@ == edge_points(edges@, counts@, j as int),
            starts@.len() == j,
            forall|q: int| 0 <= q < j ==> #[trigger] starts@[q] == base + offset(counts@, q),
            forall|k: u128| #[trigger] keys@.contains_key(k) ==> keys@[k] < j && edge_key(edges@[keys@[k] as int].0, edges@[keys@[k] as int].1) == k,
            forall|q: int| 0 <= q < j ==> keys@.contains_key(#[trigger] edge_key(edges@[q].0, edges@[q].1)),
        decreases edges.len() - j,
    {
        proof {
            lemma_offset_mono(counts@, j + 1, ne);
        }
        let (a, b) = edges[j];
        let c = counts[j];
        starts.push(num_points);
        let k = undirected_edge_key(a, b);
        keys.insert(k, j);
        let ghost p0 = points@;
        let mut t: usize = 0;
        while t < c
            invariant
                t <= c,
                c == counts@[j as int],
                c < usize::MAX,
                j < edges@.len(),
                (a, b) == edges@[j as int],
                num_points == base + offset(counts@, j as int) + t,
                base + offset(counts@, j as int) + c <= usize::MAX,
                points@ == p0 + Seq::new(
                    t as nat,
                    |s: int| EdgePoint { from: a, to: b, step: (s + 1) as usize, steps: (c + 1) as usize },
                ),
            decreases c - t,
        {
            points.push(EdgePoint { from: a, to: b, step: t + 1, steps: c + 1 });
            num_points += 1;
            t += 1;
            assert(points@ =~= p0 + Seq::new(
                t as nat,
                |s: int| EdgePoint { from: a, to: b, step: (s + 1) as usize, steps: (c + 1) as usize },
            ));
        }
        proof {
            assert forall|kk: u128| #[trigger] keys@.contains_key(kk) implies keys@[kk] < j + 1 && edge_key(
                edges@[keys@[kk] as int].0,
                edges@[keys@[kk] as int].1,
            ) == kk by {
            }
            assert forall|q: int| 0 <= q < j + 1 implies keys@.contains_key(#[trigger] edge_key(edges@[q].0, edges@[q].1)) by {
            }
        }
        j += 1;
    }
    let mut vertices = copy_ids(&geo.vertices);
    let mut prims: Vec<Primitive> = Vec::new();
    let mut i: usize = 0;
    while i < geo.primitives.len()
        invariant
            i <= geo.primitives.len(),
            g == geo@,
            ne == edges@.len(),
            counts@.len() == edges@.len(),
            edges@ == unique_edges(g, sel@, g.prims.len() as int),
            base == g.num_points,
            edges_distinct(edges@),
            forall|ii: int, k: int|
                0 <= ii < g.prims.len() && selected(sel@, ii) && ring_of(g, ii) is Some && 0 <= k < ring_of(g, ii)->0.len()
                    ==> has_edge(edges@, #[trigger] ring_of(g, ii)->0[k], ring_of(g, ii)->0[(k + 1) % (ring_of(g, ii)->0.len() as int)]),
            base + offset(counts@, ne) <= usize::MAX,
            starts@.len() == ne,
            forall|q: int| 0 <= q < ne ==> #[trigger] starts@[q] == base + offset(counts@, q),
            forall|k: u128| #[trigger] keys@.contains_key(k) ==> keys@[k] < ne && edge_key(edges@[keys@[k] as int].0, edges@[keys@[k] as int].1) == k,
            forall|q: int| 0 <= q < ne ==> keys@.contains_key(#[trigger] edge_key(edges@[q].0, edges@[q].1)),
            ({
                let (vs, ps) = rebuild(g, sel@, edges@, counts@, i as int);
                &&& vertices@ == vs
                &&& prims@.map_values(|p: Primitive| p@) == ps
            }),
        decreases geo.primitives.len() - i,
    {
        let is_sel = i < sel.len() && sel[i];
        let ring_opt = if is_sel {
            ring_exec(geo, i)
        } else {
            None
        };
        let ghost vs0 = vertices@;
        let ghost ps0 = prims@.map_values(|p: Primitive| p@);
        match ring_opt {
            Some(ring) => {
                let vids = geo.primitives[i].vertex_list();
                let n = ring.len();
                let mut list: Vec<usize> = Vec::new();
                let mut k: usize = 0;
                while k < n
                    invariant
                        k <= n,
                        n == ring@.len(),
                        n >= 3,
                        n == vids@.len(),
                        g == geo@,
                        i < g.prims.len(),
                        ring_of(g, i as int) == Some(ring@),
                        selected(sel@, i as int),
                        vids@ == g.prims[i as int].verts(),
                        ne == edges@.len(),
                        counts@.len() == edges@.len(),
                        base == g.num_points,
                        edges_distinct(edges@),
                        forall|ii: int, kk: int|
                            0 <= ii < g.prims.len() && selected(sel@, ii) && ring_of(g, ii) is Some && 0 <= kk < ring_of(g, ii)->0.len()
                                ==> has_edge(edges@, #[trigger] ring_of(g, ii)->0[kk], ring_of(g, ii)->0[(kk + 1) % (ring_of(g, ii)->0.len() as int)]),
                        base + offset(counts@, ne) <= usize::MAX,
                        starts@.len() == ne,
                        forall|q: int| 0 <= q < ne ==> #[trigger] starts@[q] == base + offset(counts@, q),
                        forall|kk: u128| #[trigger] keys@.contains_key(kk) ==> keys@[kk] < ne && edge_key(edges@[keys@[kk] as int].0, edges@[keys@[kk] as int].1) == kk,
                        forall|q: int| 0 <= q < ne ==> keys@.contains_key(#[trigger] edge_key(edges@[q].0, edges@[q].1)),
                        (vertices@, list@) == corner_fold(vs0, vids@, ring@, edges@, counts@, base as nat, k as int),
                    decreases n - k,
                {
                    let pa = ring[k];
                    let pb = ring[(k + 1) % n];
                    proof {
                        assert(ring_of(g, i as int)->0[k as int] == pa);
                        assert(has_edge(edges@, pa, pb));
                    }
                    resample_corner(&mut vertices, &mut list, &keys, edges, counts, &starts, base, pa, pb, vids[k]);
                    proof {
                        assert((k + 1) % (n as int) == (k as int + 1) % (ring@.len() as int));
                        let (cv, cl) = corner_fold(vs0, vids@, ring@, edges@, counts@, base as nat, k + 1);
                        assert(cv == vertices@);
                        assert(list@ =~= cl);
                    }
                    k += 1;
                }
                prims.push(Primitive::Polygon { vertices: list });
                proof {
                    assert(prims@.map_values(|p: Primitive| p@) =~= ps0.push(PrimModel::Polygon(list@)));
                }
            },
            None => {
                let p = copy_prim(&geo.primitives[i]);
                prims.push(p);
                proof {
                    assert(prims@.map_values(|p: Primitive| p@) =~= ps0.push(geo@.prims[i as int]));
                }
            },
        }
        i += 1;
    }
    let geometry = Geometry { num_points, vertices, primitives: prims };
    proof {
        assert(geometry@ =~= resampled_geo(g, sel@, counts@));
    }
    Resampled { geometry, points }
}

proof fn lemma_mid_points_bound(list: Seq<(usize, usize)>, counts: Seq<usize>, base: nat, a: usize, b: usize)
    requires
        has_edge(list, a, b),
        counts.len() == list.len(),
        base + offset(counts, list.len() as int) <= usize::MAX,
    ensures
        forall|t: int| 0 <= t < mid_points(list, counts, base, a, b).len() ==> #[trigger] mid_points(list, counts, base, a, b)[t]
            < base + offset(counts, list.len() as int),
{
    let j = edge_pos(list, a, b);
    lemma_offset_mono(counts, j + 1, list.len() as int);
    let pts = Seq::new(counts[j] as nat, |t: int| (base + offset(counts, j) + t) as usize);
    assert forall|t: int| 0 <= t < pts.len() implies #[trigger] pts[t] < base + offset(counts, list.len() as int) by {
    }
}

proof fn lemma_corner_fold_wf(
    vs: Seq<usize>,
    vids: Seq<usize>,
    ring: Seq<usize>,
    list: Seq<(usize, usize)>,
    counts: Seq<usize>,
    base: nat,
    c: int,
    bound: nat,
)
    requires
        0 <= c <= ring.len(),
        ring.len() >= 1,
        vids.len() == ring.len(),
        counts.len() == list.len(),
        bound == base + offset(counts, list.len() as int),
        bound <= usize::MAX,
        forall|q: int| 0 <= q < vs.len() ==> #[trigger] vs[q] < bound,
        forall|q: int| 0 <= q < vids.len() ==> #[trigger] vids[q] < vs.len(),
        forall|k: int| 0 <= k < ring.len() ==> has_edge(list, #[trigger] ring[k], ring[(k + 1) % (ring.len() as int)]),
        corner_fold(vs, vids, ring, list, counts, base, c).0.len() <= usize::MAX,
    ensures
        ({
            let (vs2, l) = corner_fold(vs, vids, ring, list, counts, base, c);
            &&& vs.len() <= vs2.len()
            &&& vs2.take(vs.len() as int) == vs
            &&& forall|q: int| 0 <= q < vs2.len() ==> #[trigger] vs2[q] < bound
            &&& forall|q: int| 0 <= q < l.len() ==> #[trigger] l[q] < vs2.len()
        }),
    decreases c,
{
    if c > 0 {
        let (vs1, l1) = corner_fold(vs, vids, ring, list, counts, base, c - 1);
        let k = c - 1;
        let a = ring[k];
        let b = ring[(k + 1) % (ring.len() as int)];
        let mids = mid_points(list, counts, base, a, b);
        assert((vs1 + mids).len() == corner_fold(vs, vids, ring, list, counts, base, c).0.len());
        lemma_corner_fold_wf(vs, vids, ring, list, counts, base, c - 1, bound);
        lemma_mid_points_bound(list, counts, base, a, b);
        let vs2 = vs1 + mids;
        let nv = vs1.len();
        let l = l1.push(vids[k]) + Seq::new(mids.len(), |t: int| (nv + t) as usize);
        assert(vs2.take(vs.len() as int) =~= vs1.take(vs.len() as int));
        assert forall|q: int| 0 <= q < vs2.len() implies #[trigger] vs2[q] < bound by {
            if q >= vs1.len() {
                assert(vs2[q] == mids[q - vs1.len()]);
            }
        }
        assert forall|q: int| 0 <= q < l.len() implies #[trigger] l[q] < vs2.len() by {
            if q < l1.len() {
                assert(l[q] == l1[q]);
            } else if q == l1.len() {
                assert(l[q] == vids[k]);
            }
        }
    } else {
        assert(vs.take(vs.len() as int) =~= vs);
    }
}

proof fn lemma_rebuild_wf(g: GeoModel, sel: Seq<bool>, list: Seq<(usize, usize)>, counts: Seq<usize>, n: int, bound: nat)
    requires
        geo_wf(g),
        0 <= n <= g.prims.len(),
        counts.len() == list.len(),
        bound == g.num_points + offset(counts, list.len() as int),
        bound <= usize::MAX,
        forall|i: int, k: int|
            0 <= i < g.prims.len() && selected(sel, i) && ring_of(g, i) is Some && 0 <= k < ring_of(g, i)->0.len() ==> has_edge(
                list,
                #[trigger] ring_of(g, i)->0[k],
                ring_of(g, i)->0[(k + 1) % (ring_of(g, i)->0.len() as int)],
            ),
        rebuild(g, sel, list, counts, n).0.len() <= usize::MAX,
    ensures
        ({
            let (vs, ps) = rebuild(g, sel, list, counts, n);
            &&& g.vertices.len() <= vs.len()
            &&& ps.len() == n
            &&& forall|q: int| 0 <= q < vs.len() ==> #[trigger] vs[q] < bound
            &&& forall|i: int, j: int| 0 <= i < ps.len() && 0 <= j < ps[i].verts().len() ==> #[trigger] ps[i].verts()[j] < vs.len()
        }),
    decreases n,
{
    if n > 0 {
        let (vs, ps) = rebuild(g, sel, list, counts, n - 1);
        if selected(sel, n - 1) && ring_of(g, n - 1) is Some {
            let r = ring_of(g, n - 1)->0;
            let vids = g.prims[n - 1].verts();
            assert(rebuild(g, sel, list, counts, n).0 == corner_fold(vs, vids, r, list, counts, g.num_points, r.len() as int).0);
            lemma_corner_fold_len(vs, vids, r, list, counts, g.num_points, r.len() as int);
            lemma_rebuild_wf(g, sel, list, counts, n - 1, bound);
            assert forall|q: int| 0 <= q < vids.len() implies #[trigger] vids[q] < vs.len() by {
                assert(vids[q] < g.vertices.len());
            }
            assert forall|k: int| 0 <= k < r.len() implies has_edge(list, #[trigger] r[k], r[(k + 1) % (r.len() as int)]) by {
                assert(ring_of(g, n - 1)->0[k] == r[k]);
            }
            lemma_corner_fold_wf(vs, vids, r, list, counts, g.num_points, r.len() as int, bound);
            let (vs2, l) = corner_fold(vs, vids, r, list, counts, g.num_points, r.len() as int);
            let ps2 = ps.push(PrimModel::Polygon(l));
            assert forall|i: int, j: int| 0 <= i < ps2.len() && 0 <= j < ps2[i].verts().len() implies #[trigger] ps2[i].verts()[j]
                < vs2.len() by {
                if i < ps.len() {
                    assert(ps2[i] == ps[i]);
                }
            }
        } else {
            lemma_rebuild_wf(g, sel, list, counts, n - 1, bound);
            let ps2 = ps.push(g.prims[n - 1]);
            assert forall|i: int, j: int| 0 <= i < ps2.len() && 0 <= j < ps2[i].verts().len() implies #[trigger] ps2[i].verts()[j]
                < vs.len() by {
                if i < ps.len() {
                    assert(ps2[i] == ps[i]);
                } else {
                    assert(g.prims[n - 1].verts()[j] < g.vertices.len());
                }
            }
        }
    } else {
        assert forall|q: int| 0 <= q < g.vertices.len() implies #[trigger] g.vertices[q] < bound by {
            assert(g.vertices[q] < g.num_points);
        }
    }
}

proof fn lemma_corner_fold_len(
    vs: Seq<usize>,
    vids: Seq<usize>,
    ring: Seq<usize>,
    list: Seq<(usize, usize)>,
    counts: Seq<usize>,
    base: nat,
    c: int,
)
    ensures
        vs.len() <= corner_fold(vs, vids, ring, list, counts, base, c).0.len(),
    decreases c,
{
    if c > 0 {
        lemma_corner_fold_len(vs, vids, ring, list, counts, base, c - 1);
    }
}

proof fn lemma_rebuild_len(g: GeoModel, sel: Seq<bool>, list: Seq<(usize, usize)>, counts: Seq<usize>, a: int, b: int)
    requires
        0 <= a <= b,
    ensures
        rebuild(g, sel, list, counts, a).0.len() <= rebuild(g, sel, list, counts, b).0.len(),
    decreases b - a,
{
    if a < b {
        lemma_rebuild_len(g, sel, list, counts, a, b - 1);
        let (vs, ps) = rebuild(g, sel, list, counts, b - 1);
        if selected(sel, b - 1) && ring_of(g, b - 1) is Some {
            let r = ring_of(g, b - 1)->0;
            lemma_corner_fold_len(vs, g.prims[b - 1].verts(), r, list, counts, g.num_points, r.len() as int);
        }
    }
}

/// Resampling polygon edges keeps a well-formed geometry well formed, when
/// the result fits in memory: every vertex references an existing point and
/// every primitive existing vertices; and every new point lies between two
/// input points.
pub proof fn lemma_resample_well_formed(g: GeoModel, sel: Seq<bool>, counts: Seq<usize>)
    requires
        geo_wf(g),
        counts.len() == unique_edges(g, sel, g.prims.len() as int).len(),
        resampled_geo(g, sel, counts).num_points <= usize::MAX,
        resampled_geo(g, sel, counts).vertices.len() <= usize::MAX,
    ensures
        geo_wf(resampled_geo(g, sel, counts)),
        forall|q: int|
            0 <= q < edge_points(unique_edges(g, sel, g.prims.len() as int), counts, counts.len() as int).len() ==> {
                let p = #[trigger] edge_points(unique_edges(g, sel, g.prims.len() as int), counts, counts.len() as int)[q];
                p.from < g.num_points && p.to < g.num_points
            },
{
    let n = g.prims.len() as int;
    let list = unique_edges(g, sel, n);
    lemma_unique_edges(g, sel, n);
    let bound = g.num_points + offset(counts, list.len() as int);
    lemma_rebuild_wf(g, sel, list, counts, n, bound);
    lemma_edge_points_ends(g, sel, counts, list.len() as int);
}

proof fn lemma_unique_edges_ends(g: GeoModel, sel: Seq<bool>, n: int)
    requires
        geo_wf(g),
        0 <= n <= g.prims.len(),
    ensures
        forall|j: int| 0 <= j < unique_edges(g, sel, n).len() ==> (#[trigger] unique_edges(g, sel, n)[j]).0 < g.num_points
            && unique_edges(g, sel, n)[j].1 < g.num_points,
    decreases n,
{
    if n > 0 {
        lemma_unique_edges_ends(g, sel, n - 1);
        let l = unique_edges(g, sel, n - 1);
        if selected(sel, n - 1) && ring_of(g, n - 1) is Some {
            let r = ring_of(g, n - 1)->0;
            assert forall|k: int| 0 <= k < r.len() implies #[trigger] r[k] < g.num_points by {
                let v = g.prims[n - 1].verts();
                assert(v[k] < g.vertices.len());
            }
            lemma_add_ring_edges_ends(l, r, r.len() as int, g.num_points);
        }
    }
}

proof fn lemma_add_ring_edges_ends(list: Seq<(usize, usize)>, ring: Seq<usize>, m: int, np: nat)
    requires
        ring.len() >= 1,
        m <= ring.len(),
        forall|k: int| 0 <= k < ring.len() ==> #[trigger] ring[k] < np,
        forall|j: int| 0 <= j < list.len() ==> (#[trigger] list[j]).0 < np && list[j].1 < np,
    ensures
        forall|j: int| 0 <= j < add_ring_edges(list, ring, m).len() ==> (#[trigger] add_ring_edges(list, ring, m)[j]).0 < np
            && add_ring_edges(list, ring, m)[j].1 < np,
    decreases m,
{
    if m > 0 {
        lemma_add_ring_edges_ends(list, ring, m - 1, np);
        let l = add_ring_edges(list, ring, m - 1);
        let a = ring[m - 1];
        let b_idx = m % (ring.len() as int);
        assert(0 <= b_idx < ring.len());
        let b = ring[b_idx];
        assert(b < np);
        if !has_edge(l, a, b) {
            let l2 = l.push((a, b));
            assert forall|j: int| 0 <= j < l2.len() implies (#[trigger] l2[j]).0 < np && l2[j].1 < np by {
                if j < l.len() {
                    assert(l2[j] == l[j]);
                }
            }
        }
    }
}

proof fn lemma_edge_points_ends(g: GeoModel, sel: Seq<bool>, counts: Seq<usize>, j: int)
    requires
        geo_wf(g),
        0 <= j <= unique_edges(g, sel, g.prims.len() as int).len(),
        counts.len() == unique_edges(g, sel, g.prims.len() as int).len(),
    ensures
        forall|q: int|
            0 <= q < edge_points(unique_edges(g, sel, g.prims.len() as int), counts, j).len() ==> {
                let p = #[trigger] edge_points(unique_edges(g, sel, g.prims.len() as int), counts, j)[q];
                p.from < g.num_points && p.to < g.num_points
            },
    decreases j,
{
    let list = unique_edges(g, sel, g.prims.len() as int);
    lemma_unique_edges_ends(g, sel, g.prims.len() as int);
    if j > 0 {
        lemma_edge_points_ends(g, sel, counts, j - 1);
        let prev = edge_points(list, counts, j - 1);
        let e = j - 1;
        let add = Seq::new(
            counts[e] as nat,
            |t: int| EdgePoint { from: list[e].0, to: list[e].1, step: (t + 1) as usize, steps: (counts[e] + 1) as usize },
        );
        let all = edge_points(list, counts, j);
        assert forall|q: int| 0 <= q < all.len() implies {
            let p = #[trigger] all[q];
            p.from < g.num_points && p.to < g.num_points
        } by {
            if q < prev.len() {
                assert(all[q] == prev[q]);
            } else {
                assert(all[q] == add[q - prev.len()]);
                assert(list[e].0 < g.num_points);
            }
        }
    }
}

/// The node that resamples curves and polygon edges.
pub struct ResampleNode;

impl ResampleNode {
    /// The number of new points on a polygon edge when resampling by count
    /// (method 1): the edge is cut into `segments` pieces (at least one),
    /// which takes one point fewer.
    pub fn points_per_edge_by_count(segments: i32) -> (r: usize)
        ensures
            r == if segments <= 1 {
                0
            } else {
                (segments - 1) as usize
            },
    {
        if segments <= 1 {
            0
        } else {
            (segments - 1) as usize
        }
    }
}

} // verus!
