//! The work geometry of an extrusion whose input holds curves: the input's
//! polygons and polylines are copied over shared points, in order, before
//! the curves are sampled into polygons and polylines of their own; and
//! the primitive groups follow the copied primitives.

use vstd::prelude::*;
use std::collections::HashMap;
use crate::geometry::{Geometry, GeoModel, Primitive, PrimModel, geo_wf};
use vstd::set_lib::{lemma_int_range, lemma_len_subset, set_int_range};

verus! {

broadcast use vstd::std_specs::hash::group_hash_axioms;

/// What has been copied: the output geometry, the source point of each
/// output point, and the output point of each source point copied so far.
pub type KeepState = (GeoModel, Seq<usize>, Map<usize, usize>);

/// The output point for source point `p`: the one already made, or a new
/// one when `p` exists; none when it does not.
pub open spec fn ensure_point(g: GeoModel, st: KeepState, p: usize) -> Option<(KeepState, usize)> {
    if st.2.contains_key(p) {
        Some((st, st.2[p]))
    } else if p < g.num_points {
        let n = st.0.num_points;
        Some(((GeoModel { num_points: n + 1, ..st.0 }, st.1.push(p), st.2.insert(p, n as usize)), n as usize))
    } else {
        None
    }
}

/// Copies the first `t` vertices `vids` of a primitive: a new output vertex
/// for each, stopping at the first whose vertex or point does not exist.
/// Gives the state and the new vertices, or none after such a stop; what
/// was made before the stop stays.
pub open spec fn copy_verts(g: GeoModel, st: KeepState, vids: Seq<usize>, t: int) -> (KeepState, Option<Seq<usize>>)
    decreases t,
{
    if t <= 0 {
        (st, Some(Seq::empty()))
    } else {
        let (s1, r) = copy_verts(g, st, vids, t - 1);
        match r {
            None => (s1, None),
            Some(vs) => {
                let vid = vids[t - 1];
                if vid >= g.vertices.len() {
                    (s1, None)
                } else {
                    match ensure_point(g, s1, g.vertices[vid as int]) {
                        None => (s1, None),
                        Some((s2, op)) => {
                            let nv = s2.0.vertices.len();
                            ((GeoModel { vertices: s2.0.vertices.push(op), ..s2.0 }, s2.1, s2.2), Some(vs.push(nv as usize)))
                        },
                    }
                }
            },
        }
    }
}

/// The state after primitive `i` of `g`: a polygon whose vertices all copy
/// and number at least three, or a polyline with at least two, is added and
/// recorded in the primitive map; curves are left for later.
pub open spec fn keep_step(g: GeoModel, st: KeepState, pm: Seq<Option<usize>>, i: int) -> (KeepState, Seq<Option<usize>>) {
    match g.prims[i] {
        PrimModel::Polygon(vids) => {
            let (s1, r) = copy_verts(g, st, vids, vids.len() as int);
            match r {
                Some(vs) => if vs.len() >= 3 {
                    (
                        (GeoModel { prims: s1.0.prims.push(PrimModel::Polygon(vs)), ..s1.0 }, s1.1, s1.2),
                        pm.update(i, Some(s1.0.prims.len() as usize)),
                    )
                } else {
                    (s1, pm)
                },
                None => (s1, pm),
            }
        },
        PrimModel::Polyline(vids, closed) => {
            let (s1, r) = copy_verts(g, st, vids, vids.len() as int);
            match r {
                Some(vs) => if vs.len() >= 2 {
                    (
                        (GeoModel { prims: s1.0.prims.push(PrimModel::Polyline(vs, closed)), ..s1.0 }, s1.1, s1.2),
                        pm.update(i, Some(s1.0.prims.len() as usize)),
                    )
                } else {
                    (s1, pm)
                },
                None => (s1, pm),
            }
        },
        PrimModel::BezierCurve(_, _) => (st, pm),
    }
}

/// The state and primitive map after the first `m` primitives of `g`.
pub open spec fn keep_prefix(g: GeoModel, m: int) -> (KeepState, Seq<Option<usize>>)
    decreases m,
{
    if m <= 0 {
        (
            (GeoModel { num_points: 0, vertices: Seq::empty(), prims: Seq::empty() }, Seq::empty(), Map::empty()),
            Seq::new(g.prims.len(), |i: int| None),
        )
    } else {
        let (st, pm) = keep_prefix(g, m - 1);
        keep_step(g, st, pm, m - 1)
    }
}

/// The points copied so far are distinct existing points, one output point
/// each, and the map finds exactly them.
pub open spec fn copied_ok(g: GeoModel, st: KeepState) -> bool {
    &&& st.1.len() == st.0.num_points
    &&& st.1.no_duplicates()
    &&& forall|q: int| 0 <= q < st.1.len() ==> #[trigger] st.1[q] < g.num_points
    &&& forall|p: usize| #[trigger] st.2.contains_key(p) <==> st.1.contains(p)
    &&& forall|p: usize| #[trigger] st.2.contains_key(p) ==> st.2[p] < st.1.len() && st.1[st.2[p] as int] == p
}

/// Distinct values below `n` number at most `n`.
proof fn lemma_distinct_below(s: Seq<usize>, n: int)
    requires
        0 <= n,
        s.no_duplicates(),
        forall|q: int| 0 <= q < s.len() ==> #[trigger] s[q] < n,
    ensures
        s.len() <= n,
{
    let f = |x: usize| x as int;
    let t = s.map_values(f);
    assert(vstd::relations::injective(f));
    s.lemma_no_duplicates_injective(f);
    t.unique_seq_to_set();
    assert(t.to_set().subset_of(set_int_range(0, n))) by {
        assert forall|x: int| #[trigger] t.to_set().contains(x) implies set_int_range(0, n).contains(x) by {
            let q = choose|q: int| 0 <= q < t.len() && t[q] == x;
            assert(s[q] < n);
        }
    }
    lemma_int_range(0, n);
    lemma_len_subset(t.to_set(), set_int_range(0, n));
}

/// The polygons and polylines of a geometry copied over shared points:
/// `source_points[q]` is the input point of output point `q`, and
/// `prim_map[i]` the output primitive of input primitive `i`, if kept.
pub struct KeptPrims {
    pub geometry: Geometry,
    pub source_points: Vec<usize>,
    pub prim_map: Vec<Option<usize>>,
}

struct Copier {
    out: Geometry,
    src: Vec<usize>,
    pmap: HashMap<usize, usize>,
}

impl Copier {
    spec fn state(&self) -> KeepState {
        (self.out@, self.src@, self.pmap@)
    }

    fn ensure_point(&mut self, g: &Geometry, p: usize) -> (r: Option<usize>)
        requires
            copied_ok(g@, old(self).state()),
        ensures
            copied_ok(g@, final(self).state()),
            match ensure_point(g@, old(self).state(), p) {
                Some((st, q)) => r == Some(q) && final(self).state() == st,
                None => r is None && final(self).state() == old(self).state(),
            },
    {
        match self.pmap.get(&p) {
            Some(q) => Some(*q),
            None => {
                if p < g.num_points {
                    let n = self.out.num_points;
                    let ghost s1 = self.src@.push(p);
                    proof {
                        assert(!self.src@.contains(p));
                        assert(s1.no_duplicates()) by {
                            assert forall|a: int, b: int| 0 <= a < b < s1.len() implies s1[a] != s1[b] by {
                                if b == s1.len() - 1 {
                                    assert(s1[a] == self.src@[a]);
                                }
                            }
                        }
                        assert forall|q: int| 0 <= q < s1.len() implies #[trigger] s1[q] < g@.num_points by {
                            if q < self.src@.len() {
                                assert(s1[q] == self.src@[q]);
                            }
                        }
                        lemma_distinct_below(s1, g@.num_points as int);
                    }
                    let q = self.out.add_point();
                    self.src.push(p);
                    self.pmap.insert(p, q);
                    proof {
                        assert(self.out@ =~= GeoModel { num_points: (n + 1) as nat, ..old(self).out@ });
                        assert(self.src@ == old(self).src@.push(p));
                        assert forall|pp: usize| #[trigger] self.pmap@.contains_key(pp) <==> self.src@.contains(pp) by {
                            if pp == p {
                                assert(self.src@[n as int] == p);
                            } else {
                                if self.src@.contains(pp) {
                                    let w = choose|w: int| 0 <= w < self.src@.len() && self.src@[w] == pp;
                                    assert(old(self).src@[w] == pp);
                                    assert(old(self).src@.contains(pp));
                                }
                                if old(self).src@.contains(pp) {
                                    let w = choose|w: int| 0 <= w < old(self).src@.len() && old(self).src@[w] == pp;
                                    assert(self.src@[w] == pp);
                                }
                            }
                        }
                        assert forall|pp: usize| #[trigger] self.pmap@.contains_key(pp) implies self.pmap@[pp] < self.src@.len()
                            && self.src@[self.pmap@[pp] as int] == pp by {
                            if pp != p {
                                assert(old(self).pmap@.contains_key(pp));
                            }
                        }
                    }
                    Some(q)
                } else {
                    None
                }
            },
        }
    }

    /// Copies the vertices `vids` (see `copy_verts`).
    fn copy_verts(&mut self, g: &Geometry, vids: &Vec<usize>) -> (r: Option<Vec<usize>>)
        requires
            copied_ok(g@, old(self).state()),
        ensures
            copied_ok(g@, final(self).state()),
            ({
                let (st, res) = copy_verts(g@, old(self).state(), vids@, vids@.len() as int);
                &&& final(self).state() == st
                &&& match res {
                    Some(vs) => r is Some && r->0@ == vs,
                    None => r is None,
                }
            }),
    {
        let ghost st0 = self.state();
        let mut vs: Vec<usize> = Vec::new();
        let mut t: usize = 0;
        while t < vids.len()
            invariant
                t <= vids@.len(),
                st0 == old(self).state(),
                copied_ok(g@, self.state()),
                copy_verts(g@, st0, vids@, t as int) == (self.state(), Some(vs@)),
            decreases vids.len() - t,
        {
            let vid = vids[t];
            if vid >= g.vertices.len() {
                proof {
                    assert(copy_verts(g@, st0, vids@, t + 1) == (self.state(), None::<Seq<usize>>));
                    lemma_copy_verts_stopped(g@, st0, vids@, t as int + 1, vids@.len() as int);
                    assert(st0 == old(self).state());
                    assert(self.state() == copy_verts(g@, old(self).state(), vids@, vids@.len() as int).0);
                }
                return None;
            }
            let ghost s1 = self.state();
            match self.ensure_point(g, g.vertices[vid]) {
                None => {
                    proof {
                        assert(copy_verts(g@, st0, vids@, t + 1) == (self.state(), None::<Seq<usize>>));
                        lemma_copy_verts_stopped(g@, st0, vids@, t as int + 1, vids@.len() as int);
                        assert(st0 == old(self).state());
                        assert(self.state() == copy_verts(g@, old(self).state(), vids@, vids@.len() as int).0);
                    }
                    return None;
                },
                Some(op) => {
                    let ghost s2 = self.state();
                    let nv = self.out.add_vertex(op);
                    vs.push(nv);
                    proof {
                        assert(self.out@ =~= GeoModel { vertices: s2.0.vertices.push(op), ..s2.0 });
                        assert(copied_ok(g@, s2));
                        assert(self.state().1 == s2.1 && self.state().2 == s2.2 && self.state().0.num_points == s2.0.num_points);
                    }
                },
            }
            t += 1;
        }
        Some(vs)
    }
}

/// Once a copy has stopped, later vertices change nothing.
proof fn lemma_copy_verts_stopped(g: GeoModel, st: KeepState, vids: Seq<usize>, t: int, m: int)
    requires
        0 <= t <= m,
        copy_verts(g, st, vids, t).1 is None,
    ensures
        copy_verts(g, st, vids, m) == copy_verts(g, st, vids, t),
    decreases m - t,
{
    if m > t {
        lemma_copy_verts_stopped(g, st, vids, t, m - 1);
    }
}

/// Copies the polygons and polylines of `geo` (see `keep_prefix`): the
/// output geometry, the source point of each output point, and the output
/// primitive of each input primitive.
pub fn keep_polys_and_lines(geo: &Geometry) -> (r: KeptPrims)
    ensures
        ({
            let (st, pm) = keep_prefix(geo@, geo@.prims.len() as int);
            &&& r.geometry@ == st.0
            &&& r.source_points@ == st.1
            &&& r.prim_map@ == pm
        }),
{
    let mut c = Copier { out: Geometry::new(), src: Vec::new(), pmap: HashMap::new() };
    let mut prim_map: Vec<Option<usize>> = Vec::new();
    let n = geo.primitives.len();
    let mut i: usize = 0;
    while i < n
        invariant
            i <= n,
            n == geo@.prims.len(),
            prim_map@.len() == i,
            forall|t: int| 0 <= t < i ==> #[trigger] prim_map@[t] is None,
        decreases n - i,
    {
        prim_map.push(None);
        i += 1;
    }
    proof {
        assert(c.state() == keep_prefix(geo@, 0).0);
        assert(prim_map@ =~= keep_prefix(geo@, 0).1);
    }
    let mut i: usize = 0;
    while i < n
        invariant
            i <= n,
            n == geo@.prims.len(),
            prim_map@.len() == n,
            copied_ok(geo@, c.state()),
            keep_prefix(geo@, i as int) == (c.state(), prim_map@),
        decreases n - i,
    {
        let ghost st0 = c.state();
        let ghost pm0 = prim_map@;
        assert(geo@.prims[i as int] == geo.primitives@[i as int]@);
        match &geo.primitives[i] {
            Primitive::Polygon { vertices } => {
                let r = c.copy_verts(geo, vertices);
                if let Some(vs) = r {
                    if vs.len() >= 3 {
                        let idx = c.out.primitives.len();
                        let ghost s1 = c.state();
                        c.out.add_primitive(Primitive::Polygon { vertices: vs });
                        prim_map.set(i, Some(idx));
                        proof {
                            assert(c.out@ =~= GeoModel { prims: s1.0.prims.push(PrimModel::Polygon(r->0@)), ..s1.0 });
                            assert(copied_ok(geo@, s1));
                            assert(c.state().1 == s1.1 && c.state().2 == s1.2 && c.state().0.num_points == s1.0.num_points);
                            assert(copied_ok(geo@, c.state()));
                        }
                    }
                }
            },
            Primitive::Polyline { vertices, closed } => {
                let r = c.copy_verts(geo, vertices);
                if let Some(vs) = r {
                    if vs.len() >= 2 {
                        let idx = c.out.primitives.len();
                        let ghost s1 = c.state();
                        c.out.add_primitive(Primitive::Polyline { vertices: vs, closed: *closed });
                        prim_map.set(i, Some(idx));
                        proof {
                            assert(c.out@ =~= GeoModel { prims: s1.0.prims.push(PrimModel::Polyline(r->0@, *closed)), ..s1.0 });
                            assert(copied_ok(geo@, s1));
                            assert(c.state().1 == s1.1 && c.state().2 == s1.2 && c.state().0.num_points == s1.0.num_points);
                            assert(copied_ok(geo@, c.state()));
                        }
                    }
                }
            },
            Primitive::BezierCurve { .. } => {},
        }
        i += 1;
    }
    KeptPrims { geometry: c.out, source_points: c.src, prim_map }
}

/// The output group of an input primitive group `mask`: output primitive
/// `o` is in it when some input primitive of the group was copied to `o`.
pub open spec fn remapped_group(mask: Seq<bool>, pm: Seq<Option<usize>>, n_out: nat) -> Seq<bool> {
    Seq::new(n_out, |o: int| exists|i: int| 0 <= i < mask.len() && i < pm.len() && #[trigger] mask[i] && pm[i] == Some(o as usize))
}

/// Carries the primitive group `mask` over to the `n_out` output
/// primitives through `prim_map` (see `remapped_group`).
pub fn remap_group(mask: &Vec<bool>, prim_map: &Vec<Option<usize>>, n_out: usize) -> (r: Vec<bool>)
    ensures
        r@ == remapped_group(mask@, prim_map@, n_out as nat),
{
    let mut out: Vec<bool> = Vec::new();
    let mut o: usize = 0;
    while o < n_out
        invariant
            o <= n_out,
            out@.len() == o,
            forall|t: int| 0 <= t < o ==> !#[trigger] out@[t],
        decreases n_out - o,
    {
        out.push(false);
        o += 1;
    }
    let mut i: usize = 0;
    while i < mask.len()
        invariant
            i <= mask@.len(),
            out@.len() == n_out,
            forall|o: int|
                0 <= o < n_out ==> #[trigger] out@[o] == exists|t: int|
                    0 <= t < i && t < prim_map@.len() && #[trigger] mask@[t] && prim_map@[t] == Some(o as usize),
        decreases mask.len() - i,
    {
        if mask[i] && i < prim_map.len() {
            if let Some(ni) = prim_map[i] {
                if ni < n_out {
                    out.set(ni, true);
                }
            }
        }
        proof {
            assert forall|o: int| 0 <= o < n_out implies #[trigger] out@[o] == exists|t: int|
                0 <= t < i + 1 && t < prim_map@.len() && #[trigger] mask@[t] && prim_map@[t] == Some(o as usize) by {
                if mask@[i as int] && (i as int) < prim_map@.len() && prim_map@[i as int] == Some(o as usize) {
                    assert(out@[o]);
                }
            }
        }
        i += 1;
    }
    assert(out@ =~= remapped_group(mask@, prim_map@, n_out as nat));
    out
}

/// The vertices of `st` reference its points.
pub open spec fn verts_ok(st: KeepState) -> bool {
    forall|v: int| 0 <= v < st.0.vertices.len() ==> #[trigger] st.0.vertices[v] < st.0.num_points
}

proof fn lemma_ensure_point_ok(g: GeoModel, st: KeepState, p: usize)
    requires
        g.num_points <= usize::MAX,
        copied_ok(g, st),
        verts_ok(st),
    ensures
        match ensure_point(g, st, p) {
            Some((s1, q)) => {
                &&& copied_ok(g, s1)
                &&& verts_ok(s1)
                &&& q < s1.0.num_points
                &&& s1.0.vertices == st.0.vertices
                &&& s1.0.prims == st.0.prims
                &&& st.0.num_points <= s1.0.num_points
            },
            None => true,
        },
{
    if !st.2.contains_key(p) && p < g.num_points {
        let n = st.0.num_points;
        let s1 = st.1.push(p);
        assert(!st.1.contains(p));
        assert forall|a: int, b: int| 0 <= a < b < s1.len() implies s1[a] != s1[b] by {
            if b == s1.len() - 1 {
                assert(s1[a] == st.1[a]);
            }
        }
        assert forall|q: int| 0 <= q < s1.len() implies #[trigger] s1[q] < g.num_points by {
            if q < st.1.len() {
                assert(s1[q] == st.1[q]);
            }
        }
        lemma_distinct_below(s1, g.num_points as int);
        let m1 = st.2.insert(p, n as usize);
        assert forall|pp: usize| #[trigger] m1.contains_key(pp) <==> s1.contains(pp) by {
            if pp == p {
                assert(s1[n as int] == p);
            } else {
                if s1.contains(pp) {
                    let w = choose|w: int| 0 <= w < s1.len() && s1[w] == pp;
                    assert(st.1[w] == pp);
                }
                if st.1.contains(pp) {
                    let w = choose|w: int| 0 <= w < st.1.len() && st.1[w] == pp;
                    assert(s1[w] == pp);
                }
            }
        }
    }
}

proof fn lemma_copy_verts_ok(g: GeoModel, st: KeepState, vids: Seq<usize>, t: int)
    requires
        g.num_points <= usize::MAX,
        0 <= t <= vids.len(),
        copied_ok(g, st),
        verts_ok(st),
    ensures
        ({
            let (s1, r) = copy_verts(g, st, vids, t);
            &&& copied_ok(g, s1)
            &&& verts_ok(s1)
            &&& s1.0.prims == st.0.prims
            &&& st.0.vertices.len() <= s1.0.vertices.len()
            &&& r is Some ==> r->0.len() == t && forall|k: int| 0 <= k < t ==> #[trigger] r->0[k] < s1.0.vertices.len()
        }),
    decreases t,
{
    if t > 0 {
        lemma_copy_verts_ok(g, st, vids, t - 1);
        let (s1, r) = copy_verts(g, st, vids, t - 1);
        if r is Some {
            let vid = vids[t - 1];
            if vid < g.vertices.len() {
                lemma_ensure_point_ok(g, s1, g.vertices[vid as int]);
                match ensure_point(g, s1, g.vertices[vid as int]) {
                    Some((s2, op)) => {
                        let s3 = (GeoModel { vertices: s2.0.vertices.push(op), ..s2.0 }, s2.1, s2.2);
                        assert forall|v: int| 0 <= v < s3.0.vertices.len() implies #[trigger] s3.0.vertices[v] < s3.0.num_points by {
                            if v < s2.0.vertices.len() {
                                assert(s3.0.vertices[v] == s2.0.vertices[v]);
                            }
                        }
                        let vs = r->0.push(s2.0.vertices.len() as usize);
                        assert forall|k: int| 0 <= k < t implies #[trigger] vs[k] < s3.0.vertices.len() by {
                            if k < t - 1 {
                                assert(vs[k] == r->0[k]);
                            }
                        }
                    },
                    None => {},
                }
            }
        }
    }
}

/// The output primitives of the first `m` primitives of `g`.
pub open spec fn kept_prims(g: GeoModel, m: int) -> Seq<PrimModel> {
    keep_prefix(g, m).0.0.prims
}

/// The primitive map after the first `m` primitives of `g`.
pub open spec fn kept_map(g: GeoModel, m: int) -> Seq<Option<usize>> {
    keep_prefix(g, m).1
}

/// Whether some of the first `m` entries of `pm` is output primitive `o`.
pub open spec fn maps_to(pm: Seq<Option<usize>>, m: int, o: int) -> bool {
    exists|i: int| 0 <= i < m && #[trigger] pm[i] == Some(o as usize)
}

/// What the copy keeps is a well-formed geometry whose points stand for
/// distinct existing input points; each kept input primitive maps to its
/// own output primitive, in order, and every output primitive is one of
/// them.
pub proof fn lemma_keep_prefix_wf(g: GeoModel, m: int)
    requires
        g.num_points <= usize::MAX,
        g.prims.len() <= usize::MAX,
        0 <= m <= g.prims.len(),
    ensures
        geo_wf(keep_prefix(g, m).0.0),
        copied_ok(g, keep_prefix(g, m).0),
        kept_prims(g, m).len() <= m,
        kept_map(g, m).len() == g.prims.len(),
        forall|i: int| 0 <= i < g.prims.len() && #[trigger] kept_map(g, m)[i] is Some ==> i < m && kept_map(g, m)[i]->0 < kept_prims(g, m).len(),
        forall|i: int, j: int|
            0 <= i < j < g.prims.len() && #[trigger] kept_map(g, m)[i] is Some && #[trigger] kept_map(g, m)[j] is Some
                ==> kept_map(g, m)[i]->0 < kept_map(g, m)[j]->0,
        forall|o: int| 0 <= o < kept_prims(g, m).len() ==> #[trigger] maps_to(kept_map(g, m), m, o),
    decreases m,
{
    if m > 0 {
        lemma_keep_prefix_wf(g, m - 1);
        let st = keep_prefix(g, m - 1).0;
        let pm = kept_map(g, m - 1);
        let i = m - 1;
        let vids = g.prims[i].verts();
        lemma_copy_verts_ok(g, st, vids, vids.len() as int);
        let st2 = keep_prefix(g, m).0;
        let pm2 = kept_map(g, m);
        assert(keep_prefix(g, m) == keep_step(g, st, pm, i));
        if st2.0.prims.len() > st.0.prims.len() {
            assert(pm2 == pm.update(i, Some(st.0.prims.len() as usize)));
            assert forall|o: int| 0 <= o < kept_prims(g, m).len() implies #[trigger] maps_to(pm2, m, o) by {
                if o < st.0.prims.len() {
                    assert(maps_to(pm, m - 1, o));
                    let j = choose|j: int| 0 <= j < m - 1 && #[trigger] pm[j] == Some(o as usize);
                    assert(pm2[j] == pm[j]);
                } else {
                    assert(pm2[i] == Some(o as usize));
                }
            }
            assert forall|a: int, b: int| 0 <= a < st2.0.prims.len() && 0 <= b < st2.0.prims[a].verts().len() implies #[trigger] st2.0.prims[a].verts()[b]
                < st2.0.vertices.len() by {
                if a < st.0.prims.len() {
                    assert(st2.0.prims[a] == st.0.prims[a]);
                }
            }
        } else {
            assert(pm2 == pm);
            assert forall|o: int| 0 <= o < kept_prims(g, m).len() implies #[trigger] maps_to(pm2, m, o) by {
                assert(maps_to(pm, m - 1, o));
                let j = choose|j: int| 0 <= j < m - 1 && #[trigger] pm[j] == Some(o as usize);
                assert(pm2[j] == Some(o as usize));
            }
            assert forall|a: int, b: int| 0 <= a < st2.0.prims.len() && 0 <= b < st2.0.prims[a].verts().len() implies #[trigger] st2.0.prims[a].verts()[b]
                < st2.0.vertices.len() by {
                assert(st2.0.prims[a] == st.0.prims[a]);
            }
        }
    }
}

} // verus!
