//! Polygon building of the bevel: the face closing a beveled corner, made of
//! the vertices of its boundary arcs, and its triangle fan; and which edges
//! a bevel works on.

use vstd::prelude::*;
use crate::extrude::{PolyHalfEdge, selected};

verus! {

/// The first `ns` vertices of arc `arc` (fewer when it is shorter); the
/// first is taken whenever the arc is not empty.
pub open spec fn arc_prefix(arc: Seq<usize>, ns: nat) -> Seq<usize> {
    if arc.len() == 0 {
        Seq::empty()
    } else if ns <= 1 {
        arc.take(1)
    } else if arc.len() < ns {
        arc
    } else {
        arc.take(ns as int)
    }
}

/// The corner polygon of the first `i` boundary arcs.
pub open spec fn poly_prefix(arcs: Seq<Seq<usize>>, ns: nat, i: int) -> Seq<usize>
    decreases i,
{
    if i <= 0 {
        Seq::empty()
    } else {
        poly_prefix(arcs, ns, i - 1) + if i - 1 < arcs.len() {
            arc_prefix(arcs[i - 1], ns)
        } else {
            Seq::empty()
        }
    }
}

/// The polygon closing a corner with `n` boundary arcs of `ns` segments:
/// for each of the first `n` arcs that exist, its first `ns` vertex ids.
pub fn build_poly(n: usize, ns: usize, boundary_ids: &Vec<Vec<usize>>) -> (verts: Vec<usize>)
    ensures
        verts@ == poly_prefix(boundary_ids@.map_values(|a: Vec<usize>| a@), ns as nat, n as int),
{
    let ghost arcs = boundary_ids@.map_values(|a: Vec<usize>| a@);
    let mut verts: Vec<usize> = Vec::new();
    let mut i: usize = 0;
    while i < n
        invariant
            i <= n,
            arcs == boundary_ids@.map_values(|a: Vec<usize>| a@),
            verts@ == poly_prefix(arcs, ns as nat, i as int),
        decreases n - i,
    {
        let ghost before = verts@;
        if i < boundary_ids.len() {
            let arc = &boundary_ids[i];
            assert(arcs[i as int] == arc@);
            if arc.len() > 0 {
                verts.push(arc[0]);
                let mut k: usize = 1;
                while k < ns
                    invariant
                        1 <= k,
                        k <= if ns > 1 {
                            ns
                        } else {
                            1
                        },
                        arc@.len() > 0,
                        verts@ == before + arc@.take(if k < arc@.len() {
                            k as int
                        } else {
                            arc@.len() as int
                        }),
                    decreases ns - k,
                {
                    if k < arc.len() {
                        verts.push(arc[k]);
                    }
                    proof {
                        let m: int = if k + 1 < arc@.len() {
                            k + 1
                        } else {
                            arc@.len() as int
                        };
                        assert(verts@ =~= before + arc@.take(m));
                    }
                    k += 1;
                }
                proof {
                    if ns <= 1 {
                        assert(k == 1);
                    } else {
                        assert(k == ns);
                        if arc@.len() < ns {
                            assert(arc@.take(arc@.len() as int) =~= arc@);
                        }
                    }
                    assert(verts@ =~= before + arc_prefix(arc@, ns as nat));
                }
            } else {
                assert(verts@ =~= before + arc_prefix(arc@, ns as nat));
            }
        } else {
            assert(verts@ =~= before + Seq::<usize>::empty());
        }
        i += 1;
    }
    verts
}

/// The fan of a polygon: polygons `(v0, v[i], v[i + 1])` for `i` from 1;
/// nothing for fewer than three vertices.
pub open spec fn trifan(v: Seq<usize>) -> Seq<Seq<usize>> {
    if v.len() < 3 {
        Seq::empty()
    } else {
        Seq::new((v.len() - 2) as nat, |i: int| seq![v[0], v[i + 1], v[i + 2]])
    }
}

/// Appends the triangle fan of `poly_verts` from its first vertex.
pub fn build_trifan(poly_verts: &[usize], out_polys: &mut Vec<Vec<usize>>)
    ensures
        final(out_polys)@.map_values(|p: Vec<usize>| p@) == old(out_polys)@.map_values(|p: Vec<usize>| p@)
            + trifan(poly_verts@),
{
    let n = poly_verts.len();
    if n < 3 {
        assert(old(out_polys)@.map_values(|p: Vec<usize>| p@) + trifan(poly_verts@) =~= old(out_polys)@.map_values(|p: Vec<usize>| p@));
        return;
    }
    let center = poly_verts[0];
    let ghost start = out_polys@.map_values(|p: Vec<usize>| p@);
    let mut i: usize = 1;
    while i < n - 1
        invariant
            1 <= i <= n - 1,
            n == poly_verts@.len(),
            n >= 3,
            center == poly_verts@[0],
            out_polys@.map_values(|p: Vec<usize>| p@) == start + trifan(poly_verts@).take(i - 1),
        decreases n - 1 - i,
    {
        let tri = vec![center, poly_verts[i], poly_verts[i + 1]];
        assert(tri@ =~= seq![poly_verts@[0], poly_verts@[i as int], poly_verts@[i + 1]]);
        let ghost before = out_polys@;
        out_polys.push(tri);
        proof {
            assert(out_polys@.map_values(|p: Vec<usize>| p@) =~= before.map_values(|p: Vec<usize>| p@).push(trifan(poly_verts@)[i - 1]));
            assert(out_polys@.map_values(|p: Vec<usize>| p@) =~= start + trifan(poly_verts@).take(i as int));
        }
        i += 1;
    }
    assert(trifan(poly_verts@).take(i - 1) =~= trifan(poly_verts@));
}

/// Whether half-edge `h` marks its edge for the bevel: it has an opposite,
/// and its primitive or its opposite's is in `group`.
pub open spec fn group_marks(hes: Seq<PolyHalfEdge>, nprims: nat, group: Seq<bool>, h: int) -> bool {
    match hes[h].pair {
        None => false,
        Some(q) => (hes[h].prim < nprims && selected(group, hes[h].prim as int)) || (q < hes.len() && hes[q as int].prim
            < nprims && selected(group, hes[q as int].prim as int)),
    }
}

/// Whether half-edge `x` is marked by one of the first `n` half-edges: by
/// itself, or as the opposite of one that marks its edge.
pub open spec fn marked_by(hes: Seq<PolyHalfEdge>, nprims: nat, group: Seq<bool>, n: int, x: int) -> bool {
    (x < n && group_marks(hes, nprims, group, x)) || exists|h: int|
        0 <= h < n && #[trigger] group_marks(hes, nprims, group, h) && hes[h].pair == Some(x as usize)
}

/// The half-edges on an edge that the primitive group marks.
pub open spec fn group_selection(hes: Seq<PolyHalfEdge>, nprims: nat, group: Option<Seq<bool>>) -> Seq<bool> {
    match group {
        Some(gm) => Seq::new(hes.len(), |x: int| marked_by(hes, nprims, gm, hes.len() as int, x)),
        None => Seq::new(hes.len(), |x: int| false),
    }
}

/// The half-edges a bevel works on: those on an edge that the primitive
/// group marks (see `group_marks`); when there is no group or it marks
/// nothing, every half-edge that has an opposite.
pub open spec fn bevel_selection(hes: Seq<PolyHalfEdge>, nprims: nat, group: Option<Seq<bool>>) -> Seq<bool> {
    if exists|x: int| 0 <= x < hes.len() && #[trigger] group_selection(hes, nprims, group)[x] {
        group_selection(hes, nprims, group)
    } else {
        Seq::new(hes.len(), |x: int| hes[x].pair is Some)
    }
}

/// The half-edges a bevel works on (see `bevel_selection`); `group` is the
/// primitive group named by the node, if it exists.
pub fn bevel_edge_selection(hes: &Vec<PolyHalfEdge>, nprims: usize, group: Option<&Vec<bool>>) -> (r: Vec<bool>)
    ensures
        r@ == bevel_selection(hes@, nprims as nat, match group {
            Some(g) => Some(g@),
            None => None,
        }),
{
    let n = hes.len();
    let mut sel: Vec<bool> = Vec::new();
    let mut x: usize = 0;
    while x < n
        invariant
            x <= n,
            n == hes@.len(),
            sel@ == Seq::new(x as nat, |y: int| false),
        decreases n - x,
    {
        sel.push(false);
        x += 1;
        assert(sel@ =~= Seq::new(x as nat, |y: int| false));
    }
    let ghost gopt = match group {
        Some(g) => Some(g@),
        None => None,
    };
    match group {
        Some(gm) => {
            let mut h: usize = 0;
            while h < n
                invariant
                    h <= n,
                    n == hes@.len(),
                    sel@.len() == n,
                    forall|y: int| 0 <= y < n ==> #[trigger] sel@[y] == marked_by(hes@, nprims as nat, gm@, h as int, y),
                decreases n - h,
            {
                let e = hes[h];
                let marks = match e.pair {
                    None => false,
                    Some(q) => (e.prim < nprims && e.prim < gm.len() && gm[e.prim]) || (q < n && hes[q].prim < nprims
                        && hes[q].prim < gm.len() && gm[hes[q].prim]),
                };
                assert(marks == group_marks(hes@, nprims as nat, gm@, h as int));
                let ghost before = sel@;
                if marks {
                    sel.set(h, true);
                    match e.pair {
                        Some(q) => {
                            if q < n {
                                sel.set(q, true);
                            }
                        },
                        None => {},
                    }
                }
                proof {
                    assert forall|y: int| 0 <= y < n implies #[trigger] sel@[y] == marked_by(hes@, nprims as nat, gm@, h + 1, y) by {
                        assert(before[y] == marked_by(hes@, nprims as nat, gm@, h as int, y));
                        if marked_by(hes@, nprims as nat, gm@, h as int, y) {
                            if !(y < h && group_marks(hes@, nprims as nat, gm@, y)) {
                                let w = choose|w: int|
                                    0 <= w < h && #[trigger] group_marks(hes@, nprims as nat, gm@, w) && hes@[w].pair == Some(y as usize);
                                assert(0 <= w < h + 1 && group_marks(hes@, nprims as nat, gm@, w) && hes@[w].pair == Some(y as usize));
                            }
                        }
                        if marked_by(hes@, nprims as nat, gm@, h + 1, y) && !(y < h + 1 && group_marks(hes@, nprims as nat, gm@, y)) {
                            let w = choose|w: int|
                                0 <= w < h + 1 && #[trigger] group_marks(hes@, nprims as nat, gm@, w) && hes@[w].pair == Some(y as usize);
                            if w < h {
                                assert(marked_by(hes@, nprims as nat, gm@, h as int, y));
                            }
                        }
                    }
                }
                h += 1;
            }
        },
        None => {},
    }
    let ghost grouped = group_selection(hes@, nprims as nat, gopt);
    assert(sel@ =~= grouped);
    let mut any = false;
    let mut x: usize = 0;
    while x < n
        invariant
            x <= n,
            sel@.len() == n,
            any == exists|y: int| 0 <= y < x && sel@[y],
        decreases n - x,
    {
        if sel[x] {
            any = true;
        }
        x += 1;
    }
    if any {
        proof {
            let y = choose|y: int| 0 <= y < n && sel@[y];
            assert(grouped[y]);
        }
        return sel;
    }
    assert(!exists|y: int| 0 <= y < hes@.len() && grouped[y]) by {
        if exists|y: int| 0 <= y < hes@.len() && grouped[y] {
            let y = choose|y: int| 0 <= y < hes@.len() && grouped[y];
            assert(sel@[y]);
        }
    }
    let mut all: Vec<bool> = Vec::new();
    let mut x: usize = 0;
    while x < n
        invariant
            x <= n,
            n == hes@.len(),
            all@ == Seq::new(x as nat, |y: int| hes@[y].pair is Some),
        decreases n - x,
    {
        all.push(hes[x].pair.is_some());
        x += 1;
        assert(all@ =~= Seq::new(x as nat, |y: int| hes@[y].pair is Some));
    }
    all
}

/// Whether a beveled vertex is the weld case: two selected edges and two
/// boundary vertices, whose profiles are joined directly.
pub fn is_weld_case(selcount: usize, n_bndv: usize) -> (r: bool)
    ensures
        r == (selcount == 2 && n_bndv == 2),
{
    selcount == 2 && n_bndv == 2
}

/// The id at position `k` of a profile, or `fallback` where the profile
/// has none.
pub open spec fn id_or(ids: Seq<usize>, k: int, fallback: int) -> usize {
    if 0 <= k < ids.len() {
        ids[k]
    } else {
        fallback as usize
    }
}

/// The quads of a weld whose profile of `ns` segments has its points from
/// `base`: first a strip between the first profile and the weld profile,
/// then one between the weld profile and the second profile, walked
/// backwards.
pub open spec fn weld_polys(p1: Seq<usize>, p2: Seq<usize>, base: int, ns: int) -> Seq<Seq<usize>> {
    Seq::new(
        ns as nat,
        |k: int| seq![id_or(p1, k, base + k), id_or(p1, k + 1, base + k + 1), (base + k + 1) as usize, (base + k) as usize],
    ) + Seq::new(
        ns as nat,
        |k: int| seq![(base + k) as usize, (base + k + 1) as usize, id_or(p2, ns - k - 1, base + ns - k - 1), id_or(p2, ns - k, base + ns - k)],
    )
}

fn id_or_exec(ids: &Vec<usize>, k: usize, fallback: usize) -> (r: usize)
    ensures
        r == id_or(ids@, k as int, fallback as int),
{
    if k < ids.len() {
        ids[k]
    } else {
        fallback
    }
}

/// Joins two profiles through a weld profile: the weld profile's points
/// are appended to `out_p`, and the two strips of quads (see `weld_polys`)
/// to `out_polys`. A weld profile of fewer than two points adds nothing.
pub fn emit_weld_edge_polys<T: Copy>(
    weld_profile: &Vec<T>,
    profile1_ids: &Vec<usize>,
    profile2_ids: &Vec<usize>,
    out_p: &mut Vec<T>,
    out_polys: &mut Vec<Vec<usize>>,
)
    requires
        old(out_p)@.len() + weld_profile@.len() <= usize::MAX,
    ensures
        weld_profile@.len() <= 1 ==> final(out_p)@ == old(out_p)@ && final(out_polys)@ == old(out_polys)@,
        weld_profile@.len() > 1 ==> {
            &&& final(out_p)@ == old(out_p)@ + weld_profile@
            &&& final(out_polys)@.map_values(|p: Vec<usize>| p@) == old(out_polys)@.map_values(|p: Vec<usize>| p@)
                + weld_polys(profile1_ids@, profile2_ids@, old(out_p)@.len() as int, weld_profile@.len() - 1)
        },
{
    if weld_profile.len() <= 1 {
        return;
    }
    let ns = weld_profile.len() - 1;
    let base = out_p.len();
    let ghost p0 = out_p@;
    let ghost q0 = out_polys@.map_values(|p: Vec<usize>| p@);
    let ghost w = weld_polys(profile1_ids@, profile2_ids@, base as int, ns as int);
    let mut t: usize = 0;
    while t < weld_profile.len()
        invariant
            t <= weld_profile@.len(),
            out_p@ == p0 + weld_profile@.subrange(0, t as int),
        decreases weld_profile.len() - t,
    {
        out_p.push(weld_profile[t]);
        t += 1;
        assert(out_p@ =~= p0 + weld_profile@.subrange(0, t as int));
    }
    assert(weld_profile@.subrange(0, weld_profile@.len() as int) =~= weld_profile@);
    let mut k: usize = 0;
    while k < ns
        invariant
            k <= ns,
            ns + 1 == weld_profile@.len(),
            base + ns + 1 <= usize::MAX,
            w == weld_polys(profile1_ids@, profile2_ids@, base as int, ns as int),
            out_polys@.map_values(|p: Vec<usize>| p@) == q0 + w.subrange(0, k as int),
        decreases ns - k,
    {
        let a = id_or_exec(profile1_ids, k, base + k);
        let b = id_or_exec(profile1_ids, k + 1, base + k + 1);
        let mut quad: Vec<usize> = Vec::new();
        quad.push(a);
        quad.push(b);
        quad.push(base + k + 1);
        quad.push(base + k);
        let ghost before = out_polys@.map_values(|p: Vec<usize>| p@);
        out_polys.push(quad);
        proof {
            assert(quad@ =~= w[k as int]);
            assert(out_polys@.map_values(|p: Vec<usize>| p@) =~= before.push(quad@));
            assert(w.subrange(0, k + 1) =~= w.subrange(0, k as int).push(w[k as int]));
        }
        k += 1;
    }
    let mut k: usize = 0;
    while k < ns
        invariant
            k <= ns,
            ns + 1 == weld_profile@.len(),
            base + ns + 1 <= usize::MAX,
            w == weld_polys(profile1_ids@, profile2_ids@, base as int, ns as int),
            w.len() == 2 * ns,
            out_polys@.map_values(|p: Vec<usize>| p@) == q0 + w.subrange(0, ns + k),
        decreases ns - k,
    {
        let c = id_or_exec(profile2_ids, ns - k - 1, base + ns - k - 1);
        let d = id_or_exec(profile2_ids, ns - k, base + ns - k);
        let mut quad: Vec<usize> = Vec::new();
        quad.push(base + k);
        quad.push(base + k + 1);
        quad.push(c);
        quad.push(d);
        let ghost before = out_polys@.map_values(|p: Vec<usize>| p@);
        out_polys.push(quad);
        proof {
            assert(quad@ =~= w[ns + k]);
            assert(out_polys@.map_values(|p: Vec<usize>| p@) =~= before.push(quad@));
            assert(w.subrange(0, ns + k + 1) =~= w.subrange(0, ns + k).push(w[ns + k]));
        }
        k += 1;
    }
    assert(w.subrange(0, 2 * ns) =~= w);
}

/// A profile's point ids as seen from face `face_a`: as they are when the
/// profile starts at that face or touches neither end, reversed when it
/// ends there.
pub open spec fn oriented_profile(ids: Seq<usize>, face_start: usize, face_end: usize, face_a: usize) -> Seq<usize> {
    if face_start == face_a {
        ids
    } else if face_end == face_a {
        ids.reverse()
    } else {
        ids
    }
}

/// The ids of a profile oriented to face `face_a` (see `oriented_profile`).
pub fn orient_profile(ids: &Vec<usize>, face_start: usize, face_end: usize, face_a: usize) -> (r: Vec<usize>)
    ensures
        r@ == oriented_profile(ids@, face_start, face_end, face_a),
{
    if face_start == face_a || face_end != face_a {
        ids.clone()
    } else {
        let mut r: Vec<usize> = Vec::new();
        let mut t: usize = ids.len();
        while t > 0
            invariant
                t <= ids@.len(),
                r@ == ids@.subrange(t as int, ids@.len() as int).reverse(),
            decreases t,
        {
            t -= 1;
            r.push(ids[t]);
            assert(r@ =~= ids@.subrange(t as int, ids@.len() as int).reverse());
        }
        assert(ids@.subrange(0, ids@.len() as int) =~= ids@);
        r
    }
}

/// The strip of quads along a beveled edge between the profiles `u` and `v`
/// of its two ends: quad `i` joins points `i` and `i + 1` of both, turned
/// by `forward[i]`.
pub open spec fn strip_quads(u: Seq<usize>, v: Seq<usize>, forward: Seq<bool>) -> Seq<Seq<usize>> {
    Seq::new(
        forward.len(),
        |i: int| if forward[i] {
            seq![u[i], v[i], v[i + 1], u[i + 1]]
        } else {
            seq![u[i], u[i + 1], v[i + 1], v[i]]
        },
    )
}

/// The quads of the strip along a beveled edge of `divisions` segments (see
/// `strip_quads`); which way each quad turns is the caller's to decide from
/// the face's normal.
pub fn edge_strip_quads(p_u: &Vec<usize>, p_v: &Vec<usize>, forward: &Vec<bool>) -> (r: Vec<Vec<usize>>)
    requires
        p_u@.len() == forward@.len() + 1,
        p_v@.len() == forward@.len() + 1,
    ensures
        r@.map_values(|q: Vec<usize>| q@) == strip_quads(p_u@, p_v@, forward@),
{
    let mut out: Vec<Vec<usize>> = Vec::new();
    let ghost want = strip_quads(p_u@, p_v@, forward@);
    let mut i: usize = 0;
    while i < forward.len()
        invariant
            i <= forward@.len(),
            p_u@.len() == forward@.len() + 1,
            p_v@.len() == forward@.len() + 1,
            want == strip_quads(p_u@, p_v@, forward@),
            out@.map_values(|q: Vec<usize>| q@) == want.subrange(0, i as int),
        decreases forward.len() - i,
    {
        let (u0, u1, v0, v1) = (p_u[i], p_u[i + 1], p_v[i], p_v[i + 1]);
        let mut quad: Vec<usize> = Vec::new();
        if forward[i] {
            quad.push(u0);
            quad.push(v0);
            quad.push(v1);
            quad.push(u1);
        } else {
            quad.push(u0);
            quad.push(u1);
            quad.push(v1);
            quad.push(v0);
        }
        let ghost before = out@.map_values(|q: Vec<usize>| q@);
        out.push(quad);
        proof {
            assert(quad@ =~= want[i as int]);
            assert(out@.map_values(|q: Vec<usize>| q@) =~= before.push(want[i as int]));
            assert(want.subrange(0, i + 1) =~= want.subrange(0, i as int).push(want[i as int]));
        }
        i += 1;
    }
    assert(want.subrange(0, forward@.len() as int) =~= want);
    out
}

/// The point of position `k` of profile `i` of a square-in tri-corner of
/// `ns` segments whose new points are numbered from `base`: the ends are
/// unset (`usize::MAX`); the inner positions of profile 0, then the outer
/// half of profile 1, get new points in that order; the rest of each
/// profile reuses the mirrored position of the profile before it (profile
/// 2's outer half: of profile 0).
pub open spec fn square_in_id(ns: int, base: int, i: int, k: int) -> usize
    decreases i,
{
    let ns2 = ns / 2;
    if k == 0 || k == ns {
        usize::MAX
    } else if i <= 0 {
        (base + k - 1) as usize
    } else if i == 1 {
        if k <= ns2 {
            (base + ns - k - 1) as usize
        } else {
            (base + ns - 1 + k - ns2 - 1) as usize
        }
    } else if k <= ns2 {
        square_in_id(ns, base, 1, ns - k)
    } else {
        (base + ns - k - 1) as usize
    }
}

/// The welded point ids of the three profiles of a square-in tri-corner,
/// and the centre triangle when the number of segments is odd.
pub struct SquareInResult {
    pub ids: Vec<Vec<usize>>,
    pub center_tri: Option<[usize; 3]>,
}

/// Whether the square-in weld applies: three profiles of `ns + 1` points
/// each, with at least two segments.
pub open spec fn square_in_applies<T>(count: usize, profiles: Seq<Vec<T>>, ns: usize) -> bool {
    &&& count == 3
    &&& ns >= 2
    &&& profiles.len() == 3
    &&& forall|i: int| 0 <= i < 3 ==> #[trigger] profiles[i]@.len() == ns + 1
}

fn square_in_id_exec(ns: usize, base: usize, i: usize, k: usize) -> (r: usize)
    requires
        i < 3,
        k <= ns,
        base + 2 * ns <= usize::MAX,
    ensures
        r == square_in_id(ns as int, base as int, i as int, k as int),
    decreases i,
{
    let ns2 = ns / 2;
    if k == 0 || k == ns {
        usize::MAX
    } else if i == 0 {
        base + k - 1
    } else if i == 1 {
        if k <= ns2 {
            base + ns - k - 1
        } else {
            base + ns - 1 + k - ns2 - 1
        }
    } else if k <= ns2 {
        square_in_id_exec(ns, base, 1, ns - k)
    } else {
        base + ns - k - 1
    }
}

/// The square-in weld of a tri-corner: `None` unless it applies (see
/// `square_in_applies`); else the points of the inner positions of profile
/// 0 and then of the outer half of profile 1 are appended to `out_p`, and
/// every position gets its point (see `square_in_id`).
pub fn try_square_in_weld<T: Copy>(count: usize, profiles: &Vec<Vec<T>>, ns: usize, out_p: &mut Vec<T>) -> (r: Option<
    SquareInResult,
>)
    requires
        old(out_p)@.len() + 2 * ns <= usize::MAX,
    ensures
        !square_in_applies(count, profiles@, ns) ==> r is None && final(out_p)@ == old(out_p)@,
        square_in_applies(count, profiles@, ns) ==> r is Some && {
            let res = r->0;
            let base = old(out_p)@.len() as int;
            &&& final(out_p)@ == old(out_p)@ + profiles@[0]@.subrange(1, ns as int) + profiles@[1]@.subrange(
                ns / 2 + 1,
                ns as int,
            )
            &&& res.ids@.len() == 3
            &&& forall|i: int| 0 <= i < 3 ==> (#[trigger] res.ids@[i])@.len() == ns + 1
            &&& forall|i: int, k: int| 0 <= i < 3 && 0 <= k <= ns ==> #[trigger] res.ids@[i]@[k] == square_in_id(ns as int, base, i, k)
            &&& res.center_tri == if ns % 2 == 1 {
                Some([
                    square_in_id(ns as int, base, 0, (ns / 2) as int),
                    square_in_id(ns as int, base, 1, (ns / 2) as int),
                    square_in_id(ns as int, base, 2, (ns / 2) as int),
                ])
            } else {
                None
            }
        },
{
    if count != 3 || ns < 2 || profiles.len() != 3 {
        return None;
    }
    let mut c: usize = 0;
    while c < 3
        invariant
            c <= 3,
            ns < usize::MAX,
            profiles@.len() == 3,
            forall|i: int| 0 <= i < c ==> #[trigger] profiles@[i]@.len() == ns + 1,
        decreases 3 - c,
    {
        if profiles[c].len() != ns + 1 {
            return None;
        }
        c += 1;
    }
    let base = out_p.len();
    let ns2 = ns / 2;
    let ghost p0 = out_p@;
    let mut k: usize = 1;
    while k < ns
        invariant
            1 <= k <= ns,
            profiles@.len() == 3,
            profiles@[0]@.len() == ns + 1,
            out_p@ == p0 + profiles@[0]@.subrange(1, k as int),
        decreases ns - k,
    {
        out_p.push(profiles[0][k]);
        k += 1;
        assert(out_p@ =~= p0 + profiles@[0]@.subrange(1, k as int));
    }
    let ghost p1 = out_p@;
    let mut k: usize = ns2 + 1;
    while k < ns
        invariant
            ns2 + 1 <= k,
            k <= ns || ns2 + 1 == k,
            ns2 == ns / 2,
            profiles@.len() == 3,
            profiles@[1]@.len() == ns + 1,
            out_p@ == p1 + profiles@[1]@.subrange(ns2 + 1, if k <= ns { k as int } else { ns2 + 1 }),
        decreases ns + 1 - k,
    {
        out_p.push(profiles[1][k]);
        k += 1;
        assert(out_p@ =~= p1 + profiles@[1]@.subrange(ns2 + 1, k as int));
    }
    assert(ns2 + 1 <= ns);
    let mut ids: Vec<Vec<usize>> = Vec::new();
    let mut i: usize = 0;
    while i < 3
        invariant
            i <= 3,
            base + 2 * ns <= usize::MAX,
            ids@.len() == i,
            forall|a: int| 0 <= a < i ==> (#[trigger] ids@[a])@.len() == ns + 1,
            forall|a: int, b: int| 0 <= a < i && 0 <= b <= ns ==> #[trigger] ids@[a]@[b] == square_in_id(ns as int, base as int, a, b),
        decreases 3 - i,
    {
        let mut row: Vec<usize> = Vec::new();
        let mut k: usize = 0;
        while k <= ns
            invariant
                k <= ns + 1,
                i < 3,
                ns < usize::MAX,
                base + 2 * ns <= usize::MAX,
                row@.len() == k,
                forall|b: int| 0 <= b < k ==> #[trigger] row@[b] == square_in_id(ns as int, base as int, i as int, b),
            decreases ns + 1 - k,
        {
            row.push(square_in_id_exec(ns, base, i, k));
            k += 1;
        }
        ids.push(row);
        i += 1;
    }
    let center_tri = if ns % 2 == 1 {
        Some([square_in_id_exec(ns, base, 0, ns2), square_in_id_exec(ns, base, 1, ns2), square_in_id_exec(ns, base, 2, ns2)])
    } else {
        None
    };
    Some(SquareInResult { ids, center_tri })
}

/// Applies the square-in weld to the point ids of three profiles: when it
/// applies (see `try_square_in_weld`), the inner positions of each profile
/// take their welded points; gives whether it applied.
pub fn apply_square_in_weld<T: Copy>(
    profile_ids: &mut Vec<Vec<usize>>,
    profile_coords: &Vec<Vec<T>>,
    ns: usize,
    out_p: &mut Vec<T>,
) -> (applied: bool)
    requires
        old(out_p)@.len() + 2 * ns <= usize::MAX,
        old(profile_ids)@.len() == 3 && square_in_applies(3, profile_coords@, ns) ==> forall|i: int|
            0 <= i < 3 ==> (#[trigger] old(profile_ids)@[i])@.len() >= ns,
    ensures
        applied == (old(profile_ids)@.len() == 3 && square_in_applies(3, profile_coords@, ns)),
        !applied ==> final(profile_ids)@ == old(profile_ids)@ && final(out_p)@ == old(out_p)@,
        applied ==> {
            let base = old(out_p)@.len() as int;
            &&& final(out_p)@ == old(out_p)@ + profile_coords@[0]@.subrange(1, ns as int) + profile_coords@[1]@.subrange(
                ns / 2 + 1,
                ns as int,
            )
            &&& final(profile_ids)@.len() == 3
            &&& forall|i: int| 0 <= i < 3 ==> (#[trigger] final(profile_ids)@[i])@.len() == old(profile_ids)@[i]@.len()
            &&& forall|i: int, k: int| 0 <= i < 3 && 0 <= k < old(profile_ids)@[i]@.len() ==> #[trigger] final(profile_ids)@[i]@[k]
                == if 1 <= k < ns && square_in_id(ns as int, base, i, k) != usize::MAX {
                square_in_id(ns as int, base, i, k)
            } else {
                old(profile_ids)@[i]@[k]
            }
        },
{
    if profile_ids.len() != 3 || profile_coords.len() != 3 {
        return false;
    }
    let base = out_p.len();
    let result = match try_square_in_weld(3, profile_coords, ns, out_p) {
        Some(r) => r,
        None => {
            return false;
        },
    };
    let ghost old_ids = profile_ids@;
    let mut i: usize = 0;
    while i < 3
        invariant
            i <= 3,
            ns >= 2,
            profile_ids@.len() == 3,
            result.ids@.len() == 3,
            forall|a: int| 0 <= a < 3 ==> (#[trigger] result.ids@[a])@.len() == ns + 1,
            forall|a: int, b: int| 0 <= a < 3 && 0 <= b <= ns ==> #[trigger] result.ids@[a]@[b] == square_in_id(ns as int, base as int, a, b),
            forall|a: int| 0 <= a < 3 ==> (#[trigger] old_ids[a])@.len() >= ns,
            forall|a: int| 0 <= a < 3 ==> (#[trigger] profile_ids@[a])@.len() == old_ids[a]@.len(),
            forall|a: int, k: int| 0 <= a < 3 && 0 <= k < old_ids[a]@.len() ==> #[trigger] profile_ids@[a]@[k]
                == if a < i && 1 <= k < ns && square_in_id(ns as int, base as int, a, k) != usize::MAX {
                square_in_id(ns as int, base as int, a, k)
            } else {
                old_ids[a]@[k]
            },
        decreases 3 - i,
    {
        let mut row = profile_ids[i].clone();
        let ghost row0 = row@;
        assert(row0 == old_ids[i as int]@);
        let mut k: usize = 1;
        while k < ns
            invariant
                1 <= k <= ns,
                i < 3,
                row@.len() == row0.len(),
                row0.len() >= ns,
                result.ids@.len() == 3,
                (result.ids@[i as int])@.len() == ns + 1,
                forall|b: int| 0 <= b <= ns ==> #[trigger] result.ids@[i as int]@[b] == square_in_id(ns as int, base as int, i as int, b),
                forall|b: int| 0 <= b < row0.len() ==> #[trigger] row@[b] == if 1 <= b < k && square_in_id(ns as int, base as int, i as int, b)
                    != usize::MAX {
                    square_in_id(ns as int, base as int, i as int, b)
                } else {
                    row0[b]
                },
            decreases ns - k,
        {
            let v = result.ids[i][k];
            if v != usize::MAX {
                row.set(k, v);
            }
            k += 1;
        }
        let ghost before = profile_ids@;
        profile_ids.set(i, row);
        proof {
            assert forall|a: int, k: int| 0 <= a < 3 && 0 <= k < old_ids[a]@.len() implies #[trigger] profile_ids@[a]@[k]
                == if a < i + 1 && 1 <= k < ns && square_in_id(ns as int, base as int, a, k) != usize::MAX {
                square_in_id(ns as int, base as int, a, k)
            } else {
                old_ids[a]@[k]
            } by {
                if a != i {
                    assert(profile_ids@[a] == before[a]);
                }
            }
        }
        i += 1;
    }
    true
}

} // verus!
