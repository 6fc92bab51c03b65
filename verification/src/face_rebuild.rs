//! Rebuilding the faces around beveled vertices: each corner of a face at a
//! beveled vertex is replaced by the boundary vertices of the bevel there,
//! in the direction the face runs.

use vstd::prelude::*;
use std::collections::{HashMap, HashSet};
use crate::geometry::{Geometry, GeoModel, Primitive, PrimModel};
use crate::resample::{edge_key, undirected_edge_key};

verus! {

broadcast use vstd::std_specs::hash::group_hash_axioms;

/// The boundary vertices of each beveled point: `boundary_verts[v]` lists
/// `(new_vertex, k)` for profile position `k`, and `seg_count[v]` is the
/// number of segments there.
pub struct BevVertMapping {
    pub boundary_verts: HashMap<usize, Vec<(usize, usize)>>,
    pub seg_count: HashMap<usize, usize>,
}

impl Default for BevVertMapping {
    /// A mapping with no beveled point.
    fn default() -> (r: Self)
        ensures
            r.boundary_verts@ == Map::<usize, Vec<(usize, usize)>>::empty(),
            r.seg_count@ == Map::<usize, usize>::empty(),
    {
        BevVertMapping { boundary_verts: HashMap::new(), seg_count: HashMap::new() }
    }
}

/// The new vertex of the first of the first `n` entries of `boundary` at
/// profile position `k`, if any.
pub open spec fn profile_vertex(boundary: Seq<(usize, usize)>, k: int, n: int) -> Option<usize>
    decreases n,
{
    if n <= 0 {
        None
    } else {
        match profile_vertex(boundary, k, n - 1) {
            Some(w) => Some(w),
            None => if boundary[n - 1].1 == k {
                Some(boundary[n - 1].0)
            } else {
                None
            },
        }
    }
}

/// The boundary vertices at profile positions `0..m`, in order, skipping
/// the positions that have none.
pub open spec fn profile_run(boundary: Seq<(usize, usize)>, m: int) -> Seq<usize>
    decreases m,
{
    if m <= 0 {
        Seq::empty()
    } else {
        let prev = profile_run(boundary, m - 1);
        match profile_vertex(boundary, m - 1, boundary.len() as int) {
            Some(w) => prev.push(w),
            None => prev,
        }
    }
}

/// The number of segments at `v`: as recorded, else one.
pub open spec fn seg_of(sc: Map<usize, usize>, v: usize) -> usize {
    if sc.contains_key(v) {
        sc[v]
    } else {
        1
    }
}

/// Whether the corner at `v`, between the edges from `prev` and to `next`,
/// takes its boundary vertices in increasing order: when both edges have a
/// half-edge recorded, exactly when the previous edge's comes first; else
/// always.
pub open spec fn goes_ccw(em: Map<u128, (usize, usize)>, prev: usize, v: usize, next: usize) -> bool {
    let kp = edge_key(prev, v);
    let kn = edge_key(v, next);
    if em.contains_key(kp) && em.contains_key(kn) {
        em[kp].1 < em[kn].1
    } else {
        true
    }
}

/// Whether point `v` is beveled: it has boundary vertices.
pub open spec fn is_beveled(bv: Map<usize, Vec<(usize, usize)>>, v: usize) -> bool {
    bv.contains_key(v) && bv[v]@.len() > 0
}

/// The vertices that replace corner `i` of the face `orig`: the boundary
/// vertices of a beveled point, in the corner's direction; the point itself
/// otherwise.
pub open spec fn corner_verts(
    bv: Map<usize, Vec<(usize, usize)>>,
    sc: Map<usize, usize>,
    em: Map<u128, (usize, usize)>,
    orig: Seq<usize>,
    i: int,
) -> Seq<usize> {
    let n = orig.len() as int;
    let v = orig[i];
    let prev = orig[if i == 0 {
        n - 1
    } else {
        i - 1
    }];
    let next = orig[(i + 1) % n];
    if is_beveled(bv, v) {
        let run = profile_run(bv[v]@, seg_of(sc, v) + 1);
        if goes_ccw(em, prev, v, next) {
            run
        } else {
            run.reverse()
        }
    } else {
        seq![v]
    }
}

/// The vertices of the first `m` corners of the rebuilt face.
pub open spec fn rebuilt_verts(
    bv: Map<usize, Vec<(usize, usize)>>,
    sc: Map<usize, usize>,
    em: Map<u128, (usize, usize)>,
    orig: Seq<usize>,
    m: int,
) -> Seq<usize>
    decreases m,
{
    if m <= 0 {
        Seq::empty()
    } else {
        rebuilt_verts(bv, sc, em, orig, m - 1) + corner_verts(bv, sc, em, orig, m - 1)
    }
}

/// Each vertex of the first `m` corners of the rebuilt face, paired with the
/// point of the corner it replaces.
pub open spec fn rebuilt_pairs(
    bv: Map<usize, Vec<(usize, usize)>>,
    sc: Map<usize, usize>,
    em: Map<u128, (usize, usize)>,
    orig: Seq<usize>,
    m: int,
) -> Seq<(usize, usize)>
    decreases m,
{
    if m <= 0 {
        Seq::empty()
    } else {
        rebuilt_pairs(bv, sc, em, orig, m - 1) + corner_verts(bv, sc, em, orig, m - 1).map_values(|w: usize| (w, orig[m - 1]))
    }
}

/// The map `m` with the pairs `ps` inserted in order.
pub open spec fn insert_all(m: Map<usize, usize>, ps: Seq<(usize, usize)>) -> Map<usize, usize>
    decreases ps.len(),
{
    if ps.len() == 0 {
        m
    } else {
        insert_all(m, ps.drop_last()).insert(ps.last().0, ps.last().1)
    }
}

/// Whether one of the first `m` corners of `orig` is at a beveled point.
pub open spec fn any_beveled(bv: Map<usize, Vec<(usize, usize)>>, orig: Seq<usize>, m: int) -> bool {
    exists|i: int| 0 <= i < m && is_beveled(bv, #[trigger] orig[i])
}

proof fn lemma_insert_all_concat(m: Map<usize, usize>, a: Seq<(usize, usize)>, b: Seq<(usize, usize)>)
    ensures
        insert_all(m, a + b) == insert_all(insert_all(m, a), b),
    decreases b.len(),
{
    if b.len() == 0 {
        assert(a + b =~= a);
    } else {
        lemma_insert_all_concat(m, a, b.drop_last());
        assert((a + b).drop_last() =~= a + b.drop_last());
        assert((a + b).last() == b.last());
    }
}

fn profile_vertex_exec(boundary: &Vec<(usize, usize)>, k: usize) -> (r: Option<usize>)
    ensures
        r == profile_vertex(boundary@, k as int, boundary@.len() as int),
{
    let mut t: usize = 0;
    while t < boundary.len()
        invariant
            t <= boundary@.len(),
            profile_vertex(boundary@, k as int, t as int) is None,
        decreases boundary.len() - t,
    {
        if boundary[t].1 == k {
            proof {
                lemma_profile_vertex_some(boundary@, k as int, t + 1, boundary@.len() as int);
            }
            return Some(boundary[t].0);
        }
        t += 1;
    }
    None
}

proof fn lemma_profile_vertex_some(boundary: Seq<(usize, usize)>, k: int, n: int, m: int)
    requires
        0 <= n <= m <= boundary.len(),
        profile_vertex(boundary, k, n) is Some,
    ensures
        profile_vertex(boundary, k, m) == profile_vertex(boundary, k, n),
    decreases m - n,
{
    if m > n {
        lemma_profile_vertex_some(boundary, k, n, m - 1);
    }
}

/// The boundary vertices at positions `0..=seg`, in order.
fn profile_run_exec(boundary: &Vec<(usize, usize)>, seg: usize) -> (r: Vec<usize>)
    ensures
        r@ == profile_run(boundary@, seg + 1),
{
    let mut run: Vec<usize> = Vec::new();
    let mut k: usize = 0;
    let mut done = false;
    while !done
        invariant
            k <= seg,
            !done ==> run@ == profile_run(boundary@, k as int),
            done ==> run@ == profile_run(boundary@, seg + 1),
        decreases seg - k + if done {
            0int
        } else {
            1int
        },
    {
        let w = profile_vertex_exec(boundary, k);
        if let Some(w) = w {
            run.push(w);
        }
        if k == seg {
            done = true;
        } else {
            k += 1;
        }
    }
    run
}

fn reversed(v: &Vec<usize>) -> (r: Vec<usize>)
    ensures
        r@ == v@.reverse(),
{
    let mut r: Vec<usize> = Vec::new();
    let mut t: usize = v.len();
    while t > 0
        invariant
            t <= v@.len(),
            r@ == v@.subrange(t as int, v@.len() as int).reverse(),
        decreases t,
    {
        t -= 1;
        r.push(v[t]);
        assert(r@ =~= v@.subrange(t as int, v@.len() as int).reverse());
    }
    assert(v@.subrange(0, v@.len() as int) =~= v@);
    r
}

/// The rebuilt vertex list of face `orig_verts`, each vertex paired with
/// the point it stands for, and whether some corner is at a beveled point.
fn rebuild_corners(
    orig_verts: &Vec<usize>,
    bev_mapping: &BevVertMapping,
    edge_half_map: &HashMap<u128, (usize, usize)>,
) -> (r: (Vec<usize>, Vec<(usize, usize)>, bool))
    ensures
        ({
            let bv = bev_mapping.boundary_verts@;
            let sc = bev_mapping.seg_count@;
            let em = edge_half_map@;
            let n = orig_verts@.len() as int;
            &&& r.0@ == rebuilt_verts(bv, sc, em, orig_verts@, n)
            &&& r.1@ == rebuilt_pairs(bv, sc, em, orig_verts@, n)
            &&& r.2 == any_beveled(bv, orig_verts@, n)
        }),
{
    let ghost bv = bev_mapping.boundary_verts@;
    let ghost sc = bev_mapping.seg_count@;
    let ghost em = edge_half_map@;
    let ghost orig = orig_verts@;
    let mut new_verts: Vec<usize> = Vec::new();
    let mut pairs: Vec<(usize, usize)> = Vec::new();
    let n = orig_verts.len();
    let mut do_rebuild = false;
    let mut i: usize = 0;
    while i < n
        invariant
            n == orig.len(),
            orig == orig_verts@,
            bv == bev_mapping.boundary_verts@,
            sc == bev_mapping.seg_count@,
            em == edge_half_map@,
            i <= n,
            new_verts@ == rebuilt_verts(bv, sc, em, orig, i as int),
            pairs@ == rebuilt_pairs(bv, sc, em, orig, i as int),
            do_rebuild == any_beveled(bv, orig, i as int),
        decreases n - i,
    {
        let v = orig_verts[i];
        let v_prev = orig_verts[if i == 0 {
            n - 1
        } else {
            i - 1
        }];
        let v_next = orig_verts[(i + 1) % n];
        let ghost cv = corner_verts(bv, sc, em, orig, i as int);
        let mut ws: Vec<usize> = Vec::new();
        match bev_mapping.boundary_verts.get(&v) {
            Some(boundary) => {
                if boundary.len() == 0 {
                    ws.push(v);
                    assert(ws@ =~= cv);
                } else {
                    let seg = match bev_mapping.seg_count.get(&v) {
                        Some(s) => *s,
                        None => 1,
                    };
                    let e_prev = edge_half_map.get(&undirected_edge_key(v_prev, v));
                    let e_next = edge_half_map.get(&undirected_edge_key(v, v_next));
                    let go_ccw = match (e_prev, e_next) {
                        (Some(ep), Some(en)) => ep.1 < en.1,
                        _ => true,
                    };
                    let run = profile_run_exec(boundary, seg);
                    if go_ccw {
                        ws = run;
                    } else {
                        ws = reversed(&run);
                    }
                    assert(ws@ == cv);
                    do_rebuild = true;
                }
            },
            None => {
                ws.push(v);
                assert(ws@ =~= cv);
            },
        }
        let ghost pv0 = pairs@;
        let mut t: usize = 0;
        let ghost nv0 = new_verts@;
        while t < ws.len()
            invariant
                t <= ws@.len(),
                new_verts@ == nv0 + ws@.subrange(0, t as int),
                pairs@ == pv0 + ws@.subrange(0, t as int).map_values(|w: usize| (w, v)),
            decreases ws.len() - t,
        {
            new_verts.push(ws[t]);
            pairs.push((ws[t], v));
            t += 1;
            assert(new_verts@ =~= nv0 + ws@.subrange(0, t as int));
            assert(pairs@ =~= pv0 + ws@.subrange(0, t as int).map_values(|w: usize| (w, v)));
        }
        proof {
            assert(ws@.subrange(0, ws@.len() as int) =~= ws@);
            if do_rebuild && !any_beveled(bv, orig, i as int) {
                assert(is_beveled(bv, orig[i as int]));
            }
            if any_beveled(bv, orig, i + 1) && !is_beveled(bv, orig[i as int]) {
                let t = choose|t: int| 0 <= t < i + 1 && is_beveled(bv, #[trigger] orig[t]);
                assert(t < i);
            }
        }
        i += 1;
    }
    (new_verts, pairs, do_rebuild)
}

/// The map that `pairs` makes, later pairs overriding earlier ones.
fn map_of_pairs(pairs: &Vec<(usize, usize)>, map: &mut HashMap<usize, usize>)
    ensures
        final(map)@ == insert_all(old(map)@, pairs@),
{
    let ghost m0 = map@;
    let mut t: usize = 0;
    while t < pairs.len()
        invariant
            t <= pairs@.len(),
            map@ == insert_all(m0, pairs@.subrange(0, t as int)),
        decreases pairs.len() - t,
    {
        map.insert(pairs[t].0, pairs[t].1);
        proof {
            assert(pairs@.subrange(0, t + 1).drop_last() =~= pairs@.subrange(0, t as int));
        }
        t += 1;
    }
    assert(pairs@.subrange(0, pairs@.len() as int) =~= pairs@);
}

/// Rebuilds face `orig_verts` (its points, in order) around the beveled
/// points of `bev_mapping`: each corner becomes the vertices of
/// `corner_verts`. `edge_half_map` gives, under `edge_key` of an edge's two
/// points, the edge's bevel vertex and half-edge. Gives the new vertex list
/// and, for each new vertex, the point it stands for, when some corner is
/// at a beveled point and the face keeps at least three vertices.
pub fn rebuild_polygon(
    _orig_face_idx: usize,
    orig_verts: &Vec<usize>,
    bev_mapping: &BevVertMapping,
    edge_half_map: &HashMap<u128, (usize, usize)>,
) -> (r: Option<(Vec<usize>, HashMap<usize, usize>)>)
    ensures
        ({
            let bv = bev_mapping.boundary_verts@;
            let sc = bev_mapping.seg_count@;
            let em = edge_half_map@;
            let n = orig_verts@.len() as int;
            let verts = rebuilt_verts(bv, sc, em, orig_verts@, n);
            match r {
                Some((nv, map)) => {
                    &&& any_beveled(bv, orig_verts@, n)
                    &&& verts.len() >= 3
                    &&& nv@ == verts
                    &&& map@ == insert_all(Map::empty(), rebuilt_pairs(bv, sc, em, orig_verts@, n))
                },
                None => !(any_beveled(bv, orig_verts@, n) && verts.len() >= 3),
            }
        }),
{
    let (new_verts, pairs, do_rebuild) = rebuild_corners(orig_verts, bev_mapping, edge_half_map);
    if do_rebuild && new_verts.len() >= 3 {
        let mut map: HashMap<usize, usize> = HashMap::new();
        map_of_pairs(&pairs, &mut map);
        Some((new_verts, map))
    } else {
        None
    }
}

/// The points of the vertices `vids` of `g`, in order, skipping vertices
/// and points that do not exist.
pub open spec fn face_points(g: GeoModel, vids: Seq<usize>) -> Seq<usize>
    decreases vids.len(),
{
    if vids.len() == 0 {
        Seq::empty()
    } else {
        let rest = face_points(g, vids.drop_last());
        let v = vids.last();
        if v < g.vertices.len() && g.vertices[v as int] < g.num_points {
            rest.push(g.vertices[v as int])
        } else {
            rest
        }
    }
}

/// Whether one of the vertices `vids` of `g` is at a point of `bp`.
pub open spec fn touches_beveled(g: GeoModel, vids: Seq<usize>, bp: Set<usize>) -> bool {
    exists|t: int|
        0 <= t < vids.len() && #[trigger] vids[t] < g.vertices.len() && g.vertices[vids[t] as int] < g.num_points
            && bp.contains(g.vertices[vids[t] as int])
}

/// Whether face `f` of `g` is rebuilt: it is a polygon with a vertex at a
/// point of `bp`, and its points rebuild into a face (see
/// `rebuild_polygon`).
pub open spec fn face_rebuilt(
    g: GeoModel,
    bp: Set<usize>,
    bv: Map<usize, Vec<(usize, usize)>>,
    sc: Map<usize, usize>,
    em: Map<u128, (usize, usize)>,
    f: int,
) -> bool {
    match g.prims[f] {
        PrimModel::Polygon(vids) => {
            let pts = face_points(g, vids);
            &&& touches_beveled(g, vids, bp)
            &&& any_beveled(bv, pts, pts.len() as int)
            &&& rebuilt_verts(bv, sc, em, pts, pts.len() as int).len() >= 3
        },
        _ => false,
    }
}

/// The rebuilt faces among the first `m` primitives of `g`: their new
/// vertex lists, their indices, and the pairs of new vertex and point.
pub open spec fn rebuilt_faces_of(
    g: GeoModel,
    bp: Set<usize>,
    bv: Map<usize, Vec<(usize, usize)>>,
    sc: Map<usize, usize>,
    em: Map<u128, (usize, usize)>,
    m: int,
) -> (Seq<Seq<usize>>, Set<usize>, Seq<(usize, usize)>)
    decreases m,
{
    if m <= 0 {
        (Seq::empty(), Set::empty(), Seq::empty())
    } else {
        let (ps, fs, pairs) = rebuilt_faces_of(g, bp, bv, sc, em, m - 1);
        if face_rebuilt(g, bp, bv, sc, em, m - 1) {
            let pts = face_points(g, g.prims[m - 1].verts());
            let n = pts.len() as int;
            (ps.push(rebuilt_verts(bv, sc, em, pts, n)), fs.insert((m - 1) as usize), pairs + rebuilt_pairs(bv, sc, em, pts, n))
        } else {
            (ps, fs, pairs)
        }
    }
}

/// The faces rebuilt around beveled points.
pub struct FaceRebuildResult {
    pub new_polys: Vec<Vec<usize>>,
    pub rebuilt_faces: HashSet<usize>,
    pub nv_bv_map: HashMap<usize, usize>,
}

fn face_points_exec(geo: &Geometry, vids: &Vec<usize>) -> (r: Vec<usize>)
    ensures
        r@ == face_points(geo@, vids@),
{
    let mut out: Vec<usize> = Vec::new();
    let mut i: usize = 0;
    while i < vids.len()
        invariant
            i <= vids@.len(),
            out@ == face_points(geo@, vids@.take(i as int)),
        decreases vids.len() - i,
    {
        let vid = vids[i];
        proof {
            assert(vids@.take(i + 1).drop_last() =~= vids@.take(i as int));
        }
        if vid < geo.vertices.len() && geo.vertices[vid] < geo.num_points {
            out.push(geo.vertices[vid]);
        }
        i += 1;
    }
    assert(vids@.take(vids@.len() as int) =~= vids@);
    out
}

fn touches_exec(geo: &Geometry, vids: &Vec<usize>, beveled_points: &HashSet<usize>) -> (r: bool)
    ensures
        r == touches_beveled(geo@, vids@, beveled_points@),
{
    let mut i: usize = 0;
    while i < vids.len()
        invariant
            i <= vids@.len(),
            forall|t: int|
                0 <= t < i ==> !(#[trigger] vids@[t] < geo@.vertices.len() && geo@.vertices[vids@[t] as int] < geo@.num_points
                    && beveled_points@.contains(geo@.vertices[vids@[t] as int])),
        decreases vids.len() - i,
    {
        let vid = vids[i];
        if vid < geo.vertices.len() && geo.vertices[vid] < geo.num_points && beveled_points.contains(&geo.vertices[vid]) {
            return true;
        }
        i += 1;
    }
    false
}

/// Rebuilds every polygon of `geo` that has a vertex at a point of
/// `beveled_points` (see `face_rebuilt`): gives the new vertex lists in
/// face order, the indices of the rebuilt faces, and the map from each new
/// vertex to the point it stands for, later faces overriding earlier ones.
pub fn rebuild_existing_polygons(
    geo: &Geometry,
    beveled_points: &HashSet<usize>,
    bev_mapping: &BevVertMapping,
    edge_half_map: &HashMap<u128, (usize, usize)>,
) -> (r: FaceRebuildResult)
    ensures
        ({
            let (ps, fs, pairs) = rebuilt_faces_of(
                geo@,
                beveled_points@,
                bev_mapping.boundary_verts@,
                bev_mapping.seg_count@,
                edge_half_map@,
                geo@.prims.len() as int,
            );
            &&& r.new_polys@.map_values(|p: Vec<usize>| p@) == ps
            &&& r.rebuilt_faces@ == fs
            &&& r.nv_bv_map@ == insert_all(Map::empty(), pairs)
        }),
{
    let ghost g = geo@;
    let ghost bp = beveled_points@;
    let ghost bv = bev_mapping.boundary_verts@;
    let ghost sc = bev_mapping.seg_count@;
    let ghost em = edge_half_map@;
    let mut result = FaceRebuildResult { new_polys: Vec::new(), rebuilt_faces: HashSet::new(), nv_bv_map: HashMap::new() };
    let mut f: usize = 0;
    assert(result.new_polys@.map_values(|p: Vec<usize>| p@) =~= Seq::<Seq<usize>>::empty());
    while f < geo.primitives.len()
        invariant
            f <= geo@.prims.len(),
            g == geo@,
            bp == beveled_points@,
            bv == bev_mapping.boundary_verts@,
            sc == bev_mapping.seg_count@,
            em == edge_half_map@,
            ({
                let (ps, fs, pairs) = rebuilt_faces_of(g, bp, bv, sc, em, f as int);
                &&& result.new_polys@.map_values(|p: Vec<usize>| p@) == ps
                &&& result.rebuilt_faces@ == fs
                &&& result.nv_bv_map@ == insert_all(Map::empty(), pairs)
                &&& forall|x: usize| #[trigger] fs.contains(x) ==> x < f
            }),
        decreases geo.primitives.len() - f,
    {
        let ghost prev = rebuilt_faces_of(g, bp, bv, sc, em, f as int);
        let ghost polys0 = result.new_polys@.map_values(|p: Vec<usize>| p@);
        assert(geo@.prims[f as int] == geo.primitives@[f as int]@);
        match &geo.primitives[f] {
            Primitive::Polygon { vertices } => {
                let touches = touches_exec(geo, vertices, beveled_points);
                if touches && !result.rebuilt_faces.contains(&f) {
                    let pts = face_points_exec(geo, vertices);
                    let (new_verts, pairs, do_rebuild) = rebuild_corners(&pts, bev_mapping, edge_half_map);
                    if do_rebuild && new_verts.len() >= 3 {
                        let ghost nv = new_verts@;
                        result.new_polys.push(new_verts);
                        result.rebuilt_faces.insert(f);
                        map_of_pairs(&pairs, &mut result.nv_bv_map);
                        proof {
                            lemma_insert_all_concat(Map::empty(), prev.2, pairs@);
                            assert(result.new_polys@.map_values(|p: Vec<usize>| p@) =~= polys0.push(nv));
                        }
                    }
                }
            },
            _ => {},
        }
        f += 1;
    }
    result
}

} // verus!
