//! The graph a bevel works on: one bevel vertex per point with a selected
//! spoke, holding one edge half per spoke in fan order, linked around the
//! vertex and to the edge half of the opposite half-edge.

use vstd::prelude::*;
use std::collections::HashMap;
use crate::spokes::{Topology, spoke_fan, spoke_fan_spec, spec_pair, INVALID_HALF_EDGE};

verus! {

broadcast use vstd::std_specs::hash::group_hash_axioms;

/// An edge half of the bevel graph: its half-edge, the edge half of the
/// opposite half-edge (`usize::MAX` when there is none), the next and
/// previous edge halves around its bevel vertex, that vertex, its number of
/// segments and whether it is beveled.
#[derive(Clone, Copy, Debug, PartialEq, Eq)]
pub struct BevEdge {
    pub he_id: usize,
    pub pair_index: usize,
    pub next_index: usize,
    pub prev_index: usize,
    pub origin_bev_vert: usize,
    pub seg: usize,
    pub is_bev: bool,
}

/// A bevel vertex: its point and its edge halves in fan order.
#[derive(Clone, Debug)]
pub struct BevVertex {
    pub p_id: usize,
    pub edges: Vec<usize>,
}

/// The topology of a bevel graph.
pub struct BevelGraphTopo {
    pub verts: Vec<BevVertex>,
    pub edges: Vec<BevEdge>,
}

/// Whether half-edge `h` is selected.
pub open spec fn he_selected(sel: Seq<bool>, h: usize) -> bool {
    h < sel.len() && sel[h as int]
}

/// Whether some spoke of `fan` is selected.
pub open spec fn involved(fan: Seq<usize>, sel: Seq<bool>) -> bool {
    exists|k: int| 0 <= k < fan.len() && he_selected(sel, #[trigger] fan[k])
}

/// The edge halves of a bevel vertex `v` whose spokes are `fan`, the first
/// at index `base`: linked in a cycle in fan order, beveled with
/// `divisions` segments where the spoke is selected, with no pair yet.
pub open spec fn vert_edges(fan: Seq<usize>, sel: Seq<bool>, divisions: usize, v: int, base: int) -> Seq<BevEdge> {
    let n = fan.len() as int;
    Seq::new(
        fan.len(),
        |i: int| {
            let s = he_selected(sel, fan[i]);
            BevEdge {
                he_id: fan[i],
                pair_index: usize::MAX,
                next_index: (base + (i + 1) % n) as usize,
                prev_index: (base + (i + n - 1) % n) as usize,
                origin_bev_vert: v as usize,
                seg: if s {
                    divisions
                } else {
                    0
                },
                is_bev: s,
            }
        },
    )
}

/// The bevel vertices (point and edge-half indices) and edge halves made
/// for the points `0..m`.
pub open spec fn graph_prefix(
    topo: Map<usize, usize>,
    he: Seq<crate::spokes::HalfEdge>,
    sel: Seq<bool>,
    divisions: usize,
    m: int,
) -> (Seq<(usize, Seq<usize>)>, Seq<BevEdge>)
    decreases m,
{
    if m <= 0 {
        (Seq::empty(), Seq::empty())
    } else {
        let (vs, es) = graph_prefix(topo, he, sel, divisions, m - 1);
        let p = (m - 1) as usize;
        let fan = spoke_fan_spec(topo, he, p);
        if involved(fan, sel) {
            (
                vs.push((p, Seq::new(fan.len(), |i: int| (es.len() + i) as usize))),
                es + vert_edges(fan, sel, divisions, vs.len() as int, es.len() as int),
            )
        } else {
            (vs, es)
        }
    }
}

/// The edge half of each half-edge, the last one made where a half-edge
/// has several.
pub open spec fn he_index_map(es: Seq<BevEdge>) -> Map<usize, usize>
    decreases es.len(),
{
    if es.len() == 0 {
        Map::empty()
    } else {
        he_index_map(es.drop_last()).insert(es.last().he_id, (es.len() - 1) as usize)
    }
}

/// The edge halves with their pairs: the edge half of the opposite
/// half-edge, or `usize::MAX` when it has none.
pub open spec fn with_pairs(he: Seq<crate::spokes::HalfEdge>, es: Seq<BevEdge>) -> Seq<BevEdge> {
    let m = he_index_map(es);
    Seq::new(
        es.len(),
        |j: int| {
            let q = spec_pair(he, es[j].he_id);
            BevEdge {
                pair_index: if m.contains_key(q) {
                    m[q]
                } else {
                    usize::MAX
                },
                ..es[j]
            }
        },
    )
}

/// An edge half not yet linked around its vertex.
spec fn unlinked_edge(e: BevEdge) -> BevEdge {
    BevEdge { next_index: usize::MAX, prev_index: usize::MAX, ..e }
}

proof fn lemma_he_index_map_same_ids(a: Seq<BevEdge>, b: Seq<BevEdge>)
    requires
        a.len() == b.len(),
        forall|j: int| 0 <= j < a.len() ==> #[trigger] a[j].he_id == b[j].he_id,
    ensures
        he_index_map(a) == he_index_map(b),
    decreases a.len(),
{
    if a.len() > 0 {
        lemma_he_index_map_same_ids(a.drop_last(), b.drop_last());
        assert(a.last().he_id == b[b.len() - 1].he_id);
    }
}

fn is_involved(fan: &Vec<usize>, sel: &Vec<bool>) -> (r: bool)
    ensures
        r == involved(fan@, sel@),
{
    let mut k: usize = 0;
    while k < fan.len()
        invariant
            k <= fan@.len(),
            forall|t: int| 0 <= t < k ==> !he_selected(sel@, #[trigger] fan@[t]),
        decreases fan.len() - k,
    {
        let h = fan[k];
        if h < sel.len() && sel[h] {
            return true;
        }
        k += 1;
    }
    false
}

/// Builds the bevel graph of the `num_points` points of `topo` for the
/// half-edges `edge_selection` selects (see `graph_prefix` and
/// `with_pairs`).
pub fn build_bevel_graph(topo: &Topology, num_points: usize, edge_selection: &Vec<bool>, divisions: usize) -> (r:
    BevelGraphTopo)
    ensures
        ({
            let (vs, es) = graph_prefix(topo.point_to_halfedge@, topo.half_edges@, edge_selection@, divisions, num_points as int);
            &&& r.verts@.len() == vs.len()
            &&& forall|v: int| 0 <= v < vs.len() ==> #[trigger] r.verts@[v].p_id == vs[v].0 && r.verts@[v].edges@ == vs[v].1
            &&& r.edges@ == with_pairs(topo.half_edges@, es)
        }),
{
    let ghost tm = topo.point_to_halfedge@;
    let ghost he = topo.half_edges@;
    let ghost sel = edge_selection@;
    let mut verts: Vec<BevVertex> = Vec::new();
    let mut edges: Vec<BevEdge> = Vec::new();
    let mut he_to_idx: HashMap<usize, usize> = HashMap::new();
    let mut p: usize = 0;
    while p < num_points
        invariant
            p <= num_points,
            tm == topo.point_to_halfedge@,
            he == topo.half_edges@,
            sel == edge_selection@,
            ({
                let (vs, es) = graph_prefix(tm, he, sel, divisions, p as int);
                &&& verts@.len() == vs.len()
                &&& forall|v: int| 0 <= v < vs.len() ==> #[trigger] verts@[v].p_id == vs[v].0 && verts@[v].edges@ == vs[v].1
                &&& edges@ == es
                &&& he_to_idx@ == he_index_map(es)
            }),
        decreases num_points - p,
    {
        let fan = spoke_fan(topo, p);
        if is_involved(&fan, edge_selection) {
            let ghost vs0 = graph_prefix(tm, he, sel, divisions, p as int).0;
            let ghost es0 = edges@;
            let v_idx = verts.len();
            let base = edges.len();
            let n = fan.len();
            let ghost ve = vert_edges(fan@, sel, divisions, v_idx as int, base as int);
            let mut idxs: Vec<usize> = Vec::new();
            let mut i: usize = 0;
            while i < n
                invariant
                    i <= n,
                    n == fan@.len(),
                    n > 0,
                    base == es0.len(),
                    v_idx == vs0.len(),
                    ve == vert_edges(fan@, sel, divisions, v_idx as int, base as int),
                    edges@.len() == base + i,
                    edges@.subrange(0, base as int) == es0,
                    forall|t: int| 0 <= t < i ==> #[trigger] edges@[base + t] == unlinked_edge(ve[t]),
                    idxs@ == Seq::new(i as nat, |t: int| (base + t) as usize),
                    he_to_idx@ == he_index_map(edges@),
                    sel == edge_selection@,
                decreases n - i,
            {
                let h = fan[i];
                let s = h < edge_selection.len() && edge_selection[h];
                let eh_idx = edges.len();
                idxs.push(eh_idx);
                he_to_idx.insert(h, eh_idx);
                let e = BevEdge {
                    he_id: h,
                    pair_index: usize::MAX,
                    next_index: usize::MAX,
                    prev_index: usize::MAX,
                    origin_bev_vert: v_idx,
                    seg: if s {
                        divisions
                    } else {
                        0
                    },
                    is_bev: s,
                };
                let ghost before = edges@;
                edges.push(e);
                proof {
                    assert(edges@.drop_last() =~= before);
                    assert(edges@.subrange(0, base as int) =~= before.subrange(0, base as int));
                    assert forall|t: int| 0 <= t < i + 1 implies #[trigger] edges@[base + t] == unlinked_edge(ve[t]) by {
                        if t < i {
                            assert(edges@[base + t] == before[base + t]);
                        }
                    }
                    assert(idxs@ =~= Seq::new((i + 1) as nat, |t: int| (base + t) as usize));
                }
                i += 1;
            }
            let ghost unlinked = edges@;
            let total = edges.len();
            let mut i: usize = 0;
            while i < n
                invariant
                    i <= n,
                    total == base + n,
                    unlinked.subrange(0, base as int) == es0,
                    n == fan@.len(),
                    n > 0,
                    base == es0.len(),
                    ve == vert_edges(fan@, sel, divisions, v_idx as int, base as int),
                    edges@.len() == base + n,
                    unlinked.len() == base + n,
                    edges@.subrange(0, base as int) == es0,
                    forall|t: int| 0 <= t < n ==> #[trigger] unlinked[base + t] == unlinked_edge(ve[t]),
                    forall|t: int| 0 <= t < n ==> #[trigger] edges@[base + t] == if t < i {
                        ve[t]
                    } else {
                        unlinked[base + t]
                    },
                    idxs@ == Seq::new(n as nat, |t: int| (base + t) as usize),
                    he_to_idx@ == he_index_map(unlinked),
                decreases n - i,
            {
                let next = idxs[(i + 1) % n];
                let prev = idxs[if i == 0 {
                    n - 1
                } else {
                    i - 1
                }];
                let mut e = edges[base + i];
                e.next_index = next;
                e.prev_index = prev;
                let ghost before = edges@;
                edges.set(base + i, e);
                proof {
                    assert((i + n - 1) % (n as int) == if i == 0 {
                        n - 1
                    } else {
                        i - 1
                    }) by (nonlinear_arith)
                        requires
                            i < n,
                    ;
                    assert(e == ve[i as int]);
                    assert(edges@.subrange(0, base as int) =~= before.subrange(0, base as int));
                }
                i += 1;
            }
            proof {
                assert forall|t: int| 0 <= t < edges@.len() implies #[trigger] edges@[t] == (es0 + ve)[t] by {
                    if t < base {
                        assert(edges@.subrange(0, base as int)[t] == edges@[t]);
                    } else {
                        assert(edges@[base + (t - base)] == ve[t - base]);
                    }
                }
                assert(edges@ =~= es0 + ve);
                assert forall|j: int| 0 <= j < edges@.len() implies #[trigger] edges@[j].he_id == unlinked[j].he_id by {
                    if j < base {
                        assert(edges@.subrange(0, base as int)[j] == edges@[j]);
                        assert(unlinked.subrange(0, base as int)[j] == unlinked[j]);
                    } else {
                        assert(edges@[base + (j - base)] == ve[j - base]);
                        assert(unlinked[base + (j - base)] == unlinked_edge(ve[j - base]));
                    }
                }
                lemma_he_index_map_same_ids(edges@, unlinked);
            }
            let ghost verts0 = verts@;
            let ghost idxs_v = idxs@;
            verts.push(BevVertex { p_id: p, edges: idxs });
            proof {
                let (vs1, es1) = graph_prefix(tm, he, sel, divisions, p + 1);
                assert(fan@ == spoke_fan_spec(tm, he, p));
                assert(involved(fan@, sel));
                assert(vs1 == vs0.push((p, Seq::new(fan@.len(), |i: int| (es0.len() + i) as usize))));
                assert(es1 == edges@);
                assert(verts@.drop_last() =~= verts0);
                assert(verts@.len() == vs1.len());
                assert forall|v: int| 0 <= v < vs1.len() implies #[trigger] verts@[v].p_id == vs1[v].0 && verts@[v].edges@ == vs1[v].1 by {
                    if v < vs0.len() {
                        assert(verts@[v] == verts0[v]);
                    } else {
                        assert(verts@[v].edges@ == idxs_v);
                        assert(idxs_v =~= vs1[v].1);
                    }
                }
            }
        }
        p += 1;
    }
    let ghost es = edges@;
    let mut j: usize = 0;
    while j < edges.len()
        invariant
            j <= edges@.len(),
            edges@.len() == es.len(),
            he == topo.half_edges@,
            he_to_idx@ == he_index_map(es),
            forall|t: int| 0 <= t < edges@.len() ==> #[trigger] edges@[t] == if t < j {
                with_pairs(he, es)[t]
            } else {
                es[t]
            },
        decreases edges.len() - j,
    {
        let q = topo.pair(edges[j].he_id);
        let pi = match he_to_idx.get(&q) {
            Some(x) => *x,
            None => usize::MAX,
        };
        let mut e = edges[j];
        e.pair_index = pi;
        edges.set(j, e);
        j += 1;
    }
    assert(edges@ =~= with_pairs(he, es));
    BevelGraphTopo { verts, edges }
}

/// Whether the edge halves `es` are linked in cycles around the bevel
/// vertices `vs`: next and previous undo each other and stay at the same
/// vertex, and each vertex lists edge halves of its own.
pub open spec fn cycles_ok(vs: Seq<(usize, Seq<usize>)>, es: Seq<BevEdge>) -> bool {
    &&& forall|j: int|
        0 <= j < es.len() ==> {
            let e = #[trigger] es[j];
            &&& e.next_index < es.len()
            &&& e.prev_index < es.len()
            &&& es[e.next_index as int].prev_index == j
            &&& es[e.prev_index as int].next_index == j
            &&& es[e.next_index as int].origin_bev_vert == e.origin_bev_vert
            &&& e.origin_bev_vert < vs.len()
        }
    &&& forall|v: int, k: int|
        0 <= v < vs.len() && 0 <= k < vs[v].1.len() ==> #[trigger] vs[v].1[k] < es.len() && es[vs[v].1[k] as int].origin_bev_vert
            == v
}

proof fn lemma_graph_prefix_grows(
    topo: Map<usize, usize>,
    he: Seq<crate::spokes::HalfEdge>,
    sel: Seq<bool>,
    divisions: usize,
    m: int,
)
    requires
        m > 0,
    ensures
        graph_prefix(topo, he, sel, divisions, m - 1).1.len() <= graph_prefix(topo, he, sel, divisions, m).1.len(),
        graph_prefix(topo, he, sel, divisions, m - 1).0.len() <= graph_prefix(topo, he, sel, divisions, m).0.len(),
{
}

proof fn lemma_mod_steps(t: int, n: int)
    requires
        0 <= t < n,
    ensures
        (t + 1) % n == if t + 1 == n {
            0
        } else {
            t + 1
        },
        (t + n - 1) % n == if t == 0 {
            n - 1
        } else {
            t - 1
        },
{
    assert((t + 1) % n == if t + 1 == n {
        0
    } else {
        t + 1
    }) by (nonlinear_arith)
        requires
            0 <= t < n,
    ;
    assert((t + n - 1) % n == if t == 0 {
        n - 1
    } else {
        t - 1
    }) by (nonlinear_arith)
        requires
            0 <= t < n,
    ;
}

/// Adding the cycle of one more bevel vertex keeps the edge halves linked.
proof fn lemma_vert_edges_cycles(
    vs0: Seq<(usize, Seq<usize>)>,
    es0: Seq<BevEdge>,
    fan: Seq<usize>,
    sel: Seq<bool>,
    divisions: usize,
    p: usize,
)
    requires
        cycles_ok(vs0, es0),
        fan.len() > 0,
        es0.len() + fan.len() <= usize::MAX,
        vs0.len() + 1 <= usize::MAX,
    ensures
        cycles_ok(
            vs0.push((p, Seq::new(fan.len(), |i: int| (es0.len() + i) as usize))),
            es0 + vert_edges(fan, sel, divisions, vs0.len() as int, es0.len() as int),
        ),
{
    let base = es0.len() as int;
    let n = fan.len() as int;
    let ve = vert_edges(fan, sel, divisions, vs0.len() as int, base);
    let es = es0 + ve;
    let vs = vs0.push((p, Seq::new(fan.len(), |i: int| (es0.len() + i) as usize)));
    assert forall|j: int| 0 <= j < es.len() implies {
        let e = #[trigger] es[j];
        &&& e.next_index < es.len()
        &&& e.prev_index < es.len()
        &&& es[e.next_index as int].prev_index == j
        &&& es[e.prev_index as int].next_index == j
        &&& es[e.next_index as int].origin_bev_vert == e.origin_bev_vert
        &&& e.origin_bev_vert < vs.len()
    } by {
        if j < base {
            let e = es0[j];
            assert(es[j] == e);
            assert(es[e.next_index as int] == es0[e.next_index as int]);
            assert(es[e.prev_index as int] == es0[e.prev_index as int]);
        } else {
            let t = j - base;
            assert(es[j] == ve[t]);
            lemma_mod_steps(t, n);
            let nx = if t + 1 == n {
                0
            } else {
                t + 1
            };
            let pv = if t == 0 {
                n - 1
            } else {
                t - 1
            };
            lemma_mod_steps(nx, n);
            lemma_mod_steps(pv, n);
            assert(es[base + nx] == ve[nx]);
            assert(es[base + pv] == ve[pv]);
        }
    }
    assert forall|v: int, k: int| 0 <= v < vs.len() && 0 <= k < vs[v].1.len() implies #[trigger] vs[v].1[k] < es.len()
        && es[vs[v].1[k] as int].origin_bev_vert == v by {
        if v < vs0.len() {
            assert(vs[v] == vs0[v]);
            assert(es[vs0[v].1[k] as int] == es0[vs0[v].1[k] as int]);
        } else {
            assert(vs[v].1[k] == (base + k) as usize);
            assert(es[base + k] == ve[k]);
        }
    }
}

/// Setting the pairs keeps the links.
proof fn lemma_with_pairs_cycles(vs: Seq<(usize, Seq<usize>)>, he: Seq<crate::spokes::HalfEdge>, es: Seq<BevEdge>)
    requires
        cycles_ok(vs, es),
    ensures
        cycles_ok(vs, with_pairs(he, es)),
{
    let ws = with_pairs(he, es);
    assert forall|j: int| 0 <= j < ws.len() implies {
        let e = #[trigger] ws[j];
        &&& e.next_index < ws.len()
        &&& e.prev_index < ws.len()
        &&& ws[e.next_index as int].prev_index == j
        &&& ws[e.prev_index as int].next_index == j
        &&& ws[e.next_index as int].origin_bev_vert == e.origin_bev_vert
        &&& e.origin_bev_vert < vs.len()
    } by {
        let e = es[j];
        assert(ws[j].next_index == e.next_index && ws[j].prev_index == e.prev_index);
        assert(ws[e.next_index as int].prev_index == es[e.next_index as int].prev_index);
        assert(ws[e.prev_index as int].next_index == es[e.prev_index as int].next_index);
    }
    assert forall|v: int, k: int| 0 <= v < vs.len() && 0 <= k < vs[v].1.len() implies #[trigger] vs[v].1[k] < ws.len()
        && ws[vs[v].1[k] as int].origin_bev_vert == v by {
        assert(vs[v].1[k] < es.len());
    }
}

/// The edge halves of the bevel graph are linked in a cycle around each
/// bevel vertex, whatever the topology and the selection.
pub proof fn lemma_bevel_graph_cycles(
    topo: Map<usize, usize>,
    he: Seq<crate::spokes::HalfEdge>,
    sel: Seq<bool>,
    divisions: usize,
    m: int,
)
    requires
        graph_prefix(topo, he, sel, divisions, m).1.len() <= usize::MAX,
        graph_prefix(topo, he, sel, divisions, m).0.len() <= usize::MAX,
    ensures
        cycles_ok(graph_prefix(topo, he, sel, divisions, m).0, graph_prefix(topo, he, sel, divisions, m).1),
        cycles_ok(graph_prefix(topo, he, sel, divisions, m).0, with_pairs(he, graph_prefix(topo, he, sel, divisions, m).1)),
    decreases m,
{
    let (vs, es) = graph_prefix(topo, he, sel, divisions, m);
    if m > 0 {
        lemma_graph_prefix_grows(topo, he, sel, divisions, m);
        lemma_bevel_graph_cycles(topo, he, sel, divisions, m - 1);
        let (vs0, es0) = graph_prefix(topo, he, sel, divisions, m - 1);
        let p = (m - 1) as usize;
        let fan = spoke_fan_spec(topo, he, p);
        if involved(fan, sel) {
            lemma_vert_edges_cycles(vs0, es0, fan, sel, divisions, p);
        }
    }
    lemma_with_pairs_cycles(vs, he, es);
}
/// The id that stands for "no point".
pub const INVALID_POINT: usize = usize::MAX;

/// The corner table `c` with `pt` recorded, as a 32-bit index, at `d`,
/// when `d` is in range.
pub open spec fn corner_set(c: Seq<u32>, d: usize, pt: usize) -> Seq<u32> {
    if d < c.len() {
        c.update(d as int, pt as u32)
    } else {
        c
    }
}

/// The corner point recorded at `d` in the table `c`, if any.
pub open spec fn corner_get(c: Seq<u32>, d: usize) -> Option<usize> {
    if d < c.len() && c[d as int] != u32::MAX {
        Some(c[d as int] as usize)
    } else {
        None
    }
}

/// A corner point that fits below `u32::MAX`, recorded at an index in
/// range, reads back; every other index reads as before.
pub proof fn lemma_corner_read_back(c: Seq<u32>, d: usize, pt: usize, e: usize)
    requires
        d < c.len(),
        pt < u32::MAX,
    ensures
        corner_get(corner_set(c, d, pt), d) == Some(pt),
        e != d ==> corner_get(corner_set(c, d, pt), e) == corner_get(c, e),
{
}

/// The reusable index buffers of a bevel: its output faces, the output
/// point of each half-edge's corner (`u32::MAX` when unset), which
/// half-edges are beveled, which points take part, and the point and
/// half-edge of each dense index.
pub struct BevelWorkspace {
    pub out_polys: Vec<Vec<usize>>,
    pub corner_pt: Vec<u32>,
    pub bev_edge: Vec<bool>,
    pub any_bev_point: Vec<bool>,
    pub dense_to_pid: Vec<usize>,
    pub dense_to_he: Vec<usize>,
}

fn filled<T: Copy>(n: usize, v: T) -> (r: Vec<T>)
    ensures
        r@ == Seq::new(n as nat, |i: int| v),
{
    let mut r: Vec<T> = Vec::new();
    let mut i: usize = 0;
    while i < n
        invariant
            i <= n,
            r@ == Seq::new(i as nat, |t: int| v),
        decreases n - i,
    {
        r.push(v);
        i += 1;
        assert(r@ =~= Seq::new(i as nat, |t: int| v));
    }
    r
}

impl BevelWorkspace {
    /// An empty workspace.
    pub fn new() -> (w: Self)
        ensures
            w.out_polys@.len() == 0,
            w.corner_pt@.len() == 0,
            w.bev_edge@.len() == 0,
            w.any_bev_point@.len() == 0,
            w.dense_to_pid@.len() == 0,
            w.dense_to_he@.len() == 0,
    {
        BevelWorkspace {
            out_polys: Vec::new(),
            corner_pt: Vec::new(),
            bev_edge: Vec::new(),
            any_bev_point: Vec::new(),
            dense_to_pid: Vec::new(),
            dense_to_he: Vec::new(),
        }
    }

    /// Readies the workspace for a geometry of `n_points` points and
    /// `n_halfedges` half-edges: no faces, every corner unset, nothing
    /// beveled, no point or half-edge known.
    pub fn prepare(&mut self, n_points: usize, n_halfedges: usize)
        ensures
            final(self).out_polys@.len() == 0,
            final(self).corner_pt@ == Seq::new(n_halfedges as nat, |i: int| u32::MAX),
            final(self).bev_edge@ == Seq::new(n_halfedges as nat, |i: int| false),
            final(self).any_bev_point@ == Seq::new(n_points as nat, |i: int| false),
            final(self).dense_to_pid@ == Seq::new(n_points as nat, |i: int| INVALID_POINT),
            final(self).dense_to_he@ == Seq::new(n_halfedges as nat, |i: int| INVALID_HALF_EDGE),
    {
        self.out_polys = Vec::new();
        self.corner_pt = filled(n_halfedges, u32::MAX);
        self.bev_edge = filled(n_halfedges, false);
        self.any_bev_point = filled(n_points, false);
        self.dense_to_pid = filled(n_points, INVALID_POINT);
        self.dense_to_he = filled(n_halfedges, INVALID_HALF_EDGE);
    }

    /// Clears the faces, the corners, the beveled half-edges and the
    /// involved points, keeping the sizes and the dense maps.
    pub fn reset(&mut self)
        ensures
            final(self).out_polys@.len() == 0,
            final(self).corner_pt@ == Seq::new(old(self).corner_pt@.len(), |i: int| u32::MAX),
            final(self).bev_edge@ == Seq::new(old(self).bev_edge@.len(), |i: int| false),
            final(self).any_bev_point@ == Seq::new(old(self).any_bev_point@.len(), |i: int| false),
            final(self).dense_to_pid@ == old(self).dense_to_pid@,
            final(self).dense_to_he@ == old(self).dense_to_he@,
    {
        self.out_polys = Vec::new();
        self.corner_pt = filled(self.corner_pt.len(), u32::MAX);
        self.bev_edge = filled(self.bev_edge.len(), false);
        self.any_bev_point = filled(self.any_bev_point.len(), false);
    }

    /// Records `pt_idx`, as a 32-bit index, as the corner point of the
    /// half-edge with dense index `dense_idx`; an index out of range
    /// changes nothing.
    pub fn set_corner_pt(&mut self, dense_idx: usize, pt_idx: usize)
        ensures
            final(self).corner_pt@ == corner_set(old(self).corner_pt@, dense_idx, pt_idx),
            final(self).out_polys@ == old(self).out_polys@,
            final(self).bev_edge@ == old(self).bev_edge@,
            final(self).any_bev_point@ == old(self).any_bev_point@,
            final(self).dense_to_pid@ == old(self).dense_to_pid@,
            final(self).dense_to_he@ == old(self).dense_to_he@,
    {
        if dense_idx < self.corner_pt.len() {
            let v = pt_idx as u32;
            self.corner_pt.set(dense_idx, v);
        }
    }

    /// The corner point of the half-edge with dense index `dense_idx`, if
    /// one is set.
    pub fn get_corner_pt(&self, dense_idx: usize) -> (r: Option<usize>)
        ensures
            r == corner_get(self.corner_pt@, dense_idx),
    {
        if dense_idx < self.corner_pt.len() {
            let v = self.corner_pt[dense_idx];
            if v == u32::MAX {
                None
            } else {
                Some(v as usize)
            }
        } else {
            None
        }
    }
}

} // verus!
