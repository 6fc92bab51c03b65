//! PolyPath: joins the segments of the input polylines into maximal paths.
//!
//! Polygons and curves pass through (with their vertices renumbered); the
//! segments of every polyline form a graph on the points, which is walked from
//! every point whose degree is not two, and then from any segment still unused
//! (the closed loops).

use vstd::prelude::*;
use crate::geometry::{point_ids_of, GeoModel, Geometry, PrimModel, Primitive};
use crate::convert_line::{chain_segments, polyline_segments};
use std::collections::HashMap;
use vstd::multiset::Multiset;

verus! {

broadcast use vstd::std_specs::hash::group_hash_axioms;

/// A segment between points `a` and `b`.
#[derive(Clone, Copy, Debug, PartialEq, Eq)]
pub struct LineEdge {
    pub a: usize,
    pub b: usize,
}

/// The endpoint of `e` opposite `p`, if `p` is an endpoint.
pub open spec fn edge_other(e: LineEdge, p: usize) -> Option<usize> {
    if e.a == p {
        Some(e.b)
    } else if e.b == p {
        Some(e.a)
    } else {
        None
    }
}

impl LineEdge {
    pub fn other(self, p: usize) -> (r: Option<usize>)
        ensures
            r == edge_other(self, p),
    {
        if self.a == p {
            Some(self.b)
        } else if self.b == p {
            Some(self.a)
        } else {
            None
        }
    }
}

/// Indices, in increasing order, of the edges among the first `k` that touch `p`.
pub open spec fn incident(edges: Seq<LineEdge>, p: usize, k: int) -> Seq<usize>
    decreases k,
{
    if k <= 0 {
        Seq::empty()
    } else {
        let r = incident(edges, p, k - 1);
        if edges[k - 1].a == p || edges[k - 1].b == p {
            r.push((k - 1) as usize)
        } else {
            r
        }
    }
}

pub open spec fn incident_all(edges: Seq<LineEdge>, p: usize) -> Seq<usize> {
    incident(edges, p, edges.len() as int)
}

/// The first edge of `list` at position `i` or later that is not used.
pub open spec fn first_unused_from(list: Seq<usize>, used: Seq<bool>, i: int) -> Option<usize>
    decreases list.len() - i,
{
    if i < 0 || i >= list.len() {
        None
    } else if !used[list[i] as int] {
        Some(list[i])
    } else {
        first_unused_from(list, used, i + 1)
    }
}

/// The first unused edge of `list` from position `i` that differs from
/// `prev`; failing that, the last unused one equal to `prev` (or `fallback`).
pub open spec fn choose_next_from(
    list: Seq<usize>,
    prev: Option<usize>,
    used: Seq<bool>,
    i: int,
    fallback: Option<usize>,
) -> Option<usize>
    decreases list.len() - i,
{
    if i < 0 || i >= list.len() {
        fallback
    } else {
        let e = list[i];
        if used[e as int] {
            choose_next_from(list, prev, used, i + 1, fallback)
        } else if Some(e) != prev {
            Some(e)
        } else {
            choose_next_from(list, prev, used, i + 1, Some(e))
        }
    }
}

/// Number of unused edges.
pub open spec fn unused_count(used: Seq<bool>) -> nat
    decreases used.len(),
{
    if used.len() == 0 {
        0
    } else {
        unused_count(used.drop_last()) + if used.last() {
            0nat
        } else {
            1nat
        }
    }
}

/// The walk from `curr` along `edge`: each step marks the edge used, moves to
/// its other endpoint and picks the next edge there, until no edge is left,
/// the edge is already used, or the walk is back at `start`.
pub open spec fn walk_spec(
    edges: Seq<LineEdge>,
    start: usize,
    curr: usize,
    edge: Option<usize>,
    used: Seq<bool>,
    path: Seq<usize>,
) -> (Seq<usize>, Seq<bool>)
    decreases unused_count(used),
{
    match edge {
        None => (path, used),
        Some(ei) => {
            if ei >= used.len() || used[ei as int] {
                (path, used)
            } else {
                let used2 = used.update(ei as int, true);
                match edge_other(edges[ei as int], curr) {
                    None => (path, used2),
                    Some(next) => {
                        let path2 = path.push(next);
                        if next == start {
                            (path2, used2)
                        } else if unused_count(used2) < unused_count(used) {
                            let e2 = choose_next_from(incident_all(edges, next), Some(ei), used2, 0, None);
                            walk_spec(edges, start, next, e2, used2, path2)
                        } else {
                            (path2, used2)
                        }
                    },
                }
            }
        },
    }
}

/// Walks from `s` as long as `s` has an unused edge; keeps the paths of two
/// or more points.
pub open spec fn drain_start(edges: Seq<LineEdge>, s: usize, used: Seq<bool>, paths: Seq<Seq<usize>>) -> (Seq<bool>, Seq<Seq<usize>>)
    decreases unused_count(used),
{
    match first_unused_from(incident_all(edges, s), used, 0) {
        None => (used, paths),
        Some(fe) => {
            let (p, u2) = walk_spec(edges, s, s, Some(fe), used, seq![s]);
            let paths2 = if p.len() >= 2 {
                paths.push(p)
            } else {
                paths
            };
            if unused_count(u2) < unused_count(used) {
                drain_start(edges, s, u2, paths2)
            } else {
                (u2, paths2)
            }
        },
    }
}

/// `drain_start` for the first `k` starts, in order.
pub open spec fn drain_starts(edges: Seq<LineEdge>, starts: Seq<usize>, k: int) -> (Seq<bool>, Seq<Seq<usize>>)
    decreases k,
{
    if k <= 0 {
        (Seq::new(edges.len(), |i: int| false), Seq::empty())
    } else {
        let (u, p) = drain_starts(edges, starts, k - 1);
        drain_start(edges, starts[k - 1], u, p)
    }
}

/// From edge `ei` on, walks every edge still unused from its first endpoint.
pub open spec fn drain_rest(edges: Seq<LineEdge>, ei: int, used: Seq<bool>, paths: Seq<Seq<usize>>) -> (Seq<bool>, Seq<Seq<usize>>)
    decreases edges.len() - ei,
{
    if ei < 0 || ei >= edges.len() {
        (used, paths)
    } else if used[ei] {
        drain_rest(edges, ei + 1, used, paths)
    } else {
        let (p, u2) = walk_spec(edges, edges[ei].a, edges[ei].a, Some(ei as usize), used, seq![edges[ei].a]);
        let paths2 = if p.len() >= 2 {
            paths.push(p)
        } else {
            paths
        };
        drain_rest(edges, ei + 1, u2, paths2)
    }
}

/// The paths traced from `starts` and then from the remaining edges.
pub open spec fn traced_paths(edges: Seq<LineEdge>, starts: Seq<usize>) -> Seq<Seq<usize>> {
    let (u, p) = drain_starts(edges, starts, starts.len() as int);
    drain_rest(edges, 0, u, p).1
}

/// Points below `k` with at least one edge and a degree other than two.
pub open spec fn valid_starts(edges: Seq<LineEdge>, k: int) -> Seq<usize>
    decreases k,
{
    if k <= 0 {
        Seq::empty()
    } else {
        let r = valid_starts(edges, k - 1);
        let d = incident_all(edges, (k - 1) as usize).len();
        if d != 0 && d != 2 {
            r.push((k - 1) as usize)
        } else {
            r
        }
    }
}

/// The `j`-th endpoint in the order `e0.a, e0.b, e1.a, e1.b, ...`.
pub open spec fn endpoint(edges: Seq<LineEdge>, j: int) -> usize {
    if j % 2 == 0 {
        edges[j / 2].a
    } else {
        edges[j / 2].b
    }
}

/// Points at or above `n` among the first `j` endpoints whose degree is not
/// two, each once, in order of first appearance.
pub open spec fn extra_starts(edges: Seq<LineEdge>, n: nat, j: int) -> Seq<usize>
    decreases j,
{
    if j <= 0 {
        Seq::empty()
    } else {
        let r = extra_starts(edges, n, j - 1);
        let p = endpoint(edges, j - 1);
        if p >= n && incident_all(edges, p).len() != 2 && !r.contains(p) {
            r.push(p)
        } else {
            r
        }
    }
}

/// Where the walks start: points of the geometry in increasing order, then
/// points outside it in order of first appearance.
pub open spec fn path_starts_spec(edges: Seq<LineEdge>, n: nat) -> Seq<usize> {
    valid_starts(edges, n as int) + extra_starts(edges, n, 2 * edges.len() as int)
}

/// The adjacency map holds, for every point with an edge, its incident edges.
pub open spec fn adjacency_ok(adj: Map<usize, Vec<usize>>, edges: Seq<LineEdge>) -> bool {
    forall|p: usize|
        #![trigger adj.contains_key(p)]
        #![trigger incident_all(edges, p)]
        (adj.contains_key(p) <==> incident_all(edges, p).len() > 0) && (adj.contains_key(p)
            ==> adj[p]@ == incident_all(edges, p))
}

proof fn lemma_incident_bounded(edges: Seq<LineEdge>, p: usize, k: int)
    requires
        0 <= k <= edges.len(),
    ensures
        forall|i: int| 0 <= i < incident(edges, p, k).len() ==> #[trigger] incident(edges, p, k)[i] < k,
    decreases k,
{
    if k > 0 {
        lemma_incident_bounded(edges, p, k - 1);
        let r = incident(edges, p, k - 1);
        assert forall|i: int| 0 <= i < incident(edges, p, k).len() implies #[trigger] incident(edges, p, k)[i] < k by {
            if i < r.len() {
                assert(incident(edges, p, k)[i] == r[i]);
            } else {
                assert(incident(edges, p, k)[i] == (k - 1) as usize);
            }
        }
    }
}

proof fn lemma_incident_all_bounded(edges: Seq<LineEdge>)
    ensures
        forall|p: usize, i: int|
            0 <= i < incident_all(edges, p).len() ==> #[trigger] incident_all(edges, p)[i] < edges.len(),
{
    assert forall|p: usize, i: int| 0 <= i < incident_all(edges, p).len() implies #[trigger] incident_all(edges, p)[i] < edges.len() by {
        lemma_incident_bounded(edges, p, edges.len() as int);
    }
}

pub(crate) proof fn lemma_unused_count_update(used: Seq<bool>, i: int)
    requires
        0 <= i < used.len(),
        !used[i],
    ensures
        unused_count(used.update(i, true)) + 1 == unused_count(used),
    decreases used.len(),
{
    let u2 = used.update(i, true);
    if i == used.len() - 1 {
        assert(u2.drop_last() =~= used.drop_last());
    } else {
        assert(u2.drop_last() =~= used.drop_last().update(i, true));
        lemma_unused_count_update(used.drop_last(), i);
    }
}

proof fn lemma_walk_spec_props(
    edges: Seq<LineEdge>,
    start: usize,
    curr: usize,
    edge: Option<usize>,
    used: Seq<bool>,
    path: Seq<usize>,
)
    ensures
        walk_spec(edges, start, curr, edge, used, path).1.len() == used.len(),
        unused_count(walk_spec(edges, start, curr, edge, used, path).1) <= unused_count(used),
        (edge matches Some(e) && e < used.len() && !used[e as int]) ==> unused_count(
            walk_spec(edges, start, curr, edge, used, path).1,
        ) < unused_count(used),
        walk_spec(edges, start, curr, edge, used, path).0.len() >= path.len(),
        forall|i: int| 0 <= i < path.len() ==> #[trigger] walk_spec(edges, start, curr, edge, used, path).0[i] == path[i],
    decreases unused_count(used),
{
    match edge {
        None => {},
        Some(ei) => {
            if ei >= used.len() || used[ei as int] {
            } else {
                let used2 = used.update(ei as int, true);
                lemma_unused_count_update(used, ei as int);
                match edge_other(edges[ei as int], curr) {
                    None => {},
                    Some(next) => {
                        let path2 = path.push(next);
                        if next == start {
                        } else if unused_count(used2) < unused_count(used) {
                            let e2 = choose_next_from(incident_all(edges, next), Some(ei), used2, 0, None);
                            lemma_walk_spec_props(edges, start, next, e2, used2, path2);
                            assert forall|i: int| 0 <= i < path.len() implies #[trigger] walk_spec(edges, start, curr, edge, used, path).0[i] == path[i] by {
                                assert(path2[i] == path[i]);
                            }
                        }
                    },
                }
            }
        },
    }
}

proof fn lemma_first_unused_from_props(list: Seq<usize>, used: Seq<bool>, i: int)
    ensures
        first_unused_from(list, used, i) matches Some(e) ==> (list.contains(e) && !used[e as int]),
    decreases list.len() - i,
{
    if i < 0 || i >= list.len() {
    } else if !used[list[i] as int] {
    } else {
        lemma_first_unused_from_props(list, used, i + 1);
    }
}

proof fn lemma_choose_next_from_props(
    list: Seq<usize>,
    prev: Option<usize>,
    used: Seq<bool>,
    i: int,
    fallback: Option<usize>,
)
    ensures
        choose_next_from(list, prev, used, i, fallback) matches Some(e) ==> (list.contains(e) || fallback
            == Some(e)),
    decreases list.len() - i,
{
    if i < 0 || i >= list.len() {
    } else {
        let e = list[i];
        if used[e as int] {
            lemma_choose_next_from_props(list, prev, used, i + 1, fallback);
        } else if Some(e) != prev {
        } else {
            lemma_choose_next_from_props(list, prev, used, i + 1, Some(e));
        }
    }
}

/// The first unused edge incident to `point`.
pub fn first_unused_edge_at(point: usize, adjacency: &HashMap<usize, Vec<usize>>, used: &Vec<bool>, Ghost(edges): Ghost<Seq<LineEdge>>) -> (r: Option<usize>)
    requires
        adjacency_ok(adjacency@, edges),
        used@.len() == edges.len(),
    ensures
        r == first_unused_from(incident_all(edges, point), used@, 0),
{
    proof {
        lemma_incident_all_bounded(edges);
    }
    let list = match adjacency.get(&point) {
        Some(l) => l,
        None => {
            assert(incident_all(edges, point).len() == 0);
            return None;
        },
    };
    assert(list@ == incident_all(edges, point));
    let mut i: usize = 0;
    while i < list.len()
        invariant
            i <= list@.len(),
            list@ == incident_all(edges, point),
            used@.len() == edges.len(),
            forall|j: int| 0 <= j < list@.len() ==> #[trigger] list@[j] < edges.len(),
            first_unused_from(list@, used@, 0) == first_unused_from(list@, used@, i as int),
        decreases list.len() - i,
    {
        let ei = list[i];
        if !used[ei] {
            return Some(ei);
        }
        i += 1;
    }
    None
}

/// The next edge to follow at `point`: the first unused incident edge other
/// than `prev_edge`, or `prev_edge` itself when it is the only unused one.
pub fn choose_next_unused_edge(
    point: usize,
    prev_edge: Option<usize>,
    adjacency: &HashMap<usize, Vec<usize>>,
    used: &Vec<bool>,
    Ghost(edges): Ghost<Seq<LineEdge>>,
) -> (r: Option<usize>)
    requires
        adjacency_ok(adjacency@, edges),
        used@.len() == edges.len(),
    ensures
        r == choose_next_from(incident_all(edges, point), prev_edge, used@, 0, None),
{
    proof {
        lemma_incident_all_bounded(edges);
    }
    let list = match adjacency.get(&point) {
        Some(l) => l,
        None => {
            assert(incident_all(edges, point).len() == 0);
            return None;
        },
    };
    let mut fallback: Option<usize> = None;
    let mut i: usize = 0;
    while i < list.len()
        invariant
            i <= list@.len(),
            list@ == incident_all(edges, point),
            used@.len() == edges.len(),
            forall|j: int| 0 <= j < list@.len() ==> #[trigger] list@[j] < edges.len(),
            choose_next_from(list@, prev_edge, used@, 0, None) == choose_next_from(
                list@,
                prev_edge,
                used@,
                i as int,
                fallback,
            ),
        decreases list.len() - i,
    {
        let ei = list[i];
        if !used[ei] {
            if prev_edge != Some(ei) {
                return Some(ei);
            }
            fallback = Some(ei);
        }
        i += 1;
    }
    fallback
}

/// Walks from `start` along `first_edge`, marking every edge it follows as
/// used, and returns the points it visits (starting with `start`).
pub fn walk_from(
    start: usize,
    first_edge: usize,
    edges: &Vec<LineEdge>,
    adjacency: &HashMap<usize, Vec<usize>>,
    used: &mut Vec<bool>,
) -> (path: Vec<usize>)
    requires
        adjacency_ok(adjacency@, edges@),
        old(used)@.len() == edges@.len(),
        first_edge < edges@.len(),
    ensures
        (path@, final(used)@) == walk_spec(edges@, start, start, Some(first_edge), old(used)@, seq![start]),
{
    let mut path: Vec<usize> = Vec::new();
    path.push(start);
    let ghost target = walk_spec(edges@, start, start, Some(first_edge), used@, seq![start]);
    let mut curr = start;
    let mut edge: Option<usize> = Some(first_edge);
    proof {
        lemma_incident_all_bounded(edges@);
        assert(path@ =~= seq![start]);
    }
    loop
        invariant_except_break
            edge matches Some(e) ==> e < edges@.len(),
            walk_spec(edges@, start, curr, edge, used@, path@) == target,
        invariant
            adjacency_ok(adjacency@, edges@),
            used@.len() == edges@.len(),
        ensures
            (path@, used@) == target,
        decreases unused_count(used@),
    {
        let ei = match edge {
            Some(e) => e,
            None => {
                break;
            },
        };
        if used[ei] {
            break;
        }
        let ghost used0 = used@;
        let ghost path0 = path@;
        let ghost curr0 = curr;
        used.set(ei, true);
        proof {
            lemma_unused_count_update(used0, ei as int);
        }
        let next = match edges[ei].other(curr) {
            Some(n) => n,
            None => {
                break;
            },
        };
        path.push(next);
        curr = next;
        let nxt = choose_next_unused_edge(curr, Some(ei), adjacency, used, Ghost(edges@));
        proof {
            lemma_choose_next_from_props(incident_all(edges@, next), Some(ei), used@, 0, None);
            lemma_incident_all_bounded(edges@);
            if let Some(e2) = nxt {
                assert(incident_all(edges@, next).contains(e2));
                let j = choose|j: int| 0 <= j < incident_all(edges@, next).len() && incident_all(edges@, next)[j] == e2;
                assert(incident_all(edges@, next)[j] < edges@.len());
            }
        }
        edge = nxt;
        if curr == start {
            break;
        }
    }
    path
}

/// For every point with an edge, the indices of its edges in increasing order.
pub fn build_adjacency(edges: &Vec<LineEdge>) -> (adj: HashMap<usize, Vec<usize>>)
    ensures
        adjacency_ok(adj@, edges@),
{
    let mut adj: HashMap<usize, Vec<usize>> = HashMap::new();
    let mut k: usize = 0;
    while k < edges.len()
        invariant
            k <= edges@.len(),
            forall|p: usize|
                #![trigger adj@.contains_key(p)]
                #![trigger incident(edges@, p, k as int)]
                (adj@.contains_key(p) <==> incident(edges@, p, k as int).len() > 0) && (adj@.contains_key(p)
                    ==> adj@[p]@ == incident(edges@, p, k as int)),
        decreases edges.len() - k,
    {
        let e = edges[k];
        let ghost adj0 = adj@;
        let mut la = match adj.remove(&e.a) {
            Some(l) => l,
            None => Vec::new(),
        };
        la.push(k);
        adj.insert(e.a, la);
        if e.b != e.a {
            let mut lb = match adj.remove(&e.b) {
                Some(l) => l,
                None => Vec::new(),
            };
            lb.push(k);
            adj.insert(e.b, lb);
        }
        proof {
            assert forall|p: usize|
                #![trigger adj@.contains_key(p)]
                #![trigger incident(edges@, p, k + 1)]
                (adj@.contains_key(p) <==> incident(edges@, p, k + 1).len() > 0) && (adj@.contains_key(p)
                    ==> adj@[p]@ == incident(edges@, p, k + 1)) by {
                assert(incident(edges@, p, k + 1) == (if edges@[k as int].a == p || edges@[k as int].b == p {
                    incident(edges@, p, k as int).push(k)
                } else {
                    incident(edges@, p, k as int)
                }));
                if adj0.contains_key(p) {
                    assert(adj0[p]@ == incident(edges@, p, k as int));
                } else {
                    assert(incident(edges@, p, k as int).len() == 0);
                    assert(incident(edges@, p, k as int) =~= Seq::<usize>::empty());
                }
            }
        }
        k += 1;
    }
    adj
}

fn vec_contains(v: &Vec<usize>, x: usize) -> (r: bool)
    ensures
        r == v@.contains(x),
{
    let mut i: usize = 0;
    while i < v.len()
        invariant
            i <= v@.len(),
            forall|j: int| 0 <= j < i ==> v@[j] != x,
        decreases v.len() - i,
    {
        if v[i] == x {
            return true;
        }
        i += 1;
    }
    false
}

/// Where the walks start: the points of the geometry (below `num_points`)
/// whose number of edges is neither zero nor two, in increasing order, then
/// the points outside the geometry with that property, in order of first
/// appearance among the edge endpoints.
pub fn path_starts(num_points: usize, edges: &Vec<LineEdge>, adjacency: &HashMap<usize, Vec<usize>>) -> (starts: Vec<usize>)
    requires
        adjacency_ok(adjacency@, edges@),
    ensures
        starts@ == path_starts_spec(edges@, num_points as nat),
{
    let mut starts: Vec<usize> = Vec::new();
    let mut p: usize = 0;
    while p < num_points
        invariant
            p <= num_points,
            adjacency_ok(adjacency@, edges@),
            starts@ == valid_starts(edges@, p as int),
        decreases num_points - p,
    {
        match adjacency.get(&p) {
            Some(l) => {
                assert(l@ == incident_all(edges@, p));
                if l.len() != 2 {
                    starts.push(p);
                }
            },
            None => {
                assert(incident_all(edges@, p).len() == 0);
            },
        }
        p += 1;
    }
    let ghost base = starts@;
    let mut extra: Vec<usize> = Vec::new();
    let mut ei: usize = 0;
    while ei < edges.len()
        invariant
            ei <= edges@.len(),
            adjacency_ok(adjacency@, edges@),
            extra@ == extra_starts(edges@, num_points as nat, 2 * ei as int),
        decreases edges.len() - ei,
    {
        let e = edges[ei];
        let mut side: usize = 0;
        while side < 2
            invariant
                ei < edges@.len(),
                e == edges@[ei as int],
                side <= 2,
                adjacency_ok(adjacency@, edges@),
                extra@ == extra_starts(edges@, num_points as nat, 2 * ei + side),
            decreases 2 - side,
        {
            let q = if side == 0 {
                e.a
            } else {
                e.b
            };
            assert(q == endpoint(edges@, 2 * ei + side));
            if q >= num_points {
                let deg = match adjacency.get(&q) {
                    Some(l) => l.len(),
                    None => 0,
                };
                assert(deg == incident_all(edges@, q).len());
                if deg != 2 && !vec_contains(&extra, q) {
                    extra.push(q);
                }
            }
            side += 1;
        }
        ei += 1;
    }
    let mut i: usize = 0;
    while i < extra.len()
        invariant
            i <= extra@.len(),
            starts@ == base + extra@.take(i as int),
        decreases extra.len() - i,
    {
        starts.push(extra[i]);
        proof {
            assert(extra@.take(i + 1) =~= extra@.take(i as int).push(extra@[i as int]));
        }
        i += 1;
    }
    assert(extra@.take(extra@.len() as int) =~= extra@);
    starts
}

proof fn lemma_first_unused_some_in_range(edges: Seq<LineEdge>, s: usize, used: Seq<bool>)
    requires
        used.len() == edges.len(),
    ensures
        first_unused_from(incident_all(edges, s), used, 0) matches Some(fe) ==> (fe < used.len()
            && !used[fe as int]),
{
    lemma_incident_all_bounded(edges);
    lemma_first_unused_from_props(incident_all(edges, s), used, 0);
}

/// Traces the paths: from every start as long as it has unused edges, then
/// from every edge still unused; paths of fewer than two points are dropped.
pub fn trace_paths(edges: &Vec<LineEdge>, adjacency: &HashMap<usize, Vec<usize>>, starts: &Vec<usize>) -> (paths: Vec<Vec<usize>>)
    requires
        adjacency_ok(adjacency@, edges@),
    ensures
        paths@.map_values(|p: Vec<usize>| p@) == traced_paths(edges@, starts@),
{
    let mut used: Vec<bool> = Vec::new();
    let mut t: usize = 0;
    while t < edges.len()
        invariant
            t <= edges@.len(),
            used@ =~= Seq::new(t as nat, |i: int| false),
        decreases edges.len() - t,
    {
        used.push(false);
        t += 1;
    }
    let mut paths: Vec<Vec<usize>> = Vec::new();
    let mut k: usize = 0;
    while k < starts.len()
        invariant
            k <= starts@.len(),
            adjacency_ok(adjacency@, edges@),
            used@.len() == edges@.len(),
            (used@, paths@.map_values(|p: Vec<usize>| p@)) == drain_starts(edges@, starts@, k as int),
        decreases starts.len() - k,
    {
        let s = starts[k];
        loop
            invariant
                adjacency_ok(adjacency@, edges@),
                used@.len() == edges@.len(),
                drain_start(edges@, s, used@, paths@.map_values(|p: Vec<usize>| p@)) == drain_starts(
                    edges@,
                    starts@,
                    k + 1,
                ),
            ensures
                (used@, paths@.map_values(|p: Vec<usize>| p@)) == drain_starts(edges@, starts@, k + 1),
            decreases unused_count(used@),
        {
            proof {
                lemma_first_unused_some_in_range(edges@, s, used@);
            }
            let fe = match first_unused_edge_at(s, adjacency, &used, Ghost(edges@)) {
                Some(e) => e,
                None => {
                    break;
                },
            };
            let ghost used0 = used@;
            let ghost paths0 = paths@.map_values(|p: Vec<usize>| p@);
            let path = walk_from(s, fe, edges, adjacency, &mut used);
            proof {
                lemma_walk_spec_props(edges@, s, s, Some(fe), used0, seq![s]);
            }
            if path.len() >= 2 {
                paths.push(path);
                proof {
                    assert(paths@.map_values(|p: Vec<usize>| p@) =~= paths0.push(path@));
                }
            }
        }
        k += 1;
    }
    let mut ei: usize = 0;
    while ei < edges.len()
        invariant
            ei <= edges@.len(),
            adjacency_ok(adjacency@, edges@),
            used@.len() == edges@.len(),
            drain_rest(edges@, ei as int, used@, paths@.map_values(|p: Vec<usize>| p@)) == drain_rest(
                edges@,
                0,
                drain_starts(edges@, starts@, starts@.len() as int).0,
                drain_starts(edges@, starts@, starts@.len() as int).1,
            ),
        decreases edges.len() - ei,
    {
        if !used[ei] {
            let a = edges[ei].a;
            let ghost paths0 = paths@.map_values(|p: Vec<usize>| p@);
            let ghost used0 = used@;
            let path = walk_from(a, ei, edges, adjacency, &mut used);
            proof {
                lemma_walk_spec_props(edges@, a, a, Some(ei), used0, seq![a]);
            }
            if path.len() >= 2 {
                paths.push(path);
                proof {
                    assert(paths@.map_values(|p: Vec<usize>| p@) =~= paths0.push(path@));
                }
            }
        }
        ei += 1;
    }
    paths
}


/// `out` with one new vertex per point of `pts`.
pub open spec fn with_vertices(out: GeoModel, pts: Seq<usize>) -> GeoModel {
    GeoModel { num_points: out.num_points, vertices: out.vertices + pts, prims: out.prims }
}

/// The indices `base, base + 1, ..., base + n - 1`.
pub open spec fn index_run(base: nat, n: nat) -> Seq<usize> {
    Seq::new(n, |i: int| (base + i) as usize)
}

/// One step of PolyPath's pass over the input primitives: the output so far
/// and the polyline segments collected so far.
pub open spec fn collect_step(verts: Seq<usize>, prim: PrimModel, out: GeoModel, edges: Seq<LineEdge>) -> (GeoModel, Seq<LineEdge>) {
    match prim {
        PrimModel::Polyline(v, c) => (
            out,
            edges + polyline_segments(point_ids_of(verts, v), c).map_values(|s: (usize, usize)| LineEdge { a: s.0, b: s.1 }),
        ),
        PrimModel::Polygon(v) => {
            let pts = point_ids_of(verts, v);
            let o = with_vertices(out, pts);
            let ids = index_run(out.vertices.len(), pts.len());
            if pts.len() >= 3 {
                (GeoModel { prims: o.prims.push(PrimModel::Polygon(ids)), ..o }, edges)
            } else {
                (o, edges)
            }
        },
        PrimModel::BezierCurve(v, c) => {
            let pts = point_ids_of(verts, v);
            let o = with_vertices(out, pts);
            let ids = index_run(out.vertices.len(), pts.len());
            if pts.len() >= 2 {
                (GeoModel { prims: o.prims.push(PrimModel::BezierCurve(ids, c)), ..o }, edges)
            } else {
                (o, edges)
            }
        },
    }
}

pub open spec fn collect_prefix(g: GeoModel, k: int) -> (GeoModel, Seq<LineEdge>)
    decreases k,
{
    if k <= 0 {
        (GeoModel { num_points: g.num_points, vertices: Seq::empty(), prims: Seq::empty() }, Seq::empty())
    } else {
        let (o, e) = collect_prefix(g, k - 1);
        collect_step(g.vertices, g.prims[k - 1], o, e)
    }
}

/// A traced path prepared for output: a path that returns to its first point
/// loses the repeated last point and counts as closed; shorter than two
/// points, it is dropped.
pub open spec fn prepare_prefix(raw: Seq<Seq<usize>>, k: int) -> Seq<(Seq<usize>, bool)>
    decreases k,
{
    if k <= 0 {
        Seq::empty()
    } else {
        let r = prepare_prefix(raw, k - 1);
        let p = raw[k - 1];
        let cg = p.len() >= 2 && p[0] == p.last();
        let q = if cg {
            p.drop_last()
        } else {
            p
        };
        if q.len() < 2 {
            r
        } else {
            r.push((q, cg))
        }
    }
}

/// Adds a vertex per point of `pts` and, on them, a polygon when `make_face`
/// and the path is closed with three or more points, else a polyline.
pub open spec fn emit_path(out: GeoModel, pts: Seq<usize>, closed: bool, make_face: bool) -> GeoModel {
    let o = with_vertices(out, pts);
    let ids = index_run(out.vertices.len(), pts.len());
    if make_face && closed && pts.len() >= 3 {
        GeoModel { prims: o.prims.push(PrimModel::Polygon(ids)), ..o }
    } else {
        GeoModel { prims: o.prims.push(PrimModel::Polyline(ids, closed)), ..o }
    }
}

/// Emits the first `k` prepared paths. A path is closed when it closed in
/// the graph, or when `close` is set, it has three or more points and its
/// endpoints are near (`near[i]`).
pub open spec fn emit_prefix(
    out: GeoModel,
    paths: Seq<(Seq<usize>, bool)>,
    close: bool,
    make_face: bool,
    near: Seq<bool>,
    k: int,
) -> GeoModel
    decreases k,
{
    if k <= 0 {
        out
    } else {
        let o = emit_prefix(out, paths, close, make_face, near, k - 1);
        let (pts, cg) = paths[k - 1];
        let closed = cg || (close && pts.len() >= 3 && near[k - 1]);
        emit_path(o, pts, closed, make_face)
    }
}

/// What PolyPath computes before it looks at point positions: the output
/// with the polygons and curves, and the prepared paths.
pub open spec fn polypath_plan_spec(g: GeoModel) -> (GeoModel, Seq<(Seq<usize>, bool)>) {
    let (base, edges) = collect_prefix(g, g.prims.len() as int);
    if edges.len() == 0 {
        (base, Seq::empty())
    } else {
        (base, prepare_prefix(traced_paths(edges, path_starts_spec(edges, g.num_points)), traced_paths(edges, path_starts_spec(edges, g.num_points)).len() as int))
    }
}

/// Whether a segment joins `x` to `y`.
pub open spec fn joined(edges: Seq<LineEdge>, x: usize, y: usize) -> bool {
    exists|e: int| 0 <= e < edges.len() && #[trigger] edge_other(edges[e], x) == Some(y)
}

/// Whether step `k` of path `p` follows a segment.
pub open spec fn chain_step(edges: Seq<LineEdge>, p: Seq<usize>, k: int) -> bool {
    joined(edges, p[k], p[k + 1])
}

/// Whether every step of path `p` follows a segment.
pub open spec fn is_chain(edges: Seq<LineEdge>, p: Seq<usize>) -> bool {
    forall|k: int| 0 <= k < p.len() - 1 ==> #[trigger] chain_step(edges, p, k)
}

/// Whether every path of `ps` follows segments.
pub open spec fn all_chains(edges: Seq<LineEdge>, ps: Seq<Seq<usize>>) -> bool {
    forall|i: int| 0 <= i < ps.len() ==> is_chain(edges, #[trigger] ps[i])
}

proof fn lemma_walk_chain(
    edges: Seq<LineEdge>,
    start: usize,
    curr: usize,
    edge: Option<usize>,
    used: Seq<bool>,
    path: Seq<usize>,
)
    requires
        used.len() == edges.len(),
        path.len() >= 1,
        path.last() == curr,
        is_chain(edges, path),
    ensures
        is_chain(edges, walk_spec(edges, start, curr, edge, used, path).0),
    decreases unused_count(used),
{
    match edge {
        None => {},
        Some(ei) => {
            if ei >= used.len() || used[ei as int] {
            } else {
                let used2 = used.update(ei as int, true);
                lemma_unused_count_update(used, ei as int);
                match edge_other(edges[ei as int], curr) {
                    None => {},
                    Some(next) => {
                        let path2 = path.push(next);
                        assert forall|k: int| 0 <= k < path2.len() - 1 implies #[trigger] chain_step(edges, path2, k) by {
                            if k < path.len() - 1 {
                                assert(chain_step(edges, path, k));
                            } else {
                                assert(edge_other(edges[ei as int], path2[k]) == Some(path2[k + 1]));
                            }
                        }
                        if next == start {
                        } else if unused_count(used2) < unused_count(used) {
                            let e2 = choose_next_from(incident_all(edges, next), Some(ei), used2, 0, None);
                            lemma_walk_chain(edges, start, next, e2, used2, path2);
                        }
                    },
                }
            }
        },
    }
}

proof fn lemma_drain_start_chains(edges: Seq<LineEdge>, s: usize, used: Seq<bool>, paths: Seq<Seq<usize>>)
    requires
        used.len() == edges.len(),
        all_chains(edges, paths),
    ensures
        drain_start(edges, s, used, paths).0.len() == used.len(),
        all_chains(edges, drain_start(edges, s, used, paths).1),
    decreases unused_count(used),
{
    match first_unused_from(incident_all(edges, s), used, 0) {
        None => {},
        Some(fe) => {
            lemma_walk_spec_props(edges, s, s, Some(fe), used, seq![s]);
            lemma_walk_chain(edges, s, s, Some(fe), used, seq![s]);
            let (p, u2) = walk_spec(edges, s, s, Some(fe), used, seq![s]);
            let paths2 = if p.len() >= 2 {
                paths.push(p)
            } else {
                paths
            };
            assert(all_chains(edges, paths2)) by {
                assert forall|i: int| 0 <= i < paths2.len() implies is_chain(edges, #[trigger] paths2[i]) by {
                    if i < paths.len() {
                        assert(paths2[i] == paths[i]);
                    }
                }
            }
            if unused_count(u2) < unused_count(used) {
                lemma_drain_start_chains(edges, s, u2, paths2);
            }
        },
    }
}

proof fn lemma_drain_starts_chains(edges: Seq<LineEdge>, starts: Seq<usize>, k: int)
    ensures
        drain_starts(edges, starts, k).0.len() == edges.len(),
        all_chains(edges, drain_starts(edges, starts, k).1),
    decreases k,
{
    if k > 0 {
        lemma_drain_starts_chains(edges, starts, k - 1);
        let (u, p) = drain_starts(edges, starts, k - 1);
        lemma_drain_start_chains(edges, starts[k - 1], u, p);
    }
}

proof fn lemma_drain_rest_chains(edges: Seq<LineEdge>, ei: int, used: Seq<bool>, paths: Seq<Seq<usize>>)
    requires
        used.len() == edges.len(),
        all_chains(edges, paths),
    ensures
        all_chains(edges, drain_rest(edges, ei, used, paths).1),
    decreases edges.len() - ei,
{
    if ei < 0 || ei >= edges.len() {
    } else if used[ei] {
        lemma_drain_rest_chains(edges, ei + 1, used, paths);
    } else {
        let a = edges[ei].a;
        lemma_walk_spec_props(edges, a, a, Some(ei as usize), used, seq![a]);
        lemma_walk_chain(edges, a, a, Some(ei as usize), used, seq![a]);
        let (p, u2) = walk_spec(edges, a, a, Some(ei as usize), used, seq![a]);
        let paths2 = if p.len() >= 2 {
            paths.push(p)
        } else {
            paths
        };
        assert(all_chains(edges, paths2)) by {
            assert forall|i: int| 0 <= i < paths2.len() implies is_chain(edges, #[trigger] paths2[i]) by {
                if i < paths.len() {
                    assert(paths2[i] == paths[i]);
                }
            }
        }
        lemma_drain_rest_chains(edges, ei + 1, u2, paths2);
    }
}

/// Every traced path follows the segments: each two consecutive points of
/// a path are the two ends of an input segment.
pub proof fn lemma_traced_paths_follow_segments(edges: Seq<LineEdge>, starts: Seq<usize>)
    ensures
        all_chains(edges, traced_paths(edges, starts)),
{
    lemma_drain_starts_chains(edges, starts, starts.len() as int);
    let (u, p) = drain_starts(edges, starts, starts.len() as int);
    lemma_drain_rest_chains(edges, 0, u, p);
}

/// Every prepared path follows the segments, and a path marked closed has
/// a segment from its last point back to its first.
pub proof fn lemma_prepared_paths_follow_segments(edges: Seq<LineEdge>, raw: Seq<Seq<usize>>, k: int)
    requires
        all_chains(edges, raw),
        k <= raw.len(),
    ensures
        forall|i: int| 0 <= i < prepare_prefix(raw, k).len() ==> is_chain(edges, (#[trigger] prepare_prefix(raw, k)[i]).0)
            && ((prepare_prefix(raw, k)[i]).1 ==> joined(edges, prepare_prefix(raw, k)[i].0.last(), prepare_prefix(raw, k)[i].0[0])),
    decreases k,
{
    if k > 0 {
        lemma_prepared_paths_follow_segments(edges, raw, k - 1);
        let r = prepare_prefix(raw, k - 1);
        let p = raw[k - 1];
        assert(is_chain(edges, p));
        let cg = p.len() >= 2 && p[0] == p.last();
        let q = if cg {
            p.drop_last()
        } else {
            p
        };
        assert forall|j: int| 0 <= j < q.len() - 1 implies #[trigger] chain_step(edges, q, j) by {
            assert(chain_step(edges, p, j));
        }
        if cg && q.len() >= 2 {
            assert(chain_step(edges, p, p.len() - 2));
        }
        let all = prepare_prefix(raw, k);
        assert forall|i: int| 0 <= i < all.len() implies is_chain(edges, (#[trigger] all[i]).0)
            && ((all[i]).1 ==> joined(edges, all[i].0.last(), all[i].0[0])) by {
            if i < r.len() {
                assert(all[i] == r[i]);
            }
        }
    }
}

/// Adds a vertex for every point of `pts` and returns their indices.
pub fn remap_points(out: &mut Geometry, pts: &Vec<usize>) -> (ids: Vec<usize>)
    ensures
        final(out)@ == with_vertices(old(out)@, pts@),
        ids@ == index_run(old(out)@.vertices.len(), pts@.len()),
{
    let ghost o0 = out@;
    let mut ids: Vec<usize> = Vec::new();
    let mut i: usize = 0;
    while i < pts.len()
        invariant
            i <= pts@.len(),
            out@ == with_vertices(o0, pts@.take(i as int)),
            ids@ == index_run(o0.vertices.len(), i as nat),
        decreases pts.len() - i,
    {
        let v = out.add_vertex(pts[i]);
        ids.push(v);
        proof {
            assert(o0.vertices + pts@.take(i + 1) =~= (o0.vertices + pts@.take(i as int)).push(pts@[i as int]));
            assert(ids@ =~= index_run(o0.vertices.len(), (i + 1) as nat));
        }
        i += 1;
    }
    assert(pts@.take(pts@.len() as int) =~= pts@);
    ids
}

/// Adds to `out` a vertex for every existing vertex of `input` among `vids`
/// (referencing the same point) and returns the new vertex indices.
pub fn remap_vertices_to_points(input: &Geometry, out: &mut Geometry, vids: &Vec<usize>) -> (ids: Vec<usize>)
    ensures
        final(out)@ == with_vertices(old(out)@, point_ids_of(input@.vertices, vids@)),
        ids@ == index_run(old(out)@.vertices.len(), point_ids_of(input@.vertices, vids@).len()),
{
    let pts = input.point_ids_from_vertices(vids);
    remap_points(out, &pts)
}

/// Emits the prepared paths, in order, onto `out`.
pub fn emit_paths(out: &mut Geometry, paths: &Vec<(Vec<usize>, bool)>, close: bool, make_face: bool, near: &Vec<bool>)
    requires
        near@.len() == paths@.len(),
    ensures
        final(out)@ == emit_prefix(
            old(out)@,
            paths@.map_values(|p: (Vec<usize>, bool)| (p.0@, p.1)),
            close,
            make_face,
            near@,
            paths@.len() as int,
        ),
{
    let ghost o0 = out@;
    let ghost ps = paths@.map_values(|p: (Vec<usize>, bool)| (p.0@, p.1));
    let mut i: usize = 0;
    while i < paths.len()
        invariant
            i <= paths@.len(),
            near@.len() == paths@.len(),
            ps == paths@.map_values(|p: (Vec<usize>, bool)| (p.0@, p.1)),
            out@ == emit_prefix(o0, ps, close, make_face, near@, i as int),
        decreases paths.len() - i,
    {
        let pts = &paths[i].0;
        let cg = paths[i].1;
        let closed = cg || (close && pts.len() >= 3 && near[i]);
        let ids = remap_points(out, pts);
        if make_face && closed && pts.len() >= 3 {
            out.add_primitive(Primitive::Polygon { vertices: ids });
        } else {
            out.add_primitive(Primitive::Polyline { vertices: ids, closed });
        }
        proof {
            assert(ps[i as int] == (pts@, cg));
            assert(out@ =~= emit_prefix(o0, ps, close, make_face, near@, i + 1));
        }
        i += 1;
    }
}

/// Prepares traced paths for output (see `prepare_prefix`).
pub fn prepare_paths(raw: Vec<Vec<usize>>) -> (out: Vec<(Vec<usize>, bool)>)
    ensures
        out@.map_values(|p: (Vec<usize>, bool)| (p.0@, p.1)) == prepare_prefix(
            raw@.map_values(|p: Vec<usize>| p@),
            raw@.len() as int,
        ),
{
    let ghost rs = raw@.map_values(|p: Vec<usize>| p@);
    let mut out: Vec<(Vec<usize>, bool)> = Vec::new();
    let mut raw = raw;
    let mut rev: Vec<Vec<usize>> = Vec::new();
    // Take the paths out in reverse, then process them from the front.
    while raw.len() > 0
        invariant
            rs.len() == raw@.len() + rev@.len(),
            forall|j: int| 0 <= j < raw@.len() ==> #[trigger] raw@[j]@ == rs[j],
            forall|j: int| 0 <= j < rev@.len() ==> #[trigger] rev@[j]@ == rs[rs.len() - 1 - j],
        decreases raw.len(),
    {
        let p = raw.pop().unwrap();
        rev.push(p);
    }
    let n = rev.len();
    while rev.len() > 0
        invariant
            n == rs.len(),
            rev@.len() <= n,
            forall|j: int| 0 <= j < rev@.len() ==> #[trigger] rev@[j]@ == rs[n - 1 - j],
            out@.map_values(|p: (Vec<usize>, bool)| (p.0@, p.1)) == prepare_prefix(rs, n - rev@.len()),
        decreases rev.len(),
    {
        let ghost k = n - rev@.len();
        let ghost out0 = out@.map_values(|p: (Vec<usize>, bool)| (p.0@, p.1));
        let mut p = rev.pop().unwrap();
        assert(p@ == rs[k]);
        let cg = p.len() >= 2 && p[0] == p[p.len() - 1];
        if cg {
            p.pop();
        }
        if p.len() >= 2 {
            out.push((p, cg));
            proof {
                assert(out@.map_values(|p: (Vec<usize>, bool)| (p.0@, p.1)) =~= out0.push((p@, cg)));
            }
        }
        proof {
            if cg {
                assert(p@ =~= rs[k].drop_last());
            }
        }
    }
    out
}

/// The PolyPath node.
pub struct PolyPathNode;

impl PolyPathNode {
    /// Everything PolyPath decides before it looks at positions: the output
    /// geometry holding the input's points, polygons and curves, and the
    /// paths traced through the polylines' segments, each with whether it
    /// closed on itself.
    pub fn plan(&self, input: &Geometry) -> (r: (Geometry, Vec<(Vec<usize>, bool)>))
        ensures
            r.0@ == polypath_plan_spec(input@).0,
            r.1@.map_values(|p: (Vec<usize>, bool)| (p.0@, p.1)) == polypath_plan_spec(input@).1,
    {
        let mut out = Geometry { num_points: input.num_points, vertices: Vec::new(), primitives: Vec::new() };
        out.reset_topology_keep_points();
        let mut edges: Vec<LineEdge> = Vec::new();
        let mut k: usize = 0;
        while k < input.primitives.len()
            invariant
                k <= input@.prims.len(),
                (out@, edges@) == collect_prefix(input@, k as int),
            decreases input.primitives.len() - k,
        {
            let prim = &input.primitives[k];
            assert(input@.prims[k as int] == prim@);
            match prim {
                Primitive::Polyline { vertices, closed } => {
                    let pts = input.point_ids_from_vertices(vertices);
                    let ghost e0 = edges@;
                    let segs = polyline_segment_edges(&pts, *closed);
                    let mut i: usize = 0;
                    while i < segs.len()
                        invariant
                            i <= segs@.len(),
                            edges@ == e0 + segs@.take(i as int),
                        decreases segs.len() - i,
                    {
                        edges.push(segs[i]);
                        proof {
                            assert(e0 + segs@.take(i + 1) =~= (e0 + segs@.take(i as int)).push(segs@[i as int]));
                        }
                        i += 1;
                    }
                    assert(segs@.take(segs@.len() as int) =~= segs@);
                },
                Primitive::Polygon { vertices } => {
                    let ids = remap_vertices_to_points(input, &mut out, vertices);
                    if ids.len() >= 3 {
                        out.add_primitive(Primitive::Polygon { vertices: ids });
                    }
                },
                Primitive::BezierCurve { vertices, closed } => {
                    let ids = remap_vertices_to_points(input, &mut out, vertices);
                    if ids.len() >= 2 {
                        out.add_primitive(Primitive::BezierCurve { vertices: ids, closed: *closed });
                    }
                },
            }
            proof {
                assert((out@, edges@) =~= collect_prefix(input@, k + 1));
            }
            k += 1;
        }
        if edges.len() == 0 {
            return (out, Vec::new());
        }
        let adjacency = build_adjacency(&edges);
        let starts = path_starts(input.num_points, &edges, &adjacency);
        let raw = trace_paths(&edges, &adjacency, &starts);
        let prepared = prepare_paths(raw);
        (out, prepared)
    }
}

/// The segments of a point chain (see `polyline_segments`) as edges.
pub fn polyline_segment_edges(pts: &Vec<usize>, closed: bool) -> (r: Vec<LineEdge>)
    ensures
        r@ == polyline_segments(pts@, closed).map_values(|s: (usize, usize)| LineEdge { a: s.0, b: s.1 }),
{
    let mut r: Vec<LineEdge> = Vec::new();
    if pts.len() < 2 {
        assert(r@ =~= polyline_segments(pts@, closed).map_values(|s: (usize, usize)| LineEdge { a: s.0, b: s.1 }));
        return r;
    }
    let n = pts.len();
    let mut i: usize = 0;
    while i < n - 1
        invariant
            n == pts@.len(),
            n >= 2,
            i <= n - 1,
            r@ == chain_segments(pts@, i as int).map_values(|s: (usize, usize)| LineEdge { a: s.0, b: s.1 }),
        decreases n - 1 - i,
    {
        let a = pts[i];
        let b = pts[i + 1];
        if a != b {
            r.push(LineEdge { a, b });
        }
        proof {
            assert(r@ =~= chain_segments(pts@, i + 1).map_values(|s: (usize, usize)| LineEdge { a: s.0, b: s.1 }));
        }
        i += 1;
    }
    if closed && n > 2 {
        let a = pts[n - 1];
        let b = pts[0];
        if a != b {
            r.push(LineEdge { a, b });
        }
    }
    proof {
        assert(r@ =~= polyline_segments(pts@, closed).map_values(|s: (usize, usize)| LineEdge { a: s.0, b: s.1 }));
    }
    r
}

/// The number of steps of the paths `ps`: one fewer than its points for
/// each path.
pub open spec fn path_steps(ps: Seq<Seq<usize>>) -> int
    decreases ps.len(),
{
    if ps.len() == 0 {
        0
    } else {
        path_steps(ps.drop_last()) + ps.last().len() - 1
    }
}

/// The marks and paths after tracing from `starts` and then from the
/// remaining segments.
pub open spec fn traced_state(edges: Seq<LineEdge>, starts: Seq<usize>) -> (Seq<bool>, Seq<Seq<usize>>) {
    let (u, p) = drain_starts(edges, starts, starts.len() as int);
    drain_rest(edges, 0, u, p)
}

proof fn lemma_incident_touches(edges: Seq<LineEdge>, p: usize, k: int)
    requires
        0 <= k <= edges.len(),
        edges.len() <= usize::MAX,
    ensures
        forall|i: int| 0 <= i < incident(edges, p, k).len() ==> {
            let e = #[trigger] incident(edges, p, k)[i];
            e < k && edge_other(edges[e as int], p) is Some
        },
    decreases k,
{
    if k > 0 {
        lemma_incident_touches(edges, p, k - 1);
        let r = incident(edges, p, k - 1);
        assert forall|i: int| 0 <= i < incident(edges, p, k).len() implies {
            let e = #[trigger] incident(edges, p, k)[i];
            e < k && edge_other(edges[e as int], p) is Some
        } by {
            if i < r.len() {
                assert(incident(edges, p, k)[i] == r[i]);
            } else {
                assert(incident(edges, p, k)[i] == (k - 1) as usize);
            }
        }
    }
}

proof fn lemma_unused_all_false(n: nat)
    ensures
        unused_count(Seq::new(n, |i: int| false)) == n,
    decreases n,
{
    if n > 0 {
        lemma_unused_all_false((n - 1) as nat);
        assert(Seq::new(n, |i: int| false).drop_last() =~= Seq::new((n - 1) as nat, |i: int| false));
    }
}

proof fn lemma_unused_all_true(u: Seq<bool>)
    requires
        forall|i: int| 0 <= i < u.len() ==> #[trigger] u[i],
    ensures
        unused_count(u) == 0,
    decreases u.len(),
{
    if u.len() > 0 {
        assert(u.last());
        lemma_unused_all_true(u.drop_last());
    }
}

/// Each step of a walk marks one unused segment, and marks stay.
proof fn lemma_walk_count(
    edges: Seq<LineEdge>,
    start: usize,
    curr: usize,
    edge: Option<usize>,
    used: Seq<bool>,
    path: Seq<usize>,
)
    requires
        edges.len() <= usize::MAX,
        used.len() == edges.len(),
        match edge {
            Some(e) => e < used.len() && !used[e as int] ==> edge_other(edges[e as int], curr) is Some,
            None => true,
        },
    ensures
        ({
            let (p2, u2) = walk_spec(edges, start, curr, edge, used, path);
            &&& p2.len() - path.len() == unused_count(used) - unused_count(u2)
            &&& u2.len() == used.len()
            &&& forall|e: int| 0 <= e < used.len() && used[e] ==> #[trigger] u2[e]
            &&& match edge {
                Some(e) => e < used.len() ==> u2[e as int],
                None => true,
            }
        }),
    decreases unused_count(used),
{
    lemma_walk_spec_props(edges, start, curr, edge, used, path);
    match edge {
        None => {},
        Some(ei) => {
            if ei >= used.len() || used[ei as int] {
            } else {
                let used2 = used.update(ei as int, true);
                lemma_unused_count_update(used, ei as int);
                let next = edge_other(edges[ei as int], curr)->0;
                let path2 = path.push(next);
                if next == start {
                } else {
                    let e2 = choose_next_from(incident_all(edges, next), Some(ei), used2, 0, None);
                    lemma_choose_next_from_props(incident_all(edges, next), Some(ei), used2, 0, None);
                    lemma_incident_touches(edges, next, edges.len() as int);
                    if e2 is Some {
                        let w = choose|w: int| 0 <= w < incident_all(edges, next).len() && incident_all(edges, next)[w] == e2->0;
                        assert(edge_other(edges[e2->0 as int], next) is Some);
                    }
                    lemma_walk_count(edges, start, next, e2, used2, path2);
                }
            }
        },
    }
}

proof fn lemma_drain_start_count(edges: Seq<LineEdge>, s: usize, used: Seq<bool>, paths: Seq<Seq<usize>>)
    requires
        edges.len() <= usize::MAX,
        used.len() == edges.len(),
    ensures
        ({
            let (u2, ps2) = drain_start(edges, s, used, paths);
            &&& path_steps(ps2) - path_steps(paths) == unused_count(used) - unused_count(u2)
            &&& u2.len() == used.len()
            &&& forall|e: int| 0 <= e < used.len() && used[e] ==> #[trigger] u2[e]
        }),
    decreases unused_count(used),
{
    match first_unused_from(incident_all(edges, s), used, 0) {
        None => {},
        Some(fe) => {
            lemma_first_unused_from_props(incident_all(edges, s), used, 0);
            lemma_first_unused_some_in_range(edges, s, used);
            lemma_incident_touches(edges, s, edges.len() as int);
            let w = choose|w: int| 0 <= w < incident_all(edges, s).len() && incident_all(edges, s)[w] == fe;
            lemma_walk_count(edges, s, s, Some(fe), used, seq![s]);
            lemma_walk_spec_props(edges, s, s, Some(fe), used, seq![s]);
            let (p, u2) = walk_spec(edges, s, s, Some(fe), used, seq![s]);
            let paths2 = if p.len() >= 2 {
                paths.push(p)
            } else {
                paths
            };
            if p.len() >= 2 {
                assert(paths2.drop_last() =~= paths);
            }
            assert(path_steps(paths2) - path_steps(paths) == unused_count(used) - unused_count(u2));
            if unused_count(u2) < unused_count(used) {
                lemma_drain_start_count(edges, s, u2, paths2);
            }
        },
    }
}

proof fn lemma_drain_starts_count(edges: Seq<LineEdge>, starts: Seq<usize>, k: int)
    requires
        edges.len() <= usize::MAX,
    ensures
        ({
            let (u, ps) = drain_starts(edges, starts, k);
            &&& u.len() == edges.len()
            &&& path_steps(ps) == edges.len() - unused_count(u)
        }),
    decreases k,
{
    if k <= 0 {
        lemma_unused_all_false(edges.len());
    } else {
        lemma_drain_starts_count(edges, starts, k - 1);
        let (u, p) = drain_starts(edges, starts, k - 1);
        lemma_drain_start_count(edges, starts[k - 1], u, p);
    }
}

proof fn lemma_drain_rest_count(edges: Seq<LineEdge>, ei: int, used: Seq<bool>, paths: Seq<Seq<usize>>)
    requires
        edges.len() <= usize::MAX,
        used.len() == edges.len(),
        0 <= ei,
    ensures
        ({
            let (u2, ps2) = drain_rest(edges, ei, used, paths);
            &&& path_steps(ps2) - path_steps(paths) == unused_count(used) - unused_count(u2)
            &&& u2.len() == used.len()
            &&& forall|e: int| 0 <= e < used.len() && used[e] ==> #[trigger] u2[e]
            &&& forall|e: int| ei <= e < used.len() ==> #[trigger] u2[e]
        }),
    decreases edges.len() - ei,
{
    if ei >= edges.len() {
    } else if used[ei] {
        lemma_drain_rest_count(edges, ei + 1, used, paths);
    } else {
        let a = edges[ei].a;
        assert(edge_other(edges[ei], a) is Some);
        lemma_walk_count(edges, a, a, Some(ei as usize), used, seq![a]);
        lemma_walk_spec_props(edges, a, a, Some(ei as usize), used, seq![a]);
        let (p, u2) = walk_spec(edges, a, a, Some(ei as usize), used, seq![a]);
        let paths2 = if p.len() >= 2 {
            paths.push(p)
        } else {
            paths
        };
        if p.len() >= 2 {
            assert(paths2.drop_last() =~= paths);
        }
        lemma_drain_rest_count(edges, ei + 1, u2, paths2);
    }
}

/// Joining uses every input segment exactly once: tracing marks every
/// segment, and the paths take as many steps, each along a segment (see
/// `lemma_traced_paths_follow_segments`), as there are segments.
pub proof fn lemma_traced_paths_use_every_segment(edges: Seq<LineEdge>, starts: Seq<usize>)
    requires
        edges.len() <= usize::MAX,
    ensures
        traced_state(edges, starts).1 == traced_paths(edges, starts),
        traced_state(edges, starts).0.len() == edges.len(),
        forall|e: int| 0 <= e < edges.len() ==> #[trigger] traced_state(edges, starts).0[e],
        path_steps(traced_paths(edges, starts)) == edges.len(),
{
    lemma_drain_starts_count(edges, starts, starts.len() as int);
    let (u, p) = drain_starts(edges, starts, starts.len() as int);
    lemma_drain_rest_count(edges, 0, u, p);
    let (u2, p2) = drain_rest(edges, 0, u, p);
    lemma_unused_all_true(u2);
}

/// A segment between `x` and `y` as an unordered pair: its smaller point
/// first.
pub open spec fn seg_key(x: usize, y: usize) -> (usize, usize) {
    if x <= y {
        (x, y)
    } else {
        (y, x)
    }
}

/// The segments of the first `k` input edges, as unordered pairs.
pub open spec fn segment_keys(edges: Seq<LineEdge>, k: int) -> Multiset<(usize, usize)>
    decreases k,
{
    if k <= 0 {
        Multiset::empty()
    } else {
        segment_keys(edges, k - 1).insert(seg_key(edges[k - 1].a, edges[k - 1].b))
    }
}

/// The segments among the first `k` edges that `used` marks.
pub open spec fn marked_keys(edges: Seq<LineEdge>, used: Seq<bool>, k: int) -> Multiset<(usize, usize)>
    decreases k,
{
    if k <= 0 {
        Multiset::empty()
    } else if used[k - 1] {
        marked_keys(edges, used, k - 1).insert(seg_key(edges[k - 1].a, edges[k - 1].b))
    } else {
        marked_keys(edges, used, k - 1)
    }
}

/// The steps of path `p`, each as the unordered pair of its two points.
pub open spec fn path_keys(p: Seq<usize>) -> Multiset<(usize, usize)>
    decreases p.len(),
{
    if p.len() < 2 {
        Multiset::empty()
    } else {
        path_keys(p.drop_last()).insert(seg_key(p[p.len() - 2], p[p.len() - 1]))
    }
}

/// The steps of all paths of `ps`.
pub open spec fn paths_keys(ps: Seq<Seq<usize>>) -> Multiset<(usize, usize)>
    decreases ps.len(),
{
    if ps.len() == 0 {
        Multiset::empty()
    } else {
        paths_keys(ps.drop_last()).add(path_keys(ps.last()))
    }
}

proof fn lemma_marked_update(edges: Seq<LineEdge>, used: Seq<bool>, i: int, k: int)
    requires
        0 <= i < used.len(),
        k <= used.len(),
        !used[i],
    ensures
        i < k ==> marked_keys(edges, used.update(i, true), k) == marked_keys(edges, used, k).insert(
            seg_key(edges[i].a, edges[i].b),
        ),
        k <= i ==> marked_keys(edges, used.update(i, true), k) == marked_keys(edges, used, k),
    decreases k,
{
    if k > 0 {
        lemma_marked_update(edges, used, i, k - 1);
        let u2 = used.update(i, true);
        if k - 1 == i {
            assert(marked_keys(edges, u2, k - 1) == marked_keys(edges, used, k - 1));
        } else if i < k - 1 {
            assert(u2[k - 1] == used[k - 1]);
            let a = marked_keys(edges, used, k - 1);
            let x = seg_key(edges[i].a, edges[i].b);
            let y = seg_key(edges[k - 1].a, edges[k - 1].b);
            assert(a.insert(x).insert(y) =~= a.insert(y).insert(x));
        } else {
            assert(u2[k - 1] == used[k - 1]);
        }
    }
}

proof fn lemma_marked_none(edges: Seq<LineEdge>, n: nat, k: int)
    requires
        k <= n,
    ensures
        marked_keys(edges, Seq::new(n, |i: int| false), k) == Multiset::<(usize, usize)>::empty(),
    decreases k,
{
    if k > 0 {
        lemma_marked_none(edges, n, k - 1);
    }
}

proof fn lemma_marked_all(edges: Seq<LineEdge>, used: Seq<bool>, k: int)
    requires
        k <= used.len(),
        forall|e: int| 0 <= e < used.len() ==> #[trigger] used[e],
    ensures
        marked_keys(edges, used, k) == segment_keys(edges, k),
    decreases k,
{
    if k > 0 {
        assert(used[k - 1]);
        lemma_marked_all(edges, used, k - 1);
    }
}

proof fn lemma_ms_step(
    a: Multiset<(usize, usize)>,
    b: Multiset<(usize, usize)>,
    c: Multiset<(usize, usize)>,
    d: Multiset<(usize, usize)>,
    k: (usize, usize),
)
    requires
        a.add(b.insert(k)) == c.insert(k).add(d),
    ensures
        a.add(b) == c.add(d),
{
    assert forall|v: (usize, usize)| #[trigger] a.add(b).count(v) == c.add(d).count(v) by {
        assert(a.add(b.insert(k)).count(v) == c.insert(k).add(d).count(v));
        vstd::multiset::axiom_multiset_add(a, b.insert(k), v);
        vstd::multiset::axiom_multiset_add(c.insert(k), d, v);
        vstd::multiset::axiom_multiset_add(b, Multiset::singleton(k), v);
        vstd::multiset::axiom_multiset_add(c, Multiset::singleton(k), v);
        vstd::multiset::axiom_multiset_add(a, b, v);
        vstd::multiset::axiom_multiset_add(c, d, v);
    }
    assert(a.add(b) =~= c.add(d));
}

proof fn lemma_ms_chain(
    x: Multiset<(usize, usize)>,
    p: Multiset<(usize, usize)>,
    q: Multiset<(usize, usize)>,
    m: Multiset<(usize, usize)>,
    m2: Multiset<(usize, usize)>,
    m3: Multiset<(usize, usize)>,
)
    requires
        q.add(m) == Multiset::<(usize, usize)>::empty().add(m2),
        x.add(m2) == p.add(q).add(m3),
    ensures
        x.add(m) == p.add(m3),
{
    assert forall|v: (usize, usize)| #[trigger] x.add(m).count(v) == p.add(m3).count(v) by {
        assert(q.add(m).count(v) == Multiset::<(usize, usize)>::empty().add(m2).count(v));
        assert(x.add(m2).count(v) == p.add(q).add(m3).count(v));
        vstd::multiset::axiom_multiset_add(q, m, v);
        vstd::multiset::axiom_multiset_add(Multiset::<(usize, usize)>::empty(), m2, v);
        vstd::multiset::axiom_multiset_empty::<(usize, usize)>(v);
        vstd::multiset::axiom_multiset_add(x, m2, v);
        vstd::multiset::axiom_multiset_add(p.add(q), m3, v);
        vstd::multiset::axiom_multiset_add(p, q, v);
        vstd::multiset::axiom_multiset_add(x, m, v);
        vstd::multiset::axiom_multiset_add(p, m3, v);
    }
    assert(x.add(m) =~= p.add(m3));
}

proof fn lemma_ms_cancel(a: Multiset<(usize, usize)>, m: Multiset<(usize, usize)>, b: Multiset<(usize, usize)>)
    requires
        a.add(m) == m.add(b),
    ensures
        a == b,
{
    assert forall|v: (usize, usize)| #[trigger] a.count(v) == b.count(v) by {
        assert(a.add(m).count(v) == m.add(b).count(v));
        vstd::multiset::axiom_multiset_add(a, m, v);
        vstd::multiset::axiom_multiset_add(m, b, v);
    }
    assert(a =~= b);
}

/// A walk takes one step per segment it marks, along that segment.
proof fn lemma_walk_keys(
    edges: Seq<LineEdge>,
    start: usize,
    curr: usize,
    edge: Option<usize>,
    used: Seq<bool>,
    path: Seq<usize>,
)
    requires
        edges.len() <= usize::MAX,
        used.len() == edges.len(),
        path.len() >= 1,
        path.last() == curr,
        match edge {
            Some(e) => e < used.len() && !used[e as int] ==> edge_other(edges[e as int], curr) is Some,
            None => true,
        },
    ensures
        ({
            let (p2, u2) = walk_spec(edges, start, curr, edge, used, path);
            path_keys(p2).add(marked_keys(edges, used, edges.len() as int)) == path_keys(path).add(
                marked_keys(edges, u2, edges.len() as int),
            )
        }),
    decreases unused_count(used),
{
    let n = edges.len() as int;
    match edge {
        None => {},
        Some(ei) => {
            if ei >= used.len() || used[ei as int] {
            } else {
                let used2 = used.update(ei as int, true);
                lemma_unused_count_update(used, ei as int);
                lemma_marked_update(edges, used, ei as int, n);
                let next = edge_other(edges[ei as int], curr)->0;
                let path2 = path.push(next);
                let key = seg_key(edges[ei as int].a, edges[ei as int].b);
                assert(seg_key(curr, next) == key);
                assert(path2.drop_last() =~= path);
                assert(path_keys(path2) == path_keys(path).insert(key));
                if next == start {
                    assert(path_keys(path2).add(marked_keys(edges, used, n)) =~= path_keys(path).add(
                        marked_keys(edges, used2, n),
                    ));
                } else {
                    let e2 = choose_next_from(incident_all(edges, next), Some(ei), used2, 0, None);
                    lemma_choose_next_from_props(incident_all(edges, next), Some(ei), used2, 0, None);
                    lemma_incident_touches(edges, next, edges.len() as int);
                    if e2 is Some {
                        let w = choose|w: int|
                            0 <= w < incident_all(edges, next).len() && incident_all(edges, next)[w] == e2->0;
                        assert(edge_other(edges[e2->0 as int], next) is Some);
                    }
                    lemma_walk_keys(edges, start, next, e2, used2, path2);
                    let (p2, u2) = walk_spec(edges, start, next, e2, used2, path2);
                    lemma_ms_step(path_keys(p2), marked_keys(edges, used, n), path_keys(path), marked_keys(edges, u2, n), key);
                }
            }
        },
    }
}

proof fn lemma_drain_start_keys(edges: Seq<LineEdge>, s: usize, used: Seq<bool>, paths: Seq<Seq<usize>>)
    requires
        edges.len() <= usize::MAX,
        used.len() == edges.len(),
    ensures
        ({
            let (u2, ps2) = drain_start(edges, s, used, paths);
            paths_keys(ps2).add(marked_keys(edges, used, edges.len() as int)) == paths_keys(paths).add(
                marked_keys(edges, u2, edges.len() as int),
            )
        }),
    decreases unused_count(used),
{
    let n = edges.len() as int;
    match first_unused_from(incident_all(edges, s), used, 0) {
        None => {},
        Some(fe) => {
            lemma_first_unused_from_props(incident_all(edges, s), used, 0);
            lemma_first_unused_some_in_range(edges, s, used);
            lemma_incident_touches(edges, s, edges.len() as int);
            let w = choose|w: int| 0 <= w < incident_all(edges, s).len() && incident_all(edges, s)[w] == fe;
            lemma_walk_count(edges, s, s, Some(fe), used, seq![s]);
            lemma_walk_keys(edges, s, s, Some(fe), used, seq![s]);
            let (p, u2) = walk_spec(edges, s, s, Some(fe), used, seq![s]);
            assert(path_keys(seq![s]) == Multiset::<(usize, usize)>::empty());
            let paths2 = if p.len() >= 2 {
                paths.push(p)
            } else {
                paths
            };
            if p.len() >= 2 {
                assert(paths2.drop_last() =~= paths);
            }
            assert(paths_keys(paths2) =~= paths_keys(paths).add(path_keys(p)));
            if unused_count(u2) < unused_count(used) {
                lemma_drain_start_keys(edges, s, u2, paths2);
                let (u3, ps3) = drain_start(edges, s, u2, paths2);
                lemma_ms_chain(paths_keys(ps3), paths_keys(paths), path_keys(p), marked_keys(edges, used, n), marked_keys(edges, u2, n), marked_keys(edges, u3, n));
            } else {
                lemma_ms_chain(paths_keys(paths2), paths_keys(paths), path_keys(p), marked_keys(edges, used, n), marked_keys(edges, u2, n), marked_keys(edges, u2, n));
            }
        },
    }
}

proof fn lemma_drain_starts_keys(edges: Seq<LineEdge>, starts: Seq<usize>, k: int)
    requires
        edges.len() <= usize::MAX,
    ensures
        ({
            let (u, ps) = drain_starts(edges, starts, k);
            paths_keys(ps) == marked_keys(edges, u, edges.len() as int)
        }),
    decreases k,
{
    if k <= 0 {
        lemma_marked_none(edges, edges.len(), edges.len() as int);
    } else {
        lemma_drain_starts_keys(edges, starts, k - 1);
        lemma_drain_starts_count(edges, starts, k - 1);
        let (u, p) = drain_starts(edges, starts, k - 1);
        lemma_drain_start_keys(edges, starts[k - 1], u, p);
        let (u2, p2) = drain_start(edges, starts[k - 1], u, p);
        lemma_ms_cancel(paths_keys(p2), marked_keys(edges, u, edges.len() as int), marked_keys(edges, u2, edges.len() as int));
    }
}

proof fn lemma_drain_rest_keys(edges: Seq<LineEdge>, ei: int, used: Seq<bool>, paths: Seq<Seq<usize>>)
    requires
        edges.len() <= usize::MAX,
        used.len() == edges.len(),
        0 <= ei,
    ensures
        ({
            let (u2, ps2) = drain_rest(edges, ei, used, paths);
            paths_keys(ps2).add(marked_keys(edges, used, edges.len() as int)) == paths_keys(paths).add(
                marked_keys(edges, u2, edges.len() as int),
            )
        }),
    decreases edges.len() - ei,
{
    let n = edges.len() as int;
    if ei >= edges.len() {
    } else if used[ei] {
        lemma_drain_rest_keys(edges, ei + 1, used, paths);
    } else {
        let a = edges[ei].a;
        assert(edge_other(edges[ei], a) is Some);
        lemma_walk_count(edges, a, a, Some(ei as usize), used, seq![a]);
        lemma_walk_keys(edges, a, a, Some(ei as usize), used, seq![a]);
        let (p, u2) = walk_spec(edges, a, a, Some(ei as usize), used, seq![a]);
        assert(path_keys(seq![a]) == Multiset::<(usize, usize)>::empty());
        let paths2 = if p.len() >= 2 {
            paths.push(p)
        } else {
            paths
        };
        if p.len() >= 2 {
            assert(paths2.drop_last() =~= paths);
        }
        assert(paths_keys(paths2) =~= paths_keys(paths).add(path_keys(p)));
        lemma_drain_rest_keys(edges, ei + 1, u2, paths2);
        let (u3, ps3) = drain_rest(edges, ei + 1, u2, paths2);
        lemma_ms_chain(paths_keys(ps3), paths_keys(paths), path_keys(p), marked_keys(edges, used, n), marked_keys(edges, u2, n), marked_keys(edges, u3, n));
    }
}

/// Joining uses each input segment exactly once: the steps of the traced
/// paths, each taken as the unordered pair of its two points, are the input
/// segments, with the same multiplicities.
pub proof fn lemma_traced_paths_use_each_segment_once(edges: Seq<LineEdge>, starts: Seq<usize>)
    requires
        edges.len() <= usize::MAX,
    ensures
        paths_keys(traced_paths(edges, starts)) == segment_keys(edges, edges.len() as int),
{
    lemma_traced_paths_use_every_segment(edges, starts);
    lemma_drain_starts_keys(edges, starts, starts.len() as int);
    lemma_drain_starts_count(edges, starts, starts.len() as int);
    let (u, p) = drain_starts(edges, starts, starts.len() as int);
    lemma_drain_rest_keys(edges, 0, u, p);
    let (u2, p2) = drain_rest(edges, 0, u, p);
    lemma_marked_all(edges, u2, edges.len() as int);
    lemma_ms_cancel(paths_keys(p2), marked_keys(edges, u, edges.len() as int), marked_keys(edges, u2, edges.len() as int));
}

/// The segments the prepared paths `pp` stand for: the steps of each path,
/// and for a closed one the step from its last point back to its first,
/// each as an unordered pair.
pub open spec fn prepared_keys(pp: Seq<(Seq<usize>, bool)>) -> Multiset<(usize, usize)>
    decreases pp.len(),
{
    if pp.len() == 0 {
        Multiset::empty()
    } else {
        let (q, closed) = pp.last();
        prepared_keys(pp.drop_last()).add(path_keys(q)).add(
            if closed {
                Multiset::singleton(seg_key(q.last(), q[0]))
            } else {
                Multiset::empty()
            },
        )
    }
}

/// Whether `p` is a path of two equal points (a segment from a point to
/// itself), which preparing drops.
pub open spec fn degenerate_loop(p: Seq<usize>) -> bool {
    p.len() == 2 && p[0] == p[1]
}

proof fn lemma_ms_extend(
    a: Multiset<(usize, usize)>,
    c: Multiset<(usize, usize)>,
    b: Multiset<(usize, usize)>,
    d: Multiset<(usize, usize)>,
    e: Multiset<(usize, usize)>,
)
    requires
        a == c,
        b.add(d) == e,
    ensures
        a.add(b).add(d) == c.add(e),
{
    assert forall|v: (usize, usize)| #[trigger] a.add(b).add(d).count(v) == c.add(e).count(v) by {
        assert(b.add(d).count(v) == e.count(v));
        vstd::multiset::axiom_multiset_add(a.add(b), d, v);
        vstd::multiset::axiom_multiset_add(a, b, v);
        vstd::multiset::axiom_multiset_add(b, d, v);
        vstd::multiset::axiom_multiset_add(c, e, v);
    }
    assert(a.add(b).add(d) =~= c.add(e));
}

proof fn lemma_ms_add_empty(a: Multiset<(usize, usize)>)
    ensures
        a.add(Multiset::empty()) == a,
        Multiset::<(usize, usize)>::empty().add(a) == a,
{
    assert forall|v: (usize, usize)| #[trigger] a.add(Multiset::empty()).count(v) == a.count(v) by {
        vstd::multiset::axiom_multiset_add(a, Multiset::empty(), v);
        vstd::multiset::axiom_multiset_empty::<(usize, usize)>(v);
    }
    assert forall|v: (usize, usize)| #[trigger] Multiset::<(usize, usize)>::empty().add(a).count(v) == a.count(v) by {
        vstd::multiset::axiom_multiset_add(Multiset::empty(), a, v);
        vstd::multiset::axiom_multiset_empty::<(usize, usize)>(v);
    }
    assert(a.add(Multiset::empty()) =~= a);
    assert(Multiset::<(usize, usize)>::empty().add(a) =~= a);
}

/// Preparing keeps every step: the prepared paths stand for the steps of
/// the raw paths, when none of these is a path of two equal points.
proof fn lemma_prepare_keys(raw: Seq<Seq<usize>>, k: int)
    requires
        0 <= k <= raw.len(),
        forall|i: int| 0 <= i < raw.len() ==> !degenerate_loop(#[trigger] raw[i]),
    ensures
        prepared_keys(prepare_prefix(raw, k)) == paths_keys(raw.take(k)),
    decreases k,
{
    if k == 0 {
        assert(raw.take(0) =~= Seq::<Seq<usize>>::empty());
    } else {
        lemma_prepare_keys(raw, k - 1);
        assert(raw.take(k).drop_last() =~= raw.take(k - 1));
        let r = prepare_prefix(raw, k - 1);
        let p = raw[k - 1];
        assert(!degenerate_loop(p));
        let cg = p.len() >= 2 && p[0] == p.last();
        let q = if cg {
            p.drop_last()
        } else {
            p
        };
        if cg {
            assert(q.len() >= 2);
            assert(p.drop_last() == q);
            assert(path_keys(p) == path_keys(q).insert(seg_key(q.last(), q[0])));
            assert(prepare_prefix(raw, k) == r.push((q, true)));
            assert(r.push((q, true)).drop_last() =~= r);
            lemma_ms_extend(
                prepared_keys(r),
                paths_keys(raw.take(k - 1)),
                path_keys(q),
                Multiset::singleton(seg_key(q.last(), q[0])),
                path_keys(p),
            );
        } else if q.len() < 2 {
            assert(path_keys(p) == Multiset::<(usize, usize)>::empty());
            lemma_ms_add_empty(paths_keys(raw.take(k - 1)));
        } else {
            assert(r.push((q, false)).drop_last() =~= r);
            lemma_ms_add_empty(path_keys(p));
            lemma_ms_extend(prepared_keys(r), paths_keys(raw.take(k - 1)), path_keys(p), Multiset::empty(), path_keys(p));
        }
    }
}

/// A path that follows segments, none of which joins a point to itself, is
/// no path of two equal points.
proof fn lemma_chain_not_degenerate(edges: Seq<LineEdge>, p: Seq<usize>)
    requires
        is_chain(edges, p),
        forall|e: int| 0 <= e < edges.len() ==> (#[trigger] edges[e]).a != edges[e].b,
    ensures
        !degenerate_loop(p),
{
    if degenerate_loop(p) {
        assert(chain_step(edges, p, 0));
        let e = choose|e: int| 0 <= e < edges.len() && #[trigger] edge_other(edges[e], p[0]) == Some(p[1]);
        assert(edges[e].a != edges[e].b);
    }
}

/// PolyPath uses each polyline segment exactly once: the prepared paths it
/// plans, counting a closed path's step from its last point back to its
/// first, stand for the segments of the input polylines with the same
/// multiplicities, when no segment joins a point to itself.
pub proof fn lemma_plan_uses_each_segment_once(g: GeoModel)
    requires
        collect_prefix(g, g.prims.len() as int).1.len() <= usize::MAX,
        forall|e: int|
            0 <= e < collect_prefix(g, g.prims.len() as int).1.len() ==> (#[trigger] collect_prefix(
                g,
                g.prims.len() as int,
            ).1[e]).a != collect_prefix(g, g.prims.len() as int).1[e].b,
    ensures
        prepared_keys(polypath_plan_spec(g).1) == segment_keys(
            collect_prefix(g, g.prims.len() as int).1,
            collect_prefix(g, g.prims.len() as int).1.len() as int,
        ),
{
    let edges = collect_prefix(g, g.prims.len() as int).1;
    if edges.len() == 0 {
        assert(polypath_plan_spec(g).1 =~= Seq::<(Seq<usize>, bool)>::empty());
    } else {
        let starts = path_starts_spec(edges, g.num_points);
        let raw = traced_paths(edges, starts);
        lemma_traced_paths_follow_segments(edges, starts);
        assert forall|i: int| 0 <= i < raw.len() implies !degenerate_loop(#[trigger] raw[i]) by {
            lemma_chain_not_degenerate(edges, raw[i]);
        }
        lemma_prepare_keys(raw, raw.len() as int);
        assert(raw.take(raw.len() as int) =~= raw);
        lemma_traced_paths_use_each_segment_once(edges, starts);
    }
}

/// Whether primitive `p` is what an emitted path whose points are `pts`
/// may be: its vertices, in `out`, reference exactly the points of `pts`
/// in order.
pub open spec fn references_points(out: GeoModel, p: PrimModel, pts: Seq<usize>) -> bool {
    &&& p.verts().len() == pts.len()
    &&& forall|t: int|
        0 <= t < pts.len() ==> #[trigger] p.verts()[t] < out.vertices.len() && out.vertices[p.verts()[t] as int]
            == pts[t]
}

/// Emitting paths adds one primitive per path and keeps what was there. The
/// primitive of a path references the path's points in order. A path that
/// closed in the graph comes out closed, whatever `close` says: as a
/// polygon when faces are made and it has three or more points, otherwise
/// as a closed polyline. A path that did not close in the graph comes out
/// as an open polyline unless `close` is set, and without `make_face` every
/// path comes out as a polyline.
pub proof fn lemma_emit_paths_shape(
    out: GeoModel,
    paths: Seq<(Seq<usize>, bool)>,
    close: bool,
    make_face: bool,
    near: Seq<bool>,
    n: int,
)
    requires
        0 <= n <= paths.len(),
        near.len() == paths.len(),
        emit_prefix(out, paths, close, make_face, near, n).vertices.len() <= usize::MAX,
    ensures
        ({
            let res = emit_prefix(out, paths, close, make_face, near, n);
            &&& res.num_points == out.num_points
            &&& res.prims.len() == out.prims.len() + n
            &&& res.vertices.len() >= out.vertices.len()
            &&& forall|k: int| 0 <= k < out.prims.len() ==> #[trigger] res.prims[k] == out.prims[k]
            &&& forall|k: int| 0 <= k < out.vertices.len() ==> #[trigger] res.vertices[k] == out.vertices[k]
            &&& forall|k: int|
                out.prims.len() <= k < out.prims.len() + n ==> {
                    let p = #[trigger] res.prims[k];
                    let pts = paths[k - out.prims.len()].0;
                    let cg = paths[k - out.prims.len()].1;
                    &&& references_points(res, p, pts)
                    &&& cg ==> (if make_face && pts.len() >= 3 {
                        p is Polygon
                    } else {
                        p == PrimModel::Polyline(p.verts(), true)
                    })
                    &&& (!cg && !close) ==> p == PrimModel::Polyline(p.verts(), false)
                    &&& !make_face ==> p is Polyline
                }
        }),
    decreases n,
{
    if n > 0 {
        let o = emit_prefix(out, paths, close, make_face, near, n - 1);
        assert(emit_prefix(out, paths, close, make_face, near, n).vertices == o.vertices + paths[n - 1].0);
        lemma_emit_paths_shape(out, paths, close, make_face, near, n - 1);
        let (pts, cg) = paths[n - 1];
        let res = emit_prefix(out, paths, close, make_face, near, n);
        let ids = index_run(o.vertices.len(), pts.len());
        assert(res.vertices == o.vertices + pts);
        assert forall|k: int| out.prims.len() <= k < out.prims.len() + n implies {
            let p = #[trigger] res.prims[k];
            let pts = paths[k - out.prims.len()].0;
            let cg = paths[k - out.prims.len()].1;
            &&& references_points(res, p, pts)
            &&& cg ==> (if make_face && pts.len() >= 3 {
                p is Polygon
            } else {
                p == PrimModel::Polyline(p.verts(), true)
            })
            &&& (!cg && !close) ==> p == PrimModel::Polyline(p.verts(), false)
            &&& !make_face ==> p is Polyline
        } by {
            if k < out.prims.len() + n - 1 {
                assert(res.prims[k] == o.prims[k]);
                let p = o.prims[k];
                let q = paths[k - out.prims.len()].0;
                assert(references_points(o, p, q));
                assert forall|t: int| 0 <= t < q.len() implies #[trigger] p.verts()[t] < res.vertices.len()
                    && res.vertices[p.verts()[t] as int] == q[t] by {
                    assert(p.verts()[t] < o.vertices.len());
                }
            } else {
                let p = res.prims[k];
                assert(p.verts() == ids);
                assert forall|t: int| 0 <= t < pts.len() implies #[trigger] p.verts()[t] < res.vertices.len()
                    && res.vertices[p.verts()[t] as int] == pts[t] by {
                    assert(ids[t] == o.vertices.len() + t);
                }
            }
        }
    }
}

/// What preparing makes of raw path `p`: a path that comes back to its first
/// point loses that repeated last point and is closed; any other path stays
/// as it is, open.
pub open spec fn prepared_form(p: Seq<usize>) -> (Seq<usize>, bool) {
    if p.len() >= 2 && p[0] == p.last() {
        (p.drop_last(), true)
    } else {
        (p, false)
    }
}

/// Whether `e` is the prepared form, with two or more points, of one of the
/// first `k` raw paths.
pub open spec fn form_of_raw(raw: Seq<Seq<usize>>, k: int, e: (Seq<usize>, bool)) -> bool {
    exists|i: int| 0 <= i < k && #[trigger] prepared_form(raw[i]) == e && e.0.len() >= 2
}

/// Preparing keeps exactly the raw paths that have two or more points once
/// a repeated last point is dropped: each prepared path is the prepared
/// form of a raw path, and each raw path whose prepared form has two or
/// more points is among the prepared paths. So a loop traced back to its
/// start is closed and does not repeat its first point, and a path that did
/// not come back is open.
pub proof fn lemma_prepare_paths_forms(raw: Seq<Seq<usize>>, k: int)
    requires
        0 <= k <= raw.len(),
    ensures
        forall|x: int|
            0 <= x < prepare_prefix(raw, k).len() ==> form_of_raw(raw, k, #[trigger] prepare_prefix(raw, k)[x]),
        forall|i: int|
            0 <= i < k && prepared_form(#[trigger] raw[i]).0.len() >= 2 ==> prepare_prefix(raw, k).contains(
                prepared_form(raw[i]),
            ),
    decreases k,
{
    if k > 0 {
        lemma_prepare_paths_forms(raw, k - 1);
        let r = prepare_prefix(raw, k - 1);
        let all = prepare_prefix(raw, k);
        let p = raw[k - 1];
        let q = prepared_form(p);
        assert(q.0.len() >= 2 ==> all == r.push(q));
        assert(q.0.len() < 2 ==> all == r);
        assert forall|x: int| 0 <= x < all.len() implies form_of_raw(raw, k, #[trigger] all[x]) by {
            if x < r.len() {
                assert(all[x] == r[x]);
                assert(form_of_raw(raw, k - 1, r[x]));
                let i = choose|i: int| 0 <= i < k - 1 && #[trigger] prepared_form(raw[i]) == r[x] && r[x].0.len() >= 2;
                assert(prepared_form(raw[i]) == all[x]);
            } else {
                assert(all[x] == q);
                assert(prepared_form(raw[k - 1]) == all[x]);
            }
        }
        assert forall|i: int| 0 <= i < k && prepared_form(#[trigger] raw[i]).0.len() >= 2 implies all.contains(
            prepared_form(raw[i]),
        ) by {
            if i < k - 1 {
                let w = choose|w: int| 0 <= w < r.len() && r[w] == prepared_form(raw[i]);
                assert(all[w] == r[w]);
            } else {
                assert(all[r.len() as int] == q);
            }
        }
    }
}

} // verus!
