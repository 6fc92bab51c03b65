//! Half-edge topology and the fan of outgoing half-edges around a point.

use vstd::prelude::*;
use std::collections::HashMap;

verus! {

broadcast use vstd::std_specs::hash::group_hash_axioms;

/// The id that stands for "no half-edge".
pub const INVALID_HALF_EDGE: usize = usize::MAX;

/// A half-edge: the point it leaves from, the next and previous half-edges
/// around its face, and the opposite half-edge (or `INVALID_HALF_EDGE`).
#[derive(Clone, Copy, Debug, PartialEq, Eq)]
pub struct HalfEdge {
    pub origin_point: usize,
    pub next: usize,
    pub prev: usize,
    pub pair: usize,
}

/// Half-edge connectivity: half-edge `h` is `half_edges[h]`; every point with
/// half-edges maps to one that leaves from it.
pub struct Topology {
    pub half_edges: Vec<HalfEdge>,
    pub point_to_halfedge: HashMap<usize, usize>,
}

pub open spec fn is_valid(h: usize) -> bool {
    h != INVALID_HALF_EDGE
}

pub open spec fn spec_pair(he: Seq<HalfEdge>, h: usize) -> usize {
    if h < he.len() {
        he[h as int].pair
    } else {
        INVALID_HALF_EDGE
    }
}

pub open spec fn spec_next(he: Seq<HalfEdge>, h: usize) -> usize {
    if h < he.len() {
        he[h as int].next
    } else {
        INVALID_HALF_EDGE
    }
}

pub open spec fn spec_prev(he: Seq<HalfEdge>, h: usize) -> usize {
    if h < he.len() {
        he[h as int].prev
    } else {
        INVALID_HALF_EDGE
    }
}

/// The previous spoke around the origin of `h`: `next(pair(h))`.
pub open spec fn spec_around_prev(he: Seq<HalfEdge>, h: usize) -> usize {
    let pair = spec_pair(he, h);
    if is_valid(pair) {
        spec_next(he, pair)
    } else {
        INVALID_HALF_EDGE
    }
}

/// The next spoke around the origin of `h`: `pair(prev(h))`.
pub open spec fn spec_around_next(he: Seq<HalfEdge>, h: usize) -> usize {
    let pair = spec_pair(he, spec_prev(he, h));
    if is_valid(pair) {
        pair
    } else {
        INVALID_HALF_EDGE
    }
}

/// Turns backwards from `first` (at most 513 steps) until there is no
/// previous spoke or the fan is back at `start`.
pub open spec fn rewind_spec(he: Seq<HalfEdge>, start: usize, first: usize, it: nat) -> usize
    decreases 513 - it,
{
    let prev = spec_around_prev(he, first);
    if !is_valid(prev) || prev == start || it > 512 {
        first
    } else {
        rewind_spec(he, start, prev, it + 1)
    }
}

/// Collects spokes forwards from `curr` (at most 1025) until there is no
/// next spoke or the fan is back at `first`.
pub open spec fn collect_spec(he: Seq<HalfEdge>, first: usize, curr: usize, it: nat, out: Seq<usize>) -> Seq<usize>
    decreases 1025 - it,
{
    if !is_valid(curr) || it > 1024 {
        out
    } else {
        let out2 = out.push(curr);
        let nxt = spec_around_next(he, curr);
        if !is_valid(nxt) || nxt == first {
            out2
        } else {
            collect_spec(he, first, nxt, it + 1, out2)
        }
    }
}

/// The spoke fan of `p`: empty unless `p` maps to a valid half-edge leaving
/// from `p`; otherwise the spokes from the first one (found by turning back)
/// forwards.
pub open spec fn spoke_fan_spec(topo: Map<usize, usize>, he: Seq<HalfEdge>, p: usize) -> Seq<usize> {
    if !topo.contains_key(p) {
        Seq::empty()
    } else {
        let start = topo[p];
        if !is_valid(start) || !(start < he.len()) || he[start as int].origin_point != p {
            Seq::empty()
        } else {
            collect_spec(he, rewind_spec(he, start, start, 0), rewind_spec(he, start, start, 0), 0, Seq::empty())
        }
    }
}

impl Topology {
    pub fn pair(&self, h: usize) -> (r: usize)
        ensures
            r == spec_pair(self.half_edges@, h),
    {
        if h < self.half_edges.len() {
            self.half_edges[h].pair
        } else {
            INVALID_HALF_EDGE
        }
    }

    pub fn next(&self, h: usize) -> (r: usize)
        ensures
            r == spec_next(self.half_edges@, h),
    {
        if h < self.half_edges.len() {
            self.half_edges[h].next
        } else {
            INVALID_HALF_EDGE
        }
    }

    pub fn prev(&self, h: usize) -> (r: usize)
        ensures
            r == spec_prev(self.half_edges@, h),
    {
        if h < self.half_edges.len() {
            self.half_edges[h].prev
        } else {
            INVALID_HALF_EDGE
        }
    }
}

pub fn around_prev(topo: &Topology, h: usize) -> (r: usize)
    ensures
        r == spec_around_prev(topo.half_edges@, h),
{
    let pair = topo.pair(h);
    if pair != INVALID_HALF_EDGE {
        topo.next(pair)
    } else {
        INVALID_HALF_EDGE
    }
}

pub fn around_next(topo: &Topology, h: usize) -> (r: usize)
    ensures
        r == spec_around_next(topo.half_edges@, h),
{
    let prev = topo.prev(h);
    let pair = topo.pair(prev);
    if pair != INVALID_HALF_EDGE {
        pair
    } else {
        INVALID_HALF_EDGE
    }
}

/// The outgoing half-edges around `p` in fan order, starting from the first
/// one of an open fan (a boundary point) and covering the whole fan.
pub fn spoke_fan(topo: &Topology, p: usize) -> (out: Vec<usize>)
    ensures
        out@ == spoke_fan_spec(topo.point_to_halfedge@, topo.half_edges@, p),
{
    let start = match topo.point_to_halfedge.get(&p) {
        Some(s) => *s,
        None => {
            return Vec::new();
        },
    };
    if start == INVALID_HALF_EDGE {
        return Vec::new();
    }
    if start >= topo.half_edges.len() || topo.half_edges[start].origin_point != p {
        return Vec::new();
    }
    let ghost he = topo.half_edges@;
    let mut first = start;
    let mut it: usize = 0;
    loop
        invariant
            it <= 513,
            rewind_spec(he, start, first, it as nat) == rewind_spec(he, start, start, 0),
            he == topo.half_edges@,
        ensures
            first == rewind_spec(he, start, start, 0),
        decreases 513 - it,
    {
        let prev = around_prev(topo, first);
        if prev == INVALID_HALF_EDGE || prev == start || it > 512 {
            break;
        }
        first = prev;
        it += 1;
    }
    let mut out: Vec<usize> = Vec::new();
    let mut curr = first;
    let mut it2: usize = 0;
    loop
        invariant_except_break
            collect_spec(he, first, curr, it2 as nat, out@) == spoke_fan_spec(
                topo.point_to_halfedge@,
                he,
                p,
            ),
        invariant
            it2 <= 1025,
            he == topo.half_edges@,
        ensures
            out@ == spoke_fan_spec(topo.point_to_halfedge@, he, p),
        decreases 1025 - it2,
    {
        if curr == INVALID_HALF_EDGE || it2 > 1024 {
            break;
        }
        out.push(curr);
        let nxt = around_next(topo, curr);
        if nxt == INVALID_HALF_EDGE || nxt == first {
            break;
        }
        curr = nxt;
        it2 += 1;
    }
    out
}

/// Consistent half-edge connectivity: opposite half-edges are mutual and
/// leave from each other's end, and `prev`/`next` are inverse.
pub open spec fn topology_consistent(he: Seq<HalfEdge>) -> bool {
    &&& he.len() < INVALID_HALF_EDGE
    &&& forall|h: usize|
        #![trigger he[h as int]]
        h < he.len() ==> {
            let e = he[h as int];
            &&& (is_valid(e.pair) ==> e.pair < he.len() && he[e.pair as int].pair == h && he[e.pair as int].origin_point
                == spec_next_origin(he, h))
            &&& (is_valid(e.prev) ==> e.prev < he.len() && he[e.prev as int].next == h)
            &&& (is_valid(e.next) ==> e.next < he.len() && he[e.next as int].prev == h)
        }
}

/// The point where `h` ends: where the next half-edge of its face leaves from.
pub open spec fn spec_next_origin(he: Seq<HalfEdge>, h: usize) -> usize {
    he[spec_next(he, h) as int].origin_point
}

proof fn lemma_rewind_origin(he: Seq<HalfEdge>, p: usize, start: usize, first: usize, it: nat)
    requires
        topology_consistent(he),
        first < he.len(),
        he[first as int].origin_point == p,
    ensures
        rewind_spec(he, start, first, it) < he.len(),
        he[rewind_spec(he, start, first, it) as int].origin_point == p,
    decreases 513 - it,
{
    let prev = spec_around_prev(he, first);
    if !is_valid(prev) || prev == start || it > 512 {
    } else {
        let pair = he[first as int].pair;
        assert(he[first as int] == he[first as int]);
        assert(is_valid(pair));
        assert(pair < he.len());
        assert(he[pair as int] == he[pair as int]);
        assert(he[pair as int].pair == first);
        assert(prev == he[pair as int].next);
        assert(prev < he.len());
        assert(he[first as int].origin_point == spec_next_origin(he, pair));
        lemma_rewind_origin(he, p, start, prev, it + 1);
    }
}

proof fn lemma_collect_origin(he: Seq<HalfEdge>, p: usize, first: usize, curr: usize, it: nat, out: Seq<usize>)
    requires
        topology_consistent(he),
        is_valid(curr) ==> curr < he.len() && he[curr as int].origin_point == p,
        forall|i: int| 0 <= i < out.len() ==> #[trigger] out[i] < he.len() && he[out[i] as int].origin_point == p,
    ensures
        forall|i: int|
            0 <= i < collect_spec(he, first, curr, it, out).len() ==> #[trigger] collect_spec(he, first, curr, it, out)[i]
                < he.len() && he[collect_spec(he, first, curr, it, out)[i] as int].origin_point == p,
    decreases 1025 - it,
{
    if !is_valid(curr) || it > 1024 {
    } else {
        let out2 = out.push(curr);
        assert forall|i: int| 0 <= i < out2.len() implies #[trigger] out2[i] < he.len() && he[out2[i] as int].origin_point == p by {
            if i < out.len() {
                assert(out2[i] == out[i]);
            }
        }
        let nxt = spec_around_next(he, curr);
        if !is_valid(nxt) || nxt == first {
            assert(collect_spec(he, first, curr, it, out) == out2);
        } else {
            assert(collect_spec(he, first, curr, it, out) == collect_spec(he, first, nxt, it + 1, out2));
            let prev = he[curr as int].prev;
            assert(he[curr as int] == he[curr as int]);
            assert(is_valid(prev));
            assert(he[prev as int] == he[prev as int]);
            assert(he[prev as int].next == curr);
            assert(he[nxt as int] == he[nxt as int]);
            lemma_collect_origin(he, p, first, nxt, it + 1, out2);
        }
    }
}

/// On consistent connectivity, every spoke of `p` is a half-edge that leaves
/// from `p`.
pub proof fn lemma_spokes_leave_from_point(topo: Map<usize, usize>, he: Seq<HalfEdge>, p: usize)
    requires
        topology_consistent(he),
    ensures
        forall|i: int|
            0 <= i < spoke_fan_spec(topo, he, p).len() ==> #[trigger] spoke_fan_spec(topo, he, p)[i] < he.len()
                && he[spoke_fan_spec(topo, he, p)[i] as int].origin_point == p,
{
    if topo.contains_key(p) {
        let start = topo[p];
        if is_valid(start) && start < he.len() && he[start as int].origin_point == p {
            lemma_rewind_origin(he, p, start, start, 0);
            let first = rewind_spec(he, start, start, 0);
            lemma_collect_origin(he, p, first, first, 0, Seq::empty());
        }
    }
}

/// On consistent connectivity, two half-edges with the same valid next
/// spoke are the same half-edge.
proof fn lemma_around_next_injective(he: Seq<HalfEdge>, h1: usize, h2: usize)
    requires
        topology_consistent(he),
        h1 < he.len(),
        h2 < he.len(),
        is_valid(spec_around_next(he, h1)),
        spec_around_next(he, h1) == spec_around_next(he, h2),
    ensures
        h1 == h2,
{
    let p1 = he[h1 as int].prev;
    let p2 = he[h2 as int].prev;
    assert(he[h1 as int] == he[h1 as int]);
    assert(he[h2 as int] == he[h2 as int]);
    let x = spec_around_next(he, h1);
    assert(is_valid(p1) && p1 < he.len());
    assert(is_valid(p2) && p2 < he.len());
    assert(he[p1 as int] == he[p1 as int]);
    assert(he[p2 as int] == he[p2 as int]);
    assert(he[p1 as int].pair == x);
    assert(he[p2 as int].pair == x);
    assert(he[x as int] == he[x as int]);
    assert(he[x as int].pair == p1);
    assert(he[x as int].pair == p2);
    assert(he[p1 as int].next == h1);
}

/// The collected spokes follow each other around the point and none comes
/// twice, when the walk starts from `first` with nothing collected, or
/// continues the walk with `curr` the spoke after the last one collected.
proof fn lemma_collect_nodup(he: Seq<HalfEdge>, first: usize, curr: usize, it: nat, out: Seq<usize>)
    requires
        topology_consistent(he),
        out.no_duplicates(),
        forall|j: int| 0 <= j < out.len() ==> #[trigger] out[j] < he.len(),
        forall|j: int| 1 <= j < out.len() ==> #[trigger] out[j] == spec_around_next(he, out[j - 1]),
        out.len() == 0 ==> curr == first,
        out.len() > 0 ==> out[0] == first && curr == spec_around_next(he, out.last()) && curr != first,
        is_valid(curr) ==> curr < he.len(),
    ensures
        ({
            let r = collect_spec(he, first, curr, it, out);
            &&& r.no_duplicates()
            &&& forall|j: int| 1 <= j < r.len() ==> #[trigger] r[j] == spec_around_next(he, r[j - 1])
            &&& r.len() > 0 ==> r[0] == first
        }),
    decreases 1025 - it,
{
    if !is_valid(curr) || it > 1024 {
    } else {
        let out2 = out.push(curr);
        assert forall|j: int| 0 <= j < out.len() implies out[j] != curr by {
            if j == 0 {
            } else {
                if out[j] == curr {
                    lemma_around_next_injective(he, out[j - 1], out.last());
                    assert(out[j - 1] == out[out.len() - 1]);
                    assert(j - 1 == out.len() - 1);
                }
            }
        }
        assert(out2.no_duplicates()) by {
            assert forall|a: int, b: int| 0 <= a < b < out2.len() implies out2[a] != out2[b] by {
                if b == out.len() {
                    assert(out2[a] == out[a]);
                } else {
                    assert(out2[a] == out[a] && out2[b] == out[b]);
                }
            }
        }
        assert forall|j: int| 1 <= j < out2.len() implies #[trigger] out2[j] == spec_around_next(he, out2[j - 1]) by {
            if j < out.len() {
                assert(out2[j] == out[j] && out2[j - 1] == out[j - 1]);
            } else {
                assert(out2[j - 1] == out.last());
            }
        }
        assert forall|j: int| 0 <= j < out2.len() implies #[trigger] out2[j] < he.len() by {
            if j < out.len() {
                assert(out2[j] == out[j]);
            }
        }
        let nxt = spec_around_next(he, curr);
        if !is_valid(nxt) || nxt == first {
            assert(collect_spec(he, first, curr, it, out) == out2);
        } else {
            assert(collect_spec(he, first, curr, it, out) == collect_spec(he, first, nxt, it + 1, out2));
            let prev = he[curr as int].prev;
            assert(he[curr as int] == he[curr as int]);
            assert(he[prev as int] == he[prev as int]);
            assert(out2.last() == curr);
            lemma_collect_nodup(he, first, nxt, it + 1, out2);
        }
    }
}

/// On consistent connectivity, the spoke fan of `p` lists no half-edge
/// twice, and each spoke after the first is the next one around `p` from the
/// spoke before it.
pub proof fn lemma_spoke_fan_walk(topo: Map<usize, usize>, he: Seq<HalfEdge>, p: usize)
    requires
        topology_consistent(he),
    ensures
        spoke_fan_spec(topo, he, p).no_duplicates(),
        forall|j: int|
            1 <= j < spoke_fan_spec(topo, he, p).len() ==> #[trigger] spoke_fan_spec(topo, he, p)[j] == spec_around_next(
                he,
                spoke_fan_spec(topo, he, p)[j - 1],
            ),
{
    if topo.contains_key(p) {
        let start = topo[p];
        if is_valid(start) && start < he.len() && he[start as int].origin_point == p {
            lemma_rewind_origin(he, p, start, start, 0);
            let first = rewind_spec(he, start, start, 0);
            lemma_collect_nodup(he, first, first, 0, Seq::empty());
        }
    }
}

/// The spoke reached from `x` after `n` steps forwards around its point.
pub open spec fn fwd(he: Seq<HalfEdge>, x: usize, n: nat) -> usize
    decreases n,
{
    if n == 0 {
        x
    } else {
        spec_around_next(he, fwd(he, x, (n - 1) as nat))
    }
}

/// A step back and then forward returns to the spoke.
proof fn lemma_next_after_prev(he: Seq<HalfEdge>, x: usize)
    requires
        topology_consistent(he),
        x < he.len(),
        is_valid(spec_around_prev(he, x)),
    ensures
        spec_around_prev(he, x) < he.len(),
        spec_around_next(he, spec_around_prev(he, x)) == x,
{
    assert(he[x as int] == he[x as int]);
    let q = he[x as int].pair;
    assert(is_valid(q) && q < he.len());
    assert(he[q as int] == he[q as int]);
    let y = he[q as int].next;
    assert(is_valid(y));
    assert(y < he.len());
    assert(he[y as int] == he[y as int]);
    assert(he[y as int].prev == q);
    assert(he[q as int].pair == x);
}

proof fn lemma_fwd_shift(he: Seq<HalfEdge>, x: usize, n: nat)
    requires
        n > 0,
    ensures
        fwd(he, x, n) == fwd(he, spec_around_next(he, x), (n - 1) as nat),
    decreases n,
{
    if n > 1 {
        lemma_fwd_shift(he, x, (n - 1) as nat);
        assert(fwd(he, x, n) == spec_around_next(he, fwd(he, x, (n - 1) as nat)));
        assert(fwd(he, spec_around_next(he, x), (n - 1) as nat) == spec_around_next(
            he,
            fwd(he, spec_around_next(he, x), (n - 2) as nat),
        ));
    } else {
        assert(fwd(he, x, 0) == x);
        assert(fwd(he, spec_around_next(he, x), 0) == spec_around_next(he, x));
    }
}

/// Walking back from `start` to the first spoke of its fan: `start` is
/// `k` steps forwards from where the walk ends, every spoke on the way is a
/// half-edge, and the way forwards does not come back to the first spoke.
proof fn lemma_rewind_reaches(he: Seq<HalfEdge>, start: usize, x: usize, it: nat) -> (k: nat)
    requires
        topology_consistent(he),
        it <= 513,
        fwd(he, x, it) == start,
        forall|i: nat| i <= it ==> is_valid(#[trigger] fwd(he, x, i)) && fwd(he, x, i) < he.len(),
        forall|i: nat| 0 < i <= it ==> #[trigger] fwd(he, x, i) != x,
    ensures
        k <= 513,
        fwd(he, rewind_spec(he, start, x, it), k) == start,
        forall|i: nat| i <= k ==> is_valid(#[trigger] fwd(he, rewind_spec(he, start, x, it), i)) && fwd(
            he,
            rewind_spec(he, start, x, it),
            i,
        ) < he.len(),
        forall|i: nat| 0 < i <= k ==> #[trigger] fwd(he, rewind_spec(he, start, x, it), i) != rewind_spec(he, start, x, it),
    decreases 513 - it,
{
    let prev = spec_around_prev(he, x);
    assert(fwd(he, x, 0) == x);
    if !is_valid(prev) || prev == start || it > 512 {
        it
    } else {
        lemma_next_after_prev(he, x);
        let y = prev;
        assert forall|i: nat| 0 < i <= it + 1 implies #[trigger] fwd(he, y, i) == fwd(he, x, (i - 1) as nat) by {
            lemma_fwd_shift(he, y, i);
        }
        assert(fwd(he, y, it + 1) == start);
        assert forall|i: nat| i <= it + 1 implies is_valid(#[trigger] fwd(he, y, i)) && fwd(he, y, i) < he.len() by {
            if i > 0 {
                assert(fwd(he, y, i) == fwd(he, x, (i - 1) as nat));
            }
        }
        assert forall|i: nat| 0 < i <= it + 1 implies #[trigger] fwd(he, y, i) != y by {
            assert(fwd(he, y, i) == fwd(he, x, (i - 1) as nat));
            if fwd(he, x, (i - 1) as nat) == y {
                if i == 1 {
                    // x == y would make every forward step stay at x
                    assert(x == y);
                    assert(spec_around_next(he, y) == x);
                    lemma_fwd_fixed(he, x, it);
                    assert(start == x);
                } else if i <= it {
                    assert(fwd(he, x, i) == spec_around_next(he, fwd(he, x, (i - 1) as nat)));
                    assert(fwd(he, x, i) == x);
                } else {
                    assert(fwd(he, x, it) == y);
                }
            }
        }
        lemma_rewind_reaches(he, start, y, it + 1)
    }
}

proof fn lemma_fwd_fixed(he: Seq<HalfEdge>, x: usize, n: nat)
    requires
        spec_around_next(he, x) == x,
    ensures
        fwd(he, x, n) == x,
    decreases n,
{
    if n > 0 {
        lemma_fwd_fixed(he, x, (n - 1) as nat);
    }
}

/// Collecting from `fwd(first, j)` with the spokes before it collected
/// reaches `fwd(first, k)` when the way there stays on half-edges and does
/// not come back to `first`.
proof fn lemma_collect_reaches(he: Seq<HalfEdge>, first: usize, j: nat, k: nat, out: Seq<usize>)
    requires
        j <= k <= 1024,
        forall|i: nat| i <= k ==> is_valid(#[trigger] fwd(he, first, i)) && fwd(he, first, i) < he.len(),
        forall|i: nat| 0 < i <= k ==> #[trigger] fwd(he, first, i) != first,
    ensures
        collect_spec(he, first, fwd(he, first, j), j, out).contains(fwd(he, first, k)),
    decreases k - j,
{
    let curr = fwd(he, first, j);
    let out2 = out.push(curr);
    assert(out2[out.len() as int] == curr);
    let nxt = spec_around_next(he, curr);
    assert(fwd(he, first, j + 1) == nxt);
    if j == k {
        if !is_valid(nxt) || nxt == first {
        } else {
            lemma_collect_keeps(he, first, nxt, j + 1, out2, curr);
        }
    } else {
        assert(is_valid(fwd(he, first, (j + 1) as nat)));
        assert(fwd(he, first, (j + 1) as nat) != first);
        lemma_collect_reaches(he, first, j + 1, k, out2);
    }
}

/// The collected spokes keep what was collected before.
proof fn lemma_collect_keeps(he: Seq<HalfEdge>, first: usize, curr: usize, it: nat, out: Seq<usize>, x: usize)
    requires
        out.contains(x),
    ensures
        collect_spec(he, first, curr, it, out).contains(x),
    decreases 1025 - it,
{
    if !is_valid(curr) || it > 1024 {
    } else {
        let out2 = out.push(curr);
        let w = choose|w: int| 0 <= w < out.len() && out[w] == x;
        assert(out2[w] == x);
        let nxt = spec_around_next(he, curr);
        if !is_valid(nxt) || nxt == first {
        } else {
            lemma_collect_keeps(he, first, nxt, it + 1, out2, x);
        }
    }
}

/// On consistent connectivity, the spoke fan of `p` holds the half-edge
/// that `p` maps to, when that is a half-edge leaving from `p`.
pub proof fn lemma_spoke_fan_contains_start(topo: Map<usize, usize>, he: Seq<HalfEdge>, p: usize)
    requires
        topology_consistent(he),
        topo.contains_key(p),
        is_valid(topo[p]),
        topo[p] < he.len(),
        he[topo[p] as int].origin_point == p,
    ensures
        spoke_fan_spec(topo, he, p).contains(topo[p]),
{
    let start = topo[p];
    assert(fwd(he, start, 0) == start);
    assert forall|i: nat| i <= 0 implies is_valid(#[trigger] fwd(he, start, i)) && fwd(he, start, i) < he.len() by {
        assert(i == 0);
    }
    let k = lemma_rewind_reaches(he, start, start, 0);
    let first = rewind_spec(he, start, start, 0);
    assert(fwd(he, first, 0) == first);
    lemma_collect_reaches(he, first, 0, k, Seq::empty());
}

/// The spoke reached from `x` after `n` steps backwards around its point.
pub open spec fn bwd(he: Seq<HalfEdge>, x: usize, n: nat) -> usize
    decreases n,
{
    if n == 0 {
        x
    } else {
        spec_around_prev(he, bwd(he, x, (n - 1) as nat))
    }
}

/// Turning back from `bwd(start, it)` ends at `bwd(start, n)` when the
/// spokes on the way are valid and the last one has no previous spoke.
proof fn lemma_rewind_to_boundary(he: Seq<HalfEdge>, start: usize, n: nat, it: nat)
    requires
        it <= n <= 512,
        forall|i: nat| i <= n ==> is_valid(#[trigger] bwd(he, start, i)),
        forall|i: nat| 0 < i <= n ==> #[trigger] bwd(he, start, i) != start,
        !is_valid(spec_around_prev(he, bwd(he, start, n))),
    ensures
        rewind_spec(he, start, bwd(he, start, it), it) == bwd(he, start, n),
    decreases n - it,
{
    let x = bwd(he, start, it);
    let prev = spec_around_prev(he, x);
    assert(bwd(he, start, it + 1) == prev);
    if it < n {
        assert(is_valid(bwd(he, start, it + 1)));
        assert(bwd(he, start, it + 1) != start);
        lemma_rewind_to_boundary(he, start, n, it + 1);
    }
}

/// Forwards from the boundary spoke `bwd(start, n)`, step `j` is
/// `bwd(start, n - j)`.
proof fn lemma_fwd_from_boundary(he: Seq<HalfEdge>, start: usize, n: nat, j: nat)
    requires
        topology_consistent(he),
        j <= n,
        forall|i: nat| i <= n ==> is_valid(#[trigger] bwd(he, start, i)) && bwd(he, start, i) < he.len(),
    ensures
        fwd(he, bwd(he, start, n), j) == bwd(he, start, (n - j) as nat),
    decreases j,
{
    if j > 0 {
        lemma_fwd_from_boundary(he, start, n, (j - 1) as nat);
        let y = bwd(he, start, (n - j) as nat);
        assert(bwd(he, start, (n - j + 1) as nat) == spec_around_prev(he, y));
        assert(is_valid(bwd(he, start, (n - j + 1) as nat)));
        lemma_next_after_prev(he, y);
    }
}

/// The collected spokes begin with what was collected before.
proof fn lemma_collect_prefix(he: Seq<HalfEdge>, first: usize, curr: usize, it: nat, out: Seq<usize>)
    ensures
        collect_spec(he, first, curr, it, out).len() >= out.len(),
        forall|i: int| 0 <= i < out.len() ==> #[trigger] collect_spec(he, first, curr, it, out)[i] == out[i],
    decreases 1025 - it,
{
    if !is_valid(curr) || it > 1024 {
    } else {
        let out2 = out.push(curr);
        let nxt = spec_around_next(he, curr);
        if !is_valid(nxt) || nxt == first {
        } else {
            lemma_collect_prefix(he, first, nxt, it + 1, out2);
            assert forall|i: int| 0 <= i < out.len() implies #[trigger] collect_spec(he, first, curr, it, out)[i]
                == out[i] by {
                assert(out2[i] == out[i]);
            }
        }
    }
}

/// On consistent connectivity, the spoke fan of `p` is not empty when `p`
/// maps to a half-edge leaving from `p`, and it holds every spoke forwards
/// from its first one, as long as those spokes are half-edges and do not come
/// back to the first one, up to 1024 turns.
pub proof fn lemma_spoke_fan_complete(topo: Map<usize, usize>, he: Seq<HalfEdge>, p: usize, m: nat)
    requires
        topology_consistent(he),
        topo.contains_key(p),
        is_valid(topo[p]),
        topo[p] < he.len(),
        he[topo[p] as int].origin_point == p,
        m <= 1024,
        forall|i: nat|
            i <= m ==> is_valid(#[trigger] fwd(he, spoke_fan_spec(topo, he, p)[0], i)) && fwd(
                he,
                spoke_fan_spec(topo, he, p)[0],
                i,
            ) < he.len(),
        forall|i: nat|
            0 < i <= m ==> #[trigger] fwd(he, spoke_fan_spec(topo, he, p)[0], i) != spoke_fan_spec(
                topo,
                he,
                p,
            )[0],
    ensures
        spoke_fan_spec(topo, he, p).len() > 0,
        spoke_fan_spec(topo, he, p).contains(fwd(he, spoke_fan_spec(topo, he, p)[0], m)),
{
    let start = topo[p];
    lemma_spoke_fan_contains_start(topo, he, p);
    lemma_rewind_origin(he, p, start, start, 0);
    let first = rewind_spec(he, start, start, 0);
    lemma_collect_prefix(he, first, first, 0, Seq::empty());
    assert(collect_spec(he, first, first, 0, Seq::empty())[0] == first) by {
        if is_valid(spec_around_next(he, first)) && spec_around_next(he, first) != first {
            lemma_collect_prefix(he, first, spec_around_next(he, first), 1, seq![first]);
        }
    }
    assert(fwd(he, first, 0) == first);
    lemma_collect_reaches(he, first, 0, m, Seq::empty());
}

/// On consistent connectivity, at a boundary point the spoke fan starts at
/// the boundary: when turning back from the half-edge `p` maps to reaches,
/// within 512 turns and without coming back to it, a spoke with no previous
/// spoke, the fan begins with that spoke and holds every spoke on the way
/// back.
pub proof fn lemma_spoke_fan_starts_at_boundary(topo: Map<usize, usize>, he: Seq<HalfEdge>, p: usize, n: nat)
    requires
        topology_consistent(he),
        topo.contains_key(p),
        is_valid(topo[p]),
        topo[p] < he.len(),
        he[topo[p] as int].origin_point == p,
        n <= 512,
        forall|i: nat| i <= n ==> is_valid(#[trigger] bwd(he, topo[p], i)) && bwd(he, topo[p], i) < he.len(),
        forall|i: nat| 0 < i <= n ==> #[trigger] bwd(he, topo[p], i) != topo[p],
        !is_valid(spec_around_prev(he, bwd(he, topo[p], n))),
    ensures
        spoke_fan_spec(topo, he, p).len() > 0,
        spoke_fan_spec(topo, he, p)[0] == bwd(he, topo[p], n),
        !is_valid(spec_around_prev(he, spoke_fan_spec(topo, he, p)[0])),
        forall|i: nat| i <= n ==> spoke_fan_spec(topo, he, p).contains(#[trigger] bwd(he, topo[p], i)),
{
    let start = topo[p];
    let b = bwd(he, start, n);
    assert(bwd(he, start, 0) == start);
    lemma_rewind_to_boundary(he, start, n, 0);
    assert(rewind_spec(he, start, start, 0) == b);
    lemma_collect_prefix(he, b, b, 0, Seq::empty());
    assert(collect_spec(he, b, b, 0, Seq::empty())[0] == b) by {
        if is_valid(spec_around_next(he, b)) && spec_around_next(he, b) != b {
            lemma_collect_prefix(he, b, spec_around_next(he, b), 1, seq![b]);
        }
    }
    assert forall|i: nat| i <= n implies spoke_fan_spec(topo, he, p).contains(#[trigger] bwd(he, start, i)) by {
        let k = (n - i) as nat;
        assert forall|j: nat| j <= k implies is_valid(#[trigger] fwd(he, b, j)) && fwd(he, b, j) < he.len() by {
            lemma_fwd_from_boundary(he, start, n, j);
        }
        assert forall|j: nat| 0 < j <= k implies #[trigger] fwd(he, b, j) != b by {
            lemma_fwd_from_boundary(he, start, n, j);
            let a = (n - j) as nat;
            assert(bwd(he, start, a + 1) == spec_around_prev(he, bwd(he, start, a)));
            assert(is_valid(bwd(he, start, a + 1)));
        }
        lemma_fwd_from_boundary(he, start, n, k);
        assert(fwd(he, b, 0) == b);
        lemma_collect_reaches(he, b, 0, k, Seq::empty());
    }
}

} // verus!
