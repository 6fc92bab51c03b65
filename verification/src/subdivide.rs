//! One refinement pass of the remesh: every triangle marked for splitting is
//! cut into four at the midpoints of its edges, a midpoint shared by the
//! triangles on both sides of an edge (compared through welded points); and
//! the neighbour lists used to relax the points afterwards.

use vstd::prelude::*;
use std::collections::HashMap;

verus! {

broadcast use vstd::std_specs::hash::group_hash_axioms;

/// The welded point of `a`: `rep[a]`, or `a` itself past the end of `rep`.
pub open spec fn rep_of(rep: Seq<usize>, a: usize) -> usize {
    if (a as int) < rep.len() {
        rep[a as int]
    } else {
        a
    }
}

/// The key of the undirected edge between welded points `x` and `y`.
pub open spec fn pair_key(x: usize, y: usize) -> u128 {
    let (lo, hi) = if x < y {
        (x, y)
    } else {
        (y, x)
    };
    (lo as int * 0x1_0000_0000_0000_0000 + hi as int) as u128
}

/// The welded end points of the undirected edge between `x` and `y`, the
/// smaller first.
pub open spec fn pair_of(x: usize, y: usize) -> (usize, usize) {
    if x < y {
        (x, y)
    } else {
        (y, x)
    }
}

/// The state of a refinement pass: the triangles produced, the welded point
/// of every point (new midpoints stand for themselves), the welded end
/// points of each new midpoint in order of creation, and the midpoint made
/// for each edge key.
pub struct SplitState {
    pub tris: Seq<[usize; 3]>,
    pub rep: Seq<usize>,
    pub mids: Seq<(usize, usize)>,
    pub made: Map<u128, usize>,
}

/// The midpoint of the edge from `a` to `b` and the state after it: the
/// midpoint already made for the edge's key, or a new point numbered after
/// all points so far.
pub open spec fn midpoint(st: SplitState, a: usize, b: usize) -> (usize, SplitState) {
    let ra = rep_of(st.rep, a);
    let rb = rep_of(st.rep, b);
    let key = pair_key(ra, rb);
    if st.made.dom().contains(key) {
        (st.made[key], st)
    } else {
        let k = st.rep.len() as usize;
        (
            k,
            SplitState {
                tris: st.tris,
                rep: st.rep.push(k),
                mids: st.mids.push(pair_of(ra, rb)),
                made: st.made.insert(key, k),
            },
        )
    }
}

/// The state after triangle `t`: kept as it is unless `split`, else replaced
/// by its four quarters.
pub open spec fn split_step(st: SplitState, t: [usize; 3], split: bool) -> SplitState {
    if !split {
        SplitState { tris: st.tris.push(t), ..st }
    } else {
        let (ab, s1) = midpoint(st, t[0], t[1]);
        let (bc, s2) = midpoint(s1, t[1], t[2]);
        let (ca, s3) = midpoint(s2, t[2], t[0]);
        SplitState {
            tris: s3.tris + seq![[t[0], ab, ca], [ab, t[1], bc], [ca, bc, t[2]], [ab, bc, ca]],
            ..s3
        }
    }
}

/// The state after the first `n` triangles.
pub open spec fn split_prefix(tris: Seq<[usize; 3]>, split: Seq<bool>, rep: Seq<usize>, n: int) -> SplitState
    decreases n,
{
    if n <= 0 {
        SplitState { tris: Seq::empty(), rep: rep, mids: Seq::empty(), made: Map::empty() }
    } else {
        split_step(split_prefix(tris, split, rep, n - 1), tris[n - 1], split[n - 1])
    }
}

/// Whether every corner of every triangle in `tris` is below `n`.
pub open spec fn corners_below(tris: Seq<[usize; 3]>, n: int) -> bool {
    forall|t: int, k: int| 0 <= t < tris.len() && 0 <= k < 3 ==> #[trigger] tris[t][k] < n
}

/// What a refinement pass keeps true of its state, started from `rep0`.
pub open spec fn split_state_ok(st: SplitState, rep0: Seq<usize>) -> bool {
    &&& st.rep.len() == rep0.len() + st.mids.len()
    &&& corners_below(st.tris, st.rep.len() as int)
    &&& forall|i: int| 0 <= i < st.mids.len() ==> st.made.dom().contains(
        #[trigger] pair_key(st.mids[i].0, st.mids[i].1),
    )
    &&& forall|key: u128| #[trigger] st.made.dom().contains(key) ==> st.made[key] < st.rep.len()
    &&& forall|i: int, j: int|
        0 <= i < j < st.mids.len() ==> #[trigger] st.mids[i] != #[trigger] st.mids[j]
}

proof fn lemma_midpoint_ok(st: SplitState, rep0: Seq<usize>, a: usize, b: usize)
    requires
        split_state_ok(st, rep0),
    ensures
        split_state_ok(midpoint(st, a, b).1, rep0),
        midpoint(st, a, b).0 < midpoint(st, a, b).1.rep.len(),
        midpoint(st, a, b).1.tris == st.tris,
        st.rep.len() <= midpoint(st, a, b).1.rep.len() <= st.rep.len() + 1,
{
    let ra = rep_of(st.rep, a);
    let rb = rep_of(st.rep, b);
    let key = pair_key(ra, rb);
    if !st.made.dom().contains(key) {
        let s2 = midpoint(st, a, b).1;
        let m = pair_of(ra, rb);
        assert(pair_key(m.0, m.1) == key);
        assert forall|i: int| 0 <= i < s2.mids.len() implies s2.made.dom().contains(
            #[trigger] pair_key(s2.mids[i].0, s2.mids[i].1),
        ) by {
            if i < st.mids.len() {
                assert(s2.mids[i] == st.mids[i]);
            }
        }
        assert forall|i: int, j: int| 0 <= i < j < s2.mids.len() implies #[trigger] s2.mids[i]
            != #[trigger] s2.mids[j] by {
            if j == st.mids.len() {
                assert(st.made.dom().contains(pair_key(st.mids[i].0, st.mids[i].1)));
            } else {
                assert(s2.mids[i] == st.mids[i] && s2.mids[j] == st.mids[j]);
            }
        }
    }
}

/// One refinement step keeps the state well formed, when the triangle's
/// corners are below the point count.
proof fn lemma_split_step_ok(st: SplitState, rep0: Seq<usize>, t: [usize; 3], split: bool)
    requires
        split_state_ok(st, rep0),
        t[0] < st.rep.len() && t[1] < st.rep.len() && t[2] < st.rep.len(),
    ensures
        split_state_ok(split_step(st, t, split), rep0),
        st.rep.len() <= split_step(st, t, split).rep.len() <= st.rep.len() + 3,
{
    if !split {
        let s = split_step(st, t, split);
        assert forall|u: int, k: int| 0 <= u < s.tris.len() && 0 <= k < 3 implies #[trigger] s.tris[u][k]
            < s.rep.len() by {
            if u < st.tris.len() {
                assert(s.tris[u] == st.tris[u]);
            }
        }
    } else {
        let (ab, s1) = midpoint(st, t[0], t[1]);
        lemma_midpoint_ok(st, rep0, t[0], t[1]);
        let (bc, s2) = midpoint(s1, t[1], t[2]);
        lemma_midpoint_ok(s1, rep0, t[1], t[2]);
        let (ca, s3) = midpoint(s2, t[2], t[0]);
        lemma_midpoint_ok(s2, rep0, t[2], t[0]);
        let quads = seq![[t[0], ab, ca], [ab, t[1], bc], [ca, bc, t[2]], [ab, bc, ca]];
        let s = split_step(st, t, split);
        assert(s.tris == s3.tris + quads);
        assert forall|u: int, k: int| 0 <= u < s.tris.len() && 0 <= k < 3 implies #[trigger] s.tris[u][k]
            < s.rep.len() by {
            if u < s3.tris.len() {
                assert(s.tris[u] == s3.tris[u]);
            } else {
                assert(s.tris[u] == quads[u - s3.tris.len()]);
            }
        }
    }
}

proof fn lemma_split_prefix_ok(tris: Seq<[usize; 3]>, split: Seq<bool>, rep: Seq<usize>, n: int)
    requires
        0 <= n <= tris.len(),
        corners_below(tris, rep.len() as int),
    ensures
        split_state_ok(split_prefix(tris, split, rep, n), rep),
    decreases n,
{
    if n > 0 {
        lemma_split_prefix_ok(tris, split, rep, n - 1);
        let st = split_prefix(tris, split, rep, n - 1);
        assert(tris[n - 1][0] < rep.len() && tris[n - 1][1] < rep.len() && tris[n - 1][2] < rep.len());
        lemma_split_step_ok(st, rep, tris[n - 1], split[n - 1]);
    } else {
        assert(split_state_ok(split_prefix(tris, split, rep, n), rep));
    }
}

/// A refinement pass over triangles whose corners are existing points gives
/// triangles whose corners are existing or new points, one new point per
/// midpoint, and no edge two midpoints.
pub proof fn lemma_split_pass_well_formed(tris: Seq<[usize; 3]>, split: Seq<bool>, rep: Seq<usize>)
    requires
        corners_below(tris, rep.len() as int),
    ensures
        ({
            let st = split_prefix(tris, split, rep, tris.len() as int);
            &&& st.rep.len() == rep.len() + st.mids.len()
            &&& corners_below(st.tris, st.rep.len() as int)
            &&& forall|i: int, j: int| 0 <= i < j < st.mids.len() ==> #[trigger] st.mids[i] != #[trigger] st.mids[j]
        }),
{
    lemma_split_prefix_ok(tris, split, rep, tris.len() as int);
}

fn pair_key_exec(x: usize, y: usize) -> (k: u128)
    ensures
        k == pair_key(x, y),
{
    let (lo, hi) = if x < y {
        (x, y)
    } else {
        (y, x)
    };
    assert(lo as int * 0x1_0000_0000_0000_0000 + hi as int <= u128::MAX) by (nonlinear_arith)
        requires
            lo <= usize::MAX,
            hi <= usize::MAX,
            usize::MAX < 0x1_0000_0000_0000_0000,
    ;
    (lo as u128) * 0x1_0000_0000_0000_0000u128 + (hi as u128)
}

/// The midpoint of the edge from `a` to `b` (see `midpoint`).
fn make_midpoint(
    a: usize,
    b: usize,
    rep: &mut Vec<usize>,
    mids: &mut Vec<(usize, usize)>,
    made: &mut HashMap<u128, usize>,
    Ghost(tris): Ghost<Seq<[usize; 3]>>,
) -> (k: usize)
    requires
        old(rep)@.len() < usize::MAX,
    ensures
        ({
            let st = SplitState { tris, rep: old(rep)@, mids: old(mids)@, made: old(made)@ };
            let (k2, st2) = midpoint(st, a, b);
            &&& k == k2
            &&& final(rep)@ == st2.rep
            &&& final(mids)@ == st2.mids
            &&& final(made)@ == st2.made
        }),
{
    let ra = if a < rep.len() {
        rep[a]
    } else {
        a
    };
    let rb = if b < rep.len() {
        rep[b]
    } else {
        b
    };
    let key = pair_key_exec(ra, rb);
    match made.get(&key) {
        Some(k) => *k,
        None => {
            let k = rep.len();
            rep.push(k);
            mids.push(if ra < rb {
                (ra, rb)
            } else {
                (rb, ra)
            });
            made.insert(key, k);
            k
        },
    }
}

/// One refinement pass: the new triangles, the welded end points of each
/// new midpoint (its position is their average), and whether any triangle
/// was split. `rep` grows by one entry per midpoint.
pub fn split_pass(tris: &Vec<[usize; 3]>, split: &Vec<bool>, rep: &mut Vec<usize>) -> (r: (Vec<[usize; 3]>, Vec<(usize, usize)>, bool))
    requires
        split@.len() == tris@.len(),
        old(rep)@.len() + 3 * tris@.len() < usize::MAX,
    ensures
        ({
            let st = split_prefix(tris@, split@, old(rep)@, tris@.len() as int);
            &&& r.0@ == st.tris
            &&& r.1@ == st.mids
            &&& final(rep)@ == st.rep
            &&& r.2 == exists|t: int| 0 <= t < split@.len() && split@[t]
        }),
{
    let ghost rep0 = rep@;
    let mut out: Vec<[usize; 3]> = Vec::new();
    let mut mids: Vec<(usize, usize)> = Vec::new();
    let mut made: HashMap<u128, usize> = HashMap::new();
    let mut any = false;
    let mut t: usize = 0;
    proof {
        assert(made@ =~= Map::<u128, usize>::empty());
    }
    while t < tris.len()
        invariant
            t <= tris.len(),
            split@.len() == tris@.len(),
            rep0.len() + 3 * tris@.len() < usize::MAX,
            rep@.len() <= rep0.len() + 3 * t,
            ({
                let st = split_prefix(tris@, split@, rep0, t as int);
                &&& out@ == st.tris
                &&& mids@ == st.mids
                &&& rep@ == st.rep
                &&& made@ == st.made
            }),
            any == exists|u: int| 0 <= u < t && split@[u],
        decreases tris.len() - t,
    {
        let tri = tris[t];
        let ghost st0 = split_prefix(tris@, split@, rep0, t as int);
        if !split[t] {
            out.push(tri);
        } else {
            any = true;
            let ghost r0 = rep@;
            let ab = make_midpoint(tri[0], tri[1], rep, &mut mids, &mut made, Ghost(out@));
            let bc = make_midpoint(tri[1], tri[2], rep, &mut mids, &mut made, Ghost(out@));
            let ca = make_midpoint(tri[2], tri[0], rep, &mut mids, &mut made, Ghost(out@));
            out.push([tri[0], ab, ca]);
            out.push([ab, tri[1], bc]);
            out.push([ca, bc, tri[2]]);
            out.push([ab, bc, ca]);
            proof {
                let (x1, s1) = midpoint(st0, tri[0], tri[1]);
                let (x2, s2) = midpoint(s1, tri[1], tri[2]);
                let (x3, s3) = midpoint(s2, tri[2], tri[0]);
                assert(out@ =~= s3.tris + seq![[tri[0], ab, ca], [ab, tri[1], bc], [ca, bc, tri[2]], [ab, bc, ca]]);
            }
        }
        proof {
            let st1 = split_prefix(tris@, split@, rep0, t + 1);
            assert(st1 == split_step(st0, tris@[t as int], split@[t as int]));
            if split@[t as int] {
                assert(exists|u: int| 0 <= u < t + 1 && split@[u]) by {
                    assert(split@[t as int]);
                }
            }
        }
        t += 1;
    }
    (out, mids, any)
}

/// Whether `j` stands at another corner of triangle `t` than `i` does.
pub open spec fn corner_link(t: [usize; 3], i: usize, j: usize) -> bool {
    ||| t[0] == i && (t[1] == j || t[2] == j)
    ||| t[1] == i && (t[0] == j || t[2] == j)
    ||| t[2] == i && (t[0] == j || t[1] == j)
}

/// Whether one of the first `n` triangles links `i` to `j`.
pub open spec fn linked_in(tris: Seq<[usize; 3]>, n: int, i: usize, j: usize) -> bool {
    exists|u: int| 0 <= u < n && #[trigger] corner_link(tris[u], i, j)
}

/// Whether `s` is strictly increasing.
pub open spec fn strictly_increasing(s: Seq<usize>) -> bool {
    forall|p: int, q: int| 0 <= p < q < s.len() ==> s[p] < s[q]
}

/// Inserting `x` at the first place whose entry is not below it keeps a
/// strictly increasing list strictly increasing, when `x` was not there.
proof fn lemma_insert_sorted(l0: Seq<usize>, l: Seq<usize>, p: int, x: usize)
    requires
        l == l0.insert(p, x),
        strictly_increasing(l0),
        0 <= p <= l0.len(),
        forall|q: int| 0 <= q < p ==> l0[q] < x,
        p < l0.len() ==> l0[p] > x,
    ensures
        strictly_increasing(l),
        forall|y: usize| l.contains(y) <==> (l0.contains(y) || y == x),
{
    assert forall|a: int, b: int| 0 <= a < b < l.len() implies l[a] < l[b] by {
        if b < p {
        } else if b == p {
        } else if a < p {
            assert(l[b] == l0[b - 1]);
            if b - 1 > p {
                assert(l0[p] < l0[b - 1]);
            }
        } else if a == p {
            if b - 1 > p {
                assert(l0[p] < l0[b - 1]);
            }
        } else {
            assert(l0[a - 1] < l0[b - 1]);
        }
    }
    assert forall|y: usize| l.contains(y) <==> (l0.contains(y) || y == x) by {
        if l.contains(y) {
            let a = choose|a: int| 0 <= a < l.len() && l[a] == y;
            if a < p {
                assert(l0[a] == y);
            } else if a > p {
                assert(l0[a - 1] == y);
            }
        }
        if l0.contains(y) {
            let a = choose|a: int| 0 <= a < l0.len() && l0[a] == y;
            if a < p {
                assert(l[a] == y);
            } else {
                assert(l[a + 1] == y);
            }
        }
        if y == x {
            assert(l[p] == x);
        }
    }
}

/// Adds `x` to the strictly increasing list `l`, unless it is there already.
fn insert_sorted(l: &mut Vec<usize>, x: usize)
    requires
        strictly_increasing(old(l)@),
    ensures
        strictly_increasing(final(l)@),
        forall|y: usize| final(l)@.contains(y) <==> (old(l)@.contains(y) || y == x),
{
    let mut p: usize = 0;
    while p < l.len() && l[p] < x
        invariant
            p <= l.len(),
            forall|q: int| 0 <= q < p ==> l@[q] < x,
        decreases l.len() - p,
    {
        p += 1;
    }
    if p < l.len() && l[p] == x {
        assert(l@[p as int] == x);
        assert(l@.contains(x));
    } else {
        let ghost l0 = l@;
        l.insert(p, x);
        proof {
            lemma_insert_sorted(l0, l@, p as int, x);
        }
    }
}

/// Records `j` as a neighbour of `i`.
fn add_link(nbrs: &mut Vec<Vec<usize>>, i: usize, j: usize)
    requires
        i < old(nbrs)@.len(),
        strictly_increasing(old(nbrs)@[i as int]@),
    ensures
        final(nbrs)@.len() == old(nbrs)@.len(),
        forall|p: int| 0 <= p < old(nbrs)@.len() && p != i ==> final(nbrs)@[p] == old(nbrs)@[p],
        strictly_increasing(final(nbrs)@[i as int]@),
        forall|y: usize| final(nbrs)@[i as int]@.contains(y) <==> (old(nbrs)@[i as int]@.contains(y) || y == j),
{
    insert_sorted(&mut nbrs[i], j);
}

/// The neighbour lists of the points `0..npoints`: for each point, in
/// increasing order and each once, the points that share a triangle with it
/// (a point of a degenerate triangle may be its own neighbour).
pub fn vertex_neighbours(npoints: usize, tris: &Vec<[usize; 3]>) -> (r: Vec<Vec<usize>>)
    requires
        forall|t: int, k: int| 0 <= t < tris@.len() && 0 <= k < 3 ==> #[trigger] tris@[t][k] < npoints,
    ensures
        r@.len() == npoints,
        forall|i: int| 0 <= i < npoints ==> strictly_increasing(#[trigger] r@[i]@),
        forall|i: int, j: usize| 0 <= i < npoints ==> (#[trigger] r@[i]@.contains(j) <==> linked_in(tris@, tris@.len() as int, i as usize, j)),
{
    let mut nbrs: Vec<Vec<usize>> = Vec::new();
    let mut p: usize = 0;
    while p < npoints
        invariant
            p <= npoints,
            nbrs@.len() == p,
            forall|i: int| 0 <= i < p ==> (#[trigger] nbrs@[i])@.len() == 0,
        decreases npoints - p,
    {
        nbrs.push(Vec::new());
        p += 1;
    }
    let mut t: usize = 0;
    while t < tris.len()
        invariant
            t <= tris.len(),
            nbrs@.len() == npoints,
            forall|u: int, k: int| 0 <= u < tris@.len() && 0 <= k < 3 ==> #[trigger] tris@[u][k] < npoints,
            forall|i: int| 0 <= i < npoints ==> strictly_increasing(#[trigger] nbrs@[i]@),
            forall|i: int, j: usize| 0 <= i < npoints ==> (#[trigger] nbrs@[i]@.contains(j) <==> linked_in(tris@, t as int, i as usize, j)),
        decreases tris.len() - t,
    {
        let tri = tris[t];
        assert(tris@[t as int][0] < npoints && tris@[t as int][1] < npoints && tris@[t as int][2] < npoints);
        let ghost before = nbrs@;
        add_link(&mut nbrs, tri[0], tri[1]);
        add_link(&mut nbrs, tri[0], tri[2]);
        add_link(&mut nbrs, tri[1], tri[0]);
        add_link(&mut nbrs, tri[1], tri[2]);
        add_link(&mut nbrs, tri[2], tri[0]);
        add_link(&mut nbrs, tri[2], tri[1]);
        proof {
            assert forall|i: int, j: usize| 0 <= i < npoints implies (#[trigger] nbrs@[i]@.contains(j) <==> (before[i]@.contains(j) || corner_link(tri, i as usize, j))) by {
            }
            assert forall|i: int, j: usize| 0 <= i < npoints implies (#[trigger] nbrs@[i]@.contains(j) <==> linked_in(tris@, t + 1, i as usize, j)) by {
                assert(before[i]@.contains(j) <==> linked_in(tris@, t as int, i as usize, j));
                if linked_in(tris@, t + 1, i as usize, j) {
                    let u = choose|u: int| 0 <= u < t + 1 && #[trigger] corner_link(tris@[u], i as usize, j);
                    if u < t {
                        assert(linked_in(tris@, t as int, i as usize, j));
                    }
                }
                if corner_link(tri, i as usize, j) {
                    assert(corner_link(tris@[t as int], i as usize, j));
                }
                if linked_in(tris@, t as int, i as usize, j) {
                    let u = choose|u: int| 0 <= u < t && #[trigger] corner_link(tris@[u], i as usize, j);
                    assert(corner_link(tris@[u], i as usize, j));
                }
            }
        }
        t += 1;
    }
    nbrs
}

} // verus!
