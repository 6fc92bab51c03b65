//! Faces of a bevel's vertex mesh: the grid of `vmesh` is turned into quads
//! (and, with an odd number of segments, a centre polygon), one point per
//! canonical cell, where cells on the border of the patch may reuse points
//! that the bevel's profiles already made.

use vstd::prelude::*;
use crate::vmesh::{VMeshGrid, canon_spec, in_grid, cell, lemma_canon_is_canonical, lemma_cell_injective, lemma_cell_bounds};

verus! {

/// The corners of the quads of row `j` of patch `i`, quads `0..k`: each quad
/// goes `(j, k)`, `(j, k + 1)`, `(j + 1, k + 1)`, `(j + 1, k)`.
pub open spec fn row_visits(i: int, j: int, k: int) -> Seq<(int, int, int)>
    decreases k,
{
    if k <= 0 {
        Seq::empty()
    } else {
        row_visits(i, j, k - 1) + seq![(i, j, k - 1), (i, j, k), (i, j + 1, k), (i, j + 1, k - 1)]
    }
}

/// The quad corners of rows `0..j` of patch `i`, `kmax` quads per row.
pub open spec fn patch_visits(i: int, kmax: int, j: int) -> Seq<(int, int, int)>
    decreases j,
{
    if j <= 0 {
        Seq::empty()
    } else {
        patch_visits(i, kmax, j - 1) + row_visits(i, j - 1, kmax)
    }
}

/// The quad corners of patches `0..i`, `ns2` rows of `kmax` quads each.
pub open spec fn quad_visits(ns2: int, kmax: int, i: int) -> Seq<(int, int, int)>
    decreases i,
{
    if i <= 0 {
        Seq::empty()
    } else {
        quad_visits(ns2, kmax, i - 1) + patch_visits(i - 1, kmax, ns2)
    }
}

/// The centre cells `(i, ns2, ns2)` of patches `0..i`.
pub open spec fn centre_visits(ns2: int, i: int) -> Seq<(int, int, int)>
    decreases i,
{
    if i <= 0 {
        Seq::empty()
    } else {
        centre_visits(ns2, i - 1).push((i - 1, ns2, ns2))
    }
}

/// The number of quads in a row: `ns / 2`, one more when `ns` is odd.
pub open spec fn quads_per_row(ns: int) -> int {
    if ns % 2 == 0 {
        ns / 2
    } else {
        ns / 2 + 1
    }
}

/// The number of quads of a grid of `n` patches of `ns` segments.
pub open spec fn quad_count(n: int, ns: int) -> int {
    n * ((ns / 2) * quads_per_row(ns))
}

/// Every cell the faces of a grid visit, in order: the corners of every
/// quad, patch by patch and row by row, then, with an odd `ns`, the centre
/// cell of each patch.
pub open spec fn vmesh_visits(n: int, ns: int) -> Seq<(int, int, int)> {
    let q = quad_visits(ns / 2, quads_per_row(ns), n);
    if ns % 2 == 1 {
        q + centre_visits(ns / 2, n)
    } else {
        q
    }
}

/// The id a table of border ids gives to `(a, b)`, if any.
pub open spec fn border_at(bid: Seq<Vec<Option<usize>>>, a: int, b: int) -> Option<usize> {
    if 0 <= a < bid.len() && 0 <= b < bid[a]@.len() {
        bid[a]@[b]
    } else {
        None
    }
}

/// The existing point a canonical cell `c` reuses, if any: a cell of the
/// border row `j == 0` takes the id of its own profile; a cell of the first
/// or last column takes that of the previous or next patch's profile.
pub open spec fn border_of(bid: Seq<Vec<Option<usize>>>, n: int, ns: int, c: (int, int, int)) -> Option<usize> {
    let ns2 = ns / 2;
    if c.1 == 0 && border_at(bid, c.0, c.2) is Some {
        border_at(bid, c.0, c.2)
    } else if c.2 == 0 && 0 < c.1 <= ns2 && border_at(bid, (c.0 + n - 1) % n, ns - c.1) is Some {
        border_at(bid, (c.0 + n - 1) % n, ns - c.1)
    } else if c.2 == ns && 0 < c.1 <= ns2 && border_at(bid, (c.0 + 1) % n, c.1) is Some {
        border_at(bid, (c.0 + 1) % n, c.1)
    } else {
        None
    }
}

/// The canonical cell of a visited cell.
pub open spec fn canon_of(n: int, ns: int, v: (int, int, int)) -> (int, int, int) {
    canon_spec(n, ns, v.0, v.1, v.2)
}

/// The cells that get a new point when the cells `vs` are visited in order:
/// each canonical cell that reuses no border point, once, at its first
/// visit.
pub open spec fn fresh_cells(bid: Seq<Vec<Option<usize>>>, n: int, ns: int, vs: Seq<(int, int, int)>) -> Seq<(int, int, int)>
    decreases vs.len(),
{
    if vs.len() == 0 {
        Seq::empty()
    } else {
        let p = fresh_cells(bid, n, ns, vs.drop_last());
        let c = canon_of(n, ns, vs.last());
        if border_of(bid, n, ns, c) is Some || p.contains(c) {
            p
        } else {
            p.push(c)
        }
    }
}

/// Whether `id` is the point of a visited cell `v` when the new points are
/// numbered from `base` in the order of `fresh`: the border point that its
/// canonical cell reuses, or the new point of that cell.
pub open spec fn point_of(
    bid: Seq<Vec<Option<usize>>>,
    n: int,
    ns: int,
    base: int,
    fresh: Seq<(int, int, int)>,
    v: (int, int, int),
    id: int,
) -> bool {
    let c = canon_of(n, ns, v);
    match border_of(bid, n, ns, c) {
        Some(b) => id == b,
        None => base <= id < base + fresh.len() && fresh[id - base] == c,
    }
}

/// Whether `ids` gives the point of each visited cell of `vs`.
pub open spec fn ids_of(
    bid: Seq<Vec<Option<usize>>>,
    n: int,
    ns: int,
    base: int,
    vs: Seq<(int, int, int)>,
    ids: Seq<usize>,
) -> bool {
    &&& ids.len() == vs.len()
    &&& forall|t: int| 0 <= t < vs.len() ==> point_of(bid, n, ns, base, fresh_cells(bid, n, ns, vs), #[trigger] vs[t], ids[t] as int)
}

/// The faces made from the point ids `ids` of the visited cells: one quad
/// per four visits of the first `nq` quads; with a centre, one polygon
/// through the last `n` ids when `n >= 3`.
pub open spec fn faces_of(ids: Seq<usize>, nq: int, n: int, centre: bool) -> Seq<Seq<usize>> {
    let quads = Seq::new(nq as nat, |q: int| ids.subrange(4 * q, 4 * q + 4));
    if centre && n >= 3 {
        quads.push(ids.subrange(4 * nq, 4 * nq + n))
    } else {
        quads
    }
}

/// The values of the grid at the cells `cs`.
pub open spec fn values_at<T>(vm: VMeshGrid<T>, cs: Seq<(int, int, int)>) -> Seq<T> {
    Seq::new(cs.len(), |q: int| vm.data@[cell(vm.ns2 as int, vm.ns as int, cs[q].0, cs[q].1, cs[q].2)])
}

/// Fresh cells are canonical cells of the grid, each at most once.
proof fn lemma_fresh_cells_wf(bid: Seq<Vec<Option<usize>>>, n: int, ns: int, vs: Seq<(int, int, int)>)
    requires
        ns >= 0,
        forall|t: int| 0 <= t < vs.len() ==> in_grid(n, ns, #[trigger] vs[t].0, vs[t].1, vs[t].2),
    ensures
        fresh_cells(bid, n, ns, vs).no_duplicates(),
        forall|q: int| 0 <= q < fresh_cells(bid, n, ns, vs).len() ==> {
            let c = #[trigger] fresh_cells(bid, n, ns, vs)[q];
            in_grid(n, ns, c.0, c.1, c.2)
        },
    decreases vs.len(),
{
    if vs.len() > 0 {
        let v = vs.last();
        assert(in_grid(n, ns, vs[vs.len() - 1].0, vs[vs.len() - 1].1, vs[vs.len() - 1].2));
        lemma_fresh_cells_wf(bid, n, ns, vs.drop_last());
        lemma_canon_is_canonical(n, ns, v.0, v.1, v.2);
    }
}

/// The id of the point of visited cell `v` when the new points are
/// numbered from `base` in the order of `fresh`.
pub open spec fn visit_id(
    bid: Seq<Vec<Option<usize>>>,
    n: int,
    ns: int,
    base: int,
    fresh: Seq<(int, int, int)>,
    v: (int, int, int),
) -> int {
    let c = canon_of(n, ns, v);
    match border_of(bid, n, ns, c) {
        Some(b) => b as int,
        None => base + fresh.index_of(c),
    }
}

/// The point ids of the visited cells `vs`, new points numbered from
/// `base`.
pub open spec fn visit_ids(bid: Seq<Vec<Option<usize>>>, n: int, ns: int, base: int, vs: Seq<(int, int, int)>) -> Seq<usize> {
    let fresh = fresh_cells(bid, n, ns, vs);
    Seq::new(vs.len(), |t: int| visit_id(bid, n, ns, base, fresh, vs[t]) as usize)
}

/// Where the new point of each cell is recorded: the slot of a cell holds
/// the id of its new point, and only fresh cells have one.
spec fn slots_ok<T>(vm: VMeshGrid<T>, slot: Seq<Option<usize>>, base: int, fresh: Seq<(int, int, int)>) -> bool {
    &&& slot.len() == vm.data@.len()
    &&& forall|p: int| 0 <= p < slot.len() && #[trigger] slot[p] is Some ==> {
        let q = slot[p]->0 - base;
        &&& 0 <= q < fresh.len()
        &&& cell(vm.ns2 as int, vm.ns as int, fresh[q].0, fresh[q].1, fresh[q].2) == p
    }
    &&& forall|q: int| 0 <= q < fresh.len() ==> slot[cell(vm.ns2 as int, vm.ns as int, #[trigger] fresh[q].0, fresh[q].1, fresh[q].2)]
        == Some((base + q) as usize)
}

/// Every cell of `vs` is a cell of a grid of `n` patches of `ns` segments.
pub open spec fn all_in_grid(n: int, ns: int, vs: Seq<(int, int, int)>) -> bool {
    forall|t: int| 0 <= t < vs.len() ==> in_grid(n, ns, #[trigger] vs[t].0, vs[t].1, vs[t].2)
}

/// Visiting one more cell keeps the fresh cells found so far, in order.
proof fn lemma_fresh_cells_push(bid: Seq<Vec<Option<usize>>>, n: int, ns: int, vs: Seq<(int, int, int)>, v: (int, int, int))
    ensures
        ({
            let f0 = fresh_cells(bid, n, ns, vs);
            let f1 = fresh_cells(bid, n, ns, vs.push(v));
            let c = canon_of(n, ns, v);
            f1 == if border_of(bid, n, ns, c) is Some || f0.contains(c) {
                f0
            } else {
                f0.push(c)
            }
        }),
{
    assert(vs.push(v).drop_last() =~= vs);
}

/// With new points numbered in the order of a sequence of distinct cells,
/// the point a visit names is the one `visit_id` gives.
proof fn lemma_point_of_is_visit_id(
    bid: Seq<Vec<Option<usize>>>,
    n: int,
    ns: int,
    base: int,
    fresh: Seq<(int, int, int)>,
    v: (int, int, int),
    id: int,
)
    requires
        fresh.no_duplicates(),
        point_of(bid, n, ns, base, fresh, v, id),
    ensures
        id == visit_id(bid, n, ns, base, fresh, v),
{
    let c = canon_of(n, ns, v);
    if border_of(bid, n, ns, c) is None {
        let q = id - base;
        assert(fresh[q] == c);
        let w = fresh.index_of(c);
        assert(0 <= w < fresh.len() && fresh[w] == c);
    }
}

/// Whatever a visit named stays named when more fresh cells follow.
proof fn lemma_point_of_extend(
    bid: Seq<Vec<Option<usize>>>,
    n: int,
    ns: int,
    base: int,
    f0: Seq<(int, int, int)>,
    f1: Seq<(int, int, int)>,
    v: (int, int, int),
    id: int,
)
    requires
        f0.len() <= f1.len(),
        f1.subrange(0, f0.len() as int) == f0,
        point_of(bid, n, ns, base, f0, v, id),
    ensures
        point_of(bid, n, ns, base, f1, v, id),
{
    let c = canon_of(n, ns, v);
    if border_of(bid, n, ns, c) is None {
        assert(f1[id - base] == f1.subrange(0, f0.len() as int)[id - base]);
    }
}

fn border_lookup(bid: &Vec<Vec<Option<usize>>>, a: usize, b: usize) -> (r: Option<usize>)
    ensures
        r == border_at(bid@, a as int, b as int),
{
    if a < bid.len() && b < bid[a].len() {
        bid[a][b]
    } else {
        None
    }
}

/// The border point that canonical cell `(ci, cj, ck)` reuses, if any.
fn border_point(bid: &Vec<Vec<Option<usize>>>, n: usize, ns: usize, ci: usize, cj: usize, ck: usize) -> (r: Option<usize>)
    requires
        ci < n,
        cj <= ns / 2,
    ensures
        r == border_of(bid@, n as int, ns as int, (ci as int, cj as int, ck as int)),
{
    let ns2 = ns / 2;
    if cj == 0 {
        let r = border_lookup(bid, ci, ck);
        if r.is_some() {
            return r;
        }
    }
    if ck == 0 && cj > 0 && cj <= ns2 {
        let prev = if ci == 0 {
            n - 1
        } else {
            ci - 1
        };
        assert(prev as int == (ci + n - 1) % (n as int)) by (nonlinear_arith)
            requires
                ci < n,
                prev == if ci == 0 {
                    n - 1
                } else {
                    ci - 1
                },
        ;
        let r = border_lookup(bid, prev, ns - cj);
        if r.is_some() {
            return r;
        }
    }
    if ck == ns && cj > 0 && cj <= ns2 {
        let next = (ci + 1) % n;
        let r = border_lookup(bid, next, cj);
        if r.is_some() {
            return r;
        }
    }
    None
}

/// The point of cell `(i, j, k)`: its canonical cell's border point, the
/// point already made for that cell, or a new point with the cell's value,
/// appended to `out_p` and recorded in `slot`.
fn vertex_at<T: Copy>(
    vm: &VMeshGrid<T>,
    bid: &Vec<Vec<Option<usize>>>,
    base: usize,
    out_p: &mut Vec<T>,
    slot: &mut Vec<Option<usize>>,
    i: usize,
    j: usize,
    k: usize,
    Ghost(vs): Ghost<Seq<(int, int, int)>>,
    Ghost(pre): Ghost<Seq<T>>,
) -> (id: usize)
    requires
        vm.wf(),
        in_grid(vm.n as int, vm.ns as int, i as int, j as int, k as int),
        all_in_grid(vm.n as int, vm.ns as int, vs),
        pre.len() == base,
        slots_ok(*vm, old(slot)@, base as int, fresh_cells(bid@, vm.n as int, vm.ns as int, vs)),
        old(out_p)@ == pre + values_at(*vm, fresh_cells(bid@, vm.n as int, vm.ns as int, vs)),
    ensures
        ({
            let vs1 = vs.push((i as int, j as int, k as int));
            let f1 = fresh_cells(bid@, vm.n as int, vm.ns as int, vs1);
            &&& slots_ok(*vm, final(slot)@, base as int, f1)
            &&& final(out_p)@ == pre + values_at(*vm, f1)
            &&& point_of(bid@, vm.n as int, vm.ns as int, base as int, f1, (i as int, j as int, k as int), id as int)
        }),
{
    let ghost n = vm.n as int;
    let ghost ns = vm.ns as int;
    let ghost v = (i as int, j as int, k as int);
    let ghost f0 = fresh_cells(bid@, n, ns, vs);
    proof {
        lemma_fresh_cells_push(bid@, n, ns, vs, v);
        lemma_fresh_cells_wf(bid@, n, ns, vs);
        lemma_canon_is_canonical(n, ns, i as int, j as int, k as int);
    }
    let (ci, cj, ck) = vm.canon(i, j, k);
    let ghost c = (ci as int, cj as int, ck as int);
    assert(c == canon_of(n, ns, v));
    let b = border_point(bid, vm.n, vm.ns, ci, cj, ck);
    if let Some(id) = b {
        return id;
    }
    let p = vm.idx(ci, cj, ck);
    match slot[p] {
        Some(id) => {
            proof {
                assert(slot@[p as int] is Some);
                let q = id - base;
                let fq = f0[q];
                lemma_cell_injective(vm.ns2 as int, ns, fq.0, fq.1, fq.2, ci as int, cj as int, ck as int);
                assert(f0.contains(c));
            }
            id
        },
        None => {
            proof {
                if f0.contains(c) {
                    let q = choose|q: int| 0 <= q < f0.len() && f0[q] == c;
                    assert(slot@[cell(vm.ns2 as int, ns, f0[q].0, f0[q].1, f0[q].2)] == Some((base + q) as usize));
                }
            }
            let id = out_p.len();
            let val = vm.get(ci, cj, ck);
            out_p.push(val);
            slot.set(p, Some(id));
            proof {
                let f1 = f0.push(c);
                assert(id == base + f0.len());
                assert(out_p@ =~= pre + values_at(*vm, f1));
                assert forall|pp: int| 0 <= pp < slot@.len() && #[trigger] slot@[pp] is Some implies {
                    let q = slot@[pp]->0 - base;
                    &&& 0 <= q < f1.len()
                    &&& cell(vm.ns2 as int, vm.ns as int, f1[q].0, f1[q].1, f1[q].2) == pp
                } by {
                    if pp != p {
                        assert(old(slot)@[pp] == slot@[pp]);
                    }
                }
                assert forall|q: int| 0 <= q < f1.len() implies slot@[cell(vm.ns2 as int, vm.ns as int, #[trigger] f1[q].0, f1[q].1, f1[q].2)]
                    == Some((base + q) as usize) by {
                    if q < f0.len() {
                        let fq = f0[q];
                        assert(f1[q] == fq);
                        assert(in_grid(n, ns, fq.0, fq.1, fq.2));
                        if cell(vm.ns2 as int, ns, fq.0, fq.1, fq.2) == p {
                            lemma_cell_injective(vm.ns2 as int, ns, fq.0, fq.1, fq.2, ci as int, cj as int, ck as int);
                            assert(f0.contains(c));
                        }
                        lemma_cell_bounds(n, vm.ns2 as int, ns, fq.0, fq.1, fq.2);
                        let cq = cell(vm.ns2 as int, ns, fq.0, fq.1, fq.2);
                        assert(cq != p);
                        assert(slot@[cq] == old(slot)@[cq]);
                        assert(old(slot)@[cq] == Some((base + q) as usize));
                    } else {
                        assert(f1[q] == c);
                        assert(slot@[p as int] == Some(id));
                    }
                }
            }
            id
        },
    }
}

/// What has been emitted after visiting the cells `vs`: `ids` names the
/// point of each visit, `slot` records the new points, and `pts` is `pre`
/// followed by the values of the fresh cells.
spec fn state_ok<T: Copy>(
    vm: VMeshGrid<T>,
    bid: Seq<Vec<Option<usize>>>,
    base: int,
    pre: Seq<T>,
    vs: Seq<(int, int, int)>,
    ids: Seq<usize>,
    slot: Seq<Option<usize>>,
    pts: Seq<T>,
) -> bool {
    let n = vm.n as int;
    let ns = vm.ns as int;
    let f = fresh_cells(bid, n, ns, vs);
    &&& vm.wf()
    &&& pre.len() == base
    &&& all_in_grid(n, ns, vs)
    &&& ids.len() == vs.len()
    &&& forall|t: int| 0 <= t < vs.len() ==> point_of(bid, n, ns, base, f, #[trigger] vs[t], ids[t] as int)
    &&& slots_ok(vm, slot, base, f)
    &&& pts == pre + values_at(vm, f)
}

/// Visits cell `(i, j, k)` and gives the id of its point.
fn visit<T: Copy>(
    vm: &VMeshGrid<T>,
    bid: &Vec<Vec<Option<usize>>>,
    base: usize,
    out_p: &mut Vec<T>,
    slot: &mut Vec<Option<usize>>,
    i: usize,
    j: usize,
    k: usize,
    Ghost(vs): Ghost<Seq<(int, int, int)>>,
    Ghost(ids): Ghost<Seq<usize>>,
    Ghost(pre): Ghost<Seq<T>>,
) -> (id: usize)
    requires
        in_grid(vm.n as int, vm.ns as int, i as int, j as int, k as int),
        state_ok(*vm, bid@, base as int, pre, vs, ids, old(slot)@, old(out_p)@),
    ensures
        state_ok(
            *vm,
            bid@,
            base as int,
            pre,
            vs.push((i as int, j as int, k as int)),
            ids.push(id),
            final(slot)@,
            final(out_p)@,
        ),
{
    let ghost n = vm.n as int;
    let ghost ns = vm.ns as int;
    let ghost v = (i as int, j as int, k as int);
    let id = vertex_at(vm, bid, base, out_p, slot, i, j, k, Ghost(vs), Ghost(pre));
    proof {
        let f0 = fresh_cells(bid@, n, ns, vs);
        let vs1 = vs.push(v);
        let ids1 = ids.push(id);
        let f1 = fresh_cells(bid@, n, ns, vs1);
        lemma_fresh_cells_push(bid@, n, ns, vs, v);
        assert(f1.subrange(0, f0.len() as int) =~= f0);
        assert forall|t: int| 0 <= t < vs1.len() implies point_of(bid@, n, ns, base as int, f1, #[trigger] vs1[t], ids1[t] as int) by {
            if t < vs.len() {
                assert(vs1[t] == vs[t]);
                assert(point_of(bid@, n, ns, base as int, f0, vs[t], ids[t] as int));
                lemma_point_of_extend(bid@, n, ns, base as int, f0, f1, vs[t], ids[t] as int);
            }
        }
        assert forall|t: int| 0 <= t < vs1.len() implies in_grid(n, ns, #[trigger] vs1[t].0, vs1[t].1, vs1[t].2) by {
            if t < vs.len() {
                assert(vs1[t] == vs[t]);
            }
        }
    }
    id
}

/// The quads of the first `nq` groups of four ids.
pub open spec fn quads_of(ids: Seq<usize>, nq: int) -> Seq<Seq<usize>> {
    Seq::new(nq as nat, |q: int| ids.subrange(4 * q, 4 * q + 4))
}

proof fn lemma_quads_of_extend(ids: Seq<usize>, ids2: Seq<usize>, nq: int)
    requires
        0 <= nq,
        4 * nq <= ids.len() <= ids2.len(),
        ids2.subrange(0, ids.len() as int) == ids,
    ensures
        quads_of(ids2, nq) == quads_of(ids, nq),
{
    assert forall|q: int| 0 <= q < nq implies #[trigger] quads_of(ids2, nq)[q] == quads_of(ids, nq)[q] by {
        assert(ids2.subrange(4 * q, 4 * q + 4) =~= ids.subrange(4 * q, 4 * q + 4)) by {
            assert forall|x: int| 0 <= x < 4 implies #[trigger] ids2.subrange(4 * q, 4 * q + 4)[x] == ids.subrange(4 * q, 4 * q + 4)[x] by {
                assert(ids2.subrange(0, ids.len() as int)[4 * q + x] == ids2[4 * q + x]);
            }
        }
    }
    assert(quads_of(ids2, nq) =~= quads_of(ids, nq));
}

/// Emits the faces of a vertex mesh: the points of the fresh cells go to
/// `out_p` in order of first visit, and the quads, then the centre polygon
/// when `ns` is odd and there are at least three patches, go to `out_polys`.
fn emit_into<T: Copy>(vm: &VMeshGrid<T>, bid: &Vec<Vec<Option<usize>>>, out_p: &mut Vec<T>, out_polys: &mut Vec<Vec<usize>>)
    requires
        vm.wf(),
    ensures
        ({
            let n = vm.n as int;
            let ns = vm.ns as int;
            let vs = vmesh_visits(n, ns);
            let fresh = fresh_cells(bid@, n, ns, vs);
            let ids = visit_ids(bid@, n, ns, old(out_p)@.len() as int, vs);
            &&& final(out_p)@ == old(out_p)@ + values_at(*vm, fresh)
            &&& final(out_polys)@.map_values(|p: Vec<usize>| p@) == old(out_polys)@.map_values(|p: Vec<usize>| p@)
                + faces_of(ids, quad_count(n, ns), n, ns % 2 == 1)
        }),
{
    let n = vm.n;
    let ns = vm.ns;
    let ns2 = vm.ns2;
    let kmax: usize = if ns % 2 == 0 {
        ns2
    } else {
        ns2 + 1
    };
    let base = out_p.len();
    let ghost pre = out_p@;
    let ghost pp0 = out_polys@.map_values(|p: Vec<usize>| p@);
    let ghost gn = n as int;
    let ghost gns = ns as int;
    let mut slot: Vec<Option<usize>> = Vec::new();
    let total = vm.data.len();
    let mut p: usize = 0;
    while p < total
        invariant
            p <= total,
            slot@.len() == p,
            forall|q: int| 0 <= q < p ==> #[trigger] slot@[q] is None,
        decreases total - p,
    {
        slot.push(None);
        p += 1;
    }
    let ghost mut vs: Seq<(int, int, int)> = Seq::empty();
    let ghost mut ids: Seq<usize> = Seq::empty();
    let ghost mut nq: int = 0;
    assert(fresh_cells(bid@, gn, gns, vs) =~= Seq::<(int, int, int)>::empty());
    assert(out_p@ =~= pre + values_at(*vm, Seq::<(int, int, int)>::empty()));
    let mut i: usize = 0;
    while i < n
        invariant
            n == vm.n,
            ns == vm.ns,
            ns2 == vm.ns2,
            gn == n,
            gns == ns,
            kmax as int == quads_per_row(ns as int),
            i <= n,
            vs == quad_visits(ns2 as int, kmax as int, i as int),
            state_ok(*vm, bid@, base as int, pre, vs, ids, slot@, out_p@),
            nq == i * (ns2 * kmax),
            ids.len() == 4 * nq,
            out_polys@.map_values(|p: Vec<usize>| p@) == pp0 + quads_of(ids, nq),
        decreases n - i,
    {
        let mut j: usize = 0;
        while j < ns2
            invariant
                n == vm.n,
                ns == vm.ns,
                ns2 == vm.ns2,
                gn == n,
                gns == ns,
                kmax as int == quads_per_row(ns as int),
                i < n,
                j <= ns2,
                vs == quad_visits(ns2 as int, kmax as int, i as int) + patch_visits(i as int, kmax as int, j as int),
                state_ok(*vm, bid@, base as int, pre, vs, ids, slot@, out_p@),
                nq == i * (ns2 * kmax) + j * kmax,
                ids.len() == 4 * nq,
                out_polys@.map_values(|p: Vec<usize>| p@) == pp0 + quads_of(ids, nq),
            decreases ns2 - j,
        {
            let mut k: usize = 0;
            while k < kmax
                invariant
                    n == vm.n,
                    ns == vm.ns,
                    ns2 == vm.ns2,
                    gn == n,
                    gns == ns,
                    kmax as int == quads_per_row(ns as int),
                    i < n,
                    j < ns2,
                    k <= kmax,
                    vs == quad_visits(ns2 as int, kmax as int, i as int) + patch_visits(i as int, kmax as int, j as int)
                        + row_visits(i as int, j as int, k as int),
                    state_ok(*vm, bid@, base as int, pre, vs, ids, slot@, out_p@),
                    nq == i * (ns2 * kmax) + j * kmax + k,
                    ids.len() == 4 * nq,
                    out_polys@.map_values(|p: Vec<usize>| p@) == pp0 + quads_of(ids, nq),
                decreases kmax - k,
            {
                let ghost ids0 = ids;
                let ghost vs0 = vs;
                let ghost polys0 = out_polys@.map_values(|p: Vec<usize>| p@);
                let a = visit(vm, bid, base, out_p, &mut slot, i, j, k, Ghost(vs), Ghost(ids), Ghost(pre));
                proof {
                    vs = vs.push((i as int, j as int, k as int));
                    ids = ids.push(a);
                }
                let b = visit(vm, bid, base, out_p, &mut slot, i, j, k + 1, Ghost(vs), Ghost(ids), Ghost(pre));
                proof {
                    vs = vs.push((i as int, j as int, k + 1));
                    ids = ids.push(b);
                }
                let c = visit(vm, bid, base, out_p, &mut slot, i, j + 1, k + 1, Ghost(vs), Ghost(ids), Ghost(pre));
                proof {
                    vs = vs.push((i as int, j + 1, k + 1));
                    ids = ids.push(c);
                }
                let d = visit(vm, bid, base, out_p, &mut slot, i, j + 1, k, Ghost(vs), Ghost(ids), Ghost(pre));
                proof {
                    vs = vs.push((i as int, j + 1, k as int));
                    ids = ids.push(d);
                }
                let mut quad: Vec<usize> = Vec::new();
                quad.push(a);
                quad.push(b);
                quad.push(c);
                quad.push(d);
                out_polys.push(quad);
                proof {
                    assert(vs =~= vs0 + seq![(i as int, j as int, k as int), (i as int, j as int, k + 1), (i as int, j + 1, k + 1), (i as int, j + 1, k as int)]);
                    assert(vs =~= quad_visits(ns2 as int, kmax as int, i as int) + patch_visits(i as int, kmax as int, j as int)
                        + row_visits(i as int, j as int, k + 1));
                    assert(ids.subrange(0, ids0.len() as int) =~= ids0);
                    lemma_quads_of_extend(ids0, ids, nq);
                    assert(ids.subrange(4 * nq, 4 * nq + 4) =~= quad@);
                    assert(quads_of(ids, nq + 1) =~= quads_of(ids, nq).push(quad@));
                    assert(out_polys@.map_values(|p: Vec<usize>| p@) =~= polys0.push(quad@));
                    nq = nq + 1;
                }
                k += 1;
            }
            proof {
                assert(vs =~= quad_visits(ns2 as int, kmax as int, i as int) + patch_visits(i as int, kmax as int, j + 1));
                assert(nq == i * (ns2 * kmax) + (j + 1) * kmax) by (nonlinear_arith)
                    requires
                        nq == i * (ns2 * kmax) + j * kmax + kmax,
                ;
            }
            j += 1;
        }
        proof {
            assert(vs =~= quad_visits(ns2 as int, kmax as int, i + 1));
            assert(nq == (i + 1) * (ns2 * kmax)) by (nonlinear_arith)
                requires
                    nq == i * (ns2 * kmax) + ns2 * kmax,
            ;
        }
        i += 1;
    }
    let ghost nqs = nq;
    let ghost ids_q = ids;
    let ghost polys_q = out_polys@.map_values(|p: Vec<usize>| p@);
    if ns % 2 != 0 {
        let mut poly: Vec<usize> = Vec::new();
        let mut i: usize = 0;
        while i < n
            invariant
                n == vm.n,
                ns == vm.ns,
                ns2 == vm.ns2,
                gn == n,
                gns == ns,
                ns % 2 == 1,
                i <= n,
                vs == quad_visits(ns2 as int, kmax as int, n as int) + centre_visits(ns2 as int, i as int),
                state_ok(*vm, bid@, base as int, pre, vs, ids, slot@, out_p@),
                ids.len() == 4 * nqs + i,
                ids.subrange(0, 4 * nqs) == ids_q,
                ids_q.len() == 4 * nqs,
                poly@ == ids.subrange(4 * nqs, 4 * nqs + i),
                out_polys@.map_values(|p: Vec<usize>| p@) == polys_q,
            decreases n - i,
        {
            let ghost ids0 = ids;
            let id = visit(vm, bid, base, out_p, &mut slot, i, ns2, ns2, Ghost(vs), Ghost(ids), Ghost(pre));
            proof {
                vs = vs.push((i as int, ns2 as int, ns2 as int));
                ids = ids.push(id);
            }
            poly.push(id);
            proof {
                assert(ids.subrange(0, 4 * nqs) =~= ids0.subrange(0, 4 * nqs));
                assert(poly@ =~= ids.subrange(4 * nqs, 4 * nqs + i + 1));
            }
            i += 1;
        }
        let ghost pv = poly@;
        if poly.len() >= 3 {
            out_polys.push(poly);
        }
        proof {
            lemma_quads_of_extend(ids_q, ids, nqs);
            assert(faces_of(ids, nqs, gn, true) == if gn >= 3 {
                quads_of(ids, nqs).push(pv)
            } else {
                quads_of(ids, nqs)
            });
            if gn >= 3 {
                assert(out_polys@.map_values(|p: Vec<usize>| p@) =~= polys_q.push(pv));
                assert(pp0 + quads_of(ids, nqs).push(pv) =~= (pp0 + quads_of(ids, nqs)).push(pv));
            }
            assert(out_polys@.map_values(|p: Vec<usize>| p@) == pp0 + faces_of(ids, nqs, gn, true));
        }
    }
    proof {
        let fresh = fresh_cells(bid@, gn, gns, vs);
        lemma_fresh_cells_wf(bid@, gn, gns, vs);
        assert(vs == vmesh_visits(gn, gns));
        assert forall|t: int| 0 <= t < vs.len() implies #[trigger] ids[t] == visit_ids(bid@, gn, gns, base as int, vs)[t] by {
            lemma_point_of_is_visit_id(bid@, gn, gns, base as int, fresh, vs[t], ids[t] as int);
        }
        assert(ids =~= visit_ids(bid@, gn, gns, base as int, vs));
        assert(nqs == quad_count(gn, gns));
        if gns % 2 == 0 {
            assert(faces_of(ids, nqs, gn, false) == quads_of(ids, nqs));
        }
    }
}

/// The points and faces of one or more vertex meshes.
pub struct VMeshResult<T> {
    pub points: Vec<T>,
    pub polys: Vec<Vec<usize>>,
}

impl<T> VMeshResult<T> {
    /// No points and no faces.
    pub fn new() -> (r: Self)
        ensures
            r.points@.len() == 0,
            r.polys@.len() == 0,
    {
        VMeshResult { points: Vec::new(), polys: Vec::new() }
    }

    /// No points and no faces, with room reserved for `pts` points and
    /// `polys` faces.
    pub fn with_capacity(pts: usize, polys: usize) -> (r: Self)
        ensures
            r.points@.len() == 0,
            r.polys@.len() == 0,
    {
        VMeshResult { points: Vec::with_capacity(pts), polys: Vec::with_capacity(polys) }
    }
}

/// The new points of a vertex mesh whose cells reuse no border point: the
/// value of each canonical cell, in order of first visit.
pub open spec fn emitted_points<T>(vm: VMeshGrid<T>) -> Seq<T> {
    values_at(vm, fresh_cells(Seq::empty(), vm.n as int, vm.ns as int, vmesh_visits(vm.n as int, vm.ns as int)))
}

/// The faces of a vertex mesh whose cells reuse no border point, its new
/// points numbered from `base`.
pub open spec fn emitted_faces<T>(vm: VMeshGrid<T>, base: int) -> Seq<Seq<usize>> {
    let n = vm.n as int;
    let ns = vm.ns as int;
    faces_of(visit_ids(Seq::empty(), n, ns, base, vmesh_visits(n, ns)), quad_count(n, ns), n, ns % 2 == 1)
}

/// The points and faces of the vertex meshes `vms` one after another, the
/// faces of each numbered after the points of those before it.
pub open spec fn merged_emit<T>(vms: Seq<VMeshGrid<T>>) -> (Seq<T>, Seq<Seq<usize>>)
    decreases vms.len(),
{
    if vms.len() == 0 {
        (Seq::empty(), Seq::empty())
    } else {
        let (pts, faces) = merged_emit(vms.drop_last());
        (pts + emitted_points(vms.last()), faces + emitted_faces(vms.last(), pts.len() as int))
    }
}

/// The points and faces of one vertex mesh of `ns` segments: a point per
/// canonical cell, in order of first visit, and its quads (and centre
/// polygon).
pub fn emit_vmesh_result<T: Copy>(vm: &VMeshGrid<T>, ns: usize) -> (r: VMeshResult<T>)
    requires
        vm.wf(),
        ns == vm.ns,
    ensures
        r.points@ == emitted_points(*vm),
        r.polys@.map_values(|p: Vec<usize>| p@) == emitted_faces(*vm, 0),
{
    let mut r = VMeshResult::new();
    let bid: Vec<Vec<Option<usize>>> = Vec::new();
    assert(bid@ =~= Seq::<Vec<Option<usize>>>::empty());
    emit_into(vm, &bid, &mut r.points, &mut r.polys);
    assert(r.points@ =~= emitted_points(*vm));
    assert(r.polys@.map_values(|p: Vec<usize>| p@) =~= emitted_faces(*vm, 0));
    r
}

/// The points and faces of the vertex meshes of `corners`, each of `ns`
/// segments, merged in order: the faces of each corner are numbered after
/// the points of the corners before it.
pub fn parallel_vmesh_emit<T: Copy>(corners: &Vec<(VMeshGrid<T>, usize)>, ns: usize) -> (r: VMeshResult<T>)
    requires
        forall|c: int| 0 <= c < corners@.len() ==> (#[trigger] corners@[c]).0.wf() && corners@[c].0.ns == ns,
    ensures
        ({
            let m = merged_emit(corners@.map_values(|c: (VMeshGrid<T>, usize)| c.0));
            &&& r.points@ == m.0
            &&& r.polys@.map_values(|p: Vec<usize>| p@) == m.1
        }),
{
    let ghost vms = corners@.map_values(|c: (VMeshGrid<T>, usize)| c.0);
    let mut r = VMeshResult::new();
    let bid: Vec<Vec<Option<usize>>> = Vec::new();
    assert(bid@ =~= Seq::<Vec<Option<usize>>>::empty());
    let mut c: usize = 0;
    while c < corners.len()
        invariant
            c <= corners@.len(),
            vms == corners@.map_values(|c: (VMeshGrid<T>, usize)| c.0),
            bid@ == Seq::<Vec<Option<usize>>>::empty(),
            forall|c: int| 0 <= c < corners@.len() ==> (#[trigger] corners@[c]).0.wf() && corners@[c].0.ns == ns,
            r.points@ == merged_emit(vms.subrange(0, c as int)).0,
            r.polys@.map_values(|p: Vec<usize>| p@) == merged_emit(vms.subrange(0, c as int)).1,
        decreases corners.len() - c,
    {
        let ghost p0 = r.points@;
        let ghost f0 = r.polys@.map_values(|p: Vec<usize>| p@);
        let vm = &corners[c].0;
        emit_into(vm, &bid, &mut r.points, &mut r.polys);
        proof {
            let s1 = vms.subrange(0, c + 1);
            assert(s1.drop_last() =~= vms.subrange(0, c as int));
            assert(s1.last() == *vm);
            assert(r.points@ =~= merged_emit(s1).0);
            assert(r.polys@.map_values(|p: Vec<usize>| p@) =~= merged_emit(s1).1);
        }
        c += 1;
    }
    assert(vms.subrange(0, corners@.len() as int) =~= vms);
    r
}

/// The faces of a vertex mesh of `ns` segments whose border cells reuse
/// the profile points that `boundary` gives (`boundary[i][k]` for point `k`
/// of the profile of patch `i`): the new points are appended to `out_p`,
/// in order of first visit, and the faces to `out_polys`.
pub fn emit_vmesh_faces<T: Copy>(
    vm: &VMeshGrid<T>,
    ns: usize,
    out_p: &mut Vec<T>,
    boundary: &Vec<Vec<Option<usize>>>,
    out_polys: &mut Vec<Vec<usize>>,
)
    requires
        vm.wf(),
        ns == vm.ns,
    ensures
        ({
            let n = vm.n as int;
            let vs = vmesh_visits(n, ns as int);
            let fresh = fresh_cells(boundary@, n, ns as int, vs);
            let ids = visit_ids(boundary@, n, ns as int, old(out_p)@.len() as int, vs);
            &&& final(out_p)@ == old(out_p)@ + values_at(*vm, fresh)
            &&& final(out_polys)@.map_values(|p: Vec<usize>| p@) == old(out_polys)@.map_values(|p: Vec<usize>| p@)
                + faces_of(ids, quad_count(n, ns as int), n, ns % 2 == 1)
        }),
{
    emit_into(vm, boundary, out_p, out_polys);
}

proof fn lemma_row_visits_in_grid(n: int, ns: int, i: int, j: int, k: int)
    requires
        0 <= i < n,
        0 <= j < ns / 2,
        k <= quads_per_row(ns),
    ensures
        all_in_grid(n, ns, row_visits(i, j, k)),
    decreases k,
{
    if k > 0 {
        lemma_row_visits_in_grid(n, ns, i, j, k - 1);
        let a = row_visits(i, j, k - 1);
        let b = seq![(i, j, k - 1), (i, j, k), (i, j + 1, k), (i, j + 1, k - 1)];
        assert forall|t: int| 0 <= t < (a + b).len() implies in_grid(n, ns, #[trigger] (a + b)[t].0, (a + b)[t].1, (a + b)[t].2) by {
            if t >= a.len() {
                assert((a + b)[t] == b[t - a.len()]);
            } else {
                assert((a + b)[t] == a[t]);
            }
        }
    }
}

proof fn lemma_concat_in_grid(n: int, ns: int, a: Seq<(int, int, int)>, b: Seq<(int, int, int)>)
    requires
        all_in_grid(n, ns, a),
        all_in_grid(n, ns, b),
    ensures
        all_in_grid(n, ns, a + b),
{
    assert forall|t: int| 0 <= t < (a + b).len() implies in_grid(n, ns, #[trigger] (a + b)[t].0, (a + b)[t].1, (a + b)[t].2) by {
        if t >= a.len() {
            assert((a + b)[t] == b[t - a.len()]);
        } else {
            assert((a + b)[t] == a[t]);
        }
    }
}

proof fn lemma_patch_visits_in_grid(n: int, ns: int, i: int, j: int)
    requires
        0 <= i < n,
        j <= ns / 2,
    ensures
        all_in_grid(n, ns, patch_visits(i, quads_per_row(ns), j)),
    decreases j,
{
    if j > 0 {
        lemma_patch_visits_in_grid(n, ns, i, j - 1);
        lemma_row_visits_in_grid(n, ns, i, j - 1, quads_per_row(ns));
        lemma_concat_in_grid(n, ns, patch_visits(i, quads_per_row(ns), j - 1), row_visits(i, j - 1, quads_per_row(ns)));
    }
}

proof fn lemma_quad_visits_in_grid(n: int, ns: int, i: int)
    requires
        i <= n,
    ensures
        all_in_grid(n, ns, quad_visits(ns / 2, quads_per_row(ns), i)),
    decreases i,
{
    if i > 0 {
        lemma_quad_visits_in_grid(n, ns, i - 1);
        lemma_patch_visits_in_grid(n, ns, i - 1, ns / 2);
        lemma_concat_in_grid(n, ns, quad_visits(ns / 2, quads_per_row(ns), i - 1), patch_visits(i - 1, quads_per_row(ns), ns / 2));
    }
}

proof fn lemma_centre_visits_in_grid(n: int, ns: int, i: int)
    requires
        i <= n,
        ns >= 0,
    ensures
        all_in_grid(n, ns, centre_visits(ns / 2, i)),
    decreases i,
{
    if i > 0 {
        lemma_centre_visits_in_grid(n, ns, i - 1);
    }
}

/// Every cell that the faces of a grid visit is a cell of the grid.
pub proof fn lemma_vmesh_visits_in_grid(n: int, ns: int)
    requires
        ns >= 0,
    ensures
        all_in_grid(n, ns, vmesh_visits(n, ns)),
{
    lemma_quad_visits_in_grid(n, ns, n);
    if ns % 2 == 1 {
        lemma_centre_visits_in_grid(n, ns, n);
        lemma_concat_in_grid(n, ns, quad_visits(ns / 2, quads_per_row(ns), n), centre_visits(ns / 2, n));
    }
}

/// Every face of a vertex mesh names an existing point: when every border
/// id is below `base`, the number of points before the mesh, each id is
/// below `base` plus the number of new points.
pub proof fn lemma_vmesh_ids_in_range(bid: Seq<Vec<Option<usize>>>, n: int, ns: int, base: int)
    requires
        ns >= 0,
        0 <= base,
        forall|a: int, b: int| 0 <= a < bid.len() && 0 <= b < bid[a]@.len() && #[trigger] bid[a]@[b] is Some ==> bid[a]@[b]->0 < base,
        base + fresh_cells(bid, n, ns, vmesh_visits(n, ns)).len() <= usize::MAX,
    ensures
        ({
            let vs = vmesh_visits(n, ns);
            let ids = visit_ids(bid, n, ns, base, vs);
            &&& ids.len() == vs.len()
            &&& forall|t: int| 0 <= t < ids.len() ==> #[trigger] ids[t] < base + fresh_cells(bid, n, ns, vs).len()
        }),
{
    let vs = vmesh_visits(n, ns);
    let fresh = fresh_cells(bid, n, ns, vs);
    lemma_vmesh_visits_in_grid(n, ns);
    lemma_fresh_cells_wf(bid, n, ns, vs);
    assert forall|t: int| 0 <= t < vs.len() implies #[trigger] visit_ids(bid, n, ns, base, vs)[t] < base + fresh.len() by {
        let v = vs[t];
        let c = canon_of(n, ns, v);
        assert(in_grid(n, ns, v.0, v.1, v.2));
        lemma_canon_is_canonical(n, ns, v.0, v.1, v.2);
        if border_of(bid, n, ns, c) is None {
            lemma_fresh_contains_canon(bid, n, ns, vs, t);
            let w = fresh.index_of(c);
            assert(0 <= w < fresh.len() && fresh[w] == c);
        }
    }
}

/// The canonical cell of a visit that reuses no border point is among the
/// fresh cells.
proof fn lemma_fresh_contains_canon(bid: Seq<Vec<Option<usize>>>, n: int, ns: int, vs: Seq<(int, int, int)>, t: int)
    requires
        0 <= t < vs.len(),
        border_of(bid, n, ns, canon_of(n, ns, vs[t])) is None,
    ensures
        fresh_cells(bid, n, ns, vs).contains(canon_of(n, ns, vs[t])),
    decreases vs.len(),
{
    let vs0 = vs.drop_last();
    lemma_fresh_cells_push(bid, n, ns, vs0, vs.last());
    assert(vs0.push(vs.last()) =~= vs);
    let f0 = fresh_cells(bid, n, ns, vs0);
    let f1 = fresh_cells(bid, n, ns, vs);
    if t < vs.len() - 1 {
        assert(vs0[t] == vs[t]);
        lemma_fresh_contains_canon(bid, n, ns, vs0, t);
        let q = choose|q: int| 0 <= q < f0.len() && f0[q] == canon_of(n, ns, vs[t]);
        assert(f1[q] == f0[q]);
    } else {
        let c = canon_of(n, ns, vs.last());
        if !f0.contains(c) {
            assert(f1[f0.len() as int] == c);
        }
    }
}

/// Two visits of a vertex mesh whose cells reuse no border point get the
/// same point exactly when they share their canonical cell.
pub proof fn lemma_vmesh_points_shared(n: int, ns: int, t: int, u: int)
    requires
        ns >= 0,
        0 <= t < vmesh_visits(n, ns).len(),
        0 <= u < vmesh_visits(n, ns).len(),
        vmesh_visits(n, ns).len() <= usize::MAX,
    ensures
        ({
            let vs = vmesh_visits(n, ns);
            let ids = visit_ids(Seq::empty(), n, ns, 0, vs);
            ids[t] == ids[u] <==> canon_of(n, ns, vs[t]) == canon_of(n, ns, vs[u])
        }),
{
    let bid = Seq::<Vec<Option<usize>>>::empty();
    let vs = vmesh_visits(n, ns);
    let fresh = fresh_cells(bid, n, ns, vs);
    lemma_vmesh_visits_in_grid(n, ns);
    lemma_fresh_cells_wf(bid, n, ns, vs);
    let ct = canon_of(n, ns, vs[t]);
    let cu = canon_of(n, ns, vs[u]);
    lemma_fresh_contains_canon(bid, n, ns, vs, t);
    lemma_fresh_contains_canon(bid, n, ns, vs, u);
    let wt = fresh.index_of(ct);
    let wu = fresh.index_of(cu);
    assert(0 <= wt < fresh.len() && fresh[wt] == ct);
    assert(0 <= wu < fresh.len() && fresh[wu] == cu);
    assert(fresh.len() <= vs.len()) by {
        lemma_fresh_cells_len(bid, n, ns, vs);
    }
    assert(border_of(bid, n, ns, ct) is None);
    assert(border_of(bid, n, ns, cu) is None);
    let ids = visit_ids(bid, n, ns, 0, vs);
    assert(ids[t] == wt as usize);
    assert(ids[u] == wu as usize);
    if ct != cu {
        assert(wt != wu);
    }
}

proof fn lemma_fresh_cells_len(bid: Seq<Vec<Option<usize>>>, n: int, ns: int, vs: Seq<(int, int, int)>)
    ensures
        fresh_cells(bid, n, ns, vs).len() <= vs.len(),
    decreases vs.len(),
{
    if vs.len() > 0 {
        lemma_fresh_cells_len(bid, n, ns, vs.drop_last());
    }
}

/// The first point of profile `i` when the corners come first and the
/// profiles follow one after another.
pub open spec fn profile_start(lens: Seq<usize>, i: int) -> int
    decreases i,
{
    if i <= 0 {
        lens.len() as int
    } else {
        profile_start(lens, i - 1) + lens[i - 1]
    }
}

/// The faces of a cutoff vertex mesh whose profiles have `lens` points:
/// points `0..n` are the corners, then the profiles' points. Each profile
/// gets a face from its corner through its points (and on to the next
/// corner when there is a centre face), then the centre face through the
/// corners. Fewer than two profiles, or no segment, give no face.
pub open spec fn cutoff_faces_spec(lens: Seq<usize>, ns: nat, build_center: bool) -> Seq<Seq<usize>> {
    let n = lens.len() as int;
    if n < 2 || ns == 0 {
        Seq::empty()
    } else {
        let sides = Seq::new(
            n as nat,
            |i: int| {
                let own = seq![i as usize] + Seq::new(lens[i] as nat, |k: int| (profile_start(lens, i) + k) as usize);
                if build_center {
                    own.push(((i + 1) % n) as usize)
                } else {
                    own
                }
            },
        );
        if build_center {
            sides.push(Seq::new(n as nat, |i: int| i as usize))
        } else {
            sides
        }
    }
}

proof fn lemma_profile_start_low(lens: Seq<usize>, i: int)
    requires
        0 <= i <= lens.len(),
    ensures
        lens.len() <= profile_start(lens, i),
    decreases i,
{
    if i > 0 {
        lemma_profile_start_low(lens, i - 1);
    }
}

proof fn lemma_profile_start_mono(lens: Seq<usize>, i: int, j: int)
    requires
        0 <= i <= j <= lens.len(),
    ensures
        profile_start(lens, i) <= profile_start(lens, j),
        lens.len() <= profile_start(lens, i),
    decreases j - i,
{
    lemma_profile_start_low(lens, i);
    if j > i {
        lemma_profile_start_mono(lens, i, j - 1);
    }
}

/// The faces of a cutoff vertex mesh (see `cutoff_faces_spec`); whether
/// there is a centre face is the caller's to decide from the corners'
/// positions.
pub fn cutoff_faces(profile_lens: &Vec<usize>, ns: usize, build_center: bool) -> (r: Vec<Vec<usize>>)
    requires
        profile_start(profile_lens@, profile_lens@.len() as int) <= usize::MAX,
    ensures
        r@.map_values(|f: Vec<usize>| f@) == cutoff_faces_spec(profile_lens@, ns as nat, build_center),
{
    let n = profile_lens.len();
    let mut out: Vec<Vec<usize>> = Vec::new();
    if n < 2 || ns == 0 {
        assert(out@.map_values(|f: Vec<usize>| f@) =~= Seq::<Seq<usize>>::empty());
        return out;
    }
    let ghost lens = profile_lens@;
    let ghost want = cutoff_faces_spec(lens, ns as nat, build_center);
    let mut start: usize = n;
    let mut i: usize = 0;
    while i < n
        invariant
            2 <= n,
            ns > 0,
            n == lens.len(),
            lens == profile_lens@,
            want == cutoff_faces_spec(lens, ns as nat, build_center),
            i <= n,
            profile_start(lens, n as int) <= usize::MAX,
            start == profile_start(lens, i as int),
            out@.map_values(|f: Vec<usize>| f@) == want.subrange(0, i as int),
        decreases n - i,
    {
        proof {
            lemma_profile_start_mono(lens, i + 1, n as int);
        }
        let len = profile_lens[i];
        let mut face: Vec<usize> = Vec::new();
        face.push(i);
        let mut k: usize = 0;
        while k < len
            invariant
                k <= len,
                start + len <= usize::MAX,
                face@ == seq![i as usize] + Seq::new(k as nat, |t: int| (start + t) as usize),
            decreases len - k,
        {
            face.push(start + k);
            k += 1;
            assert(face@ =~= seq![i as usize] + Seq::new(k as nat, |t: int| (start + t) as usize));
        }
        if build_center {
            face.push((i + 1) % n);
        }
        let ghost before = out@.map_values(|f: Vec<usize>| f@);
        proof {
            assert(face@ =~= want[i as int]);
        }
        out.push(face);
        proof {
            assert(out@.map_values(|f: Vec<usize>| f@) =~= before.push(want[i as int]));
            assert(want.subrange(0, i + 1) =~= want.subrange(0, i as int).push(want[i as int]));
        }
        start = start + len;
        i += 1;
    }
    if build_center {
        let mut centre: Vec<usize> = Vec::new();
        let mut c: usize = 0;
        while c < n
            invariant
                c <= n,
                centre@ == Seq::new(c as nat, |t: int| t as usize),
            decreases n - c,
        {
            centre.push(c);
            c += 1;
            assert(centre@ =~= Seq::new(c as nat, |t: int| t as usize));
        }
        let ghost before = out@.map_values(|f: Vec<usize>| f@);
        out.push(centre);
        proof {
            assert(out@.map_values(|f: Vec<usize>| f@) =~= before.push(centre@));
            assert(want =~= want.subrange(0, n as int).push(centre@));
        }
    } else {
        assert(want.subrange(0, n as int) =~= want);
    }
    out
}

/// The grid of a cutoff vertex mesh: every cell holds `fill`, but cell
/// `(i, 0, 0)` holds the first point of profile `i`, where there is one.
pub fn cutoff_to_vmesh<T: Copy>(profile_firsts: &Vec<Option<T>>, ns: usize, fill: T) -> (g: VMeshGrid<T>)
    requires
        ns < usize::MAX,
        profile_firsts@.len() * (ns / 2 + 1) * (ns + 1) <= usize::MAX,
    ensures
        g.wf(),
        g.n == profile_firsts@.len(),
        g.ns == ns,
        forall|i: int, j: int, k: int|
            in_grid(g.n as int, ns as int, i, j, k) ==> #[trigger] g.at(i, j, k) == if j == 0 && k == 0 && profile_firsts@[i] is Some {
                profile_firsts@[i]->0
            } else {
                fill
            },
{
    let n = profile_firsts.len();
    let mut grid = VMeshGrid::new(n, ns, fill);
    proof {
        assert forall|a: int, b: int, c: int| in_grid(n as int, ns as int, a, b, c) implies #[trigger] grid.at(a, b, c) == fill by {
            lemma_cell_bounds(n as int, grid.ns2 as int, ns as int, a, b, c);
        }
    }
    let mut i: usize = 0;
    while i < n
        invariant
            i <= n,
            n == profile_firsts@.len(),
            grid.wf(),
            grid.n == n,
            grid.ns == ns,
            forall|a: int, b: int, c: int|
                in_grid(n as int, ns as int, a, b, c) ==> #[trigger] grid.at(a, b, c) == if a < i && b == 0 && c == 0 && profile_firsts@[a] is Some {
                    profile_firsts@[a]->0
                } else {
                    fill
                },
        decreases n - i,
    {
        if let Some(v) = profile_firsts[i] {
            grid.set(i, 0, 0, v);
        }
        i += 1;
    }
    grid
}

} // verus!
