//! Consistent orientation of a triangle soup: triangles that share an edge
//! (after welding points onto representatives) should traverse it in
//! opposite directions. A breadth-first search over the shared edges decides
//! which triangles to flip, component by component.

use vstd::prelude::*;
use std::collections::HashMap;

verus! {

broadcast use vstd::std_specs::hash::group_hash_axioms;

/// An edge occurrence: the triangle, and the edge's two welded points in the
/// triangle's order.
pub type EdgeOcc = (usize, usize, usize);

/// The non-degenerate edges of triangle `t` after welding, in the order
/// `(a, b)`, `(b, c)`, `(c, a)`.
pub open spec fn tri_occ(tris: Seq<[usize; 3]>, rep: Seq<usize>, t: int) -> Seq<EdgeOcc> {
    let ra = rep[tris[t][0] as int];
    let rb = rep[tris[t][1] as int];
    let rc = rep[tris[t][2] as int];
    let s1: Seq<EdgeOcc> = if ra != rb {
        seq![(t as usize, ra, rb)]
    } else {
        Seq::empty()
    };
    let s2 = if rb != rc {
        s1.push((t as usize, rb, rc))
    } else {
        s1
    };
    if rc != ra {
        s2.push((t as usize, rc, ra))
    } else {
        s2
    }
}

/// The edge occurrences of the first `n` triangles, in order.
pub open spec fn occurrences(tris: Seq<[usize; 3]>, rep: Seq<usize>, n: int) -> Seq<EdgeOcc>
    decreases n,
{
    if n <= 0 {
        Seq::empty()
    } else {
        occurrences(tris, rep, n - 1) + tri_occ(tris, rep, n - 1)
    }
}

/// The undirected key of an edge.
pub open spec fn ukey(o: EdgeOcc) -> (usize, usize) {
    if o.1 < o.2 {
        (o.1, o.2)
    } else {
        (o.2, o.1)
    }
}

/// The occurrences among the first `k` of `occ` with the same undirected
/// key as `o`, in order.
pub open spec fn same_key(occ: Seq<EdgeOcc>, o: EdgeOcc, k: int) -> Seq<EdgeOcc>
    decreases k,
{
    if k <= 0 {
        Seq::empty()
    } else {
        let r = same_key(occ, o, k - 1);
        if ukey(occ[k - 1]) == ukey(o) {
            r.push(occ[k - 1])
        } else {
            r
        }
    }
}

/// `adj` after linking occurrence `o` with the first `k` of `prevs`: each
/// link records, in both triangles' lists, the other triangle and whether
/// the two occurrences run the same way.
pub open spec fn link(adj: Seq<Seq<(usize, bool)>>, o: EdgeOcc, prevs: Seq<EdgeOcc>, k: int) -> Seq<Seq<(usize, bool)>>
    decreases k,
{
    if k <= 0 {
        adj
    } else {
        let a = link(adj, o, prevs, k - 1);
        let p = prevs[k - 1];
        let same = p.1 == o.1 && p.2 == o.2;
        let a1 = a.update(o.0 as int, a[o.0 as int].push((p.0, same)));
        a1.update(p.0 as int, a1[p.0 as int].push((o.0, same)))
    }
}

/// The adjacency of `n` triangles after the first `q` occurrences of `occ`:
/// each occurrence is linked with every earlier one of the same key.
pub open spec fn adjacency(occ: Seq<EdgeOcc>, n: nat, q: int) -> Seq<Seq<(usize, bool)>>
    decreases q,
{
    if q <= 0 {
        Seq::new(n, |i: int| Seq::<(usize, bool)>::empty())
    } else {
        let prevs = same_key(occ, occ[q - 1], q - 1);
        link(adjacency(occ, n, q - 1), occ[q - 1], prevs, prevs.len() as int)
    }
}

/// The hash key of an undirected edge.
pub open spec fn key128(o: EdgeOcc) -> u128 {
    (ukey(o).0 as int * 0x1_0000_0000_0000_0000 + ukey(o).1 as int) as u128
}

proof fn lemma_key128_injective(a: EdgeOcc, b: EdgeOcc)
    ensures
        key128(a) == key128(b) <==> ukey(a) == ukey(b),
{
    let (a0, a1) = ukey(a);
    let (b0, b1) = ukey(b);
    assert(0 <= a1 < 0x1_0000_0000_0000_0000);
    assert(0 <= b1 < 0x1_0000_0000_0000_0000);
    assert(a0 as int * 0x1_0000_0000_0000_0000 + a1 as int <= u128::MAX);
    assert(b0 as int * 0x1_0000_0000_0000_0000 + b1 as int <= u128::MAX);
    if key128(a) == key128(b) {
        assert(a0 as int * 0x1_0000_0000_0000_0000 + a1 as int == b0 as int * 0x1_0000_0000_0000_0000 + b1 as int);
        assert(a0 == b0 && a1 == b1) by (nonlinear_arith)
            requires
                a0 as int * 0x1_0000_0000_0000_0000 + a1 as int == b0 as int * 0x1_0000_0000_0000_0000 + b1 as int,
                0 <= a1 < 0x1_0000_0000_0000_0000,
                0 <= b1 < 0x1_0000_0000_0000_0000,
                0 <= a0,
                0 <= b0,
        ;
    }
}

fn key_of(o: EdgeOcc) -> (k: u128)
    ensures
        k == key128(o),
{
    let (lo, hi) = if o.1 < o.2 {
        (o.1, o.2)
    } else {
        (o.2, o.1)
    };
    assert(lo as int * 0x1_0000_0000_0000_0000 + hi as int <= u128::MAX) by (nonlinear_arith)
        requires
            lo <= usize::MAX,
            hi <= usize::MAX,
            usize::MAX < 0x1_0000_0000_0000_0000,
    ;
    (lo as u128) * 0x1_0000_0000_0000_0000u128 + (hi as u128)
}

/// The non-degenerate welded edges of all triangles, in order.
pub fn edge_occurrences(tris: &Vec<[usize; 3]>, rep: &Vec<usize>) -> (occ: Vec<EdgeOcc>)
    requires
        forall|t: int, j: int| 0 <= t < tris@.len() && 0 <= j < 3 ==> #[trigger] tris@[t][j] < rep@.len(),
    ensures
        occ@ == occurrences(tris@, rep@, tris@.len() as int),
{
    let mut occ: Vec<EdgeOcc> = Vec::new();
    let mut t: usize = 0;
    while t < tris.len()
        invariant
            t <= tris.len(),
            forall|t: int, j: int| 0 <= t < tris@.len() && 0 <= j < 3 ==> #[trigger] tris@[t][j] < rep@.len(),
            occ@ == occurrences(tris@, rep@, t as int),
        decreases tris.len() - t,
    {
        let tri = tris[t];
        let ra = rep[tri[0]];
        let rb = rep[tri[1]];
        let rc = rep[tri[2]];
        let ghost before = occ@;
        if ra != rb {
            occ.push((t, ra, rb));
        }
        if rb != rc {
            occ.push((t, rb, rc));
        }
        if rc != ra {
            occ.push((t, rc, ra));
        }
        proof {
            assert(occ@ =~= before + tri_occ(tris@, rep@, t as int));
        }
        t += 1;
    }
    occ
}

proof fn lemma_same_key_members(occ: Seq<EdgeOcc>, o: EdgeOcc, k: int, n: nat)
    requires
        0 <= k <= occ.len(),
        forall|q: int| 0 <= q < occ.len() ==> #[trigger] occ[q].0 < n,
    ensures
        forall|i: int| 0 <= i < same_key(occ, o, k).len() ==> #[trigger] same_key(occ, o, k)[i].0 < n,
    decreases k,
{
    if k > 0 {
        lemma_same_key_members(occ, o, k - 1, n);
        let r = same_key(occ, o, k - 1);
        assert forall|i: int| 0 <= i < same_key(occ, o, k).len() implies #[trigger] same_key(occ, o, k)[i].0 < n by {
            if i < r.len() {
                assert(same_key(occ, o, k)[i] == r[i]);
            }
        }
    }
}

proof fn lemma_link_len(adj: Seq<Seq<(usize, bool)>>, o: EdgeOcc, prevs: Seq<EdgeOcc>, k: int)
    requires
        0 <= k <= prevs.len(),
        o.0 < adj.len(),
        forall|i: int| 0 <= i < prevs.len() ==> #[trigger] prevs[i].0 < adj.len(),
    ensures
        link(adj, o, prevs, k).len() == adj.len(),
    decreases k,
{
    if k > 0 {
        lemma_link_len(adj, o, prevs, k - 1);
    }
}

proof fn lemma_adjacency_len(occ: Seq<EdgeOcc>, n: nat, q: int)
    requires
        0 <= q <= occ.len(),
        forall|i: int| 0 <= i < occ.len() ==> #[trigger] occ[i].0 < n,
    ensures
        adjacency(occ, n, q).len() == n,
    decreases q,
{
    if q > 0 {
        lemma_adjacency_len(occ, n, q - 1);
        let prevs = same_key(occ, occ[q - 1], q - 1);
        lemma_same_key_members(occ, occ[q - 1], q - 1, n);
        lemma_link_len(adjacency(occ, n, q - 1), occ[q - 1], prevs, prevs.len() as int);
    }
}

/// The adjacency lists of the triangles: for each pair of occurrences of
/// the same undirected edge, each triangle lists the other, with whether the
/// two run the same way (see `adjacency`).
pub fn parity_adjacency(occ: &Vec<EdgeOcc>, n: usize) -> (adj: Vec<Vec<(usize, bool)>>)
    requires
        forall|q: int| 0 <= q < occ@.len() ==> #[trigger] occ@[q].0 < n,
    ensures
        adj@.map_values(|l: Vec<(usize, bool)>| l@) == adjacency(occ@, n as nat, occ@.len() as int),
{
    let mut adj: Vec<Vec<(usize, bool)>> = Vec::new();
    let mut i: usize = 0;
    while i < n
        invariant
            i <= n,
            adj@.len() == i,
            forall|k: int| 0 <= k < i ==> (#[trigger] adj@[k])@ == Seq::<(usize, bool)>::empty(),
        decreases n - i,
    {
        adj.push(Vec::new());
        i += 1;
    }
    proof {
        assert(adj@.map_values(|l: Vec<(usize, bool)>| l@) =~= adjacency(occ@, n as nat, 0));
    }
    let mut map: HashMap<u128, Vec<EdgeOcc>> = HashMap::new();
    let mut q: usize = 0;
    while q < occ.len()
        invariant
            q <= occ.len(),
            forall|q: int| 0 <= q < occ@.len() ==> #[trigger] occ@[q].0 < n,
            adj@.len() == n,
            adj@.map_values(|l: Vec<(usize, bool)>| l@) == adjacency(occ@, n as nat, q as int),
            forall|o: EdgeOcc|
                #![trigger same_key(occ@, o, q as int)]
                (map@.contains_key(key128(o)) <==> same_key(occ@, o, q as int).len() > 0) && (map@.contains_key(key128(o))
                    ==> map@[key128(o)]@ == same_key(occ@, o, q as int)),
        decreases occ.len() - q,
    {
        let o = occ[q];
        let k = key_of(o);
        let ghost base = adjacency(occ@, n as nat, q as int);
        let ghost prevs = same_key(occ@, o, q as int);
        proof {
            lemma_same_key_members(occ@, o, q as int, n as nat);
            lemma_adjacency_len(occ@, n as nat, q as int);
        }
        let mut list: Vec<EdgeOcc> = match map.remove(&k) {
            Some(l) => l,
            None => Vec::new(),
        };
        proof {
            if !(same_key(occ@, o, q as int).len() > 0) {
                assert(list@ =~= prevs);
            }
        }
        let mut j: usize = 0;
        while j < list.len()
            invariant
                j <= list.len(),
                list@ == prevs,
                o == occ@[q as int],
                o.0 < n,
                adj@.len() == n,
                base.len() == n,
                forall|i: int| 0 <= i < prevs.len() ==> #[trigger] prevs[i].0 < n,
                adj@.map_values(|l: Vec<(usize, bool)>| l@) == link(base, o, prevs, j as int),
            decreases list.len() - j,
        {
            let p = list[j];
            let same = p.1 == o.1 && p.2 == o.2;
            proof {
                lemma_link_len(base, o, prevs, j as int);
            }
            let ghost a0 = adj@.map_values(|l: Vec<(usize, bool)>| l@);
            adj[o.0].push((p.0, same));
            let ghost a1 = adj@.map_values(|l: Vec<(usize, bool)>| l@);
            proof {
                assert(a1 =~= a0.update(o.0 as int, a0[o.0 as int].push((p.0, same))));
            }
            adj[p.0].push((o.0, same));
            proof {
                assert(adj@.map_values(|l: Vec<(usize, bool)>| l@) =~= a1.update(p.0 as int, a1[p.0 as int].push((o.0, same))));
            }
            j += 1;
        }
        let ghost map0 = map@;
        list.push(o);
        map.insert(k, list);
        proof {
            assert forall|o2: EdgeOcc|
                #![trigger same_key(occ@, o2, q + 1)]
                (map@.contains_key(key128(o2)) <==> same_key(occ@, o2, q + 1).len() > 0) && (map@.contains_key(key128(o2))
                    ==> map@[key128(o2)]@ == same_key(occ@, o2, q + 1)) by {
                lemma_key128_injective(o2, o);
                assert(occ@[q as int] == o);
                if ukey(o2) == ukey(o) {
                    assert(same_key(occ@, o2, q as int) == same_key(occ@, o, q as int)) by {
                        lemma_same_key_congruent(occ@, o2, o, q as int);
                    }
                } else {
                    assert(same_key(occ@, o2, q + 1) == same_key(occ@, o2, q as int));
                    assert(map0.contains_key(key128(o2)) == map@.contains_key(key128(o2)));
                }
            }
        }
        q += 1;
    }
    adj
}

proof fn lemma_same_key_congruent(occ: Seq<EdgeOcc>, a: EdgeOcc, b: EdgeOcc, k: int)
    requires
        ukey(a) == ukey(b),
    ensures
        same_key(occ, a, k) == same_key(occ, b, k),
    decreases k,
{
    if k > 0 {
        lemma_same_key_congruent(occ, a, b, k - 1);
    }
}

/// The state of the search: the flip chosen for each discovered triangle,
/// its component, the triangles in order of discovery, and the number of
/// components started.
pub struct Search {
    pub flip: Seq<Option<bool>>,
    pub comp: Seq<usize>,
    pub queue: Seq<usize>,
    pub ncomp: nat,
}

/// `b` after the first `k` entries of `list`, the neighbours of a triangle
/// with flip `fi` in component `c`: an undiscovered neighbour `j` gets the
/// flip that makes the shared edge run the other way (`fi` when the
/// occurrences run opposite ways, `!fi` when they run the same way),
/// component `c`, and joins the queue.
pub open spec fn visit(b: Search, list: Seq<(usize, bool)>, fi: bool, c: usize, k: int) -> Search
    decreases k,
{
    if k <= 0 {
        b
    } else {
        let b0 = visit(b, list, fi, c, k - 1);
        let j = list[k - 1].0;
        let same = list[k - 1].1;
        if (j as int) < b0.flip.len() && b0.flip[j as int] is None {
            Search {
                flip: b0.flip.update(j as int, Some(fi != same)),
                comp: b0.comp.update(j as int, c),
                queue: b0.queue.push(j),
                ncomp: b0.ncomp,
            }
        } else {
            b0
        }
    }
}

/// The neighbours of triangle `i`.
pub open spec fn neighbours(adj: Seq<Seq<(usize, bool)>>, i: usize) -> Seq<(usize, bool)> {
    if (i as int) < adj.len() {
        adj[i as int]
    } else {
        Seq::empty()
    }
}

/// The flip of a triangle, `false` until it is discovered.
pub open spec fn flip_or_false(f: Option<bool>) -> bool {
    match f {
        Some(x) => x,
        None => false,
    }
}

/// `b` after the queue is worked off from position `head` on, in component
/// `c`: each queued triangle visits its neighbours in turn.
pub open spec fn drain(adj: Seq<Seq<(usize, bool)>>, b: Search, head: int, c: usize) -> Search
    decreases adj.len() - head,
{
    if head < 0 || head >= b.queue.len() || head >= adj.len() {
        b
    } else {
        let i = b.queue[head];
        let list = neighbours(adj, i);
        let b1 = visit(b, list, flip_or_false(b.flip[i as int]), c, list.len() as int);
        drain(adj, b1, head + 1, c)
    }
}

/// The search state after trying the first `s` triangles as starts: an
/// undiscovered triangle starts a new component, unflipped, and the queue is
/// worked off.
pub open spec fn search(adj: Seq<Seq<(usize, bool)>>, s: int) -> Search
    decreases s,
{
    if s <= 0 {
        Search {
            flip: Seq::new(adj.len(), |i: int| None::<bool>),
            comp: Seq::new(adj.len(), |i: int| usize::MAX),
            queue: Seq::empty(),
            ncomp: 0,
        }
    } else {
        let b = search(adj, s - 1);
        let t = s - 1;
        if b.flip[t] is Some {
            b
        } else {
            let c = b.ncomp as usize;
            let b1 = Search {
                flip: b.flip.update(t, Some(false)),
                comp: b.comp.update(t, c),
                queue: b.queue.push(t as usize),
                ncomp: b.ncomp + 1,
            };
            drain(adj, b1, b.queue.len() as int, c)
        }
    }
}

/// The number of discovered triangles.
pub open spec fn discovered(flip: Seq<Option<bool>>) -> nat
    decreases flip.len(),
{
    if flip.len() == 0 {
        0
    } else {
        discovered(flip.drop_last()) + if flip.last() is Some {
            1nat
        } else {
            0nat
        }
    }
}

proof fn lemma_discovered_bound(flip: Seq<Option<bool>>)
    ensures
        discovered(flip) <= flip.len(),
    decreases flip.len(),
{
    if flip.len() > 0 {
        lemma_discovered_bound(flip.drop_last());
    }
}

proof fn lemma_discovered_update(flip: Seq<Option<bool>>, j: int, v: bool)
    requires
        0 <= j < flip.len(),
        flip[j] is None,
    ensures
        discovered(flip.update(j, Some(v))) == discovered(flip) + 1,
    decreases flip.len(),
{
    let f2 = flip.update(j, Some(v));
    if j == flip.len() - 1 {
        assert(f2.drop_last() =~= flip.drop_last());
    } else {
        assert(f2.drop_last() =~= flip.drop_last().update(j, Some(v)));
        lemma_discovered_update(flip.drop_last(), j, v);
    }
}

proof fn lemma_discovered_none(n: nat)
    ensures
        discovered(Seq::new(n, |i: int| None::<bool>)) == 0,
    decreases n,
{
    if n > 0 {
        assert(Seq::new(n, |i: int| None::<bool>).drop_last() =~= Seq::new((n - 1) as nat, |i: int| None::<bool>));
        lemma_discovered_none((n - 1) as nat);
    }
}

/// Decides, by a breadth-first search over `adj`, which triangles to flip
/// (see `search`); returns the flips, the component of each triangle and
/// the number of components.
pub fn orient_search(adj: &Vec<Vec<(usize, bool)>>) -> (r: (Vec<bool>, Vec<usize>, usize))
    requires
        forall|t: int, k: int| 0 <= t < adj@.len() && 0 <= k < adj@[t]@.len() ==> #[trigger] adj@[t]@[k].0 < adj@.len(),
    ensures
        ({
            let b = search(adj@.map_values(|l: Vec<(usize, bool)>| l@), adj@.len() as int);
            &&& r.0@ == b.flip.map_values(|f: Option<bool>| flip_or_false(f))
            &&& r.1@ == b.comp
            &&& r.2 == b.ncomp
        }),
{
    let n = adj.len();
    let ghost av = adj@.map_values(|l: Vec<(usize, bool)>| l@);
    let mut flip: Vec<Option<bool>> = Vec::new();
    let mut comp: Vec<usize> = Vec::new();
    let mut i: usize = 0;
    while i < n
        invariant
            i <= n,
            flip@ == Seq::new(i as nat, |k: int| None::<bool>),
            comp@ == Seq::new(i as nat, |k: int| usize::MAX),
        decreases n - i,
    {
        flip.push(None);
        comp.push(usize::MAX);
        proof {
            assert(flip@ =~= Seq::new((i + 1) as nat, |k: int| None::<bool>));
            assert(comp@ =~= Seq::new((i + 1) as nat, |k: int| usize::MAX));
        }
        i += 1;
    }
    let mut queue: Vec<usize> = Vec::new();
    let mut head: usize = 0;
    let mut ncomp: usize = 0;
    proof {
        lemma_discovered_none(n as nat);
    }
    let mut s: usize = 0;
    while s < n
        invariant
            s <= n,
            n == adj@.len(),
            av == adj@.map_values(|l: Vec<(usize, bool)>| l@),
            forall|t: int, k: int| 0 <= t < av.len() && 0 <= k < av[t].len() ==> #[trigger] av[t][k].0 < av.len(),
            (Search { flip: flip@, comp: comp@, queue: queue@, ncomp: ncomp as nat }) == search(av, s as int),
            head == queue@.len(),
            flip@.len() == n,
            comp@.len() == n,
            queue@.len() == discovered(flip@),
            forall|k: int| 0 <= k < queue@.len() ==> #[trigger] queue@[k] < n,
            ncomp <= s,
        decreases n - s,
    {
        if flip[s].is_none() {
            let c = ncomp;
            let ghost b = Search { flip: flip@, comp: comp@, queue: queue@, ncomp: ncomp as nat };
            proof {
                lemma_discovered_update(flip@, s as int, false);
            }
            flip[s] = Some(false);
            comp[s] = c;
            queue.push(s);
            ncomp = ncomp + 1;
            let ghost b1 = Search { flip: flip@, comp: comp@, queue: queue@, ncomp: ncomp as nat };
            let ghost target = drain(av, b1, b.queue.len() as int, c);
            while head < queue.len()
                invariant
                    n == adj@.len(),
                    av == adj@.map_values(|l: Vec<(usize, bool)>| l@),
                    forall|t: int, k: int| 0 <= t < av.len() && 0 <= k < av[t].len() ==> #[trigger] av[t][k].0 < av.len(),
                    flip@.len() == n,
                    comp@.len() == n,
                    queue@.len() == discovered(flip@),
                    head <= queue@.len(),
                    forall|k: int| 0 <= k < queue@.len() ==> #[trigger] queue@[k] < n,
                    drain(av, Search { flip: flip@, comp: comp@, queue: queue@, ncomp: ncomp as nat }, head as int, c) == target,
                decreases n - head,
            {
                proof {
                    lemma_discovered_bound(flip@);
                }
                let t = queue[head];
                let fi = match flip[t] {
                    Some(f) => f,
                    None => false,
                };
                let list = &adj[t];
                let ghost bh = Search { flip: flip@, comp: comp@, queue: queue@, ncomp: ncomp as nat };
                assert(av[t as int] == list@);
                let mut k: usize = 0;
                while k < list.len()
                    invariant
                        k <= list@.len(),
                        n == adj@.len(),
                        t < n,
                        head < queue@.len(),
                        list@ == av[t as int],
                        forall|t: int, k: int| 0 <= t < av.len() && 0 <= k < av[t].len() ==> #[trigger] av[t][k].0 < av.len(),
                        av.len() == n,
                        flip@.len() == n,
                        comp@.len() == n,
                        queue@.len() == discovered(flip@),
                        forall|k: int| 0 <= k < queue@.len() ==> #[trigger] queue@[k] < n,
                        (Search { flip: flip@, comp: comp@, queue: queue@, ncomp: ncomp as nat }) == visit(bh, list@, fi, c, k as int),
                    decreases list.len() - k,
                {
                    let (j, same) = list[k];
                    assert(av[t as int][k as int].0 < n);
                    if flip[j].is_none() {
                        proof {
                            lemma_discovered_update(flip@, j as int, fi != same);
                        }
                        flip[j] = Some(fi != same);
                        comp[j] = c;
                        queue.push(j);
                    }
                    proof {
                        let sk = Search { flip: flip@, comp: comp@, queue: queue@, ncomp: ncomp as nat };
                        assert(sk == visit(bh, list@, fi, c, k + 1));
                    }
                    k += 1;
                }
                head += 1;
            }
            proof {
                assert(drain(av, Search { flip: flip@, comp: comp@, queue: queue@, ncomp: ncomp as nat }, head as int, c)
                    == Search { flip: flip@, comp: comp@, queue: queue@, ncomp: ncomp as nat });
            }
        }
        s += 1;
    }
    let mut flips: Vec<bool> = Vec::new();
    let mut k: usize = 0;
    while k < n
        invariant
            k <= n,
            flip@.len() == n,
            flips@ == flip@.take(k as int).map_values(|f: Option<bool>| flip_or_false(f)),
        decreases n - k,
    {
        flips.push(match flip[k] {
            Some(f) => f,
            None => false,
        });
        proof {
            assert(flips@ =~= flip@.take(k + 1).map_values(|f: Option<bool>| flip_or_false(f)));
        }
        k += 1;
    }
    proof {
        assert(flip@.take(n as int) =~= flip@);
    }
    (flips, comp, ncomp)
}

/// Whether the list of triangle `j` holds the entry `(t, same)`.
pub open spec fn has_entry(adj: Seq<Seq<(usize, bool)>>, j: int, t: usize, same: bool) -> bool {
    0 <= j < adj.len() && exists|k2: int| 0 <= k2 < adj[j].len() && adj[j][k2] == (t, same)
}

/// Every entry `(j, same)` in the list of `t` is matched by `(t, same)` in
/// the list of `j`.
pub open spec fn symmetric(adj: Seq<Seq<(usize, bool)>>) -> bool {
    forall|t: int, k: int|
        0 <= t < adj.len() && 0 <= k < adj[t].len() ==> #[trigger] has_entry(adj, adj[t][k].0 as int, t as usize, adj[t][k].1)
}

/// Every entry names a triangle.
pub open spec fn in_range(adj: Seq<Seq<(usize, bool)>>) -> bool {
    forall|t: int, k: int| 0 <= t < adj.len() && 0 <= k < adj[t].len() ==> #[trigger] adj[t][k].0 < adj.len()
}

proof fn lemma_push_keeps_entry(adj: Seq<Seq<(usize, bool)>>, w: int, x: (usize, bool), j: int, t: usize, same: bool)
    requires
        0 <= w < adj.len(),
        has_entry(adj, j, t, same),
    ensures
        has_entry(adj.update(w, adj[w].push(x)), j, t, same),
{
    let a2 = adj.update(w, adj[w].push(x));
    let k2 = choose|k2: int| 0 <= k2 < adj[j].len() && adj[j][k2] == (t, same);
    assert(a2[j][k2] == (t, same));
}

proof fn lemma_link_symmetric(adj: Seq<Seq<(usize, bool)>>, o: EdgeOcc, prevs: Seq<EdgeOcc>, k: int)
    requires
        0 <= k <= prevs.len(),
        (o.0 as int) < adj.len(),
        forall|i: int| 0 <= i < prevs.len() ==> #[trigger] prevs[i].0 < adj.len(),
        symmetric(adj),
        in_range(adj),
    ensures
        symmetric(link(adj, o, prevs, k)),
        in_range(link(adj, o, prevs, k)),
        link(adj, o, prevs, k).len() == adj.len(),
    decreases k,
{
    if k > 0 {
        lemma_link_symmetric(adj, o, prevs, k - 1);
        let a = link(adj, o, prevs, k - 1);
        let p = prevs[k - 1];
        let same = p.1 == o.1 && p.2 == o.2;
        let x = (p.0, same);
        let y = (o.0, same);
        let a1 = a.update(o.0 as int, a[o.0 as int].push(x));
        let a2 = a1.update(p.0 as int, a1[p.0 as int].push(y));
        assert(a2[o.0 as int].len() >= 1);
        assert forall|t: int, e: int| 0 <= t < a2.len() && 0 <= e < a2[t].len() implies #[trigger] has_entry(
            a2,
            a2[t][e].0 as int,
            t as usize,
            a2[t][e].1,
        ) by {
            let ent = a2[t][e];
            if t == p.0 as int && e == a1[t].len() {
                // the new entry (o.0, same) of p.0: matched by (p.0, same) in o.0's list
                let k2 = a[o.0 as int].len() as int;
                assert(a1[o.0 as int][k2] == x);
                if o.0 == p.0 {
                    assert(a2[o.0 as int][k2] == x);
                } else {
                    assert(a2[o.0 as int] == a1[o.0 as int]);
                }
                assert(has_entry(a2, ent.0 as int, t as usize, ent.1));
            } else if t == o.0 as int && e == a[t].len() {
                // the new entry (p.0, same) of o.0: matched by (o.0, same) in p.0's list
                let k2 = a1[p.0 as int].len() as int;
                assert(a2[p.0 as int][k2] == y);
                assert(has_entry(a2, ent.0 as int, t as usize, ent.1));
            } else {
                assert(a2[t][e] == a[t][e]);
                assert(has_entry(a, ent.0 as int, t as usize, ent.1));
                lemma_push_keeps_entry(a, o.0 as int, x, ent.0 as int, t as usize, ent.1);
                lemma_push_keeps_entry(a1, p.0 as int, y, ent.0 as int, t as usize, ent.1);
            }
        }
        assert forall|t: int, e: int| 0 <= t < a2.len() && 0 <= e < a2[t].len() implies #[trigger] a2[t][e].0 < a2.len() by {
            if !(t == p.0 as int && e == a1[t].len()) && !(t == o.0 as int && e == a[t].len()) {
                assert(a2[t][e] == a[t][e]);
            }
        }
    }
}

/// The adjacency is symmetric and names only triangles.
pub proof fn lemma_adjacency_symmetric(occ: Seq<EdgeOcc>, n: nat, q: int)
    requires
        0 <= q <= occ.len(),
        forall|i: int| 0 <= i < occ.len() ==> #[trigger] occ[i].0 < n,
    ensures
        symmetric(adjacency(occ, n, q)),
        in_range(adjacency(occ, n, q)),
        adjacency(occ, n, q).len() == n,
    decreases q,
{
    if q > 0 {
        lemma_adjacency_symmetric(occ, n, q - 1);
        let prevs = same_key(occ, occ[q - 1], q - 1);
        lemma_same_key_members(occ, occ[q - 1], q - 1, n);
        lemma_link_symmetric(adjacency(occ, n, q - 1), occ[q - 1], prevs, prevs.len() as int);
    }
}

/// Whether `x` is in the queue.
pub open spec fn queued(q: Seq<usize>, x: int) -> bool {
    exists|k: int| 0 <= k < q.len() && q[k] as int == x
}

/// The bookkeeping of the search: every queued triangle is discovered, every
/// discovered triangle is queued once and lies in a started component.
pub open spec fn search_wf(adj: Seq<Seq<(usize, bool)>>, b: Search) -> bool {
    &&& b.flip.len() == adj.len()
    &&& b.comp.len() == adj.len()
    &&& b.queue.len() == discovered(b.flip)
    &&& forall|k: int|
        0 <= k < b.queue.len() ==> (#[trigger] b.queue[k] as int) < adj.len() && b.flip[b.queue[k] as int] is Some
    &&& forall|x: int|
        0 <= x < adj.len() && (#[trigger] b.flip[x]) is Some ==> queued(b.queue, x) && (b.comp[x] as int) < b.ncomp
}

/// The first `h` queued triangles have all their neighbours discovered, in
/// their own component.
pub open spec fn closed_upto(adj: Seq<Seq<(usize, bool)>>, b: Search, h: int) -> bool {
    forall|k: int, e: int|
        #![trigger adj[b.queue[k] as int][e]]
        0 <= k < h && 0 <= e < adj[b.queue[k] as int].len() ==> b.flip[adj[b.queue[k] as int][e].0 as int] is Some
            && b.comp[adj[b.queue[k] as int][e].0 as int] == b.comp[b.queue[k] as int]
}

/// Queued triangles are in components up to `c`, those from position `h` on
/// in component `c`.
pub open spec fn tail_in(b: Search, h: int, c: usize) -> bool {
    forall|k: int|
        0 <= k < b.queue.len() ==> (#[trigger] b.comp[b.queue[k] as int]) <= c && (k >= h ==> b.comp[b.queue[k] as int]
            == c)
}

/// A labelling of the triangles that satisfies every link: two linked
/// triangles have different labels exactly when their shared edge runs the
/// same way in both.
pub open spec fn consistent(adj: Seq<Seq<(usize, bool)>>, lab: Seq<bool>) -> bool {
    &&& lab.len() == adj.len()
    &&& forall|t: int, e: int|
        0 <= t < adj.len() && 0 <= e < adj[t].len() ==> #[trigger] lab[adj[t][e].0 as int] == (lab[t] != adj[t][e].1)
}

/// Within each component, the flips chosen so far differ exactly where the
/// labels differ.
pub open spec fn follows(b: Search, lab: Seq<bool>) -> bool {
    forall|x: int, y: int|
        #![trigger b.comp[x], b.comp[y]]
        0 <= x < b.flip.len() && 0 <= y < b.flip.len() && b.flip[x] is Some && b.flip[y] is Some && b.comp[x]
            == b.comp[y] ==> (flip_or_false(b.flip[x]) != flip_or_false(b.flip[y])) == (lab[x] != lab[y])
}

/// `b2` keeps what `b` decided.
pub open spec fn extends(b: Search, b2: Search) -> bool {
    &&& b2.flip.len() == b.flip.len()
    &&& b2.comp.len() == b.comp.len()
    &&& b2.queue.len() >= b.queue.len()
    &&& forall|k: int| 0 <= k < b.queue.len() ==> #[trigger] b2.queue[k] == b.queue[k]
    &&& forall|x: int|
        0 <= x < b.flip.len() && (#[trigger] b.flip[x]) is Some ==> b2.flip[x] == b.flip[x] && b2.comp[x] == b.comp[x]
    &&& b2.ncomp == b.ncomp
}

proof fn lemma_visit(
    adj: Seq<Seq<(usize, bool)>>,
    b: Search,
    i: usize,
    head: int,
    c: usize,
    lab: Seq<bool>,
    k: int,
)
    requires
        search_wf(adj, b),
        in_range(adj),
        symmetric(adj),
        closed_upto(adj, b, head),
        tail_in(b, head, c),
        b.ncomp == c + 1,
        0 <= head < b.queue.len(),
        b.queue[head] == i,
        0 <= k <= adj[i as int].len(),
        consistent(adj, lab) ==> follows(b, lab),
    ensures
        ({
            let b2 = visit(b, adj[i as int], flip_or_false(b.flip[i as int]), c, k);
            &&& search_wf(adj, b2)
            &&& extends(b, b2)
            &&& closed_upto(adj, b2, head)
            &&& tail_in(b2, head, c)
            &&& forall|e: int|
                #![trigger adj[i as int][e]]
                0 <= e < k ==> b2.flip[adj[i as int][e].0 as int] is Some && b2.comp[adj[i as int][e].0 as int] == c
            &&& consistent(adj, lab) ==> follows(b2, lab)
        }),
    decreases k,
{
    let list = adj[i as int];
    let fi = flip_or_false(b.flip[i as int]);
    assert(b.flip[i as int] is Some);
    assert(b.comp[b.queue[head] as int] == c);
    if k > 0 {
        lemma_visit(adj, b, i, head, c, lab, k - 1);
        let b0 = visit(b, list, fi, c, k - 1);
        let j = list[k - 1].0;
        let same = list[k - 1].1;
        assert(j < adj.len());
        assert(b0.queue[head] == i);
        assert(b0.flip[i as int] == b.flip[i as int]);
        assert(b0.comp[i as int] == c);
        if b0.flip[j as int] is None {
            let b2 = visit(b, list, fi, c, k);
            lemma_discovered_update(b0.flip, j as int, fi != same);
            assert(b2.flip == b0.flip.update(j as int, Some(fi != same)));
            assert forall|kk: int| 0 <= kk < b2.queue.len() implies (#[trigger] b2.queue[kk] as int) < adj.len()
                && b2.flip[b2.queue[kk] as int] is Some by {
                if kk < b0.queue.len() {
                    assert(b2.queue[kk] == b0.queue[kk]);
                    assert(b0.flip[b0.queue[kk] as int] is Some);
                }
            }
            assert forall|x: int| 0 <= x < adj.len() && (#[trigger] b2.flip[x]) is Some implies queued(b2.queue, x)
                && (b2.comp[x] as int) < b2.ncomp by {
                if x == j as int {
                    assert(b2.queue[b0.queue.len() as int] == j);
                } else {
                    assert(b0.flip[x] is Some);
                    assert(queued(b0.queue, x));
                    let kq = choose|kq: int| 0 <= kq < b0.queue.len() && b0.queue[kq] as int == x;
                    assert(b2.queue[kq] as int == x);
                }
            }
            assert forall|x: int| 0 <= x < b.flip.len() && (#[trigger] b.flip[x]) is Some implies b2.flip[x] == b.flip[x]
                && b2.comp[x] == b.comp[x] by {
                assert(b0.flip[x] == b.flip[x]);
            }
            assert forall|kk: int| 0 <= kk < b.queue.len() implies #[trigger] b2.queue[kk] == b.queue[kk] by {
                assert(b0.queue[kk] == b.queue[kk]);
            }
            assert forall|kk: int, e: int|
                #![trigger adj[b2.queue[kk] as int][e]]
                0 <= kk < head && 0 <= e < adj[b2.queue[kk] as int].len() implies b2.flip[adj[b2.queue[kk] as int][e].0 as int] is Some
                && b2.comp[adj[b2.queue[kk] as int][e].0 as int] == b2.comp[b2.queue[kk] as int] by {
                assert(b2.queue[kk] == b0.queue[kk]);
                let w = adj[b0.queue[kk] as int][e].0;
                assert(b0.flip[w as int] is Some);
                assert(b0.flip[b0.queue[kk] as int] is Some);
            }
            assert forall|kk: int| 0 <= kk < b2.queue.len() implies (#[trigger] b2.comp[b2.queue[kk] as int]) <= c && (kk
                >= head ==> b2.comp[b2.queue[kk] as int] == c) by {
                if kk < b0.queue.len() {
                    assert(b2.queue[kk] == b0.queue[kk]);
                    assert(b0.flip[b0.queue[kk] as int] is Some);
                    assert(b0.comp[b0.queue[kk] as int] <= c);
                }
            }
            assert forall|e: int|
                #![trigger adj[i as int][e]]
                0 <= e < k implies b2.flip[adj[i as int][e].0 as int] is Some && b2.comp[adj[i as int][e].0 as int] == c by {
                if e < k - 1 {
                    assert(b0.flip[adj[i as int][e].0 as int] is Some);
                }
            }
            if consistent(adj, lab) {
                assert(lab[j as int] == (lab[i as int] != same));
                assert forall|x: int, y: int|
                    #![trigger b2.comp[x], b2.comp[y]]
                    0 <= x < b2.flip.len() && 0 <= y < b2.flip.len() && b2.flip[x] is Some && b2.flip[y] is Some && b2.comp[x]
                        == b2.comp[y] implies (flip_or_false(b2.flip[x]) != flip_or_false(b2.flip[y])) == (lab[x] != lab[y]) by {
                    if x == j as int && y != j as int {
                        assert(b0.comp[y] == c);
                        assert(b0.comp[i as int] == b0.comp[y]);
                    } else if y == j as int && x != j as int {
                        assert(b0.comp[x] == c);
                        assert(b0.comp[i as int] == b0.comp[x]);
                    } else if x != j as int && y != j as int {
                        assert(b0.comp[x] == b0.comp[y]);
                    }
                }
            }
        } else {
            assert(queued(b0.queue, j as int));
            let p = choose|p: int| 0 <= p < b0.queue.len() && b0.queue[p] as int == j as int;
            if b0.comp[j as int] != c {
                assert(b0.comp[b0.queue[p] as int] <= c);
                assert(p < head);
                assert(has_entry(adj, adj[i as int][k - 1].0 as int, (i as int) as usize, adj[i as int][k - 1].1));
                assert(has_entry(adj, j as int, i, same));
                let k2 = choose|k2: int| 0 <= k2 < adj[j as int].len() && adj[j as int][k2] == (i, same);
                assert(adj[b0.queue[p] as int][k2] == (i, same));
                assert(b0.comp[adj[b0.queue[p] as int][k2].0 as int] == b0.comp[b0.queue[p] as int]);
                assert(false);
            }
        }
    }
}

proof fn lemma_drain(adj: Seq<Seq<(usize, bool)>>, b: Search, head: int, c: usize, lab: Seq<bool>)
    requires
        search_wf(adj, b),
        in_range(adj),
        symmetric(adj),
        closed_upto(adj, b, head),
        tail_in(b, head, c),
        b.ncomp == c + 1,
        0 <= head <= b.queue.len(),
        consistent(adj, lab) ==> follows(b, lab),
    ensures
        ({
            let b2 = drain(adj, b, head, c);
            &&& search_wf(adj, b2)
            &&& extends(b, b2)
            &&& closed_upto(adj, b2, b2.queue.len() as int)
            &&& tail_in(b2, b2.queue.len() as int, c)
            &&& consistent(adj, lab) ==> follows(b2, lab)
        }),
    decreases adj.len() - head,
{
    lemma_discovered_bound(b.flip);
    if head < b.queue.len() {
        let i = b.queue[head];
        assert((i as int) < adj.len());
        let list = neighbours(adj, i);
        assert(list == adj[i as int]);
        lemma_visit(adj, b, i, head, c, lab, list.len() as int);
        let b1 = visit(b, list, flip_or_false(b.flip[i as int]), c, list.len() as int);
        assert(b1.queue[head] == i);
        assert forall|k: int, e: int|
            #![trigger adj[b1.queue[k] as int][e]]
            0 <= k < head + 1 && 0 <= e < adj[b1.queue[k] as int].len() implies b1.flip[adj[b1.queue[k] as int][e].0 as int] is Some
            && b1.comp[adj[b1.queue[k] as int][e].0 as int] == b1.comp[b1.queue[k] as int] by {
            if k == head {
                assert(adj[i as int][e] == adj[b1.queue[k] as int][e]);
                assert(b.flip[i as int] is Some);
                assert(b1.comp[i as int] == b.comp[i as int]);
            }
        }
        lemma_drain(adj, b1, head + 1, c, lab);
        let b2 = drain(adj, b1, head + 1, c);
        assert(b2 == drain(adj, b, head, c));
        assert forall|k: int| 0 <= k < b.queue.len() implies #[trigger] b2.queue[k] == b.queue[k] by {
            assert(b1.queue[k] == b.queue[k]);
        }
        assert forall|x: int| 0 <= x < b.flip.len() && (#[trigger] b.flip[x]) is Some implies b2.flip[x] == b.flip[x]
            && b2.comp[x] == b.comp[x] by {
            assert(b1.flip[x] == b.flip[x]);
        }
    }
}

/// The search state after the first `s` starts is well kept: every
/// discovered triangle's neighbours are discovered, in its component; the
/// first `s` triangles are discovered; and, when a consistent labelling
/// exists, the flips follow it within components.
proof fn lemma_search(adj: Seq<Seq<(usize, bool)>>, s: int, lab: Seq<bool>)
    requires
        in_range(adj),
        symmetric(adj),
        adj.len() <= usize::MAX,
        0 <= s <= adj.len(),
    ensures
        ({
            let b = search(adj, s);
            &&& search_wf(adj, b)
            &&& closed_upto(adj, b, b.queue.len() as int)
            &&& forall|x: int| 0 <= x < s ==> (#[trigger] b.flip[x]) is Some
            &&& b.ncomp <= s
            &&& consistent(adj, lab) ==> follows(b, lab)
        }),
    decreases s,
{
    if s == 0 {
        let b = search(adj, 0);
        lemma_discovered_none(adj.len());
    } else {
        lemma_search(adj, s - 1, lab);
        let b = search(adj, s - 1);
        let t = s - 1;
        if b.flip[t] is None {
            let c = b.ncomp as usize;
            let b1 = Search {
                flip: b.flip.update(t, Some(false)),
                comp: b.comp.update(t, c),
                queue: b.queue.push(t as usize),
                ncomp: b.ncomp + 1,
            };
            lemma_discovered_update(b.flip, t, false);
            assert forall|k: int| 0 <= k < b1.queue.len() implies (#[trigger] b1.queue[k] as int) < adj.len()
                && b1.flip[b1.queue[k] as int] is Some by {
                if k < b.queue.len() {
                    assert(b1.queue[k] == b.queue[k]);
                    assert(b.flip[b.queue[k] as int] is Some);
                }
            }
            assert forall|x: int| 0 <= x < adj.len() && (#[trigger] b1.flip[x]) is Some implies queued(b1.queue, x)
                && (b1.comp[x] as int) < b1.ncomp by {
                if x == t {
                    assert(b1.queue[b.queue.len() as int] == t as usize);
                } else {
                    assert(b.flip[x] is Some);
                    let kq = choose|kq: int| 0 <= kq < b.queue.len() && b.queue[kq] as int == x;
                    assert(b1.queue[kq] as int == x);
                }
            }
            assert forall|k: int, e: int|
                #![trigger adj[b1.queue[k] as int][e]]
                0 <= k < b.queue.len() && 0 <= e < adj[b1.queue[k] as int].len() implies b1.flip[adj[b1.queue[k] as int][e].0 as int] is Some
                && b1.comp[adj[b1.queue[k] as int][e].0 as int] == b1.comp[b1.queue[k] as int] by {
                assert(b1.queue[k] == b.queue[k]);
                assert(b.flip[adj[b.queue[k] as int][e].0 as int] is Some);
                assert(b.flip[b.queue[k] as int] is Some);
            }
            assert forall|k: int| 0 <= k < b1.queue.len() implies (#[trigger] b1.comp[b1.queue[k] as int]) <= c && (k
                >= b.queue.len() ==> b1.comp[b1.queue[k] as int] == c) by {
                if k < b.queue.len() {
                    assert(b1.queue[k] == b.queue[k]);
                    assert(b.flip[b.queue[k] as int] is Some);
                }
            }
            if consistent(adj, lab) {
                assert forall|x: int, y: int|
                    #![trigger b1.comp[x], b1.comp[y]]
                    0 <= x < b1.flip.len() && 0 <= y < b1.flip.len() && b1.flip[x] is Some && b1.flip[y] is Some && b1.comp[x]
                        == b1.comp[y] implies (flip_or_false(b1.flip[x]) != flip_or_false(b1.flip[y])) == (lab[x] != lab[y]) by {
                    if x == t && y != t {
                        assert(b.flip[y] is Some);
                    } else if y == t && x != t {
                        assert(b.flip[x] is Some);
                    } else if x != t && y != t {
                        assert(b.comp[x] == b.comp[y]);
                    }
                }
            }
            lemma_drain(adj, b1, b.queue.len() as int, c, lab);
            let b2 = drain(adj, b1, b.queue.len() as int, c);
            assert(b2 == search(adj, s));
            assert forall|x: int| 0 <= x < s implies (#[trigger] b2.flip[x]) is Some by {
                assert(b1.flip[x] is Some);
            }
        }
    }
}

/// After the search every triangle is decided and in a component, and
/// linked triangles are in the same component.
pub proof fn lemma_search_components(adj: Seq<Seq<(usize, bool)>>)
    requires
        in_range(adj),
        symmetric(adj),
        adj.len() <= usize::MAX,
    ensures
        ({
            let b = search(adj, adj.len() as int);
            &&& forall|t: int| 0 <= t < adj.len() ==> (#[trigger] b.flip[t]) is Some && (b.comp[t] as int) < b.ncomp
            &&& forall|t: int, e: int|
                0 <= t < adj.len() && 0 <= e < adj[t].len() ==> #[trigger] b.comp[adj[t][e].0 as int] == b.comp[t]
        }),
{
    let lab = Seq::new(adj.len(), |i: int| false);
    lemma_search(adj, adj.len() as int, lab);
    let b = search(adj, adj.len() as int);
    assert forall|t: int, e: int| 0 <= t < adj.len() && 0 <= e < adj[t].len() implies #[trigger] b.comp[adj[t][e].0 as int]
        == b.comp[t] by {
        assert(b.flip[t] is Some);
        assert(queued(b.queue, t));
        let k = choose|k: int| 0 <= k < b.queue.len() && b.queue[k] as int == t;
        assert(adj[b.queue[k] as int][e] == adj[t][e]);
    }
}

/// When some labelling of the triangles satisfies every link, the flips
/// chosen satisfy every link too: after flipping, every two linked edge
/// occurrences run opposite ways.
pub proof fn lemma_search_consistent(adj: Seq<Seq<(usize, bool)>>, lab: Seq<bool>)
    requires
        in_range(adj),
        symmetric(adj),
        adj.len() <= usize::MAX,
        consistent(adj, lab),
    ensures
        ({
            let b = search(adj, adj.len() as int);
            forall|t: int, e: int|
                0 <= t < adj.len() && 0 <= e < adj[t].len() ==> (flip_or_false(b.flip[t]) != flip_or_false(
                    #[trigger] b.flip[adj[t][e].0 as int],
                )) == adj[t][e].1
        }),
{
    lemma_search(adj, adj.len() as int, lab);
    lemma_search_components(adj);
    let b = search(adj, adj.len() as int);
    assert forall|t: int, e: int| 0 <= t < adj.len() && 0 <= e < adj[t].len() implies (flip_or_false(b.flip[t]) != flip_or_false(
        #[trigger] b.flip[adj[t][e].0 as int],
    )) == adj[t][e].1 by {
        let j = adj[t][e].0 as int;
        assert(b.comp[j] == b.comp[t]);
        assert(b.flip[t] is Some);
        assert(b.flip[j] is Some);
        assert(lab[j] == (lab[t] != adj[t][e].1));
    }
}

/// The triangles with those marked in `flip` wound the other way (their
/// last two corners swapped).
pub open spec fn flipped_tris(tris: Seq<[usize; 3]>, flip: Seq<bool>) -> Seq<[usize; 3]> {
    Seq::new(
        tris.len(),
        |t: int|
            if t < flip.len() && flip[t] {
                [tris[t][0], tris[t][2], tris[t][1]]
            } else {
                tris[t]
            },
    )
}

/// Swaps the last two corners of every triangle marked in `flip`.
pub fn flip_triangles(tris: &mut Vec<[usize; 3]>, flip: &Vec<bool>)
    ensures
        final(tris)@ == flipped_tris(old(tris)@, flip@),
{
    let ghost t0 = tris@;
    let mut t: usize = 0;
    while t < tris.len()
        invariant
            t <= tris.len(),
            tris@.len() == t0.len(),
            forall|k: int| 0 <= k < tris@.len() ==> #[trigger] tris@[k] == (if k < t {
                flipped_tris(t0, flip@)[k]
            } else {
                t0[k]
            }),
        decreases tris.len() - t,
    {
        if t < flip.len() && flip[t] {
            let tri = tris[t];
            tris[t] = [tri[0], tri[2], tri[1]];
        }
        t += 1;
    }
    assert(tris@ =~= flipped_tris(t0, flip@));
}

/// The links between the triangles of `tris` whose corners are welded by
/// `rep`.
pub open spec fn tri_links(tris: Seq<[usize; 3]>, rep: Seq<usize>) -> Seq<Seq<(usize, bool)>> {
    let occ = occurrences(tris, rep, tris.len() as int);
    adjacency(occ, tris.len(), occ.len() as int)
}

proof fn lemma_occurrences_members(tris: Seq<[usize; 3]>, rep: Seq<usize>, n: int)
    requires
        0 <= n <= tris.len(),
    ensures
        forall|q: int| 0 <= q < occurrences(tris, rep, n).len() ==> #[trigger] occurrences(tris, rep, n)[q].0 < n,
    decreases n,
{
    if n > 0 {
        lemma_occurrences_members(tris, rep, n - 1);
        let prev = occurrences(tris, rep, n - 1);
        let all = occurrences(tris, rep, n);
        assert forall|q: int| 0 <= q < all.len() implies #[trigger] all[q].0 < n by {
            if q < prev.len() {
                assert(all[q] == prev[q]);
            }
        }
    }
}

/// The links of a triangle soup are symmetric and name only its triangles.
pub proof fn lemma_tri_links_symmetric(tris: Seq<[usize; 3]>, rep: Seq<usize>)
    ensures
        symmetric(tri_links(tris, rep)),
        in_range(tri_links(tris, rep)),
        tri_links(tris, rep).len() == tris.len(),
{
    let occ = occurrences(tris, rep, tris.len() as int);
    lemma_occurrences_members(tris, rep, tris.len() as int);
    lemma_adjacency_symmetric(occ, tris.len(), occ.len() as int);
}

/// Makes the triangles' windings agree across shared edges, component by
/// component (see `search`), and returns each triangle's component and the
/// number of components. `rep` welds the corners: `rep[p]` is the point
/// that stands for point `p`. Which way each component finally faces is
/// decided by the caller from positions.
pub fn orient_tris_consistent(tris: &mut Vec<[usize; 3]>, rep: &Vec<usize>) -> (r: (Vec<usize>, usize))
    requires
        forall|t: int, j: int| 0 <= t < old(tris)@.len() && 0 <= j < 3 ==> #[trigger] old(tris)@[t][j] < rep@.len(),
    ensures
        ({
            let b = search(tri_links(old(tris)@, rep@), old(tris)@.len() as int);
            &&& final(tris)@ == flipped_tris(old(tris)@, b.flip.map_values(|f: Option<bool>| flip_or_false(f)))
            &&& r.0@ == b.comp
            &&& r.1 == b.ncomp
        }),
{
    let occ = edge_occurrences(tris, rep);
    proof {
        lemma_occurrences_members(tris@, rep@, tris@.len() as int);
        lemma_tri_links_symmetric(tris@, rep@);
    }
    let adj = parity_adjacency(&occ, tris.len());
    proof {
        let av = adj@.map_values(|l: Vec<(usize, bool)>| l@);
        assert forall|t: int, k: int| 0 <= t < adj@.len() && 0 <= k < adj@[t]@.len() implies #[trigger] adj@[t]@[k].0
            < adj@.len() by {
            assert(av[t][k] == adj@[t]@[k]);
        }
    }
    let (flips, comp, ncomp) = orient_search(&adj);
    flip_triangles(tris, &flips);
    (comp, ncomp)
}

/// Orienting a triangle soup decides every triangle and puts linked
/// triangles (triangles sharing a welded edge) in the same component.
pub proof fn lemma_orientation_components(tris: Seq<[usize; 3]>, rep: Seq<usize>)
    requires
        tris.len() <= usize::MAX,
    ensures
        ({
            let adj = tri_links(tris, rep);
            let b = search(adj, tris.len() as int);
            &&& forall|t: int| 0 <= t < tris.len() ==> (#[trigger] b.flip[t]) is Some && (b.comp[t] as int) < b.ncomp
            &&& forall|t: int, e: int|
                0 <= t < adj.len() && 0 <= e < adj[t].len() ==> #[trigger] b.comp[adj[t][e].0 as int] == b.comp[t]
        }),
{
    lemma_tri_links_symmetric(tris, rep);
    lemma_search_components(tri_links(tris, rep));
}

/// When the triangles of a soup can be oriented consistently at all (some
/// labelling satisfies every link), the flips found do it: after flipping,
/// every two linked edge occurrences run opposite ways.
pub proof fn lemma_orientation_consistent(tris: Seq<[usize; 3]>, rep: Seq<usize>, lab: Seq<bool>)
    requires
        tris.len() <= usize::MAX,
        consistent(tri_links(tris, rep), lab),
    ensures
        ({
            let adj = tri_links(tris, rep);
            let b = search(adj, tris.len() as int);
            forall|t: int, e: int|
                0 <= t < adj.len() && 0 <= e < adj[t].len() ==> (flip_or_false(b.flip[t]) != flip_or_false(
                    #[trigger] b.flip[adj[t][e].0 as int],
                )) == adj[t][e].1
        }),
{
    lemma_tri_links_symmetric(tris, rep);
    lemma_search_consistent(tri_links(tris, rep), lab);
}

} // verus!
