//! The chains along which a bevel evens out its offsets: runs of boundary
//! vertices, each linked to the next through the opposite of its first
//! edge, found by walking from every boundary vertex that starts an edge.

use vstd::prelude::*;
use crate::polypath::{unused_count, lemma_unused_count_update};

verus! {

/// What a chain walk reads of a bevel edge: its opposite edge, and the
/// boundary vertex on its left, if any.
#[derive(Clone, Copy, Debug, PartialEq, Eq, Structural)]
pub struct ChainEdge {
    pub pair_index: usize,
    pub left_v: Option<usize>,
}

/// A chain of boundary vertices, and whether its last one links back to
/// its first.
#[derive(Clone, Debug)]
pub struct AdjustChain {
    pub verts: Vec<usize>,
    pub is_cycle: bool,
}

/// The boundary vertex that follows `v`: the left vertex of the opposite of
/// its first edge, when all of these exist.
pub open spec fn next_bound(efirst: Seq<Option<usize>>, edges: Seq<ChainEdge>, v: int) -> Option<usize> {
    match efirst[v] {
        Some(e) => if e < edges.len() && edges[e as int].pair_index < edges.len() {
            match edges[edges[e as int].pair_index as int].left_v {
                Some(nv) => if nv < efirst.len() {
                    Some(nv)
                } else {
                    None
                },
                None => None,
            }
        } else {
            None
        },
        None => None,
    }
}

/// The walk from `curr` of the chain that started at `start`: each step
/// goes to the next boundary vertex while it is not visited yet; the walk
/// ends as a cycle when it comes back to `start`. Gives the chain, whether
/// it is a cycle, and the visited marks after.
pub open spec fn trace(
    efirst: Seq<Option<usize>>,
    edges: Seq<ChainEdge>,
    start: int,
    curr: int,
    visited: Seq<bool>,
    chain: Seq<usize>,
) -> (Seq<usize>, bool, Seq<bool>)
    decreases unused_count(visited),
{
    match next_bound(efirst, edges, curr) {
        Some(nv) => if nv == start {
            (chain, true, visited)
        } else if nv < visited.len() && !visited[nv as int] && unused_count(visited.update(nv as int, true))
            < unused_count(visited) {
            trace(efirst, edges, start, nv as int, visited.update(nv as int, true), chain.push(nv))
        } else {
            (chain, false, visited)
        },
        None => (chain, false, visited),
    }
}

/// The chains found from the boundary vertices `s..`, after `chains`: a
/// vertex not visited yet that has a first edge starts a walk, kept when it
/// has two vertices or more.
pub open spec fn scan(
    efirst: Seq<Option<usize>>,
    edges: Seq<ChainEdge>,
    s: int,
    visited: Seq<bool>,
    chains: Seq<(Seq<usize>, bool)>,
) -> Seq<(Seq<usize>, bool)>
    decreases efirst.len() - s,
{
    if s >= efirst.len() || s < 0 {
        chains
    } else if visited[s] || efirst[s] is None {
        scan(efirst, edges, s + 1, visited, chains)
    } else {
        let (chain, cyc, v2) = trace(efirst, edges, s, s, visited.update(s, true), seq![s as usize]);
        let chains2 = if chain.len() >= 2 {
            chains.push((chain, cyc))
        } else {
            chains
        };
        scan(efirst, edges, s + 1, v2, chains2)
    }
}

/// The adjustment chains of a bevel boundary.
pub open spec fn adjust_chains_spec(efirst: Seq<Option<usize>>, edges: Seq<ChainEdge>) -> Seq<(Seq<usize>, bool)> {
    scan(efirst, edges, 0, Seq::new(efirst.len(), |i: int| false), Seq::empty())
}

/// The chains a trace leaves: the chain so far extended by vertices that
/// were not visited, each linked to the one before.
proof fn lemma_trace(
    efirst: Seq<Option<usize>>,
    edges: Seq<ChainEdge>,
    start: int,
    curr: int,
    visited: Seq<bool>,
    chain: Seq<usize>,
)
    requires
        visited.len() == efirst.len(),
        chain.len() >= 1,
        chain[0] == start,
        chain.last() == curr,
        0 <= start < efirst.len(),
        forall|i: int| 0 <= i < chain.len() ==> #[trigger] chain[i] < visited.len() && visited[chain[i] as int],
        forall|i: int, j: int| 0 <= i < j < chain.len() ==> #[trigger] chain[i] != #[trigger] chain[j],
        forall|i: int| 0 <= i < chain.len() - 1 ==> next_bound(efirst, edges, #[trigger] chain[i] as int) == Some(chain[i + 1]),
    ensures
        ({
            let (c, cyc, v2) = trace(efirst, edges, start, curr, visited, chain);
            &&& v2.len() == visited.len()
            &&& c.len() >= chain.len()
            &&& c.take(chain.len() as int) == chain
            &&& c[0] == start
            &&& forall|i: int| 0 <= i < c.len() ==> #[trigger] c[i] < v2.len() && v2[c[i] as int]
            &&& forall|i: int, j: int| 0 <= i < j < c.len() ==> #[trigger] c[i] != #[trigger] c[j]
            &&& forall|i: int| 0 <= i < c.len() - 1 ==> next_bound(efirst, edges, #[trigger] c[i] as int) == Some(c[i + 1])
            &&& cyc ==> next_bound(efirst, edges, c.last() as int) == Some(start as usize)
            &&& forall|x: int| 0 <= x < visited.len() && visited[x] ==> #[trigger] v2[x]
            &&& forall|x: int| 0 <= x < visited.len() && !visited[x] && v2[x] ==> #[trigger] c.contains(x as usize)
            &&& forall|i: int| chain.len() <= i < c.len() ==> !visited[#[trigger] c[i] as int]
        }),
    decreases unused_count(visited),
{
    match next_bound(efirst, edges, curr) {
        Some(nv) => {
            if nv == start {
            } else if nv < visited.len() && !visited[nv as int] {
                lemma_unused_count_update(visited, nv as int);
                let v1 = visited.update(nv as int, true);
                let c1 = chain.push(nv);
                assert forall|i: int| 0 <= i < c1.len() implies #[trigger] c1[i] < v1.len() && v1[c1[i] as int] by {
                    if i < chain.len() {
                        assert(c1[i] == chain[i]);
                    }
                }
                assert forall|i: int, j: int| 0 <= i < j < c1.len() implies #[trigger] c1[i] != #[trigger] c1[j] by {
                    if j == chain.len() {
                        assert(c1[i] == chain[i]);
                        assert(visited[chain[i] as int]);
                    } else {
                        assert(c1[i] == chain[i] && c1[j] == chain[j]);
                    }
                }
                assert forall|i: int| 0 <= i < c1.len() - 1 implies next_bound(efirst, edges, #[trigger] c1[i] as int)
                    == Some(c1[i + 1]) by {
                    if i < chain.len() - 1 {
                        assert(c1[i] == chain[i] && c1[i + 1] == chain[i + 1]);
                    } else {
                        assert(c1[i] == chain.last());
                    }
                }
                lemma_trace(efirst, edges, start, nv as int, v1, c1);
                let (c, cyc, v2) = trace(efirst, edges, start, nv as int, v1, c1);
                assert(c.take(chain.len() as int) =~= c.take(c1.len() as int).take(chain.len() as int));
                assert(c1.take(chain.len() as int) =~= chain);
                assert forall|x: int| 0 <= x < visited.len() && !visited[x] && v2[x] implies #[trigger] c.contains(x as usize) by {
                    if x == nv {
                        assert(c[chain.len() as int] == c1[chain.len() as int]);
                    }
                }
                assert forall|i: int| chain.len() <= i < c.len() implies !visited[#[trigger] c[i] as int] by {
                    if i == chain.len() {
                        assert(c[i] == c1[i]);
                    } else {
                        assert(!v1[c[i] as int]);
                    }
                }
            }
        },
        None => {},
    }
    let (c, cyc, v2) = trace(efirst, edges, start, curr, visited, chain);
    assert(c.take(chain.len() as int) =~= chain) by {
        if c.len() == chain.len() {
            assert(c.take(chain.len() as int) =~= c);
        }
    }
}

/// The chains of a scan: each has two vertices or more, all distinct and
/// visited, and each linked to the next (the last to the first for a
/// cycle); different chains share no vertex.
pub open spec fn chains_ok(efirst: Seq<Option<usize>>, edges: Seq<ChainEdge>, chains: Seq<(Seq<usize>, bool)>) -> bool {
    &&& forall|k: int| 0 <= k < chains.len() ==> (#[trigger] chains[k]).0.len() >= 2
    &&& forall|k: int, i: int| 0 <= k < chains.len() && 0 <= i < chains[k].0.len() ==> #[trigger] chains[k].0[i] < efirst.len()
    &&& forall|k: int, i: int, j: int|
        0 <= k < chains.len() && 0 <= i < j < chains[k].0.len() ==> #[trigger] chains[k].0[i] != #[trigger] chains[k].0[j]
    &&& forall|k: int, i: int|
        0 <= k < chains.len() && 0 <= i < chains[k].0.len() - 1 ==> next_bound(efirst, edges, #[trigger] chains[k].0[i] as int)
            == Some(chains[k].0[i + 1])
    &&& forall|k: int|
        0 <= k < chains.len() && (#[trigger] chains[k]).1 ==> next_bound(efirst, edges, chains[k].0.last() as int)
            == Some(chains[k].0[0])
    &&& forall|k1: int, k2: int, i: int, j: int|
        0 <= k1 < k2 < chains.len() && 0 <= i < chains[k1].0.len() && 0 <= j < chains[k2].0.len() ==> #[trigger] chains[k1].0[i]
            != #[trigger] chains[k2].0[j]
}

proof fn lemma_scan(
    efirst: Seq<Option<usize>>,
    edges: Seq<ChainEdge>,
    s: int,
    visited: Seq<bool>,
    chains: Seq<(Seq<usize>, bool)>,
)
    requires
        0 <= s,
        efirst.len() <= usize::MAX,
        visited.len() == efirst.len(),
        chains_ok(efirst, edges, chains),
        forall|k: int, i: int| 0 <= k < chains.len() && 0 <= i < chains[k].0.len() ==> visited[#[trigger] chains[k].0[i] as int],
    ensures
        chains_ok(efirst, edges, scan(efirst, edges, s, visited, chains)),
    decreases efirst.len() - s,
{
    if s >= efirst.len() {
    } else if visited[s] || efirst[s] is None {
        lemma_scan(efirst, edges, s + 1, visited, chains);
    } else {
        let v1 = visited.update(s, true);
        let c0 = seq![s as usize];
        lemma_trace(efirst, edges, s, s, v1, c0);
        let (chain, cyc, v2) = trace(efirst, edges, s, s, v1, c0);
        let chains2 = if chain.len() >= 2 {
            chains.push((chain, cyc))
        } else {
            chains
        };
        assert forall|k: int, i: int| 0 <= k < chains2.len() && 0 <= i < chains2[k].0.len() implies v2[#[trigger] chains2[k].0[i] as int] by {
            if k < chains.len() {
                assert(chains2[k] == chains[k]);
                assert(visited[chains[k].0[i] as int]);
                assert(v1[chains[k].0[i] as int]);
            }
        }
        if chain.len() >= 2 {
            assert forall|k1: int, k2: int, i: int, j: int|
                0 <= k1 < k2 < chains2.len() && 0 <= i < chains2[k1].0.len() && 0 <= j < chains2[k2].0.len() implies #[trigger] chains2[k1].0[i]
                    != #[trigger] chains2[k2].0[j] by {
                if k2 == chains.len() {
                    assert(chains2[k1] == chains[k1]);
                    let x = chains[k1].0[i];
                    assert(visited[x as int]);
                    let y = chain[j];
                    if j == 0 {
                        assert(chain[0] == s);
                    } else {
                        assert(!v1[y as int]);
                    }
                } else {
                    assert(chains2[k1] == chains[k1] && chains2[k2] == chains[k2]);
                }
            }
        }
        lemma_scan(efirst, edges, s + 1, v2, chains2);
    }
}

/// The chains of a bevel boundary are well formed (see `chains_ok`): each
/// has two vertices or more, all distinct, each linked to the next (and the
/// last to the first for a cycle), and no vertex is in two chains.
pub proof fn lemma_adjust_chains_well_formed(efirst: Seq<Option<usize>>, edges: Seq<ChainEdge>)
    requires
        efirst.len() <= usize::MAX,
    ensures
        chains_ok(efirst, edges, adjust_chains_spec(efirst, edges)),
{
    lemma_scan(efirst, edges, 0, Seq::new(efirst.len(), |i: int| false), Seq::empty());
}

fn next_bound_exec(efirst: &Vec<Option<usize>>, edges: &Vec<ChainEdge>, v: usize) -> (r: Option<usize>)
    requires
        v < efirst@.len(),
    ensures
        r == next_bound(efirst@, edges@, v as int),
{
    match efirst[v] {
        Some(e) => {
            if e < edges.len() && edges[e].pair_index < edges.len() {
                match edges[edges[e].pair_index].left_v {
                    Some(nv) => {
                        if nv < efirst.len() {
                            Some(nv)
                        } else {
                            None
                        }
                    },
                    None => None,
                }
            } else {
                None
            }
        },
        None => None,
    }
}

/// The chains along which a bevel evens out its offsets (see
/// `adjust_chains_spec`): `efirst` gives the first edge of each boundary
/// vertex, `edges` the bevel edges.
pub fn find_adjust_chains(efirst: &Vec<Option<usize>>, edges: &Vec<ChainEdge>) -> (r: Vec<AdjustChain>)
    ensures
        r@.len() == adjust_chains_spec(efirst@, edges@).len(),
        forall|k: int|
            0 <= k < r@.len() ==> (#[trigger] r@[k]).verts@ == adjust_chains_spec(efirst@, edges@)[k].0 && r@[k].is_cycle
                == adjust_chains_spec(efirst@, edges@)[k].1,
{
    let n = efirst.len();
    let mut visited: Vec<bool> = Vec::new();
    let mut q: usize = 0;
    while q < n
        invariant
            q <= n,
            visited@ == Seq::new(q as nat, |i: int| false),
        decreases n - q,
    {
        visited.push(false);
        q += 1;
        assert(visited@ =~= Seq::new(q as nat, |i: int| false));
    }
    let ghost goal = adjust_chains_spec(efirst@, edges@);
    let mut chains: Vec<AdjustChain> = Vec::new();
    let ghost mut gch: Seq<(Seq<usize>, bool)> = Seq::empty();
    let mut s: usize = 0;
    while s < n
        invariant
            s <= n,
            n == efirst@.len(),
            visited@.len() == n,
            scan(efirst@, edges@, s as int, visited@, gch) == goal,
            chains@.len() == gch.len(),
            forall|k: int| 0 <= k < chains@.len() ==> (#[trigger] chains@[k]).verts@ == gch[k].0 && chains@[k].is_cycle == gch[k].1,
        decreases n - s,
    {
        if visited[s] || efirst[s].is_none() {
            s += 1;
            continue;
        }
        let ghost vis0 = visited@;
        visited.set(s, true);
        let ghost v1 = visited@;
        let mut chain: Vec<usize> = Vec::new();
        chain.push(s);
        let ghost c0 = chain@;
        let ghost target = trace(efirst@, edges@, s as int, s as int, v1, c0);
        let mut curr: usize = s;
        let mut cyc = false;
        loop
            invariant_except_break
                curr < n,
                n == efirst@.len(),
                visited@.len() == n,
                !cyc,
                trace(efirst@, edges@, s as int, curr as int, visited@, chain@) == target,
            ensures
                visited@.len() == n,
                (chain@, cyc, visited@) == target,
            decreases unused_count(visited@),
        {
            match next_bound_exec(efirst, edges, curr) {
                Some(nv) => {
                    if nv == s {
                        cyc = true;
                        break;
                    } else if !visited[nv] {
                        proof {
                            lemma_unused_count_update(visited@, nv as int);
                        }
                        visited.set(nv, true);
                        chain.push(nv);
                        curr = nv;
                    } else {
                        break;
                    }
                },
                None => {
                    break;
                },
            }
        }
        let ghost entry = (chain@, cyc);
        if chain.len() >= 2 {
            chains.push(AdjustChain { verts: chain, is_cycle: cyc });
            proof {
                gch = gch.push(entry);
            }
        }
        s += 1;
    }
    chains
}

} // verus!
