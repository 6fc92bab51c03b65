//! A disjoint-set forest over `0..n`, with path compression and union by
//! rank, for grouping connected elements.

use vstd::prelude::*;

verus! {

/// Disjoint sets over `0..n`. Its view gives the representative of each
/// element: two elements are in the same set exactly when their
/// representatives are equal.
pub struct Dsu {
    parent: Vec<usize>,
    rank: Vec<u8>,
    roots: Ghost<Seq<usize>>,
    lvl: Ghost<Seq<nat>>,
    cap: Ghost<nat>,
}

impl View for Dsu {
    type V = Seq<usize>;

    closed spec fn view(&self) -> Seq<usize> {
        self.roots@
    }
}

impl Dsu {
    /// The forest is consistent with the sets of its view, and every path
    /// to a root climbs through strictly higher levels.
    pub closed spec fn wf(&self) -> bool {
        let n = self.parent@.len();
        let parent = self.parent@;
        let roots = self.roots@;
        let lvl = self.lvl@;
        &&& self.rank@.len() == n
        &&& roots.len() == n
        &&& lvl.len() == n
        &&& forall|x: int| 0 <= x < n ==> #[trigger] parent[x] < n
        &&& forall|x: int| 0 <= x < n ==> #[trigger] roots[x] < n
        &&& forall|x: int| 0 <= x < n ==> roots[roots[x] as int] == #[trigger] roots[x]
        &&& forall|x: int| 0 <= x < n ==> ((#[trigger] parent[x] == x) <==> (roots[x] == x))
        &&& forall|x: int| 0 <= x < n ==> roots[#[trigger] parent[x] as int] == roots[x]
        &&& forall|x: int| 0 <= x < n && parent[x] != x ==> lvl[#[trigger] parent[x] as int] > lvl[x]
        &&& forall|x: int| 0 <= x < n ==> lvl[x] <= lvl[#[trigger] roots[x] as int]
        &&& forall|x: int| 0 <= x < n ==> #[trigger] lvl[x] < self.cap@
    }

    /// Whether `x` and `y` are in the same set.
    pub open spec fn same(&self, x: int, y: int) -> bool {
        self@[x] == self@[y]
    }

    /// `n` elements, each in a set of its own.
    pub fn new(n: usize) -> (d: Dsu)
        ensures
            d.wf(),
            d@ == Seq::new(n as nat, |x: int| x as usize),
    {
        let mut parent: Vec<usize> = Vec::new();
        let mut rank: Vec<u8> = Vec::new();
        let mut i: usize = 0;
        while i < n
            invariant
                i <= n,
                parent@ == Seq::new(i as nat, |x: int| x as usize),
                rank@.len() == i,
            decreases n - i,
        {
            parent.push(i);
            rank.push(0);
            i += 1;
            assert(parent@ =~= Seq::new(i as nat, |x: int| x as usize));
        }
        let d = Dsu {
            parent,
            rank,
            roots: Ghost(Seq::new(n as nat, |x: int| x as usize)),
            lvl: Ghost(Seq::new(n as nat, |x: int| 0nat)),
            cap: Ghost(1),
        };
        d
    }

    /// The number of elements.
    pub fn len(&self) -> (n: usize)
        requires
            self.wf(),
        ensures
            n == self@.len(),
    {
        self.parent.len()
    }

    /// Every representative is its own representative.
    pub proof fn lemma_representatives(&self)
        requires
            self.wf(),
        ensures
            forall|x: int| 0 <= x < self@.len() ==> self@[x] < self@.len() && self@[self@[x] as int] == self@[x],
    {
    }

    fn find_rec(&mut self, x: usize) -> (r: usize)
        requires
            old(self).wf(),
            x < old(self).parent@.len(),
        ensures
            final(self).wf(),
            r == old(self).roots@[x as int],
            final(self).roots@ == old(self).roots@,
            final(self).lvl@ == old(self).lvl@,
            final(self).cap@ == old(self).cap@,
            final(self).rank@ == old(self).rank@,
            final(self).parent@.len() == old(self).parent@.len(),
        decreases old(self).cap@ - old(self).lvl@[x as int],
    {
        let p = self.parent[x];
        if p == x {
            x
        } else {
            proof {
                assert(self.lvl@[p as int] > self.lvl@[x as int]);
                assert(self.lvl@[p as int] < self.cap@);
            }
            let r = self.find_rec(p);
            let ghost before = self.parent@;
            proof {
                assert(self.roots@[x as int] != x);
                assert(self.roots@[p as int] == self.roots@[x as int]);
            }
            self.parent.set(x, r);
            proof {
                let n = self.parent@.len();
                let parent = self.parent@;
                let roots = self.roots@;
                let lvl = self.lvl@;
                assert forall|y: int| 0 <= y < n implies #[trigger] parent[y] < n by {
                    if y != x {
                        assert(parent[y] == before[y]);
                    }
                }
                assert forall|y: int| 0 <= y < n implies ((#[trigger] parent[y] == y) <==> (roots[y] == y)) by {
                    if y != x {
                        assert(parent[y] == before[y]);
                    }
                }
                assert forall|y: int| 0 <= y < n implies roots[#[trigger] parent[y] as int] == roots[y] by {
                    if y != x {
                        assert(parent[y] == before[y]);
                    }
                }
                assert forall|y: int| 0 <= y < n && parent[y] != y implies lvl[#[trigger] parent[y] as int] > lvl[y] by {
                    if y != x {
                        assert(parent[y] == before[y]);
                    } else {
                        assert(lvl[before[x as int] as int] > lvl[x as int]);
                        assert(lvl[before[x as int] as int] <= lvl[roots[before[x as int] as int] as int]);
                    }
                }
            }
            r
        }
    }

    /// The representative of `x`; the sets do not change (the path from `x`
    /// is shortened to point at its representative).
    pub fn find(&mut self, x: usize) -> (r: usize)
        requires
            old(self).wf(),
            x < old(self)@.len(),
        ensures
            final(self).wf(),
            r == old(self)@[x as int],
            final(self)@ == old(self)@,
    {
        self.find_rec(x)
    }

    /// Merges the sets of `a` and `b`: afterwards two elements are in the
    /// same set when they were, or when one was with `a` and the other with
    /// `b`. The representative of the merged set is one of the two old ones.
    pub fn union(&mut self, a: usize, b: usize)
        requires
            old(self).wf(),
            a < old(self)@.len(),
            b < old(self)@.len(),
        ensures
            final(self).wf(),
            final(self)@.len() == old(self)@.len(),
            forall|x: int, y: int|
                0 <= x < old(self)@.len() && 0 <= y < old(self)@.len() ==> (#[trigger] final(self).same(x, y) <==> (
                old(self).same(x, y) || (old(self).same(x, a as int) && old(self).same(y, b as int)) || (old(self).same(
                    x,
                    b as int,
                ) && old(self).same(y, a as int)))),
            forall|x: int|
                0 <= x < old(self)@.len() && !old(self).same(x, a as int) && !old(self).same(x, b as int)
                    ==> #[trigger] final(self)@[x] == old(self)@[x],
            forall|x: int|
                0 <= x < old(self)@.len() && (old(self).same(x, a as int) || old(self).same(x, b as int))
                    ==> (#[trigger] final(self)@[x] == old(self)@[a as int] || final(self)@[x] == old(self)@[b as int]),
    {
        let ghost r0 = self.roots@;
        let ra0 = self.find(a);
        let rb0 = self.find(b);
        if ra0 == rb0 {
            return;
        }
        let rka = self.rank[ra0];
        let rkb = self.rank[rb0];
        let (ra, rb) = if rka < rkb {
            (rb0, ra0)
        } else {
            (ra0, rb0)
        };
        let ghost n = self.parent@.len();
        let ghost before = self.parent@;
        let ghost lvl0 = self.lvl@;
        let ghost roots0 = self.roots@;
        proof {
            assert(roots0[ra as int] == ra && roots0[rb as int] == rb);
            assert(before[rb as int] == rb);
        }
        self.parent.set(rb, ra);
        if rka == rkb {
            self.rank.set(ra, rka.saturating_add(1));
        }
        let ghost top: nat = if lvl0[ra as int] > lvl0[rb as int] + 1 {
            lvl0[ra as int]
        } else {
            lvl0[rb as int] + 1
        };
        let ghost cap0 = self.cap@;
        self.lvl = Ghost(lvl0.update(ra as int, top));
        self.cap = Ghost(if cap0 > top + 1 {
            cap0
        } else {
            top + 1
        });
        self.roots = Ghost(Seq::new(n, |x: int| if roots0[x] == rb {
            ra
        } else {
            roots0[x]
        }));
        proof {
            let parent = self.parent@;
            let roots = self.roots@;
            let lvl = self.lvl@;
            assert forall|x: int| 0 <= x < n implies #[trigger] parent[x] < n by {
                if x != rb {
                    assert(parent[x] == before[x]);
                }
            }
            assert forall|x: int| 0 <= x < n implies #[trigger] roots[x] < n by {
                assert(roots0[x] < n);
            }
            assert forall|x: int| 0 <= x < n implies roots[roots[x] as int] == #[trigger] roots[x] by {
                assert(roots0[roots0[x] as int] == roots0[x]);
            }
            assert forall|x: int| 0 <= x < n implies ((#[trigger] parent[x] == x) <==> (roots[x] == x)) by {
                if x != rb {
                    assert(parent[x] == before[x]);
                    assert((before[x] == x) <==> (roots0[x] == x));
                }
            }
            assert forall|x: int| 0 <= x < n implies roots[#[trigger] parent[x] as int] == roots[x] by {
                if x != rb {
                    assert(parent[x] == before[x]);
                    assert(roots0[before[x] as int] == roots0[x]);
                }
            }
            assert forall|x: int| 0 <= x < n && parent[x] != x implies lvl[#[trigger] parent[x] as int] > lvl[x] by {
                if x != rb {
                    assert(parent[x] == before[x]);
                    assert(lvl0[before[x] as int] > lvl0[x]);
                    if x == ra {
                        assert(before[x] == x);
                    }
                }
            }
            assert forall|x: int| 0 <= x < n implies lvl[x] <= lvl[#[trigger] roots[x] as int] by {
                assert(lvl0[x] <= lvl0[roots0[x] as int]);
                if roots0[x] == rb {
                    if x == ra {
                        assert(roots0[ra as int] == ra);
                    }
                }
            }
            assert forall|x: int| 0 <= x < n implies #[trigger] lvl[x] < self.cap@ by {
                assert(lvl0[x] < cap0);
            }
            assert(self.wf());
            assert forall|x: int, y: int|
                0 <= x < n && 0 <= y < n implies (#[trigger] self.same(x, y) <==> (r0[x] == r0[y] || (r0[x] == r0[a as int]
                && r0[y] == r0[b as int]) || (r0[x] == r0[b as int] && r0[y] == r0[a as int]))) by {
            }
        }
    }
}

} // verus!
