//! The grid of a bevel's vertex mesh: for each of the `n` corners of a
//! beveled vertex, a `(ns / 2 + 1) x (ns + 1)` patch of values, where `ns`
//! is the number of segments. Patches overlap along their borders; each
//! shared cell has one canonical position, and the others copy it.

use vstd::prelude::*;
use vstd::arithmetic::div_mod::lemma_fundamental_div_mod_converse;

verus! {

/// The position in the data of cell `(i, j, k)`.
pub open spec fn cell(ns2: int, ns: int, i: int, j: int, k: int) -> int {
    (i * (ns2 + 1) + j) * (ns + 1) + k
}

/// Whether `(i, j, k)` is a cell of a grid of `n` patches of `ns` segments.
pub open spec fn in_grid(n: int, ns: int, i: int, j: int, k: int) -> bool {
    0 <= i < n && 0 <= j <= ns / 2 && 0 <= k <= ns
}

/// Whether cell `(i, j, k)` is the canonical one among the cells it is
/// shared by: with an odd number of segments, the cells of the lower-left
/// quarter; with an even number, those below the middle row, and the centre
/// of patch 0.
pub open spec fn is_canon_spec(ns: int, i: int, j: int, k: int) -> bool {
    let ns2 = ns / 2;
    if ns % 2 == 1 {
        j <= ns2 && k <= ns2
    } else {
        (j < ns2 && k <= ns2) || (j == ns2 && k == ns2 && i == 0)
    }
}

/// The canonical cell for cell `(i, j, k)`: the centre of patch 0 for the
/// centre; the cell itself when canonical; else the matching cell of the
/// previous or of the next patch.
pub open spec fn canon_spec(n: int, ns: int, i: int, j: int, k: int) -> (int, int, int) {
    let ns2 = ns / 2;
    let odd = ns % 2 == 1;
    if !odd && j == ns2 && k == ns2 {
        (0, ns2, ns2)
    } else if (odd && j <= ns2 && k <= ns2) || (!odd && j <= ns2 - 1 && k <= ns2) {
        (i, j, k)
    } else if k <= ns2 {
        ((i + n - 1) % n, k, ns - j)
    } else {
        ((i + 1) % n, ns - k, j)
    }
}

/// The canonical cell of every cell of a grid is a canonical cell of the
/// grid.
pub proof fn lemma_canon_is_canonical(n: int, ns: int, i: int, j: int, k: int)
    requires
        ns >= 0,
        in_grid(n, ns, i, j, k),
    ensures
        in_grid(n, ns, canon_spec(n, ns, i, j, k).0, canon_spec(n, ns, i, j, k).1, canon_spec(n, ns, i, j, k).2),
        is_canon_spec(ns, canon_spec(n, ns, i, j, k).0, canon_spec(n, ns, i, j, k).1, canon_spec(n, ns, i, j, k).2),
{
    let ns2 = ns / 2;
    assert(ns2 * 2 + ns % 2 == ns);
    assert(0 <= (i + n - 1) % n < n) by (nonlinear_arith)
        requires
            n > 0,
    ;
    assert(0 <= (i + 1) % n < n) by (nonlinear_arith)
        requires
            n > 0,
    ;
}

/// A canonical cell is its own canonical cell.
pub proof fn lemma_canon_fixes_canonical(n: int, ns: int, i: int, j: int, k: int)
    requires
        ns >= 0,
        in_grid(n, ns, i, j, k),
        is_canon_spec(ns, i, j, k),
    ensures
        canon_spec(n, ns, i, j, k) == (i, j, k),
{
}

pub(crate) proof fn lemma_cell_bounds(n: int, ns2: int, ns: int, i: int, j: int, k: int)
    requires
        0 <= i < n,
        0 <= j <= ns2,
        0 <= k <= ns,
    ensures
        n * (ns2 + 1) <= n * (ns2 + 1) * (ns + 1),
        0 <= i * (ns2 + 1) + j < n * (ns2 + 1),
        0 <= cell(ns2, ns, i, j, k) < n * (ns2 + 1) * (ns + 1),
        i * (ns2 + 1) <= i * (ns2 + 1) + j,
        (i * (ns2 + 1) + j) * (ns + 1) <= cell(ns2, ns, i, j, k),
{
    let a = ns2 + 1;
    let b = ns + 1;
    assert(n * a <= n * a * b) by (nonlinear_arith)
        requires
            0 < n,
            0 < a,
            0 < b,
    ;
    assert(0 <= i * a) by (nonlinear_arith)
        requires
            0 <= i,
            0 < a,
    ;
    assert(i * a + j < n * a) by (nonlinear_arith)
        requires
            0 <= i < n,
            0 <= j < a,
    ;
    let r = i * a + j;
    assert(0 <= r * b) by (nonlinear_arith)
        requires
            0 <= r,
            0 < b,
    ;
    assert(r * b + k < (n * a) * b) by (nonlinear_arith)
        requires
            0 <= r < n * a,
            0 <= k < b,
    ;
}

pub(crate) proof fn lemma_cell_injective(ns2: int, ns: int, i: int, j: int, k: int, i2: int, j2: int, k2: int)
    requires
        0 <= i,
        0 <= j <= ns2,
        0 <= k <= ns,
        0 <= i2,
        0 <= j2 <= ns2,
        0 <= k2 <= ns,
        cell(ns2, ns, i, j, k) == cell(ns2, ns, i2, j2, k2),
    ensures
        i == i2 && j == j2 && k == k2,
{
    let a = ns2 + 1;
    let b = ns + 1;
    let x = cell(ns2, ns, i, j, k);
    lemma_fundamental_div_mod_converse(x, b, i * a + j, k);
    lemma_fundamental_div_mod_converse(x, b, i2 * a + j2, k2);
    lemma_fundamental_div_mod_converse(i * a + j, a, i, j);
    lemma_fundamental_div_mod_converse(i2 * a + j2, a, i2, j2);
}

/// The vertex mesh grid of a beveled vertex with `n` corners and `ns`
/// segments; `ns2` is `ns / 2`.
pub struct VMeshGrid<T> {
    pub n: usize,
    pub ns: usize,
    pub ns2: usize,
    pub data: Vec<T>,
}

impl<T: Copy> VMeshGrid<T> {
    /// Whether the grid has the shape its sizes say.
    pub open spec fn wf(&self) -> bool {
        &&& self.ns < usize::MAX
        &&& self.ns2 == self.ns / 2
        &&& self.data@.len() == self.n * (self.ns2 + 1) * (self.ns + 1)
    }

    /// The value at cell `(i, j, k)`.
    pub open spec fn at(&self, i: int, j: int, k: int) -> T {
        self.data@[cell(self.ns2 as int, self.ns as int, i, j, k)]
    }

    /// A grid of `n` patches of `ns` segments, every cell holding `fill`.
    pub fn new(n: usize, ns: usize, fill: T) -> (g: Self)
        requires
            ns < usize::MAX,
            n * (ns / 2 + 1) * (ns + 1) <= usize::MAX,
        ensures
            g.wf(),
            g.n == n,
            g.ns == ns,
            forall|p: int| 0 <= p < g.data@.len() ==> #[trigger] g.data@[p] == fill,
    {
        let ns2 = ns / 2;
        assert(n * (ns2 + 1) <= n * (ns2 + 1) * (ns + 1)) by (nonlinear_arith)
            requires
                0 <= n,
                0 <= ns2,
                0 <= ns,
        ;
        let total = n * (ns2 + 1) * (ns + 1);
        let mut data: Vec<T> = Vec::new();
        let mut p: usize = 0;
        while p < total
            invariant
                p <= total,
                data@.len() == p,
                forall|q: int| 0 <= q < p ==> #[trigger] data@[q] == fill,
            decreases total - p,
        {
            data.push(fill);
            p += 1;
        }
        VMeshGrid { n, ns, ns2, data }
    }

    pub(crate) fn idx(&self, i: usize, j: usize, k: usize) -> (r: usize)
        requires
            self.wf(),
            i < self.n,
            j <= self.ns2,
            k <= self.ns,
        ensures
            r == cell(self.ns2 as int, self.ns as int, i as int, j as int, k as int),
            r < self.data@.len(),
    {
        proof {
            lemma_cell_bounds(self.n as int, self.ns2 as int, self.ns as int, i as int, j as int, k as int);
        }
        // Every partial sum is below the length of the data, a `usize`.
        let len = self.data.len();
        assert(cell(self.ns2 as int, self.ns as int, i as int, j as int, k as int) < len);
        let a = self.ns2 + 1;
        let b = self.ns + 1;
        (i * a + j) * b + k
    }

    /// The value at cell `(i, j, k)`.
    pub fn get(&self, i: usize, j: usize, k: usize) -> (v: T)
        requires
            self.wf(),
            i < self.n,
            j <= self.ns2,
            k <= self.ns,
        ensures
            v == self.at(i as int, j as int, k as int),
    {
        let p = self.idx(i, j, k);
        self.data[p]
    }

    /// Sets the value at cell `(i, j, k)`; no other cell changes.
    pub fn set(&mut self, i: usize, j: usize, k: usize, v: T)
        requires
            old(self).wf(),
            i < old(self).n,
            j <= old(self).ns2,
            k <= old(self).ns,
        ensures
            final(self).wf(),
            final(self).n == old(self).n,
            final(self).ns == old(self).ns,
            final(self).at(i as int, j as int, k as int) == v,
            forall|a: int, b: int, c: int|
                in_grid(old(self).n as int, old(self).ns as int, a, b, c) && !(a == i && b == j && c == k)
                    ==> #[trigger] final(self).at(a, b, c) == old(self).at(a, b, c),
    {
        let p = self.idx(i, j, k);
        self.data.set(p, v);
        proof {
            assert forall|a: int, b: int, c: int|
                in_grid(old(self).n as int, old(self).ns as int, a, b, c) && !(a == i && b == j && c == k)
                    implies #[trigger] self.at(a, b, c) == old(self).at(a, b, c) by {
                lemma_cell_bounds(self.n as int, self.ns2 as int, self.ns as int, a, b, c);
                if cell(self.ns2 as int, self.ns as int, a, b, c) == p {
                    lemma_cell_injective(self.ns2 as int, self.ns as int, a, b, c, i as int, j as int, k as int);
                }
            }
        }
    }

    /// Whether cell `(i, j, k)` is canonical (see `is_canon_spec`).
    pub fn is_canon(&self, i: usize, j: usize, k: usize) -> (r: bool)
        requires
            self.wf(),
        ensures
            r == is_canon_spec(self.ns as int, i as int, j as int, k as int),
    {
        let ns2 = self.ns2;
        if self.ns % 2 == 1 {
            j <= ns2 && k <= ns2
        } else {
            (j < ns2 && k <= ns2) || (j == ns2 && k == ns2 && i == 0)
        }
    }

    /// The canonical cell of cell `(i, j, k)` (see `canon_spec`).
    pub fn canon(&self, i: usize, j: usize, k: usize) -> (r: (usize, usize, usize))
        requires
            self.wf(),
            i < self.n,
            j <= self.ns2,
            k <= self.ns,
        ensures
            (r.0 as int, r.1 as int, r.2 as int) == canon_spec(self.n as int, self.ns as int, i as int, j as int, k as int),
    {
        let n = self.n;
        let ns = self.ns;
        let ns2 = self.ns2;
        let odd = ns % 2;
        if odd == 0 && j == ns2 && k == ns2 {
            return (0, ns2, ns2);
        }
        if (odd != 0 && j <= ns2 && k <= ns2) || (odd == 0 && j + 1 <= ns2 && k <= ns2) {
            return (i, j, k);
        }
        if k <= ns2 {
            let prev = if i == 0 {
                n - 1
            } else {
                i - 1
            };
            assert(prev as int == (i + n - 1) % (n as int)) by (nonlinear_arith)
                requires
                    i < n,
                    prev == if i == 0 {
                        n - 1
                    } else {
                        i - 1
                    },
            ;
            return (prev, k, ns - j);
        }
        ((i + 1) % n, ns - k, j)
    }

    fn get_canon(&self, i: usize, j: usize, k: usize) -> (v: T)
        requires
            self.wf(),
            i < self.n,
            j <= self.ns2,
            k <= self.ns,
        ensures
            ({
                let c = canon_spec(self.n as int, self.ns as int, i as int, j as int, k as int);
                v == self.at(c.0, c.1, c.2)
            }),
    {
        let (ci, cj, ck) = self.canon(i, j, k);
        proof {
            lemma_canon_is_canonical(self.n as int, self.ns as int, i as int, j as int, k as int);
        }
        self.get(ci, cj, ck)
    }

    /// Fills every cell that is not canonical with the value of its
    /// canonical cell; canonical cells keep theirs.
    pub fn copy_equiv(&mut self)
        requires
            old(self).wf(),
        ensures
            final(self).wf(),
            final(self).n == old(self).n,
            final(self).ns == old(self).ns,
            forall|i: int, j: int, k: int|
                in_grid(old(self).n as int, old(self).ns as int, i, j, k) ==> {
                    let c = canon_spec(old(self).n as int, old(self).ns as int, i, j, k);
                    #[trigger] final(self).at(i, j, k) == old(self).at(c.0, c.1, c.2)
                },
    {
        let ghost g0 = *self;
        let ghost n = self.n as int;
        let ghost ns = self.ns as int;
        let mut i: usize = 0;
        while i < self.n
            invariant
                self.wf(),
                self.n == g0.n,
                self.ns == g0.ns,
                self.ns2 == g0.ns2,
                n == g0.n,
                ns == g0.ns,
                g0.wf(),
                i <= self.n,
                forall|a: int, b: int, c: int|
                    in_grid(n, ns, a, b, c) ==> #[trigger] self.at(a, b, c) == if a < i {
                        let cc = canon_spec(n, ns, a, b, c);
                        g0.at(cc.0, cc.1, cc.2)
                    } else {
                        g0.at(a, b, c)
                    },
            decreases self.n - i,
        {
            let mut j: usize = 0;
            while j <= self.ns2
                invariant
                    self.wf(),
                    self.n == g0.n,
                    self.ns == g0.ns,
                    self.ns2 == g0.ns2,
                    n == g0.n,
                    ns == g0.ns,
                    g0.wf(),
                    i < self.n,
                    j <= self.ns2 + 1,
                    forall|a: int, b: int, c: int|
                        in_grid(n, ns, a, b, c) ==> #[trigger] self.at(a, b, c) == if a < i || (a == i && b < j) {
                            let cc = canon_spec(n, ns, a, b, c);
                            g0.at(cc.0, cc.1, cc.2)
                        } else {
                            g0.at(a, b, c)
                        },
                decreases self.ns2 + 1 - j,
            {
                let mut k: usize = 0;
                while k <= self.ns
                    invariant
                        self.wf(),
                        self.n == g0.n,
                        self.ns == g0.ns,
                        self.ns2 == g0.ns2,
                        n == g0.n,
                        ns == g0.ns,
                        g0.wf(),
                        i < self.n,
                        j <= self.ns2,
                        k <= self.ns + 1,
                        forall|a: int, b: int, c: int|
                            in_grid(n, ns, a, b, c) ==> #[trigger] self.at(a, b, c) == if a < i || (a == i && (b < j || (
                            b == j && c < k))) {
                                let cc = canon_spec(n, ns, a, b, c);
                                g0.at(cc.0, cc.1, cc.2)
                            } else {
                                g0.at(a, b, c)
                            },
                    decreases self.ns + 1 - k,
                {
                    if !self.is_canon(i, j, k) {
                        let v = self.get_canon(i, j, k);
                        proof {
                            let cc = canon_spec(n, ns, i as int, j as int, k as int);
                            lemma_canon_is_canonical(n, ns, i as int, j as int, k as int);
                            lemma_canon_fixes_canonical(n, ns, cc.0, cc.1, cc.2);
                            assert(self.at(cc.0, cc.1, cc.2) == g0.at(cc.0, cc.1, cc.2));
                        }
                        self.set(i, j, k, v);
                    } else {
                        proof {
                            lemma_canon_fixes_canonical(n, ns, i as int, j as int, k as int);
                        }
                    }
                    k += 1;
                }
                j += 1;
            }
            i += 1;
        }
    }
}

} // verus!
