//! The boundary of a beveled vertex, as topology: which boundary vertices
//! the bevel puts around the vertex, which spokes each of them spans, and
//! which boundary vertices lie left and right of every spoke.
//!
//! The spokes are the edges around the vertex in fan order. Walking from the
//! first beveled spoke, every beveled spoke `e` and the next beveled spoke
//! `e2` after it bound one corner, which gets one boundary vertex, or three
//! (a patch miter) or two (an arc miter) when the corner is mitered. Whether
//! a corner is mitered depends on its angle, which the caller measures.

use vstd::prelude::*;
use crate::bevel_params::{AngleKind, MiterType};

verus! {

/// A boundary vertex: its neighbours in the boundary cycle, its position in
/// it, the first and last spoke it spans, and whether it starts an arc or a
/// patch miter.
#[derive(Clone, Copy, Debug, PartialEq, Eq, Structural)]
pub struct BoundVertTopo {
    pub prev: usize,
    pub next: usize,
    pub index: usize,
    pub efirst: Option<usize>,
    pub elast: Option<usize>,
    pub is_arc_start: bool,
    pub is_patch_start: bool,
}

/// A spoke: whether it is beveled, its profile index, and the boundary
/// vertices on its left and right.
#[derive(Clone, Copy, Debug, PartialEq, Eq, Structural)]
pub struct EdgeTopo {
    pub is_bev: bool,
    pub profile_index: i32,
    pub left_bv: Option<usize>,
    pub right_bv: Option<usize>,
}

/// The boundary of a beveled vertex: its boundary vertices in cycle order,
/// one entry per spoke, and the spoke of the outer miter, if any.
#[derive(Clone, Debug)]
pub struct BoundaryTopology {
    pub verts: Vec<BoundVertTopo>,
    pub edges: Vec<EdgeTopo>,
    pub miter_edge: Option<usize>,
}

/// Abstract value of a boundary.
pub struct BoundaryModel {
    pub verts: Seq<BoundVertTopo>,
    pub edges: Seq<EdgeTopo>,
    pub miter_edge: Option<usize>,
}

impl View for BoundaryTopology {
    type V = BoundaryModel;

    open spec fn view(&self) -> BoundaryModel {
        BoundaryModel { verts: self.verts@, edges: self.edges@, miter_edge: self.miter_edge }
    }
}

/// `x` taken back into `0..n` when it is in `n..2n`.
pub open spec fn wrap(x: int, n: int) -> int {
    if x < n {
        x
    } else {
        x - n
    }
}

/// How many steps forwards from spoke `e`, at least `d`, the next beveled
/// spoke is; `n` when there is none before `e` comes round again.
pub open spec fn bev_gap_from(bev: Seq<bool>, e: int, d: int) -> int
    decreases bev.len() - d,
{
    if d >= bev.len() {
        bev.len() as int
    } else if bev[wrap(e + d, bev.len() as int)] {
        d
    } else {
        bev_gap_from(bev, e, d + 1)
    }
}

/// How many steps forwards from spoke `e` the next beveled spoke is.
pub open spec fn bev_gap(bev: Seq<bool>, e: int) -> int {
    bev_gap_from(bev, e, 1)
}

/// How many spokes are beveled among the first `k`.
pub open spec fn bev_count(bev: Seq<bool>, k: int) -> nat
    decreases k,
{
    if k <= 0 {
        0
    } else {
        bev_count(bev, k - 1) + if bev[k - 1] {
            1nat
        } else {
            0nat
        }
    }
}

/// The first beveled spoke at `i` or after.
pub open spec fn first_bev_from(bev: Seq<bool>, i: int) -> int
    decreases bev.len() - i,
{
    if i >= bev.len() || i < 0 {
        bev.len() as int
    } else if bev[i] {
        i
    } else {
        first_bev_from(bev, i + 1)
    }
}

/// How far forwards from spoke `e` spoke `i` is, in `0..n`.
pub open spec fn offset_from(e: int, i: int, n: int) -> int {
    if i >= e {
        i - e
    } else {
        i - e + n
    }
}

/// The profile index of the `j`-th of `between` spokes inside an arc miter:
/// the first half take the start of the profile, a middle one (when their
/// number is odd) its middle, the rest its end.
pub open spec fn arc_profile(j: int, between: int, seg: usize) -> i32 {
    if j < between / 2 {
        0
    } else if between % 2 == 1 && j == between / 2 {
        (seg / 2) as i32
    } else {
        seg as i32
    }
}

/// A boundary vertex spanning spokes `efirst` to `elast`, not yet linked.
pub open spec fn bound_vert(efirst: Option<usize>, elast: Option<usize>, arc: bool, patch: bool) -> BoundVertTopo {
    BoundVertTopo { prev: 0, next: 0, index: 0, efirst, elast, is_arc_start: arc, is_patch_start: patch }
}

/// Whether the corner from beveled spoke `e` is mitered: an outer miter
/// (only the first one) at a larger angle, or an inner miter at a smaller one.
pub open spec fn corner_mitered(ang: AngleKind, outer: MiterType, inner: MiterType, miter_edge: Option<usize>) -> bool {
    (outer != MiterType::Sharp && miter_edge is None && ang == AngleKind::Larger) || (inner != MiterType::Sharp
        && ang == AngleKind::Smaller)
}

/// The boundary after the corner from beveled spoke `e` to the next beveled
/// spoke: its boundary vertices are appended, and the spokes it spans point
/// to them.
pub open spec fn corner_step(
    bev: Seq<bool>,
    angle: Seq<AngleKind>,
    outer: MiterType,
    inner: MiterType,
    seg: usize,
    e: int,
    st: BoundaryModel,
) -> BoundaryModel {
    let n = bev.len() as int;
    let g = bev_gap(bev, e);
    let e2 = wrap(e + g, n);
    let b = st.verts.len() as int;
    let ang = angle[e];
    let miter = corner_mitered(ang, outer, inner, st.miter_edge);
    let patch = miter && ang == AngleKind::Larger && outer == MiterType::Patch;
    let arc = miter && !patch;
    let mid = if patch {
        b + 1
    } else {
        b
    };
    let r2 = if patch {
        b + 2
    } else if arc {
        b + 1
    } else {
        b
    };
    let last_between: Option<usize> = if g > 1 {
        Some(wrap(e + g - 1, n) as usize)
    } else {
        None
    };
    let new_verts = if patch {
        seq![
            bound_vert(Some(e as usize), Some(e as usize), false, true),
            bound_vert(if g > 1 { Some(wrap(e + 1, n) as usize) } else { None }, last_between, false, false),
            bound_vert(Some(e2 as usize), Some(e2 as usize), false, false),
        ]
    } else if arc {
        seq![
            bound_vert(Some(e as usize), if g > 1 { last_between } else { Some(e2 as usize) }, true, false),
            bound_vert(Some(e2 as usize), Some(e2 as usize), false, false),
        ]
    } else {
        seq![bound_vert(Some(e as usize), Some(e2 as usize), false, false)]
    };
    BoundaryModel {
        verts: st.verts + new_verts,
        edges: Seq::new(
            st.edges.len(),
            |i: int|
                {
                    let old = st.edges[i];
                    let off = offset_from(e, i, n);
                    if 1 <= off < g {
                        EdgeTopo {
                            is_bev: old.is_bev,
                            profile_index: if arc {
                                arc_profile(off - 1, g - 1, seg)
                            } else {
                                old.profile_index
                            },
                            left_bv: Some(mid as usize),
                            right_bv: Some(mid as usize),
                        }
                    } else if i == e2 {
                        EdgeTopo {
                            is_bev: old.is_bev,
                            profile_index: old.profile_index,
                            left_bv: if i == e {
                                Some(b as usize)
                            } else {
                                old.left_bv
                            },
                            right_bv: Some(r2 as usize),
                        }
                    } else if i == e {
                        EdgeTopo {
                            is_bev: old.is_bev,
                            profile_index: old.profile_index,
                            left_bv: Some(b as usize),
                            right_bv: old.right_bv,
                        }
                    } else {
                        old
                    }
                },
        ),
        miter_edge: if miter && ang == AngleKind::Larger {
            Some(e as usize)
        } else {
            st.miter_edge
        },
    }
}

/// The corners from beveled spoke `e` on, while `rem` steps are left before
/// the first beveled spoke comes round again.
pub open spec fn corners_from(
    bev: Seq<bool>,
    angle: Seq<AngleKind>,
    outer: MiterType,
    inner: MiterType,
    seg: usize,
    e: int,
    rem: int,
    st: BoundaryModel,
) -> BoundaryModel
    decreases rem,
{
    let st2 = corner_step(bev, angle, outer, inner, seg, e, st);
    let g = bev_gap(bev, e);
    if g < 1 || rem <= g {
        st2
    } else {
        corners_from(bev, angle, outer, inner, seg, wrap(e + g, bev.len() as int), rem - g, st2)
    }
}

/// The boundary vertices linked into a cycle, each knowing its position.
pub open spec fn linked(vs: Seq<BoundVertTopo>) -> Seq<BoundVertTopo> {
    Seq::new(
        vs.len(),
        |i: int|
            BoundVertTopo {
                prev: if i == 0 {
                    (vs.len() - 1) as usize
                } else {
                    (i - 1) as usize
                },
                next: if i == vs.len() - 1 {
                    0
                } else {
                    (i + 1) as usize
                },
                index: i as usize,
                ..vs[i]
            },
    )
}

/// The spokes before any corner: each beveled or not, with nothing on its
/// sides.
pub open spec fn initial_edges(bev: Seq<bool>) -> Seq<EdgeTopo> {
    Seq::new(
        bev.len(),
        |i: int| EdgeTopo { is_bev: bev[i], profile_index: 0, left_bv: None, right_bv: None },
    )
}

/// The boundary of a vertex with spokes `bev` (which are beveled) and the
/// angle kinds `angle` at the beveled spokes: nothing with fewer than two
/// spokes or none beveled; otherwise every corner from the first beveled
/// spoke round, with outer miters only when three or more spokes are
/// beveled, and the boundary vertices linked into a cycle.
pub open spec fn boundary_topology_spec(
    bev: Seq<bool>,
    angle: Seq<AngleKind>,
    outer: MiterType,
    inner: MiterType,
    seg: usize,
) -> BoundaryModel {
    let n = bev.len() as int;
    let sel = bev_count(bev, n);
    if n < 2 || sel == 0 {
        BoundaryModel { verts: Seq::empty(), edges: Seq::empty(), miter_edge: None }
    } else {
        let outer2 = if sel >= 3 {
            outer
        } else {
            MiterType::Sharp
        };
        let init = BoundaryModel { verts: Seq::empty(), edges: initial_edges(bev), miter_edge: None };
        let st = corners_from(bev, angle, outer2, inner, seg, first_bev_from(bev, 0), n, init);
        BoundaryModel { verts: linked(st.verts), edges: st.edges, miter_edge: st.miter_edge }
    }
}

proof fn lemma_gap_step(bev: Seq<bool>, e: int, d: int)
    requires
        1 <= d < bev.len(),
        !bev[wrap(e + d, bev.len() as int)],
    ensures
        bev_gap_from(bev, e, d) == bev_gap_from(bev, e, d + 1),
{
}

/// The next beveled spoke is no further than a beveled spoke `rem` steps on.
proof fn lemma_gap_at_most(bev: Seq<bool>, e: int, d: int, rem: int)
    requires
        1 <= d <= rem <= bev.len(),
        bev[wrap(e + rem, bev.len() as int)],
    ensures
        bev_gap_from(bev, e, d) <= rem,
    decreases rem - d,
{
    if d < rem && !bev[wrap(e + d, bev.len() as int)] {
        lemma_gap_at_most(bev, e, d + 1, rem);
    }
}

proof fn lemma_count_none(bev: Seq<bool>, k: int)
    requires
        0 <= k <= bev.len(),
        forall|i: int| 0 <= i < k ==> !#[trigger] bev[i],
    ensures
        bev_count(bev, k) == 0,
    decreases k,
{
    if k > 0 {
        lemma_count_none(bev, k - 1);
    }
}

/// The next beveled spoke after `e`: how many steps on it is, and its index.
fn next_beveled(bev: &Vec<bool>, e: usize) -> (r: (usize, usize))
    requires
        bev.len() >= 2,
        e < bev.len(),
        bev@[e as int],
    ensures
        r.0 == bev_gap(bev@, e as int),
        1 <= r.0 <= bev.len(),
        r.1 == wrap(e + r.0, bev.len() as int),
        bev@[r.1 as int],
{
    let n = bev.len();
    let mut g: usize = 1;
    let mut e2: usize = if e + 1 < n {
        e + 1
    } else {
        0
    };
    while !bev[e2]
        invariant
            n == bev.len(),
            e < n,
            bev@[e as int],
            1 <= g <= n,
            e2 == wrap(e + g, n as int),
            bev_gap_from(bev@, e as int, g as int) == bev_gap(bev@, e as int),
        decreases n - g,
    {
        proof {
            if g == n {
                assert(e2 == e);
            }
            lemma_gap_step(bev@, e as int, g as int);
        }
        g = g + 1;
        e2 = if e2 + 1 < n {
            e2 + 1
        } else {
            0
        };
    }
    (g, e2)
}

/// The profile index of the `j`-th of `between` spokes inside an arc miter.
fn arc_profile_exec(j: usize, between: usize, seg: usize) -> (r: i32)
    ensures
        r == arc_profile(j as int, between as int, seg),
{
    let bet2 = between / 2;
    if j < bet2 {
        0
    } else if between % 2 == 1 && j == bet2 {
        (seg / 2) as i32
    } else {
        seg as i32
    }
}

impl BoundaryTopology {
    /// Adds the corner from beveled spoke `e` to the next beveled spoke (see
    /// `corner_step`); returns how many steps on that spoke is, and its index.
    fn add_corner(
        &mut self,
        bev: &Vec<bool>,
        angle: &Vec<AngleKind>,
        outer: MiterType,
        inner: MiterType,
        seg: usize,
        e: usize,
    ) -> (r: (usize, usize))
        requires
            bev.len() >= 2,
            angle.len() == bev.len(),
            e < bev.len(),
            bev@[e as int],
            old(self).edges.len() == bev.len(),
            old(self).verts.len() + 3 <= usize::MAX,
        ensures
            final(self)@ == corner_step(bev@, angle@, outer, inner, seg, e as int, old(self)@),
            r.0 == bev_gap(bev@, e as int),
            1 <= r.0 <= bev.len(),
            r.1 == wrap(e + r.0, bev.len() as int),
            bev@[r.1 as int],
            final(self).edges.len() == bev.len(),
            final(self).verts.len() <= old(self).verts.len() + 3,
    {
        let ghost target = corner_step(bev@, angle@, outer, inner, seg, e as int, self@);
        let n = bev.len();
        let (g, e2) = next_beveled(bev, e);
        let b = self.verts.len();
        let ang = angle[e];
        let miter = (outer != MiterType::Sharp && self.miter_edge.is_none() && ang == AngleKind::Larger) || (inner
            != MiterType::Sharp && ang == AngleKind::Smaller);
        let patch = miter && ang == AngleKind::Larger && outer == MiterType::Patch;
        let arc = miter && !patch;
        let mid = if patch {
            b + 1
        } else {
            b
        };
        let r2 = if patch {
            b + 2
        } else if arc {
            b + 1
        } else {
            b
        };
        let last_between: Option<usize> = if g > 1 {
            Some(if e2 > 0 { e2 - 1 } else { n - 1 })
        } else {
            None
        };
        let ghost old_verts = self.verts@;
        if patch {
            let first_between: Option<usize> = if g > 1 {
                Some(if e + 1 < n { e + 1 } else { 0 })
            } else {
                None
            };
            self.verts.push(BoundVertTopo { prev: 0, next: 0, index: 0, efirst: Some(e), elast: Some(e), is_arc_start: false, is_patch_start: true });
            self.verts.push(BoundVertTopo { prev: 0, next: 0, index: 0, efirst: first_between, elast: last_between, is_arc_start: false, is_patch_start: false });
            self.verts.push(BoundVertTopo { prev: 0, next: 0, index: 0, efirst: Some(e2), elast: Some(e2), is_arc_start: false, is_patch_start: false });
        } else if arc {
            let el = if g > 1 {
                last_between
            } else {
                Some(e2)
            };
            self.verts.push(BoundVertTopo { prev: 0, next: 0, index: 0, efirst: Some(e), elast: el, is_arc_start: true, is_patch_start: false });
            self.verts.push(BoundVertTopo { prev: 0, next: 0, index: 0, efirst: Some(e2), elast: Some(e2), is_arc_start: false, is_patch_start: false });
        } else {
            self.verts.push(BoundVertTopo { prev: 0, next: 0, index: 0, efirst: Some(e), elast: Some(e2), is_arc_start: false, is_patch_start: false });
        }
        proof {
            assert(self.verts@ =~= target.verts);
        }
        if miter && ang == AngleKind::Larger {
            self.miter_edge = Some(e);
        }
        let ge = self.edges[e];
        self.edges.set(e, EdgeTopo { is_bev: ge.is_bev, profile_index: ge.profile_index, left_bv: Some(b), right_bv: ge.right_bv });
        let g2 = self.edges[e2];
        self.edges.set(e2, EdgeTopo { is_bev: g2.is_bev, profile_index: g2.profile_index, left_bv: g2.left_bv, right_bv: Some(r2) });
        let ghost head = self.edges@;
        proof {
            assert forall|k: int| 0 <= k < n && !(1 <= offset_from(e as int, k, n as int) < g) implies head[k]
                == #[trigger] target.edges[k] by {
                if k == e2 {
                } else if k == e {
                } else {
                    assert(offset_from(e as int, k, n as int) != 0);
                    assert(offset_from(e as int, k, n as int) != g as int);
                }
            }
        }
        let mut j: usize = 1;
        let mut i: usize = if e + 1 < n {
            e + 1
        } else {
            0
        };
        while j < g
            invariant
                n == bev.len(),
                1 <= j <= g <= n,
                e < n,
                e2 == wrap(e + g, n as int),
                i == wrap(e + j, n as int),
                self.edges.len() == n,
                target.edges.len() == n,
                self.verts@ == target.verts,
                self.miter_edge == target.miter_edge,
                target.verts.len() <= old_verts.len() + 3,
                mid == (if patch { b + 1 } else { b as int }),
                arc == (miter && !patch),
                target == corner_step(bev@, angle@, outer, inner, seg, e as int, BoundaryModel { verts: old_verts, edges: old(self).edges@, miter_edge: old(self).miter_edge }),
                patch == (corner_mitered(angle@[e as int], outer, inner, old(self).miter_edge) && angle@[e as int] == AngleKind::Larger && outer == MiterType::Patch),
                miter == corner_mitered(angle@[e as int], outer, inner, old(self).miter_edge),
                old_verts.len() == b,
                g == bev_gap(bev@, e as int),
                forall|k: int| 0 <= k < n && 1 <= offset_from(e as int, k, n as int) < j ==> #[trigger] self.edges@[k] == target.edges[k],
                forall|k: int| 0 <= k < n && !(1 <= offset_from(e as int, k, n as int) < j) ==> #[trigger] self.edges@[k] == head[k],
                forall|k: int| 0 <= k < n && 1 <= offset_from(e as int, k, n as int) < g ==> #[trigger] head[k] == old(self).edges@[k],
            decreases g - j,
        {
            let old_e = self.edges[i];
            let pi = if arc {
                arc_profile_exec(j - 1, g - 1, seg)
            } else {
                old_e.profile_index
            };
            proof {
                assert(offset_from(e as int, i as int, n as int) == j);
            }
            self.edges.set(i, EdgeTopo { is_bev: old_e.is_bev, profile_index: pi, left_bv: Some(mid), right_bv: Some(mid) });
            proof {
                assert forall|k: int| 0 <= k < n && !(1 <= offset_from(e as int, k, n as int) < j + 1) implies #[trigger] self.edges@[k] == head[k] by {
                    assert(k != i);
                }
            }
            j = j + 1;
            i = if i + 1 < n {
                i + 1
            } else {
                0
            };
        }
        proof {
            assert(self.edges@ =~= target.edges);
        }
        (g, e2)
    }
}

/// After a step that does not reach the first beveled spoke, the spokes left
/// to it from the new spoke.
proof fn lemma_wrap_rem(e: int, g: int, rem: int, n: int)
    requires
        0 <= e < n,
        1 <= g <= n,
        1 <= rem <= n,
        g <= rem,
    ensures
        wrap(e + g, n) == wrap(e + rem, n) <==> g == rem,
        g < rem ==> wrap(wrap(e + g, n) + (rem - g), n) == wrap(e + rem, n),
        0 <= wrap(e + g, n) < n,
{
}

/// The boundary of a vertex whose spokes `spoke_is_bev` marks beveled, with
/// `angle_kinds` the kind of angle of the corner from each beveled spoke to
/// the next (see `boundary_topology_spec`).
pub fn boundary_topology(
    spoke_is_bev: &Vec<bool>,
    angle_kinds: &Vec<AngleKind>,
    miter_outer: MiterType,
    miter_inner: MiterType,
    seg: usize,
) -> (r: BoundaryTopology)
    requires
        angle_kinds.len() == spoke_is_bev.len(),
        spoke_is_bev.len() < usize::MAX / 3,
    ensures
        r@ == boundary_topology_spec(spoke_is_bev@, angle_kinds@, miter_outer, miter_inner, seg),
{
    let bev = spoke_is_bev;
    let n = bev.len();
    let empty = BoundaryTopology { verts: Vec::new(), edges: Vec::new(), miter_edge: None };
    if n < 2 {
        proof {
            assert(empty@.verts =~= Seq::<BoundVertTopo>::empty());
            assert(empty@.edges =~= Seq::<EdgeTopo>::empty());
        }
        return empty;
    }
    let mut sel: usize = 0;
    let mut i: usize = 0;
    while i < n
        invariant
            n == bev.len(),
            i <= n,
            sel == bev_count(bev@, i as int),
            sel <= i,
        decreases n - i,
    {
        if bev[i] {
            sel = sel + 1;
        }
        i = i + 1;
    }
    if sel == 0 {
        proof {
            assert(empty@.verts =~= Seq::<BoundVertTopo>::empty());
            assert(empty@.edges =~= Seq::<EdgeTopo>::empty());
        }
        return empty;
    }
    let mut first: usize = 0;
    while !bev[first]
        invariant
            n == bev.len(),
            first < n,
            bev_count(bev@, n as int) > 0,
            forall|k: int| 0 <= k < first ==> !#[trigger] bev@[k],
            first_bev_from(bev@, first as int) == first_bev_from(bev@, 0),
        decreases n - first,
    {
        if first + 1 == n {
            proof {
                lemma_count_none(bev@, n as int);
            }
        }
        first = first + 1;
    }
    let outer = if sel >= 3 {
        miter_outer
    } else {
        MiterType::Sharp
    };
    let mut edges: Vec<EdgeTopo> = Vec::new();
    let mut k: usize = 0;
    while k < n
        invariant
            n == bev.len(),
            k <= n,
            edges@ =~= initial_edges(bev@).take(k as int),
        decreases n - k,
    {
        edges.push(EdgeTopo { is_bev: bev[k], profile_index: 0, left_bv: None, right_bv: None });
        k = k + 1;
    }
    proof {
        assert(initial_edges(bev@).take(n as int) =~= initial_edges(bev@));
    }
    let mut st = BoundaryTopology { verts: Vec::new(), edges, miter_edge: None };
    let ghost goal = corners_from(bev@, angle_kinds@, outer, miter_inner, seg, first as int, n as int, st@);
    let mut e = first;
    let ghost mut rem: int = n as int;
    loop
        invariant_except_break
            e < n,
            bev@[e as int],
            1 <= rem <= n,
            wrap(e + rem, n as int) == first,
            st.edges.len() == n,
            st.verts.len() <= 3 * (n - rem),
            corners_from(bev@, angle_kinds@, outer, miter_inner, seg, e as int, rem, st@) == goal,
        invariant
            n == bev.len(),
            n >= 2,
            n < usize::MAX / 3,
            angle_kinds.len() == n,
            bev@[first as int],
        ensures
            st@ == goal,
        decreases rem,
    {
        let ghost before = st@;
        let (g, e2) = st.add_corner(bev, angle_kinds, outer, miter_inner, seg, e);
        proof {
            lemma_gap_at_most(bev@, e as int, 1, rem);
            lemma_wrap_rem(e as int, g as int, rem, n as int);
        }
        if e2 == first {
            break;
        }
        proof {
            rem = rem - g;
        }
        e = e2;
    }
    let nv = st.verts.len();
    let mut linked_verts: Vec<BoundVertTopo> = Vec::new();
    let mut t: usize = 0;
    while t < nv
        invariant
            nv == st.verts.len(),
            t <= nv,
            linked_verts@ =~= linked(st.verts@).take(t as int),
        decreases nv - t,
    {
        let v = st.verts[t];
        let prev = if t == 0 {
            nv - 1
        } else {
            t - 1
        };
        let next = if t == nv - 1 {
            0
        } else {
            t + 1
        };
        linked_verts.push(BoundVertTopo { prev, next, index: t, ..v });
        t = t + 1;
    }
    proof {
        assert(linked(st.verts@).take(nv as int) =~= linked(st.verts@));
    }
    BoundaryTopology { verts: linked_verts, edges: st.edges, miter_edge: st.miter_edge }
}

/// The boundary vertices form one cycle: each knows its position, and the
/// previous vertex of the next one, and the next of the previous one, is the
/// vertex itself.
pub proof fn lemma_boundary_is_cycle(
    bev: Seq<bool>,
    angle: Seq<AngleKind>,
    outer: MiterType,
    inner: MiterType,
    seg: usize,
    i: int,
)
    requires
        0 <= i < boundary_topology_spec(bev, angle, outer, inner, seg).verts.len(),
        boundary_topology_spec(bev, angle, outer, inner, seg).verts.len() <= usize::MAX,
    ensures
        ({
            let vs = boundary_topology_spec(bev, angle, outer, inner, seg).verts;
            &&& vs[i].index == i
            &&& vs[i].next < vs.len()
            &&& vs[i].prev < vs.len()
            &&& vs[vs[i].next as int].prev == i
            &&& vs[vs[i].prev as int].next == i
            &&& vs[i].next == (i + 1) % (vs.len() as int)
            &&& vs[i].prev == (i + vs.len() - 1) % (vs.len() as int)
        }),
{
    let len = boundary_topology_spec(bev, angle, outer, inner, seg).verts.len() as int;
    if i + 1 < len {
        vstd::arithmetic::div_mod::lemma_small_mod((i + 1) as nat, len as nat);
    } else {
        vstd::arithmetic::div_mod::lemma_mod_self_0(len);
    }
    if i >= 1 {
        vstd::arithmetic::div_mod::lemma_mod_add_multiples_vanish(i - 1, len);
        vstd::arithmetic::div_mod::lemma_small_mod((i - 1) as nat, len as nat);
    } else {
        vstd::arithmetic::div_mod::lemma_small_mod((len - 1) as nat, len as nat);
    }
}

/// How many of the `r` spokes from `e` on, going round, are beveled.
pub open spec fn window_count(bev: Seq<bool>, e: int, r: int) -> nat
    decreases r,
{
    if r <= 0 {
        0
    } else {
        window_count(bev, e, r - 1) + if bev[wrap(e + r - 1, bev.len() as int)] {
            1nat
        } else {
            0nat
        }
    }
}

proof fn lemma_window_split(bev: Seq<bool>, e: int, a: int, b: int)
    requires
        0 <= e < bev.len(),
        0 <= a,
        0 <= b,
        a + b <= bev.len(),
    ensures
        window_count(bev, e, a + b) == window_count(bev, e, a) + window_count(bev, wrap(e + a, bev.len() as int), b),
    decreases b,
{
    if b > 0 {
        lemma_window_split(bev, e, a, b - 1);
    }
}

proof fn lemma_window_plain(bev: Seq<bool>, s: int, r: int)
    requires
        0 <= s,
        0 <= r,
        s + r <= bev.len(),
    ensures
        window_count(bev, s, r) + bev_count(bev, s) == bev_count(bev, s + r),
    decreases r,
{
    if r > 0 {
        lemma_window_plain(bev, s, r - 1);
    }
}

proof fn lemma_gap_clear(bev: Seq<bool>, e: int, d: int, k: int)
    requires
        1 <= d <= k < bev_gap_from(bev, e, d),
    ensures
        !bev[wrap(e + k, bev.len() as int)],
    decreases k - d,
{
    if d < bev.len() && !bev[wrap(e + d, bev.len() as int)] && d < k {
        lemma_gap_clear(bev, e, d + 1, k);
    }
}

proof fn lemma_window_clear(bev: Seq<bool>, e: int, r: int)
    requires
        0 <= e < bev.len(),
        1 <= r <= bev.len(),
        bev[e],
        forall|k: int| 1 <= k < r ==> !#[trigger] bev[wrap(e + k, bev.len() as int)],
    ensures
        window_count(bev, e, r) == 1,
    decreases r,
{
    if r > 1 {
        lemma_window_clear(bev, e, r - 1);
        assert(!bev[wrap(e + (r - 1), bev.len() as int)]);
    } else {
        assert(window_count(bev, e, 0) == 0);
        assert(wrap(e + 1 - 1, bev.len() as int) == e);
    }
}

proof fn lemma_gap_ge(bev: Seq<bool>, e: int, d: int)
    ensures
        bev_gap_from(bev, e, d) >= d || bev_gap_from(bev, e, d) == bev.len(),
    decreases bev.len() - d,
{
    if d < bev.len() && !bev[wrap(e + d, bev.len() as int)] {
        lemma_gap_ge(bev, e, d + 1);
    }
}

/// Without miters every corner adds one boundary vertex, one per beveled
/// spoke on the way round.
proof fn lemma_plain_corners(
    bev: Seq<bool>,
    angle: Seq<AngleKind>,
    seg: usize,
    e: int,
    rem: int,
    st: BoundaryModel,
)
    requires
        bev.len() >= 2,
        0 <= e < bev.len(),
        bev[e],
        1 <= rem <= bev.len(),
        bev[wrap(e + rem, bev.len() as int)],
    ensures
        corners_from(bev, angle, MiterType::Sharp, MiterType::Sharp, seg, e, rem, st).verts.len() == st.verts.len()
            + window_count(bev, e, rem),
    decreases rem,
{
    let n = bev.len() as int;
    let g = bev_gap(bev, e);
    lemma_gap_at_most(bev, e, 1, rem);
    lemma_gap_ge(bev, e, 1);
    assert(g >= 1);
    let st2 = corner_step(bev, angle, MiterType::Sharp, MiterType::Sharp, seg, e, st);
    assert(st2.verts.len() == st.verts.len() + 1);
    assert forall|k: int| 1 <= k < g implies !#[trigger] bev[wrap(e + k, n)] by {
        lemma_gap_clear(bev, e, 1, k);
    }
    lemma_window_clear(bev, e, g);
    if rem <= g {
    } else {
        let e2 = wrap(e + g, n);
        lemma_wrap_rem(e, g, rem, n);
        assert(bev[e2]) by {
            if g < n {
                assert(bev_gap_from(bev, e, 1) == g);
                lemma_gap_hit(bev, e, 1);
            }
        }
        lemma_plain_corners(bev, angle, seg, e2, rem - g, st2);
        lemma_window_split(bev, e, g, rem - g);
    }
}

proof fn lemma_gap_hit(bev: Seq<bool>, e: int, d: int)
    requires
        1 <= d,
        bev_gap_from(bev, e, d) < bev.len(),
    ensures
        bev[wrap(e + bev_gap_from(bev, e, d), bev.len() as int)],
    decreases bev.len() - d,
{
    if d < bev.len() && !bev[wrap(e + d, bev.len() as int)] {
        lemma_gap_hit(bev, e, d + 1);
    }
}

proof fn lemma_first_bev(bev: Seq<bool>, i: int)
    requires
        0 <= i <= bev.len(),
        bev_count(bev, bev.len() as int) > bev_count(bev, i),
    ensures
        i <= first_bev_from(bev, i) < bev.len(),
        bev[first_bev_from(bev, i)],
        bev_count(bev, first_bev_from(bev, i)) == bev_count(bev, i),
    decreases bev.len() - i,
{
    if i < bev.len() && !bev[i] {
        lemma_first_bev(bev, i + 1);
    } else if i == bev.len() {
    }
}

/// Without outer or inner miters, a vertex with two or more spokes gets one
/// boundary vertex per beveled spoke.
pub proof fn lemma_boundary_plain_count(bev: Seq<bool>, angle: Seq<AngleKind>, seg: usize)
    requires
        bev.len() >= 2,
    ensures
        boundary_topology_spec(bev, angle, MiterType::Sharp, MiterType::Sharp, seg).verts.len() == bev_count(
            bev,
            bev.len() as int,
        ),
{
    let n = bev.len() as int;
    if bev_count(bev, n) > 0 {
        lemma_first_bev(bev, 0);
        let first = first_bev_from(bev, 0);
        let init = BoundaryModel { verts: Seq::empty(), edges: initial_edges(bev), miter_edge: None };
        assert(wrap(first + n, n) == first);
        lemma_plain_corners(bev, angle, seg, first, n, init);
        lemma_window_split(bev, first, n - first, first);
        assert(wrap(first + (n - first), n) == 0);
        lemma_window_plain(bev, first, n - first);
        lemma_window_plain(bev, 0, first);
        assert forall|r: int| 0 <= r <= first implies window_count(bev, 0, r) == bev_count(bev, r) by {
            lemma_window_plain(bev, 0, r);
        }
    }
}

} // verus!
