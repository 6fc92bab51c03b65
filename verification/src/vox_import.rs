//! `.vox` scene-graph traversal, voxel assembly and the cells handed to the
//! voxel grid.

use vstd::prelude::*;
use std::collections::HashSet;
use std::collections::hash_map::DefaultHasher;
use std::hash::Hasher;
use vstd::string::StringSliceAdditionalSpecFns;
use vstd::std_specs::hash::DefaultHasherAdditionalSpecFns;
use vstd::wrapping::i32_specs::wrapping_sub;
use vstd::string::StringExecFns;
use crate::registry::VoxImporter;
use crate::vox::{
    find_id, max1, pair_ids, parse_vox_scene, spec_parse_scene, trn_ids, trn_view, SceneModel,
    TrnModel, VoxError, VoxScene, Voxel, GrpNode, ShpNode, TrnNode,
};
use crate::vox_xform::{identity_xform, spec_apply, spec_mul, spec_trn_local, trn_local, Xform};

verus! {

broadcast use vstd::std_specs::hash::group_hash_axioms;

pub open spec fn find_trn_spec(s: SceneModel, id: i32) -> Option<TrnModel> {
    match find_id(trn_ids(s.trns), id) {
        Some(i) => Some(s.trns[i]),
        None => None,
    }
}

pub open spec fn find_pair_spec(v: Seq<(i32, Seq<i32>)>, id: i32) -> Option<Seq<i32>> {
    match find_id(pair_ids(v), id) {
        Some(i) => Some(v[i].1),
        None => None,
    }
}

/// One instance per non-negative model index of a shape node.
pub open spec fn shape_instances(models: Seq<i32>, parent: Xform) -> Seq<(usize, Xform)>
    decreases models.len(),
{
    if models.len() == 0 {
        Seq::empty()
    } else {
        let r = shape_instances(models.drop_last(), parent);
        if models.last() >= 0 {
            r.push((models.last() as usize, parent))
        } else {
            r
        }
    }
}

/// The model instances under node `id`, placed by `parent`, in depth-first
/// order: a transform node composes its local transform and visits its
/// child, a group node visits its children in order, a shape node yields
/// its models, any other id yields nothing. `None` when a transform node's
/// rotation is out of range or the walk gets deeper than `fuel`.
pub open spec fn visit_spec(s: SceneModel, id: i32, parent: Xform, fuel: nat) -> Option<Seq<(usize, Xform)>>
    decreases fuel, 0nat, 0int,
{
    if fuel == 0 {
        None
    } else {
        match find_trn_spec(s, id) {
            Some(t) => match spec_trn_local(t.attrs, t.frames) {
                None => None,
                Some(l) => visit_spec(s, t.child, spec_mul(parent, l), (fuel - 1) as nat),
            },
            None => match find_pair_spec(s.grps, id) {
                Some(ch) => visit_list(s, ch, ch.len() as int, parent, (fuel - 1) as nat),
                None => match find_pair_spec(s.shps, id) {
                    Some(ms) => Some(shape_instances(ms, parent)),
                    None => Some(Seq::empty()),
                },
            },
        }
    }
}

/// The instances under the first `k` ids of `list`, concatenated.
pub open spec fn visit_list(s: SceneModel, list: Seq<i32>, k: int, parent: Xform, fuel: nat) -> Option<Seq<(usize, Xform)>>
    decreases fuel, 1nat, k,
{
    if k <= 0 {
        Some(Seq::empty())
    } else {
        match visit_list(s, list, k - 1, parent, fuel) {
            None => None,
            Some(a) => match visit_spec(s, list[k - 1], parent, fuel) {
                None => None,
                Some(b) => Some(a + b),
            },
        }
    }
}

/// Ids among the first `k` that no node references.
pub open spec fn unreferenced(ids: Seq<i32>, referenced: Set<i32>, k: int) -> Seq<i32>
    decreases k,
{
    if k <= 0 {
        Seq::empty()
    } else {
        let r = unreferenced(ids, referenced, k - 1);
        if !referenced.contains(ids[k - 1]) {
            r.push(ids[k - 1])
        } else {
            r
        }
    }
}

/// The transform nodes no node references; all of them if every one is
/// referenced.
pub open spec fn trn_roots(s: SceneModel) -> Seq<i32> {
    let ids = trn_ids(s.trns);
    let r = unreferenced(ids, s.referenced, ids.len() as int);
    if r.len() == 0 {
        ids
    } else {
        r
    }
}

/// Depth bound of the walk: more than the number of nodes, so a scene graph
/// without a cycle is never cut short, and a walk that reaches it has gone
/// round a cycle.
pub open spec fn traversal_fuel(s: SceneModel) -> nat {
    let n = s.trns.len() + s.grps.len() + s.shps.len() + 1;
    if n > usize::MAX {
        usize::MAX as nat
    } else {
        n
    }
}

pub open spec fn visit_roots(s: SceneModel, roots: Seq<i32>, k: int) -> Option<Seq<(usize, Xform)>>
    decreases k,
{
    visit_list(s, roots, k, identity_xform(), traversal_fuel(s))
}

pub open spec fn identity_instances(n: nat) -> Seq<(usize, Xform)> {
    Seq::new(n, |i: int| (i as usize, identity_xform()))
}

/// The placed models: every model once, unplaced, when the file has no
/// scene nodes or the walk from the roots places none; else the walk's
/// instances. `None` when the walk fails (see `visit_spec`).
pub open spec fn spec_instances(s: SceneModel) -> Option<Seq<(usize, Xform)>> {
    if s.trns.len() == 0 && s.grps.len() == 0 && s.shps.len() == 0 {
        Some(identity_instances(s.models.len()))
    } else {
        match visit_roots(s, trn_roots(s), trn_roots(s).len() as int) {
            None => None,
            Some(v) => if v.len() == 0 {
                Some(identity_instances(s.models.len()))
            } else {
                Some(v)
            },
        }
    }
}

/// Key of a voxel position with a palette index (injective).
pub open spec fn voxel_key(x: i32, y: i32, z: i32, idx: u8) -> u128 {
    ((((x + 0x8000_0000) * 0x1_0000_0000 + (y + 0x8000_0000)) * 0x1_0000_0000 + (z + 0x8000_0000)) * 256
        + idx) as u128
}

/// The first `j` voxels of a model placed by `xf` (y and z swapped after the
/// transform), skipping any position and index already emitted.
pub open spec fn emit_model(vs: Seq<Voxel>, xf: Xform, j: int, seen: Set<u128>, out: Seq<Voxel>) -> (Seq<Voxel>, Set<u128>)
    decreases j,
{
    if j <= 0 {
        (out, seen)
    } else {
        let (o, s) = emit_model(vs, xf, j - 1, seen, out);
        let v = vs[j - 1];
        let pw = spec_apply(xf, (v.x, v.y, v.z));
        let k = voxel_key(pw.0, pw.2, pw.1, v.index);
        if s.contains(k) {
            (o, s)
        } else {
            (o.push(Voxel { x: pw.0, y: pw.2, z: pw.1, index: v.index }), s.insert(k))
        }
    }
}

/// The voxels of the first `i` instances (instances of missing models are
/// skipped).
pub open spec fn emit_all(models: Seq<Seq<Voxel>>, insts: Seq<(usize, Xform)>, i: int) -> (Seq<Voxel>, Set<u128>)
    decreases i,
{
    if i <= 0 {
        (Seq::empty(), Set::empty())
    } else {
        let (o, s) = emit_all(models, insts, i - 1);
        let (mid, xf) = insts[i - 1];
        if mid < models.len() {
            emit_model(models[mid as int], xf, models[mid as int].len() as int, s, o)
        } else {
            (o, s)
        }
    }
}

/// The invariant of voxel emission: every emitted voxel's key has been
/// seen, and no voxel is emitted twice.
pub open spec fn emitted_ok(out: Seq<Voxel>, seen: Set<u128>) -> bool {
    &&& forall|i: int| 0 <= i < out.len() ==> seen.contains(voxel_key(#[trigger] out[i].x, out[i].y, out[i].z, out[i].index))
    &&& forall|i: int, k: int| 0 <= i < k < out.len() ==> #[trigger] out[i] != #[trigger] out[k]
}

proof fn lemma_emit_model_ok(vs: Seq<Voxel>, xf: Xform, j: int, seen: Set<u128>, out: Seq<Voxel>)
    requires
        emitted_ok(out, seen),
    ensures
        emitted_ok(emit_model(vs, xf, j, seen, out).0, emit_model(vs, xf, j, seen, out).1),
    decreases j,
{
    if j > 0 {
        lemma_emit_model_ok(vs, xf, j - 1, seen, out);
        let (o, s) = emit_model(vs, xf, j - 1, seen, out);
        let v = vs[j - 1];
        let pw = spec_apply(xf, (v.x, v.y, v.z));
        let k = voxel_key(pw.0, pw.2, pw.1, v.index);
        if !s.contains(k) {
            let nv = Voxel { x: pw.0, y: pw.2, z: pw.1, index: v.index };
            let o2 = o.push(nv);
            assert forall|a: int, b: int| 0 <= a < b < o2.len() implies #[trigger] o2[a] != #[trigger] o2[b] by {
                if b == o.len() {
                    assert(s.contains(voxel_key(o[a].x, o[a].y, o[a].z, o[a].index)));
                }
            }
        }
    }
}

/// The voxels placed from a scene's models are all different: a voxel of
/// the same position and palette index as an earlier one is dropped.
pub proof fn lemma_emitted_voxels_distinct(models: Seq<Seq<Voxel>>, insts: Seq<(usize, Xform)>, i: int)
    ensures
        emitted_ok(emit_all(models, insts, i).0, emit_all(models, insts, i).1),
        forall|a: int, b: int|
            0 <= a < b < emit_all(models, insts, i).0.len() ==> #[trigger] emit_all(models, insts, i).0[a]
                != #[trigger] emit_all(models, insts, i).0[b],
    decreases i,
{
    if i > 0 {
        lemma_emitted_voxels_distinct(models, insts, i - 1);
        let (o, s) = emit_all(models, insts, i - 1);
        let (mid, xf) = insts[i - 1];
        if mid < models.len() {
            lemma_emit_model_ok(models[mid as int], xf, models[mid as int].len() as int, s, o);
        }
    }
}

/// The voxels, palette and index map of a `.vox` file; `None` when reading
/// it would not terminate normally (see `spec_instances`).
pub open spec fn spec_vox_data(b: Seq<u8>) -> Option<Result<(Seq<Voxel>, Seq<[u8; 4]>, Option<Seq<u8>>), VoxError>> {
    match spec_parse_scene(b) {
        Err(e) => Some(Err(e)),
        Ok(s) => if s.models.len() == 0 {
            Some(Ok((Seq::empty(), s.palette, s.imap)))
        } else {
            match spec_instances(s) {
                None => None,
                Some(insts) => Some(Ok((emit_all(s.models, insts, insts.len() as int).0, s.palette, s.imap))),
            }
        },
    }
}

/// A `.vox` file whose scene graph names a rotation column outside the
/// matrix or has a cycle: reading it does not end normally.
pub open spec fn vox_aborts(b: Seq<u8>) -> bool {
    spec_vox_data(b) is None
}

/// Voxels, palette and optional palette index map of a `.vox` file.
#[derive(Clone, Debug, PartialEq, Eq)]
pub struct VoxData {
    pub voxels: Vec<Voxel>,
    pub palette: Vec<[u8; 4]>,
    pub imap: Option<Vec<u8>>,
}

pub open spec fn vox_data_view(d: VoxData) -> (Seq<Voxel>, Seq<[u8; 4]>, Option<Seq<u8>>) {
    (
        d.voxels@,
        d.palette@,
        match d.imap {
            Some(m) => Some(m@),
            None => None,
        },
    )
}

fn find_trn(scene: &VoxScene, id: i32) -> (r: Option<usize>)
    ensures
        r matches Some(i) ==> i < scene.trns@.len() && find_trn_spec(scene@, id) == Some(trn_view(scene.trns@[i as int])),
        r is None ==> find_trn_spec(scene@, id) is None,
{
    let ghost ids = trn_ids(scene@.trns);
    let mut i: usize = 0;
    while i < scene.trns.len()
        invariant
            i <= scene.trns@.len(),
            ids == trn_ids(scene@.trns),
            ids.len() == scene.trns@.len(),
            find_id(ids.take(i as int), id) is None,
        decreases scene.trns.len() - i,
    {
        proof {
            assert(ids.take(i + 1).drop_last() =~= ids.take(i as int));
        }
        if scene.trns[i].id == id {
            proof {
                assert(ids[i as int] == id);
                lemma_find_prefix(ids, i + 1, id);
            }
            return Some(i);
        }
        i += 1;
    }
    assert(ids.take(i as int) =~= ids);
    None
}

proof fn lemma_find_prefix(ids: Seq<i32>, k: int, id: i32)
    requires
        0 <= k <= ids.len(),
        find_id(ids.take(k), id) is Some,
    ensures
        find_id(ids, id) == find_id(ids.take(k), id),
    decreases ids.len() - k,
{
    if k < ids.len() {
        assert(ids.take(k + 1).drop_last() =~= ids.take(k));
        lemma_find_prefix(ids, k + 1, id);
    } else {
        assert(ids.take(k) =~= ids);
    }
}

fn find_grp(scene: &VoxScene, id: i32) -> (r: Option<usize>)
    ensures
        r matches Some(i) ==> i < scene.grps@.len() && find_pair_spec(scene@.grps, id) == Some(scene.grps@[i as int].children@),
        r is None ==> find_pair_spec(scene@.grps, id) is None,
{
    let ghost ids = pair_ids(scene@.grps);
    let mut i: usize = 0;
    while i < scene.grps.len()
        invariant
            i <= scene.grps@.len(),
            ids == pair_ids(scene@.grps),
            ids.len() == scene.grps@.len(),
            find_id(ids.take(i as int), id) is None,
        decreases scene.grps.len() - i,
    {
        proof {
            assert(ids.take(i + 1).drop_last() =~= ids.take(i as int));
        }
        if scene.grps[i].id == id {
            proof {
                lemma_find_prefix(ids, i + 1, id);
            }
            return Some(i);
        }
        i += 1;
    }
    assert(ids.take(i as int) =~= ids);
    None
}

fn find_shp(scene: &VoxScene, id: i32) -> (r: Option<usize>)
    ensures
        r matches Some(i) ==> i < scene.shps@.len() && find_pair_spec(scene@.shps, id) == Some(scene.shps@[i as int].models@),
        r is None ==> find_pair_spec(scene@.shps, id) is None,
{
    let ghost ids = pair_ids(scene@.shps);
    let mut i: usize = 0;
    while i < scene.shps.len()
        invariant
            i <= scene.shps@.len(),
            ids == pair_ids(scene@.shps),
            ids.len() == scene.shps@.len(),
            find_id(ids.take(i as int), id) is None,
        decreases scene.shps.len() - i,
    {
        proof {
            assert(ids.take(i + 1).drop_last() =~= ids.take(i as int));
        }
        if scene.shps[i].id == id {
            proof {
                lemma_find_prefix(ids, i + 1, id);
            }
            return Some(i);
        }
        i += 1;
    }
    assert(ids.take(i as int) =~= ids);
    None
}

/// Appends the instances under node `id` (see `visit_spec`); returns false,
/// leaving `out` unspecified, when the walk fails.
pub fn visit_node(scene: &VoxScene, id: i32, parent: Xform, fuel: usize, out: &mut Vec<(usize, Xform)>) -> (ok: bool)
    ensures
        ok ==> (visit_spec(scene@, id, parent, fuel as nat) matches Some(v) && final(out)@ == old(out)@ + v),
        !ok ==> visit_spec(scene@, id, parent, fuel as nat) is None,
    decreases fuel,
{
    if fuel == 0 {
        return false;
    }
    match find_trn(scene, id) {
        Some(i) => {
            let t = &scene.trns[i];
            let local = match trn_local(&t.attrs, &t.frames) {
                Some(l) => l,
                None => {
                    return false;
                },
            };
            let world = parent.mul(&local);
            return visit_node(scene, t.child, world, fuel - 1, out);
        },
        None => {},
    }
    match find_grp(scene, id) {
        Some(gi) => {
            let children = &scene.grps[gi].children;
            let ghost o0 = out@;
            let mut j: usize = 0;
            assert(o0 + Seq::<(usize, Xform)>::empty() =~= o0);
            while j < children.len()
                invariant
                    j <= children@.len(),
                    fuel > 0,
                    find_trn_spec(scene@, id) is None,
                    find_pair_spec(scene@.grps, id) == Some(children@),
                    visit_list(scene@, children@, j as int, parent, (fuel - 1) as nat) matches Some(acc) && out@
                        == o0 + acc,
                decreases children.len() - j,
            {
                let ghost acc = visit_list(scene@, children@, j as int, parent, (fuel - 1) as nat).unwrap();
                if !visit_node(scene, children[j], parent, fuel - 1, out) {
                    assert(visit_list(scene@, children@, j + 1, parent, (fuel - 1) as nat) is None);
                    proof {
                        lemma_visit_list_none(scene@, children@, j + 1, children@.len() as int, parent, (fuel - 1) as nat);
                    }
                    return false;
                }
                proof {
                    let b = visit_spec(scene@, children@[j as int], parent, (fuel - 1) as nat).unwrap();
                    assert(o0 + (acc + b) =~= (o0 + acc) + b);
                }
                j += 1;
            }
            return true;
        },
        None => {},
    }
    match find_shp(scene, id) {
        Some(si) => {
            let models = &scene.shps[si].models;
            let ghost o0 = out@;
            let mut j: usize = 0;
            assert(o0 + Seq::<(usize, Xform)>::empty() =~= o0);
            while j < models.len()
                invariant
                    j <= models@.len(),
                    out@ == o0 + shape_instances(models@.take(j as int), parent),
                decreases models.len() - j,
            {
                let mid = models[j];
                proof {
                    assert(models@.take(j + 1).drop_last() =~= models@.take(j as int));
                }
                if mid >= 0 {
                    out.push((mid as usize, parent));
                    proof {
                        assert(out@ =~= o0 + shape_instances(models@.take(j + 1), parent));
                    }
                }
                j += 1;
            }
            assert(models@.take(j as int) =~= models@);
            true
        },
        None => {
            assert(out@ =~= old(out)@ + Seq::<(usize, Xform)>::empty());
            true
        },
    }
}

proof fn lemma_visit_list_none(s: SceneModel, list: Seq<i32>, k: int, j: int, parent: Xform, fuel: nat)
    requires
        0 <= k <= j,
        visit_list(s, list, k, parent, fuel) is None,
    ensures
        visit_list(s, list, j, parent, fuel) is None,
    decreases j - k,
{
    if j > k {
        lemma_visit_list_none(s, list, k, j - 1, parent, fuel);
    }
}

fn trn_roots_exec(scene: &VoxScene) -> (roots: Vec<i32>)
    ensures
        roots@ == trn_roots(scene@),
{
    let ghost ids = trn_ids(scene@.trns);
    let mut r: Vec<i32> = Vec::new();
    let mut i: usize = 0;
    while i < scene.trns.len()
        invariant
            i <= scene.trns@.len(),
            ids == trn_ids(scene@.trns),
            ids.len() == scene.trns@.len(),
            r@ == unreferenced(ids, scene@.referenced, i as int),
        decreases scene.trns.len() - i,
    {
        let id = scene.trns[i].id;
        if !scene.referenced.contains(&id) {
            r.push(id);
        }
        i += 1;
    }
    if r.len() == 0 {
        let mut all: Vec<i32> = Vec::new();
        let mut k: usize = 0;
        while k < scene.trns.len()
            invariant
                k <= scene.trns@.len(),
                ids == trn_ids(scene@.trns),
                ids.len() == scene.trns@.len(),
                all@ =~= ids.take(k as int),
            decreases scene.trns.len() - k,
        {
            all.push(scene.trns[k].id);
            k += 1;
        }
        assert(ids.take(k as int) =~= ids);
        all
    } else {
        r
    }
}

fn identity_instances_exec(n: usize) -> (r: Vec<(usize, Xform)>)
    ensures
        r@ == identity_instances(n as nat),
{
    let mut r: Vec<(usize, Xform)> = Vec::new();
    let mut i: usize = 0;
    while i < n
        invariant
            i <= n,
            r@ =~= identity_instances(i as nat),
        decreases n - i,
    {
        r.push((i, Xform::identity()));
        i += 1;
    }
    r
}

/// The placed models of a scene (see `spec_instances`); `None` when the
/// walk fails.
pub fn collect_instances(scene: &VoxScene) -> (r: Option<Vec<(usize, Xform)>>)
    ensures
        r matches Some(v) ==> spec_instances(scene@) == Some(v@),
        r is None ==> spec_instances(scene@) is None,
{
    if scene.trns.len() == 0 && scene.grps.len() == 0 && scene.shps.len() == 0 {
        return Some(identity_instances_exec(scene.models.len()));
    }
    let roots = trn_roots_exec(scene);
    let fuel_total = (scene.trns.len() as u128) + (scene.grps.len() as u128) + (scene.shps.len() as u128) + 1;
    let fuel: usize = if fuel_total > usize::MAX as u128 {
        usize::MAX
    } else {
        fuel_total as usize
    };
    assert(fuel as nat == traversal_fuel(scene@));
    let mut out: Vec<(usize, Xform)> = Vec::new();
    let mut k: usize = 0;
    while k < roots.len()
        invariant
            k <= roots@.len(),
            roots@ == trn_roots(scene@),
            fuel as nat == traversal_fuel(scene@),
            visit_list(scene@, roots@, k as int, identity_xform(), fuel as nat) == Some(out@),
        decreases roots.len() - k,
    {
        let ghost o0 = out@;
        if !visit_node(scene, roots[k], Xform::identity(), fuel, &mut out) {
            proof {
                lemma_visit_list_none(scene@, roots@, k + 1, roots@.len() as int, identity_xform(), fuel as nat);
            }
            return None;
        }
        k += 1;
    }
    if out.len() == 0 {
        Some(identity_instances_exec(scene.models.len()))
    } else {
        Some(out)
    }
}

fn voxel_key_exec(x: i32, y: i32, z: i32, idx: u8) -> (k: u128)
    ensures
        k == voxel_key(x, y, z, idx),
{
    let a = (x as i64 + 0x8000_0000) as u128;
    let b = (y as i64 + 0x8000_0000) as u128;
    let c = (z as i64 + 0x8000_0000) as u128;
    ((a * 0x1_0000_0000 + b) * 0x1_0000_0000 + c) * 256 + idx as u128
}

/// The voxels of the placed models (see `emit_all`).
pub fn assemble_voxels(models: &Vec<Vec<Voxel>>, insts: &Vec<(usize, Xform)>) -> (out: Vec<Voxel>)
    ensures
        out@ == emit_all(models@.map_values(|m: Vec<Voxel>| m@), insts@, insts@.len() as int).0,
{
    let ghost ms = models@.map_values(|m: Vec<Voxel>| m@);
    let mut out: Vec<Voxel> = Vec::new();
    let mut seen: HashSet<u128> = HashSet::new();
    let mut i: usize = 0;
    while i < insts.len()
        invariant
            i <= insts@.len(),
            ms == models@.map_values(|m: Vec<Voxel>| m@),
            (out@, seen@) == emit_all(ms, insts@, i as int),
        decreases insts.len() - i,
    {
        let (mid, xf) = insts[i];
        if mid < models.len() {
            let vs = &models[mid];
            assert(ms[mid as int] == vs@);
            let ghost o0 = out@;
            let ghost s0 = seen@;
            let mut j: usize = 0;
            while j < vs.len()
                invariant
                    j <= vs@.len(),
                    (out@, seen@) == emit_model(vs@, xf, j as int, s0, o0),
                decreases vs.len() - j,
            {
                let v = vs[j];
                let pw = xf.apply((v.x, v.y, v.z));
                let k = voxel_key_exec(pw.0, pw.2, pw.1, v.index);
                if seen.insert(k) {
                    out.push(Voxel { x: pw.0, y: pw.2, z: pw.1, index: v.index });
                }
                j += 1;
            }
        }
        i += 1;
    }
    out
}

fn parse_vox_checked(bytes: &[u8]) -> (r: Option<Result<VoxData, VoxError>>)
    ensures
        r is None ==> spec_vox_data(bytes@) is None,
        r matches Some(Ok(d)) ==> spec_vox_data(bytes@) == Some(
            Ok::<(Seq<Voxel>, Seq<[u8; 4]>, Option<Seq<u8>>), VoxError>(vox_data_view(d)),
        ),
        r matches Some(Err(e)) ==> spec_vox_data(bytes@) == Some(
            Err::<(Seq<Voxel>, Seq<[u8; 4]>, Option<Seq<u8>>), VoxError>(e),
        ),
{
    let scene = match parse_vox_scene(bytes) {
        Ok(s) => s,
        Err(e) => {
            return Some(Err(e));
        },
    };
    if scene.models.len() == 0 {
        let VoxScene { palette, imap, .. } = scene;
        let d = VoxData { voxels: Vec::new(), palette, imap };
        assert(vox_data_view(d).0 =~= Seq::<Voxel>::empty());
        return Some(Ok(d));
    }
    let insts = match collect_instances(&scene) {
        Some(v) => v,
        None => {
            return None;
        },
    };
    let voxels = assemble_voxels(&scene.models, &insts);
    let VoxScene { palette, imap, .. } = scene;
    Some(Ok(VoxData { voxels, palette, imap }))
}

/// Reads a MagicaVoxel `.vox` file: its voxels (every model placed by the
/// scene graph, y and z swapped, duplicates dropped), its palette and its
/// palette index map (see `spec_vox_data`). Files on which reading would
/// not end normally are left out (see `vox_aborts`).
pub fn parse_vox(bytes: &[u8]) -> (r: Result<VoxData, VoxError>)
    requires
        !vox_aborts(bytes@),
    ensures
        spec_vox_data(bytes@) == Some(
            match r {
                Ok(d) => Ok::<(Seq<Voxel>, Seq<[u8; 4]>, Option<Seq<u8>>), VoxError>(vox_data_view(d)),
                Err(e) => Err(e),
            },
        ),
{
    match parse_vox_checked(bytes) {
        Some(r) => r,
        None => Err(VoxError::ChunkDecodeFailed),
    }
}

/// Whether reading `bytes` as a `.vox` file would not end normally: a
/// transform node the walk reaches names a rotation column outside the
/// matrix, or the scene graph has a cycle on the walk.
pub fn vox_would_abort(bytes: &[u8]) -> (r: bool)
    ensures
        r == vox_aborts(bytes@),
{
    parse_vox_checked(bytes).is_none()
}

/// The smallest coordinates over `vs`, component-wise, starting from
/// `i32::MAX`; the origin if the x component stays `i32::MAX`.
pub open spec fn min_corner_from(vs: Seq<Voxel>, k: int) -> (i32, i32, i32)
    decreases k,
{
    if k <= 0 {
        (i32::MAX, i32::MAX, i32::MAX)
    } else {
        let m = min_corner_from(vs, k - 1);
        let v = vs[k - 1];
        (
            if v.x < m.0 {
                v.x
            } else {
                m.0
            },
            if v.y < m.1 {
                v.y
            } else {
                m.1
            },
            if v.z < m.2 {
                v.z
            } else {
                m.2
            },
        )
    }
}

pub open spec fn min_corner(vs: Seq<Voxel>) -> (i32, i32, i32) {
    let m = min_corner_from(vs, vs.len() as int);
    if m.0 == i32::MAX {
        (0, 0, 0)
    } else {
        m
    }
}

/// The grid cell of a voxel: its position minus the corner (wrapping), its
/// index mapped through the index map if there is one, and raised to 1.
pub open spec fn grid_cell(v: Voxel, mn: (i32, i32, i32), imap: Option<Seq<u8>>) -> Voxel {
    let pi = match imap {
        Some(m) => if (v.index as int) < m.len() {
            m[v.index as int]
        } else {
            v.index
        },
        None => v.index,
    };
    Voxel {
        x: wrapping_sub(v.x, mn.0),
        y: wrapping_sub(v.y, mn.1),
        z: wrapping_sub(v.z, mn.2),
        index: max1(pi),
    }
}

/// The cells the importer writes into the voxel grid, in order: each voxel
/// moved so the smallest corner is at the origin, with its palette index
/// remapped (see `grid_cell`).
pub fn vox_grid_cells(data: &VoxData) -> (cells: Vec<Voxel>)
    ensures
        cells@.len() == data.voxels@.len(),
        forall|i: int|
            0 <= i < cells@.len() ==> #[trigger] cells@[i] == grid_cell(
                data.voxels@[i],
                min_corner(data.voxels@),
                vox_data_view(*data).2,
            ),
{
    let vs = &data.voxels;
    let mut mn: (i32, i32, i32) = (i32::MAX, i32::MAX, i32::MAX);
    let mut k: usize = 0;
    while k < vs.len()
        invariant
            k <= vs@.len(),
            mn == min_corner_from(vs@, k as int),
        decreases vs.len() - k,
    {
        let v = vs[k];
        mn = (if v.x < mn.0 {
            v.x
        } else {
            mn.0
        }, if v.y < mn.1 {
            v.y
        } else {
            mn.1
        }, if v.z < mn.2 {
            v.z
        } else {
            mn.2
        });
        k += 1;
    }
    if mn.0 == i32::MAX {
        mn = (0, 0, 0);
    }
    let mut cells: Vec<Voxel> = Vec::new();
    let mut i: usize = 0;
    while i < vs.len()
        invariant
            i <= vs@.len(),
            mn == min_corner(vs@),
            vs@ == data.voxels@,
            cells@.len() == i,
            forall|j: int| 0 <= j < i ==> #[trigger] cells@[j] == grid_cell(vs@[j], mn, vox_data_view(*data).2),
        decreases vs.len() - i,
    {
        let v = vs[i];
        let pi = match &data.imap {
            Some(m) => if (v.index as usize) < m.len() {
                m[v.index as usize]
            } else {
                v.index
            },
            None => v.index,
        };
        cells.push(
            Voxel {
                x: v.x.wrapping_sub(mn.0),
                y: v.y.wrapping_sub(mn.1),
                z: v.z.wrapping_sub(mn.2),
                index: if pi == 0 {
                    1
                } else {
                    pi
                },
            },
        );
        i += 1;
    }
    cells
}

/// Hash of a string with the standard library's default hasher, as `Hash`
/// for `str` feeds it: the bytes, then the byte `0xff`.
pub fn hash64(s: &str) -> (h: u64)
    ensures
        h == DefaultHasher::spec_finish(seq![s.spec_bytes(), seq![0xffu8]]),
{
    let mut hasher = DefaultHasher::new();
    hasher.write(s.as_bytes());
    let tail: [u8; 1] = [0xff];
    hasher.write(tail.as_slice());
    proof {
        assert(tail@ =~= seq![0xffu8]);
        assert(hasher@ =~= seq![s.spec_bytes(), seq![0xffu8]]);
    }
    hasher.finish()
}

/// The 128 bits of the voxel node id of a file: the hash of its path in the
/// high half, the hash of `"vox:"` followed by the path in the low half.
pub fn vox_node_id_bits(path_hash: u64, prefixed_path_hash: u64) -> (bits: u128)
    ensures
        bits == path_hash as int * 0x1_0000_0000_0000_0000 + prefixed_path_hash as int,
{
    (path_hash as u128) * 0x1_0000_0000_0000_0000u128 + (prefixed_path_hash as u128)
}

/// The hexadecimal digit of `v` (below 16), in lowercase.
pub open spec fn hex_digit(v: int) -> char {
    if v < 10 {
        (48 + v) as char
    } else {
        (87 + v) as char
    }
}

/// Digit `k` (from the most significant) of the 32 hexadecimal digits of
/// `bits`.
pub open spec fn nibble(bits: u128, k: int) -> int {
    (bits as int / vstd::arithmetic::power::pow(16, (31 - k) as nat)) % 16
}

/// The 32 hexadecimal digits of `bits`, most significant first.
pub open spec fn hex32(bits: u128) -> Seq<char> {
    Seq::new(32, |k: int| hex_digit(nibble(bits, k)))
}

/// The hyphenated text of a UUID with value `bits`: its 32 lowercase
/// hexadecimal digits in groups of 8, 4, 4, 4 and 12, joined by hyphens.
pub open spec fn hyphenated_hex(bits: u128) -> Seq<char> {
    let h = hex32(bits);
    h.subrange(0, 8) + seq!['-'] + h.subrange(8, 12) + seq!['-'] + h.subrange(12, 16) + seq!['-']
        + h.subrange(16, 20) + seq!['-'] + h.subrange(20, 32)
}

/// `uuid::Uuid::from_u128` followed by the UUID's `Display`: as the crate's
/// documentation shows, the value's 32 lowercase hexadecimal digits, most
/// significant first, in hyphen-separated groups of 8, 4, 4, 4 and 12.
#[verifier::external_body]
fn uuid_text(bits: u128) -> (s: String)
    ensures
        s@ == hyphenated_hex(bits),
{
    uuid::Uuid::from_u128(bits).to_string()
}

/// The hash that `hash64` gives for a string with characters `s`.
pub open spec fn text_hash(s: Seq<char>) -> u64 {
    DefaultHasher::spec_finish(seq![vstd::utf8::encode_utf8(s), seq![0xffu8]])
}

/// The 128 bits of the voxel node of a file with path `path`.
pub open spec fn vox_node_bits(path: Seq<char>) -> u128 {
    (text_hash(path) as int * 0x1_0000_0000_0000_0000 + text_hash(seq!['v', 'o', 'x', ':'] + path) as int) as u128
}

impl VoxImporter {
    /// The voxel size the importer uses, in thousandths of a unit.
    pub fn voxel_size_millis(&self) -> (r: u32)
        ensures
            r == 100,
    {
        100
    }

    /// The identifier of the voxel node of the file at `path`, as text: the
    /// UUID whose high half is the hash of the path and whose low half is the
    /// hash of `vox:` followed by the path.
    pub fn node_id_text(&self, path: &str) -> (s: String)
        ensures
            s@ == hyphenated_hex(vox_node_bits(path@)),
    {
        let h0 = hash64(path);
        let mut prefixed = String::from_str("vox:");
        proof {
            reveal_strlit("vox:");
        }
        prefixed.append(path);
        let h1 = hash64(prefixed.as_str());
        proof {
            assert(prefixed@ =~= seq!['v', 'o', 'x', ':'] + path@);
        }
        let bits = vox_node_id_bits(h0, h1);
        uuid_text(bits)
    }
}

} // verus!
