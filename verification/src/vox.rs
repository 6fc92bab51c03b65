//! MagicaVoxel `.vox` import: the scene chunks, the scene-graph traversal
//! and the voxel list handed to the voxel grid.

use vstd::prelude::*;
use std::collections::HashSet;
use crate::vox_bytes::{
    chunk_view, dict_view, le_i32, read_chunk, read_dict, read_i32, read_u32, spec_dict_at, spec_i32_at,
    spec_read_chunk, spec_u32_at, Chunk, ChunkModel, DictEntry,
};
use crate::vox_xform::{
    entries_view, identity_xform, spec_apply, spec_mul, spec_trn_local, trn_local, Xform,
};

verus! {

broadcast use vstd::std_specs::hash::group_hash_axioms;

/// A voxel: integer position and palette index.
#[derive(Clone, Copy, Debug, PartialEq, Eq)]
pub struct Voxel {
    pub x: i32,
    pub y: i32,
    pub z: i32,
    pub index: u8,
}

/// Why a `.vox` file was rejected.
#[derive(Clone, Copy, PartialEq, Eq, Structural, Debug)]
pub enum VoxError {
    BadHeader,
    MissingMagic,
    BadVersion,
    ChunkDecodeFailed,
    MissingMain,
    BadPack,
    BadSize,
    BadXyzi,
    BadRgba,
    BadImap,
    BadTrn,
    BadTrnDict,
    BadTrnFrame,
    BadGrp,
    BadGrpDict,
    BadShp,
    BadShpDict,
    BadShpModelDict,
}

/// The message the importer reports for error `e`.
pub open spec fn error_message(e: VoxError) -> Seq<char> {
    match e {
        VoxError::BadHeader => "bad header"@,
        VoxError::MissingMagic => "missing VOX magic"@,
        VoxError::BadVersion => "bad version"@,
        VoxError::ChunkDecodeFailed => "chunk decode failed"@,
        VoxError::MissingMain => "missing MAIN chunk"@,
        VoxError::BadPack => "bad PACK"@,
        VoxError::BadSize => "bad SIZE"@,
        VoxError::BadXyzi => "bad XYZI"@,
        VoxError::BadRgba => "bad RGBA"@,
        VoxError::BadImap => "bad IMAP"@,
        VoxError::BadTrn => "bad nTRN"@,
        VoxError::BadTrnDict => "bad nTRN dict"@,
        VoxError::BadTrnFrame => "bad nTRN frame"@,
        VoxError::BadGrp => "bad nGRP"@,
        VoxError::BadGrpDict => "bad nGRP dict"@,
        VoxError::BadShp => "bad nSHP"@,
        VoxError::BadShpDict => "bad nSHP dict"@,
        VoxError::BadShpModelDict => "bad nSHP model dict"@,
    }
}

impl VoxError {
    /// The message the importer reports for this error.
    pub fn message(&self) -> (s: &'static str)
        ensures
            s@ == error_message(*self),
    {
        match self {
            VoxError::BadHeader => "bad header",
            VoxError::MissingMagic => "missing VOX magic",
            VoxError::BadVersion => "bad version",
            VoxError::ChunkDecodeFailed => "chunk decode failed",
            VoxError::MissingMain => "missing MAIN chunk",
            VoxError::BadPack => "bad PACK",
            VoxError::BadSize => "bad SIZE",
            VoxError::BadXyzi => "bad XYZI",
            VoxError::BadRgba => "bad RGBA",
            VoxError::BadImap => "bad IMAP",
            VoxError::BadTrn => "bad nTRN",
            VoxError::BadTrnDict => "bad nTRN dict",
            VoxError::BadTrnFrame => "bad nTRN frame",
            VoxError::BadGrp => "bad nGRP",
            VoxError::BadGrpDict => "bad nGRP dict",
            VoxError::BadShp => "bad nSHP",
            VoxError::BadShpDict => "bad nSHP dict",
            VoxError::BadShpModelDict => "bad nSHP model dict",
        }
    }
}

/// A transform node: id, attributes, child node id and frame attributes.
pub struct TrnNode {
    pub id: i32,
    pub attrs: Vec<DictEntry>,
    pub child: i32,
    pub frames: Vec<Vec<DictEntry>>,
}

/// A group node: id and child node ids.
pub struct GrpNode {
    pub id: i32,
    pub children: Vec<i32>,
}

/// A shape node: id and model indices.
pub struct ShpNode {
    pub id: i32,
    pub models: Vec<i32>,
}

pub struct TrnModel {
    pub id: i32,
    pub attrs: Seq<(Seq<u8>, Seq<u8>)>,
    pub child: i32,
    pub frames: Seq<Seq<(Seq<u8>, Seq<u8>)>>,
}

/// Everything the chunks of a `.vox` file declare.
pub struct VoxScene {
    pub models: Vec<Vec<Voxel>>,
    pub palette: Vec<[u8; 4]>,
    pub imap: Option<Vec<u8>>,
    pub trns: Vec<TrnNode>,
    pub grps: Vec<GrpNode>,
    pub shps: Vec<ShpNode>,
    pub referenced: HashSet<i32>,
}

#[verifier::ext_equal]
pub struct SceneModel {
    pub models: Seq<Seq<Voxel>>,
    pub palette: Seq<[u8; 4]>,
    pub imap: Option<Seq<u8>>,
    pub trns: Seq<TrnModel>,
    pub grps: Seq<(i32, Seq<i32>)>,
    pub shps: Seq<(i32, Seq<i32>)>,
    pub referenced: Set<i32>,
}

pub open spec fn trn_view(t: TrnNode) -> TrnModel {
    TrnModel {
        id: t.id,
        attrs: entries_view(t.attrs@),
        child: t.child,
        frames: t.frames@.map_values(|f: Vec<DictEntry>| entries_view(f@)),
    }
}

impl View for VoxScene {
    type V = SceneModel;

    open spec fn view(&self) -> SceneModel {
        SceneModel {
            models: self.models@.map_values(|m: Vec<Voxel>| m@),
            palette: self.palette@,
            imap: match self.imap {
                Some(v) => Some(v@),
                None => None,
            },
            trns: self.trns@.map_values(|t: TrnNode| trn_view(t)),
            grps: self.grps@.map_values(|g: GrpNode| (g.id, g.children@)),
            shps: self.shps@.map_values(|s: ShpNode| (s.id, s.models@)),
            referenced: self.referenced@,
        }
    }
}

// ---------------------------------------------------------------------------
// Chunk contents.
// ---------------------------------------------------------------------------

pub open spec fn id_of(s: Seq<u8>, a: u8, b: u8, c: u8, d: u8) -> bool {
    s == seq![a, b, c, d]
}

pub open spec fn max1(i: u8) -> u8 {
    if i == 0 {
        1
    } else {
        i
    }
}

/// XYZI: a `u32` count, then four bytes (x, y, z, palette index) per voxel;
/// a zero palette index becomes 1.
pub open spec fn spec_xyzi(c: Seq<u8>) -> Option<Seq<Voxel>> {
    match spec_u32_at(c, 0) {
        None => None,
        Some(n) => if 4 + 4 * (n as int) <= c.len() {
            Some(
                Seq::new(
                    n as nat,
                    |i: int|
                        Voxel {
                            x: c[4 + 4 * i] as i32,
                            y: c[5 + 4 * i] as i32,
                            z: c[6 + 4 * i] as i32,
                            index: max1(c[7 + 4 * i]),
                        },
                ),
            )
        } else {
            None
        },
    }
}

/// RGBA: 255 colours of four bytes, for palette entries 1 to 255.
pub open spec fn spec_rgba(c: Seq<u8>) -> Option<Seq<[u8; 4]>> {
    if c.len() >= 1020 {
        Some(Seq::new(255, |i: int| [c[4 * i], c[4 * i + 1], c[4 * i + 2], c[4 * i + 3]]))
    } else {
        None
    }
}

pub open spec fn clamp_u8(v: i32) -> u8 {
    if v < 0 {
        0
    } else if v > 255 {
        255
    } else {
        v as u8
    }
}

/// IMAP: 256 `i32` values, each clamped to `0..=255`.
pub open spec fn spec_imap(c: Seq<u8>) -> Option<Seq<u8>> {
    if c.len() >= 1024 {
        Some(Seq::new(256, |i: int| clamp_u8(le_i32(c.subrange(4 * i, 4 * i + 4)))))
    } else {
        None
    }
}

pub open spec fn nonneg(n: i32) -> int {
    if n < 0 {
        0
    } else {
        n as int
    }
}

/// `count - k` dictionaries from `pos` on.
pub open spec fn spec_dicts(c: Seq<u8>, pos: int, k: int, count: int) -> Option<(Seq<Seq<(Seq<u8>, Seq<u8>)>>, int)>
    decreases count - k,
{
    if k >= count {
        Some((Seq::empty(), pos))
    } else {
        match spec_dict_at(c, pos) {
            None => None,
            Some((d, p1)) => match spec_dicts(c, p1, k + 1, count) {
                None => None,
                Some((rest, p2)) => Some((seq![d] + rest, p2)),
            },
        }
    }
}

/// nTRN: id, attributes, child id, two reserved `i32`s, frame count, frames.
pub open spec fn spec_trn(c: Seq<u8>) -> Result<TrnModel, VoxError> {
    match spec_i32_at(c, 0) {
        None => Err(VoxError::BadTrn),
        Some(id) => match spec_dict_at(c, 4) {
            None => Err(VoxError::BadTrnDict),
            Some((attrs, p)) => {
                if spec_i32_at(c, p) is None || spec_i32_at(c, p + 4) is None || spec_i32_at(c, p + 8) is None
                    || spec_i32_at(c, p + 12) is None {
                    Err(VoxError::BadTrn)
                } else {
                    match spec_dicts(c, p + 16, 0, nonneg(spec_i32_at(c, p + 12).unwrap())) {
                        None => Err(VoxError::BadTrnFrame),
                        Some((frames, _)) => Ok(
                            TrnModel { id, attrs, child: spec_i32_at(c, p).unwrap(), frames },
                        ),
                    }
                }
            },
        },
    }
}

/// `n` little-endian `i32`s from `pos` on.
pub open spec fn spec_i32s(c: Seq<u8>, pos: int, n: int) -> Option<Seq<i32>> {
    if pos + 4 * n <= c.len() {
        Some(Seq::new(n as nat, |i: int| le_i32(c.subrange(pos + 4 * i, pos + 4 * i + 4))))
    } else {
        None
    }
}

/// nGRP: id, attributes, child count, child ids.
pub open spec fn spec_grp(c: Seq<u8>) -> Result<(i32, Seq<i32>), VoxError> {
    match spec_i32_at(c, 0) {
        None => Err(VoxError::BadGrp),
        Some(id) => match spec_dict_at(c, 4) {
            None => Err(VoxError::BadGrpDict),
            Some((_, p)) => match spec_i32_at(c, p) {
                None => Err(VoxError::BadGrp),
                Some(n) => match spec_i32s(c, p + 4, nonneg(n)) {
                    None => Err(VoxError::BadGrp),
                    Some(children) => Ok((id, children)),
                },
            },
        },
    }
}

/// `count - k` shape models (model id, attributes) from `pos` on.
pub open spec fn spec_shp_models(c: Seq<u8>, pos: int, k: int, count: int) -> Result<Seq<i32>, VoxError>
    decreases count - k,
{
    if k >= count {
        Ok(Seq::empty())
    } else {
        match spec_i32_at(c, pos) {
            None => Err(VoxError::BadShp),
            Some(mid) => match spec_dict_at(c, pos + 4) {
                None => Err(VoxError::BadShpModelDict),
                Some((_, p1)) => match spec_shp_models(c, p1, k + 1, count) {
                    Err(e) => Err(e),
                    Ok(rest) => Ok(seq![mid] + rest),
                },
            },
        }
    }
}

/// nSHP: id, attributes, model count, models.
pub open spec fn spec_shp(c: Seq<u8>) -> Result<(i32, Seq<i32>), VoxError> {
    match spec_i32_at(c, 0) {
        None => Err(VoxError::BadShp),
        Some(id) => match spec_dict_at(c, 4) {
            None => Err(VoxError::BadShpDict),
            Some((_, p)) => match spec_i32_at(c, p) {
                None => Err(VoxError::BadShp),
                Some(n) => match spec_shp_models(c, p + 4, 0, nonneg(n)) {
                    Err(e) => Err(e),
                    Ok(models) => Ok((id, models)),
                },
            },
        },
    }
}

/// Index of the first node with `id`, if any.
pub open spec fn find_id(ids: Seq<i32>, id: i32) -> Option<int>
    decreases ids.len(),
{
    if ids.len() == 0 {
        None
    } else {
        match find_id(ids.drop_last(), id) {
            Some(i) => Some(i),
            None => if ids.last() == id {
                Some(ids.len() - 1)
            } else {
                None
            },
        }
    }
}

pub open spec fn trn_ids(t: Seq<TrnModel>) -> Seq<i32> {
    t.map_values(|n: TrnModel| n.id)
}

pub open spec fn pair_ids(t: Seq<(i32, Seq<i32>)>) -> Seq<i32> {
    t.map_values(|n: (i32, Seq<i32>)| n.0)
}

/// Inserts `t`, replacing the node with the same id if there is one.
pub open spec fn upsert_trn(s: Seq<TrnModel>, t: TrnModel) -> Seq<TrnModel> {
    match find_id(trn_ids(s), t.id) {
        Some(i) => s.update(i, t),
        None => s.push(t),
    }
}

pub open spec fn upsert_pair(s: Seq<(i32, Seq<i32>)>, t: (i32, Seq<i32>)) -> Seq<(i32, Seq<i32>)> {
    match find_id(pair_ids(s), t.0) {
        Some(i) => s.update(i, t),
        None => s.push(t),
    }
}

/// How one top-level chunk changes the scene.
pub open spec fn chunk_step(s: SceneModel, ch: ChunkModel) -> Result<SceneModel, VoxError> {
    let c = ch.content;
    if id_of(ch.id, 80, 65, 67, 75) {
        if spec_u32_at(c, 0) is Some {
            Ok(s)
        } else {
            Err(VoxError::BadPack)
        }
    } else if id_of(ch.id, 83, 73, 90, 69) {
        if spec_i32_at(c, 0) is Some && spec_i32_at(c, 4) is Some && spec_i32_at(c, 8) is Some {
            Ok(s)
        } else {
            Err(VoxError::BadSize)
        }
    } else if id_of(ch.id, 88, 89, 90, 73) {
        match spec_xyzi(c) {
            None => Err(VoxError::BadXyzi),
            Some(vs) => Ok(SceneModel { models: s.models.push(vs), ..s }),
        }
    } else if id_of(ch.id, 82, 71, 66, 65) {
        match spec_rgba(c) {
            None => Err(VoxError::BadRgba),
            Some(cols) => Ok(
                SceneModel {
                    palette: Seq::new(
                        s.palette.len(),
                        |i: int|
                            if 1 <= i <= 255 {
                                cols[i - 1]
                            } else {
                                s.palette[i]
                            },
                    ),
                    ..s
                },
            ),
        }
    } else if id_of(ch.id, 73, 77, 65, 80) {
        match spec_imap(c) {
            None => Err(VoxError::BadImap),
            Some(m) => Ok(SceneModel { imap: Some(m), ..s }),
        }
    } else if id_of(ch.id, 110, 84, 82, 78) {
        match spec_trn(c) {
            Err(e) => Err(e),
            Ok(t) => Ok(
                SceneModel { trns: upsert_trn(s.trns, t), referenced: s.referenced.insert(t.child), ..s },
            ),
        }
    } else if id_of(ch.id, 110, 71, 82, 80) {
        match spec_grp(c) {
            Err(e) => Err(e),
            Ok(g) => Ok(
                SceneModel {
                    grps: upsert_pair(s.grps, g),
                    referenced: s.referenced.union(Set::new(|x: i32| g.1.contains(x))),
                    ..s
                },
            ),
        }
    } else if id_of(ch.id, 110, 83, 72, 80) {
        match spec_shp(c) {
            Err(e) => Err(e),
            Ok(h) => Ok(SceneModel { shps: upsert_pair(s.shps, h), ..s }),
        }
    } else {
        Ok(s)
    }
}

/// The default palette: entry 0 transparent black, entry `i` grey `i`.
pub open spec fn default_palette() -> Seq<[u8; 4]> {
    Seq::new(256, |i: int| if i == 0 {
        [0u8, 0u8, 0u8, 0u8]
    } else {
        [i as u8, i as u8, i as u8, 255u8]
    })
}

pub open spec fn empty_scene() -> SceneModel {
    SceneModel {
        models: Seq::empty(),
        palette: default_palette(),
        imap: None,
        trns: Seq::empty(),
        grps: Seq::empty(),
        shps: Seq::empty(),
        referenced: Set::empty(),
    }
}

/// The scene after the first `k` top-level chunks.
pub open spec fn scene_fold(children: Seq<ChunkModel>, k: int) -> Result<SceneModel, VoxError>
    decreases k,
{
    if k <= 0 {
        Ok(empty_scene())
    } else {
        match scene_fold(children, k - 1) {
            Err(e) => Err(e),
            Ok(s) => chunk_step(s, children[k - 1]),
        }
    }
}

/// The scene a `.vox` file declares: the `VOX ` magic, a version, and a
/// `MAIN` chunk whose children are processed in order.
pub open spec fn spec_parse_scene(b: Seq<u8>) -> Result<SceneModel, VoxError> {
    if b.len() < 4 {
        Err(VoxError::BadHeader)
    } else if !id_of(b.subrange(0, 4), 86, 79, 88, 32) {
        Err(VoxError::MissingMagic)
    } else if b.len() < 8 {
        Err(VoxError::BadVersion)
    } else {
        match spec_read_chunk(b, 8, b.len() as int) {
            None => Err(VoxError::ChunkDecodeFailed),
            Some((main, _)) => if !id_of(main.id, 77, 65, 73, 78) {
                Err(VoxError::MissingMain)
            } else {
                scene_fold(main.children, main.children.len() as int)
            },
        }
    }
}

// ---------------------------------------------------------------------------
// Chunk content readers.
// ---------------------------------------------------------------------------

fn is_id(id: &[u8; 4], a: u8, b: u8, c: u8, d: u8) -> (r: bool)
    ensures
        r == id_of(id@, a, b, c, d),
{
    let r = id[0] == a && id[1] == b && id[2] == c && id[3] == d;
    proof {
        if r {
            assert(id@ =~= seq![a, b, c, d]);
        } else {
            if id@ == seq![a, b, c, d] {
                assert(id@[0] == seq![a, b, c, d][0]);
                assert(id@[1] == seq![a, b, c, d][1]);
                assert(id@[2] == seq![a, b, c, d][2]);
                assert(id@[3] == seq![a, b, c, d][3]);
            }
        }
    }
    r
}

fn parse_xyzi(c: &[u8]) -> (r: Option<Vec<Voxel>>)
    ensures
        r matches Some(v) ==> spec_xyzi(c@) == Some(v@),
        r is None ==> spec_xyzi(c@) is None,
{
    let mut pos: usize = 0;
    let n = match read_u32(c, &mut pos) {
        Ok(n) => n,
        Err(()) => {
            return None;
        },
    };
    let mut out: Vec<Voxel> = Vec::new();
    let mut i: u32 = 0;
    while i < n
        invariant
            i <= n,
            spec_u32_at(c@, 0) == Some(n),
            pos == 4 + 4 * (i as int),
            pos <= c@.len(),
            out@.len() == i,
            forall|j: int|
                0 <= j < i ==> #[trigger] out@[j] == (Voxel {
                    x: c@[4 + 4 * j] as i32,
                    y: c@[5 + 4 * j] as i32,
                    z: c@[6 + 4 * j] as i32,
                    index: max1(c@[7 + 4 * j]),
                }),
        decreases n - i,
    {
        if c.len() - pos < 4 {
            assert(4 + 4 * (n as int) > c@.len());
            return None;
        }
        let x = c[pos];
        let y = c[pos + 1];
        let z = c[pos + 2];
        let idx = c[pos + 3];
        out.push(Voxel { x: x as i32, y: y as i32, z: z as i32, index: if idx == 0 { 1 } else { idx } });
        pos = pos + 4;
        i += 1;
    }
    assert(out@ =~= spec_xyzi(c@).unwrap());
    Some(out)
}

fn parse_rgba(c: &[u8], palette: &mut Vec<[u8; 4]>) -> (ok: bool)
    requires
        old(palette)@.len() == 256,
    ensures
        ok ==> (spec_rgba(c@) matches Some(cols) && final(palette)@ == Seq::new(
            256,
            |i: int|
                if 1 <= i <= 255 {
                    cols[i - 1]
                } else {
                    old(palette)@[i]
                },
        )),
        !ok ==> spec_rgba(c@) is None && final(palette)@ == old(palette)@,
        final(palette)@.len() == 256,
{
    if c.len() < 1020 {
        return false;
    }
    let ghost p0 = palette@;
    let mut i: usize = 1;
    while i <= 255
        invariant
            1 <= i <= 256,
            c@.len() >= 1020,
            palette@.len() == 256,
            forall|j: int|
                0 <= j < 256 ==> #[trigger] palette@[j] == if 1 <= j < i {
                    spec_rgba(c@).unwrap()[j - 1]
                } else {
                    p0[j]
                },
        decreases 256 - i,
    {
        let p = 4 * (i - 1);
        palette.set(i, [c[p], c[p + 1], c[p + 2], c[p + 3]]);
        i += 1;
    }
    assert(palette@ =~= Seq::new(
        256,
        |i: int|
            if 1 <= i <= 255 {
                spec_rgba(c@).unwrap()[i - 1]
            } else {
                p0[i]
            },
    ));
    true
}

fn parse_imap(c: &[u8]) -> (r: Option<Vec<u8>>)
    ensures
        r matches Some(v) ==> spec_imap(c@) == Some(v@),
        r is None ==> spec_imap(c@) is None,
{
    if c.len() < 1024 {
        return None;
    }
    let mut out: Vec<u8> = Vec::new();
    let mut pos: usize = 0;
    let mut i: usize = 0;
    while i < 256
        invariant
            i <= 256,
            c@.len() >= 1024,
            pos == 4 * i,
            out@.len() == i,
            forall|j: int| 0 <= j < i ==> #[trigger] out@[j] == clamp_u8(le_i32(c@.subrange(4 * j, 4 * j + 4))),
        decreases 256 - i,
    {
        let v = match read_i32(c, &mut pos) {
            Ok(v) => v,
            Err(()) => {
                return None;
            },
        };
        out.push(if v < 0 {
            0
        } else if v > 255 {
            255
        } else {
            v as u8
        });
        i += 1;
    }
    assert(out@ =~= spec_imap(c@).unwrap());
    Some(out)
}

fn read_dicts(c: &[u8], pos: &mut usize, count: usize) -> (r: Result<Vec<Vec<DictEntry>>, ()>)
    ensures
        r matches Ok(ds) ==> spec_dicts(c@, *old(pos) as int, 0, count as int) == Some(
            (ds@.map_values(|f: Vec<DictEntry>| entries_view(f@)), *final(pos) as int),
        ),
        r is Err ==> spec_dicts(c@, *old(pos) as int, 0, count as int) is None,
{
    let ghost p0 = *pos as int;
    let mut out: Vec<Vec<DictEntry>> = Vec::new();
    let mut k: usize = 0;
    while k < count
        invariant
            k <= count,
            p0 == *old(pos) as int,
            spec_dicts(c@, p0, 0, count as int) matches Some((all, pe)) ==> (spec_dicts(
                c@,
                *pos as int,
                k as int,
                count as int,
            ) matches Some((rest, pe2)) && pe2 == pe && all == out@.map_values(
                |f: Vec<DictEntry>| entries_view(f@),
            ) + rest),
            spec_dicts(c@, p0, 0, count as int) is None ==> spec_dicts(c@, *pos as int, k as int, count as int) is None,
        decreases count - k,
    {
        let ghost pk = *pos as int;
        let d = match read_dict(c, pos) {
            Ok(d) => d,
            Err(()) => {
                assert(spec_dicts(c@, pk, k as int, count as int) is None);
                assert(spec_dicts(c@, p0, 0, count as int) is None);
                return Err(());
            },
        };
        let ghost before = out@.map_values(|f: Vec<DictEntry>| entries_view(f@));
        proof {
            assert(dict_view(d@) =~= entries_view(d@));
        }
        out.push(d);
        proof {
            assert(out@.map_values(|f: Vec<DictEntry>| entries_view(f@)) =~= before.push(entries_view(d@)));
            if let Some((all, pe)) = spec_dicts(c@, p0, 0, count as int) {
                let (rest, _) = spec_dicts(c@, pk, k as int, count as int).unwrap();
                let (rest2, _) = spec_dicts(c@, *pos as int, k + 1, count as int).unwrap();
                assert(rest == seq![entries_view(d@)] + rest2);
                assert(all =~= out@.map_values(|f: Vec<DictEntry>| entries_view(f@)) + rest2);
            }
        }
        k += 1;
    }
    proof {
        if let Some((all, pe)) = spec_dicts(c@, p0, 0, count as int) {
            assert(all =~= out@.map_values(|f: Vec<DictEntry>| entries_view(f@)));
        }
    }
    Ok(out)
}

fn nonneg_usize(n: i32) -> (r: usize)
    ensures
        r as int == nonneg(n),
{
    if n < 0 {
        0
    } else {
        n as usize
    }
}

fn parse_trn(c: &[u8]) -> (r: Result<TrnNode, VoxError>)
    ensures
        r matches Ok(t) ==> spec_trn(c@) == Ok::<TrnModel, VoxError>(trn_view(t)),
        r matches Err(e) ==> spec_trn(c@) == Err::<TrnModel, VoxError>(e),
{
    let mut pos: usize = 0;
    let id = match read_i32(c, &mut pos) {
        Ok(v) => v,
        Err(()) => {
            return Err(VoxError::BadTrn);
        },
    };
    let attrs = match read_dict(c, &mut pos) {
        Ok(d) => d,
        Err(()) => {
            return Err(VoxError::BadTrnDict);
        },
    };
    let ghost p = pos as int;
    let child = match read_i32(c, &mut pos) {
        Ok(v) => v,
        Err(()) => {
            return Err(VoxError::BadTrn);
        },
    };
    let _reserved = match read_i32(c, &mut pos) {
        Ok(v) => v,
        Err(()) => {
            return Err(VoxError::BadTrn);
        },
    };
    let _layer = match read_i32(c, &mut pos) {
        Ok(v) => v,
        Err(()) => {
            return Err(VoxError::BadTrn);
        },
    };
    let frames_n = match read_i32(c, &mut pos) {
        Ok(v) => v,
        Err(()) => {
            return Err(VoxError::BadTrn);
        },
    };
    let count = nonneg_usize(frames_n);
    let frames = match read_dicts(c, &mut pos, count) {
        Ok(f) => f,
        Err(()) => {
            return Err(VoxError::BadTrnFrame);
        },
    };
    let t = TrnNode { id, attrs, child, frames };
    proof {
        assert(dict_view(t.attrs@) =~= entries_view(t.attrs@));
    }
    Ok(t)
}

fn read_i32s(c: &[u8], pos: &mut usize, n: usize) -> (r: Option<Vec<i32>>)
    requires
        *old(pos) <= c@.len(),
    ensures
        r matches Some(v) ==> spec_i32s(c@, *old(pos) as int, n as int) == Some(v@),
        r is None ==> spec_i32s(c@, *old(pos) as int, n as int) is None,
{
    let ghost p0 = *pos as int;
    let mut out: Vec<i32> = Vec::new();
    let mut i: usize = 0;
    while i < n
        invariant
            i <= n,
            p0 == *old(pos) as int,
            *pos as int == p0 + 4 * i,
            *pos <= c@.len(),
            out@.len() == i,
            forall|j: int| 0 <= j < i ==> #[trigger] out@[j] == le_i32(c@.subrange(p0 + 4 * j, p0 + 4 * j + 4)),
        decreases n - i,
    {
        let v = match read_i32(c, pos) {
            Ok(v) => v,
            Err(()) => {
                return None;
            },
        };
        out.push(v);
        i += 1;
    }
    assert(out@ =~= spec_i32s(c@, p0, n as int).unwrap());
    Some(out)
}

fn parse_grp(c: &[u8]) -> (r: Result<GrpNode, VoxError>)
    ensures
        r matches Ok(g) ==> spec_grp(c@) == Ok::<(i32, Seq<i32>), VoxError>((g.id, g.children@)),
        r matches Err(e) ==> spec_grp(c@) == Err::<(i32, Seq<i32>), VoxError>(e),
{
    let mut pos: usize = 0;
    let id = match read_i32(c, &mut pos) {
        Ok(v) => v,
        Err(()) => {
            return Err(VoxError::BadGrp);
        },
    };
    match read_dict(c, &mut pos) {
        Ok(_) => {},
        Err(()) => {
            return Err(VoxError::BadGrpDict);
        },
    }
    let n = match read_i32(c, &mut pos) {
        Ok(v) => v,
        Err(()) => {
            return Err(VoxError::BadGrp);
        },
    };
    let count = nonneg_usize(n);
    match read_i32s(c, &mut pos, count) {
        Some(children) => Ok(GrpNode { id, children }),
        None => Err(VoxError::BadGrp),
    }
}

fn parse_shp(c: &[u8]) -> (r: Result<ShpNode, VoxError>)
    ensures
        r matches Ok(h) ==> spec_shp(c@) == Ok::<(i32, Seq<i32>), VoxError>((h.id, h.models@)),
        r matches Err(e) ==> spec_shp(c@) == Err::<(i32, Seq<i32>), VoxError>(e),
{
    let mut pos: usize = 0;
    let id = match read_i32(c, &mut pos) {
        Ok(v) => v,
        Err(()) => {
            return Err(VoxError::BadShp);
        },
    };
    match read_dict(c, &mut pos) {
        Ok(_) => {},
        Err(()) => {
            return Err(VoxError::BadShpDict);
        },
    }
    let n = match read_i32(c, &mut pos) {
        Ok(v) => v,
        Err(()) => {
            return Err(VoxError::BadShp);
        },
    };
    let count = nonneg_usize(n);
    let ghost pstart = pos as int;
    assert(spec_shp(c@) == (match spec_shp_models(c@, pstart, 0, count as int) {
        Err(e) => Err(e),
        Ok(m) => Ok((id, m)),
    }));
    let mut models: Vec<i32> = Vec::new();
    let mut k: usize = 0;
    assert(models@ + Seq::<i32>::empty() =~= models@);
    while k < count
        invariant
            k <= count,
            spec_shp(c@) == (match spec_shp_models(c@, pstart, 0, count as int) {
                Err(e) => Err(e),
                Ok(m) => Ok((id, m)),
            }),
            spec_shp_models(c@, pstart, 0, count as int) == prepend_models(
                models@,
                spec_shp_models(c@, pos as int, k as int, count as int),
            ),
        decreases count - k,
    {
        let ghost pk = pos as int;
        let mid = match read_i32(c, &mut pos) {
            Ok(v) => v,
            Err(()) => {
                assert(spec_shp_models(c@, pk, k as int, count as int) == Err::<Seq<i32>, VoxError>(VoxError::BadShp));
                return Err(VoxError::BadShp);
            },
        };
        match read_dict(c, &mut pos) {
            Ok(_) => {},
            Err(()) => {
                assert(spec_shp_models(c@, pk, k as int, count as int) == Err::<Seq<i32>, VoxError>(VoxError::BadShpModelDict));
                return Err(VoxError::BadShpModelDict);
            },
        }
        proof {
            let rest = spec_shp_models(c@, pos as int, k + 1, count as int);
            assert(spec_shp_models(c@, pk, k as int, count as int) == prepend_models(seq![mid], rest));
            lemma_prepend_models(models@, mid, rest);
        }
        models.push(mid);
        k += 1;
    }
    assert(models@ + Seq::<i32>::empty() =~= models@);
    Ok(ShpNode { id, models })
}

pub open spec fn prepend_models(a: Seq<i32>, r: Result<Seq<i32>, VoxError>) -> Result<Seq<i32>, VoxError> {
    match r {
        Err(e) => Err(e),
        Ok(rest) => Ok(a + rest),
    }
}

proof fn lemma_prepend_models(a: Seq<i32>, mid: i32, r: Result<Seq<i32>, VoxError>)
    ensures
        prepend_models(a, prepend_models(seq![mid], r)) == prepend_models(a.push(mid), r),
{
    if let Ok(rest) = r {
        assert(a + (seq![mid] + rest) =~= a.push(mid) + rest);
    }
}

fn find_trn_index(trns: &Vec<TrnNode>, id: i32) -> (r: Option<usize>)
    ensures
        r matches Some(i) ==> find_id(trn_ids(trns@.map_values(|t: TrnNode| trn_view(t))), id) == Some(i as int),
        r is None ==> find_id(trn_ids(trns@.map_values(|t: TrnNode| trn_view(t))), id) is None,
{
    let ghost ids = trn_ids(trns@.map_values(|t: TrnNode| trn_view(t)));
    let mut i: usize = 0;
    while i < trns.len()
        invariant
            i <= trns@.len(),
            ids == trn_ids(trns@.map_values(|t: TrnNode| trn_view(t))),
            find_id(ids.take(i as int), id) is None,
        decreases trns.len() - i,
    {
        proof {
            assert(ids.take(i + 1).drop_last() =~= ids.take(i as int));
        }
        if trns[i].id == id {
            proof {
                lemma_find_id_prefix(ids, i + 1, id);
            }
            return Some(i);
        }
        i += 1;
    }
    assert(ids.take(i as int) =~= ids);
    None
}

proof fn lemma_find_id_prefix(ids: Seq<i32>, k: int, id: i32)
    requires
        0 <= k <= ids.len(),
        find_id(ids.take(k), id) is Some,
    ensures
        find_id(ids, id) == find_id(ids.take(k), id),
    decreases ids.len() - k,
{
    if k < ids.len() {
        assert(ids.take(k + 1).drop_last() =~= ids.take(k));
        lemma_find_id_prefix(ids, k + 1, id);
    } else {
        assert(ids.take(k) =~= ids);
    }
}

proof fn lemma_find_id_bound(ids: Seq<i32>, id: i32)
    ensures
        find_id(ids, id) matches Some(i) ==> 0 <= i < ids.len() && ids[i] == id,
    decreases ids.len(),
{
    if ids.len() > 0 {
        lemma_find_id_bound(ids.drop_last(), id);
    }
}

fn find_pair_index(ids_of: &Vec<i32>, id: i32) -> (r: Option<usize>)
    ensures
        r matches Some(i) ==> find_id(ids_of@, id) == Some(i as int),
        r is None ==> find_id(ids_of@, id) is None,
{
    let mut i: usize = 0;
    while i < ids_of.len()
        invariant
            i <= ids_of@.len(),
            find_id(ids_of@.take(i as int), id) is None,
        decreases ids_of.len() - i,
    {
        proof {
            assert(ids_of@.take(i + 1).drop_last() =~= ids_of@.take(i as int));
        }
        if ids_of[i] == id {
            proof {
                lemma_find_id_prefix(ids_of@, i + 1, id);
            }
            return Some(i);
        }
        i += 1;
    }
    assert(ids_of@.take(i as int) =~= ids_of@);
    None
}

fn grp_ids(g: &Vec<GrpNode>) -> (r: Vec<i32>)
    ensures
        r@ == pair_ids(g@.map_values(|g: GrpNode| (g.id, g.children@))),
{
    let mut r: Vec<i32> = Vec::new();
    let mut i: usize = 0;
    while i < g.len()
        invariant
            i <= g@.len(),
            r@ =~= pair_ids(g@.map_values(|g: GrpNode| (g.id, g.children@))).take(i as int),
        decreases g.len() - i,
    {
        r.push(g[i].id);
        i += 1;
    }
    r
}

fn shp_ids(g: &Vec<ShpNode>) -> (r: Vec<i32>)
    ensures
        r@ == pair_ids(g@.map_values(|s: ShpNode| (s.id, s.models@))),
{
    let mut r: Vec<i32> = Vec::new();
    let mut i: usize = 0;
    while i < g.len()
        invariant
            i <= g@.len(),
            r@ =~= pair_ids(g@.map_values(|s: ShpNode| (s.id, s.models@))).take(i as int),
        decreases g.len() - i,
    {
        r.push(g[i].id);
        i += 1;
    }
    r
}

fn initial_palette() -> (p: Vec<[u8; 4]>)
    ensures
        p@ == default_palette(),
{
    let mut p: Vec<[u8; 4]> = Vec::new();
    p.push([0, 0, 0, 0]);
    let mut i: usize = 1;
    while i < 256
        invariant
            1 <= i <= 256,
            p@ =~= default_palette().take(i as int),
        decreases 256 - i,
    {
        let v = i as u8;
        p.push([v, v, v, 255]);
        i += 1;
    }
    p
}

fn add_all(set: &mut HashSet<i32>, ids: &Vec<i32>)
    ensures
        final(set)@ == old(set)@.union(Set::new(|x: i32| ids@.contains(x))),
{
    let ghost s0 = set@;
    let mut i: usize = 0;
    while i < ids.len()
        invariant
            i <= ids@.len(),
            set@ =~= s0.union(Set::new(|x: i32| ids@.take(i as int).contains(x))),
        decreases ids.len() - i,
    {
        let ghost before = set@;
        set.insert(ids[i]);
        proof {
            assert forall|x: i32| ids@.take(i + 1).contains(x) <==> (ids@.take(i as int).contains(x) || x == ids@[i as int]) by {
                if ids@.take(i + 1).contains(x) {
                    let j = choose|j: int| 0 <= j < i + 1 && #[trigger] ids@.take(i + 1)[j] == x;
                    if j < i {
                        assert(ids@.take(i as int)[j] == x);
                    }
                }
                if ids@.take(i as int).contains(x) {
                    let j = choose|j: int| 0 <= j < i && #[trigger] ids@.take(i as int)[j] == x;
                    assert(ids@.take(i + 1)[j] == x);
                }
                if x == ids@[i as int] {
                    assert(ids@.take(i + 1)[i as int] == x);
                }
            }
            assert(set@ =~= s0.union(Set::new(|x: i32| ids@.take(i + 1).contains(x))));
        }
        i += 1;
    }
    assert(ids@.take(i as int) =~= ids@);
}

/// Applies one top-level chunk to the scene (see `chunk_step`).
fn apply_chunk(scene: &mut VoxScene, ch: &Chunk) -> (r: Result<(), VoxError>)
    requires
        old(scene)@.palette.len() == 256,
    ensures
        r is Ok ==> chunk_step(old(scene)@, chunk_view(*ch)) == Ok::<SceneModel, VoxError>(final(scene)@),
        r matches Err(e) ==> chunk_step(old(scene)@, chunk_view(*ch)) == Err::<SceneModel, VoxError>(e),
        final(scene)@.palette.len() == 256,
{
    let c = ch.content.as_slice();
    let ghost s0 = scene@;
    assert(chunk_view(*ch).content == c@);
    assert(chunk_view(*ch).id == ch.id@);
    if is_id(&ch.id, 80, 65, 67, 75) {
        let mut pos: usize = 0;
        match read_u32(c, &mut pos) {
            Ok(_) => Ok(()),
            Err(()) => Err(VoxError::BadPack),
        }
    } else if is_id(&ch.id, 83, 73, 90, 69) {
        let mut pos: usize = 0;
        let a = read_i32(c, &mut pos);
        if a.is_err() {
            return Err(VoxError::BadSize);
        }
        let b = read_i32(c, &mut pos);
        if b.is_err() {
            return Err(VoxError::BadSize);
        }
        let d = read_i32(c, &mut pos);
        if d.is_err() {
            return Err(VoxError::BadSize);
        }
        Ok(())
    } else if is_id(&ch.id, 88, 89, 90, 73) {
        match parse_xyzi(c) {
            None => Err(VoxError::BadXyzi),
            Some(vs) => {
                let ghost vv = vs@;
                scene.models.push(vs);
                assert(scene@ =~= SceneModel { models: s0.models.push(vv), ..s0 });
                Ok(())
            },
        }
    } else if is_id(&ch.id, 82, 71, 66, 65) {
        if parse_rgba(c, &mut scene.palette) {
            assert(scene@ =~= chunk_step(s0, chunk_view(*ch)).unwrap());
            Ok(())
        } else {
            Err(VoxError::BadRgba)
        }
    } else if is_id(&ch.id, 73, 77, 65, 80) {
        match parse_imap(c) {
            None => Err(VoxError::BadImap),
            Some(m) => {
                scene.imap = Some(m);
                assert(scene@ =~= chunk_step(s0, chunk_view(*ch)).unwrap());
                Ok(())
            },
        }
    } else if is_id(&ch.id, 110, 84, 82, 78) {
        let t = parse_trn(c)?;
        let ghost tv = trn_view(t);
        scene.referenced.insert(t.child);
        match find_trn_index(&scene.trns, t.id) {
            Some(i) => {
                proof {
                    lemma_find_id_bound(trn_ids(s0.trns), t.id);
                }
                scene.trns.set(i, t);
            },
            None => {
                scene.trns.push(t);
            },
        }
        assert(scene@.trns =~= upsert_trn(s0.trns, tv));
        assert(scene@ =~= chunk_step(s0, chunk_view(*ch)).unwrap());
        Ok(())
    } else if is_id(&ch.id, 110, 71, 82, 80) {
        let g = parse_grp(c)?;
        let ghost gv = (g.id, g.children@);
        add_all(&mut scene.referenced, &g.children);
        let ids = grp_ids(&scene.grps);
        match find_pair_index(&ids, g.id) {
            Some(i) => {
                proof {
                    lemma_find_id_bound(ids@, g.id);
                }
                scene.grps.set(i, g);
            },
            None => {
                scene.grps.push(g);
            },
        }
        assert(scene@.grps =~= upsert_pair(s0.grps, gv));
        assert(scene@ =~= chunk_step(s0, chunk_view(*ch)).unwrap());
        Ok(())
    } else if is_id(&ch.id, 110, 83, 72, 80) {
        let h = parse_shp(c)?;
        let ghost hv = (h.id, h.models@);
        let ids = shp_ids(&scene.shps);
        match find_pair_index(&ids, h.id) {
            Some(i) => {
                proof {
                    lemma_find_id_bound(ids@, h.id);
                }
                scene.shps.set(i, h);
            },
            None => {
                scene.shps.push(h);
            },
        }
        assert(scene@.shps =~= upsert_pair(s0.shps, hv));
        assert(scene@ =~= chunk_step(s0, chunk_view(*ch)).unwrap());
        Ok(())
    } else {
        Ok(())
    }
}

/// Reads the header and the chunk tree of a `.vox` file and gathers what the
/// top-level chunks declare (see `spec_parse_scene`).
pub fn parse_vox_scene(bytes: &[u8]) -> (r: Result<VoxScene, VoxError>)
    ensures
        r matches Ok(s) ==> spec_parse_scene(bytes@) == Ok::<SceneModel, VoxError>(s@),
        r matches Err(e) ==> spec_parse_scene(bytes@) == Err::<SceneModel, VoxError>(e),
{
    if bytes.len() < 4 {
        return Err(VoxError::BadHeader);
    }
    let magic: [u8; 4] = [bytes[0], bytes[1], bytes[2], bytes[3]];
    assert(magic@ =~= bytes@.subrange(0, 4));
    if !is_id(&magic, 86, 79, 88, 32) {
        return Err(VoxError::MissingMagic);
    }
    if bytes.len() < 8 {
        return Err(VoxError::BadVersion);
    }
    let (main, _) = match read_chunk(bytes, 8, bytes.len()) {
        Ok(r) => r,
        Err(()) => {
            return Err(VoxError::ChunkDecodeFailed);
        },
    };
    if !is_id(&main.id, 77, 65, 73, 78) {
        return Err(VoxError::MissingMain);
    }
    let ghost children = chunk_view(main).children;
    let mut scene = VoxScene {
        models: Vec::new(),
        palette: initial_palette(),
        imap: None,
        trns: Vec::new(),
        grps: Vec::new(),
        shps: Vec::new(),
        referenced: HashSet::new(),
    };
    assert(scene@ =~= empty_scene());
    assert(spec_parse_scene(bytes@) == scene_fold(children, children.len() as int));
    let mut k: usize = 0;
    while k < main.children.len()
        invariant
            spec_parse_scene(bytes@) == scene_fold(children, children.len() as int),
            k <= main.children@.len(),
            children == chunk_view(main).children,
            scene@.palette.len() == 256,
            scene_fold(children, k as int) == Ok::<SceneModel, VoxError>(scene@),
        decreases main.children.len() - k,
    {
        proof {
            lemma_chunks_view_index(main.children@, k as int);
        }
        match apply_chunk(&mut scene, &main.children[k]) {
            Ok(()) => {},
            Err(e) => {
                proof {
                    lemma_chunks_view_len(main.children@);
                    lemma_fold_err_persists(children, k + 1, children.len() as int, e);
                }
                return Err(e);
            },
        }
        k += 1;
    }
    proof {
        lemma_chunks_view_len(main.children@);
    }
    Ok(scene)
}

proof fn lemma_fold_err_persists(children: Seq<ChunkModel>, k: int, j: int, e: VoxError)
    requires
        0 <= k <= j,
        scene_fold(children, k) == Err::<SceneModel, VoxError>(e),
    ensures
        scene_fold(children, j) == Err::<SceneModel, VoxError>(e),
    decreases j - k,
{
    if j > k {
        lemma_fold_err_persists(children, k, j - 1, e);
    }
}

proof fn lemma_chunks_view_len(cs: Seq<Chunk>)
    ensures
        crate::vox_bytes::chunks_view(cs).len() == cs.len(),
    decreases cs.len(),
{
    if cs.len() > 0 {
        lemma_chunks_view_len(cs.drop_last());
    }
}

proof fn lemma_chunks_view_index(cs: Seq<Chunk>, i: int)
    requires
        0 <= i < cs.len(),
    ensures
        crate::vox_bytes::chunks_view(cs)[i] == chunk_view(cs[i]),
        crate::vox_bytes::chunks_view(cs).len() == cs.len(),
    decreases cs.len(),
{
    lemma_chunks_view_len(cs);
    if i < cs.len() - 1 {
        lemma_chunks_view_index(cs.drop_last(), i);
    }
}

} // verus!
