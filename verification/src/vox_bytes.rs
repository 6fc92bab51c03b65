//! Byte-level reading of MagicaVoxel `.vox` files: little-endian integers,
//! length-prefixed strings and dictionaries, and the chunk tree.

use vstd::prelude::*;
use byteorder::ByteOrder;

verus! {

/// The unsigned value of four little-endian bytes.
pub open spec fn le_u32(b: Seq<u8>) -> u32 {
    (b[0] as int + 256 * b[1] as int + 65536 * b[2] as int + 16777216 * b[3] as int) as u32
}

/// The two's-complement value of four little-endian bytes.
pub open spec fn le_i32(b: Seq<u8>) -> i32 {
    let u = le_u32(b);
    if u < 0x8000_0000 {
        u as i32
    } else {
        (u - 0x1_0000_0000) as i32
    }
}

/// `byteorder::LittleEndian::read_u32` on the four bytes at `pos`: the bytes
/// read as an unsigned little-endian number.
#[verifier::external_body]
fn read_u32_le_at(buf: &[u8], pos: usize) -> (r: u32)
    requires
        pos + 4 <= buf@.len(),
    ensures
        r == le_u32(buf@.subrange(pos as int, pos + 4)),
{
    byteorder::LittleEndian::read_u32(&buf[pos..pos + 4])
}

/// `byteorder::LittleEndian::read_i32` on the four bytes at `pos`: the bytes
/// read as a signed (two's-complement) little-endian number.
#[verifier::external_body]
fn read_i32_le_at(buf: &[u8], pos: usize) -> (r: i32)
    requires
        pos + 4 <= buf@.len(),
    ensures
        r == le_i32(buf@.subrange(pos as int, pos + 4)),
{
    byteorder::LittleEndian::read_i32(&buf[pos..pos + 4])
}

/// A `u32` at `pos`, if four bytes remain.
pub open spec fn spec_u32_at(b: Seq<u8>, pos: int) -> Option<u32> {
    if 0 <= pos && pos + 4 <= b.len() {
        Some(le_u32(b.subrange(pos, pos + 4)))
    } else {
        None
    }
}

/// An `i32` at `pos`, if four bytes remain.
pub open spec fn spec_i32_at(b: Seq<u8>, pos: int) -> Option<i32> {
    if 0 <= pos && pos + 4 <= b.len() {
        Some(le_i32(b.subrange(pos, pos + 4)))
    } else {
        None
    }
}

/// Reads a little-endian `u32` at `*pos` and advances past it; fails when
/// fewer than four bytes remain.
pub fn read_u32(buf: &[u8], pos: &mut usize) -> (r: Result<u32, ()>)
    ensures
        r matches Ok(v) ==> spec_u32_at(buf@, *old(pos) as int) == Some(v) && *final(pos) == *old(pos) + 4,
        r is Err ==> spec_u32_at(buf@, *old(pos) as int) is None,
{
    if *pos <= buf.len() && buf.len() - *pos >= 4 {
        let v = read_u32_le_at(buf, *pos);
        *pos = *pos + 4;
        Ok(v)
    } else {
        Err(())
    }
}

/// Reads a little-endian `i32` at `*pos` and advances past it; fails when
/// fewer than four bytes remain.
pub fn read_i32(buf: &[u8], pos: &mut usize) -> (r: Result<i32, ()>)
    ensures
        r matches Ok(v) ==> spec_i32_at(buf@, *old(pos) as int) == Some(v) && *final(pos) == *old(pos) + 4,
        r is Err ==> spec_i32_at(buf@, *old(pos) as int) is None,
{
    if *pos <= buf.len() && buf.len() - *pos >= 4 {
        let v = read_i32_le_at(buf, *pos);
        *pos = *pos + 4;
        Ok(v)
    } else {
        Err(())
    }
}

/// Reads one byte at `*pos` and advances past it.
pub fn read_u8(buf: &[u8], pos: &mut usize) -> (r: Result<u8, ()>)
    ensures
        r matches Ok(v) ==> *old(pos) < buf@.len() && v == buf@[*old(pos) as int] && *final(pos) == *old(pos) + 1,
        r is Err ==> *old(pos) >= buf@.len(),
{
    if *pos < buf.len() {
        let v = buf[*pos];
        *pos = *pos + 1;
        Ok(v)
    } else {
        Err(())
    }
}

/// Copies the `n` bytes at `pos`.
pub fn copy_bytes(buf: &[u8], pos: usize, n: usize) -> (r: Vec<u8>)
    requires
        pos + n <= buf@.len(),
    ensures
        r@ == buf@.subrange(pos as int, pos + n),
{
    let mut r: Vec<u8> = Vec::new();
    let len = buf.len();
    let mut i: usize = 0;
    while i < n
        invariant
            i <= n,
            len == buf@.len(),
            pos + n <= buf@.len(),
            r@ == buf@.subrange(pos as int, pos + i),
        decreases n - i,
    {
        r.push(buf[pos + i]);
        proof {
            assert(buf@.subrange(pos as int, pos + i + 1) =~= buf@.subrange(pos as int, pos + i).push(buf@[pos + i]));
        }
        i += 1;
    }
    r
}

/// A length-prefixed string: an `i32` length (negative counts as zero)
/// followed by that many bytes. Returns the bytes and the position after them.
pub open spec fn spec_string_at(b: Seq<u8>, pos: int) -> Option<(Seq<u8>, int)> {
    match spec_i32_at(b, pos) {
        None => None,
        Some(n) => {
            let len = if n < 0 {
                0
            } else {
                n as int
            };
            if pos + 4 + len <= b.len() {
                Some((b.subrange(pos + 4, pos + 4 + len), pos + 4 + len))
            } else {
                None
            }
        },
    }
}

/// Reads a length-prefixed string (as raw bytes).
pub fn read_string(buf: &[u8], pos: &mut usize) -> (r: Result<Vec<u8>, ()>)
    ensures
        r matches Ok(s) ==> spec_string_at(buf@, *old(pos) as int) == Some((s@, *final(pos) as int)),
        r is Err ==> spec_string_at(buf@, *old(pos) as int) is None,
{
    let n = read_i32(buf, pos)?;
    let len: usize = if n < 0 {
        0
    } else {
        n as usize
    };
    if len > buf.len() - *pos {
        return Err(());
    }
    let s = copy_bytes(buf, *pos, len);
    *pos = *pos + len;
    Ok(s)
}

/// One key/value entry of a dictionary, as raw bytes.
#[derive(Clone, Debug, PartialEq, Eq)]
pub struct DictEntry {
    pub key: Vec<u8>,
    pub value: Vec<u8>,
}

/// The entries of a dictionary from entry `k` on: `count - k` string pairs.
pub open spec fn spec_dict_entries(b: Seq<u8>, pos: int, k: int, count: int) -> Option<(Seq<(Seq<u8>, Seq<u8>)>, int)>
    decreases count - k,
{
    if k >= count {
        Some((Seq::empty(), pos))
    } else {
        match spec_string_at(b, pos) {
            None => None,
            Some((key, p1)) => match spec_string_at(b, p1) {
                None => None,
                Some((val, p2)) => match spec_dict_entries(b, p2, k + 1, count) {
                    None => None,
                    Some((rest, p3)) => Some((seq![(key, val)] + rest, p3)),
                },
            },
        }
    }
}

/// A dictionary: an `i32` count (negative counts as zero) followed by that
/// many key/value string pairs, in file order.
pub open spec fn spec_dict_at(b: Seq<u8>, pos: int) -> Option<(Seq<(Seq<u8>, Seq<u8>)>, int)> {
    match spec_i32_at(b, pos) {
        None => None,
        Some(n) => spec_dict_entries(
            b,
            pos + 4,
            0,
            if n < 0 {
                0
            } else {
                n as int
            },
        ),
    }
}

pub open spec fn dict_view(d: Seq<DictEntry>) -> Seq<(Seq<u8>, Seq<u8>)> {
    d.map_values(|e: DictEntry| (e.key@, e.value@))
}

proof fn lemma_dict_entries_step(b: Seq<u8>, pos: int, k: int, count: int, key: Seq<u8>, p1: int, val: Seq<u8>, p2: int)
    requires
        k < count,
        spec_string_at(b, pos) == Some((key, p1)),
        spec_string_at(b, p1) == Some((val, p2)),
    ensures
        spec_dict_entries(b, pos, k, count) == (match spec_dict_entries(b, p2, k + 1, count) {
            None => None,
            Some((rest, p3)) => Some((seq![(key, val)] + rest, p3)),
        }),
{
}

/// Reads a dictionary; its entries are kept in file order.
pub fn read_dict(buf: &[u8], pos: &mut usize) -> (r: Result<Vec<DictEntry>, ()>)
    ensures
        r matches Ok(d) ==> spec_dict_at(buf@, *old(pos) as int) == Some((dict_view(d@), *final(pos) as int)),
        r is Err ==> spec_dict_at(buf@, *old(pos) as int) is None,
{
    let ghost p0 = *pos as int;
    let n = read_i32(buf, pos)?;
    let count: usize = if n < 0 {
        0
    } else {
        n as usize
    };
    let ghost pstart = *pos as int;
    let mut out: Vec<DictEntry> = Vec::new();
    let mut k: usize = 0;
    while k < count
        invariant
            k <= count,
            p0 == *old(pos) as int,
            spec_i32_at(buf@, p0) == Some(n),
            pstart == p0 + 4,
            count as int == (if n < 0 {
                0
            } else {
                n as int
            }),
            spec_dict_entries(buf@, pstart, 0, count as int) matches Some((all, pe)) ==> (spec_dict_entries(
                buf@,
                *pos as int,
                k as int,
                count as int,
            ) matches Some((rest, pe2)) && pe2 == pe && all == dict_view(out@) + rest),
            spec_dict_entries(buf@, pstart, 0, count as int) is None ==> spec_dict_entries(
                buf@,
                *pos as int,
                k as int,
                count as int,
            ) is None,
        decreases count - k,
    {
        let ghost pk = *pos as int;
        let key = match read_string(buf, pos) {
            Ok(s) => s,
            Err(()) => {
                assert(spec_dict_entries(buf@, pk, k as int, count as int) is None);
                assert(spec_dict_entries(buf@, pstart, 0, count as int) is None);
                assert(spec_dict_at(buf@, p0) == spec_dict_entries(buf@, pstart, 0, count as int));
                return Err(());
            },
        };
        let ghost p1 = *pos as int;
        let val = match read_string(buf, pos) {
            Ok(s) => s,
            Err(()) => {
                assert(spec_dict_entries(buf@, pk, k as int, count as int) is None);
                assert(spec_dict_entries(buf@, pstart, 0, count as int) is None);
                assert(spec_dict_at(buf@, p0) == spec_dict_entries(buf@, pstart, 0, count as int));
                return Err(());
            },
        };
        proof {
            lemma_dict_entries_step(buf@, pk, k as int, count as int, key@, p1, val@, *pos as int);
        }
        let ghost before = dict_view(out@);
        out.push(DictEntry { key, value: val });
        proof {
            assert(dict_view(out@) =~= before.push((key@, val@)));
            if let Some((all, pe)) = spec_dict_entries(buf@, pstart, 0, count as int) {
                let (rest, pe2) = spec_dict_entries(buf@, pk, k as int, count as int).unwrap();
                let (rest2, pe3) = spec_dict_entries(buf@, *pos as int, k + 1, count as int).unwrap();
                assert(rest == seq![(key@, val@)] + rest2);
                assert(all == dict_view(out@) + rest2);
            }
        }
        k += 1;
    }
    proof {
        if let Some((all, pe)) = spec_dict_entries(buf@, pstart, 0, count as int) {
            assert(all =~= dict_view(out@));
        }
    }
    Ok(out)
}

/// A chunk: four id bytes, its content, and its child chunks.
pub struct Chunk {
    pub id: [u8; 4],
    pub content: Vec<u8>,
    pub children: Vec<Chunk>,
}

/// Abstract value of a chunk.
pub struct ChunkModel {
    pub id: Seq<u8>,
    pub content: Seq<u8>,
    pub children: Seq<ChunkModel>,
}

pub open spec fn chunk_view(c: Chunk) -> ChunkModel
    decreases c,
{
    ChunkModel { id: c.id@, content: c.content@, children: chunks_view(c.children@) }
}

pub open spec fn chunks_view(cs: Seq<Chunk>) -> Seq<ChunkModel>
    decreases cs,
{
    if cs.len() == 0 {
        Seq::empty()
    } else {
        chunks_view(cs.drop_last()).push(chunk_view(cs.last()))
    }
}

/// The chunk at `pos`, which must end by `end`: id, content size `n`,
/// children size `m`, `n` content bytes, then child chunks up to
/// `min(pos + 12 + n + m, end)`. Returns the chunk and that end position.
pub open spec fn spec_read_chunk(b: Seq<u8>, pos: int, end: int) -> Option<(ChunkModel, int)>
    decreases end - pos, 0int,
{
    if pos < 0 || end > b.len() || pos + 12 > end {
        None
    } else {
        let n = le_u32(b.subrange(pos + 4, pos + 8)) as int;
        let m = le_u32(b.subrange(pos + 8, pos + 12)) as int;
        let p2 = pos + 12 + n;
        if p2 > end {
            None
        } else {
            let cend = if p2 + m < end {
                p2 + m
            } else {
                end
            };
            match spec_read_children(b, p2, cend) {
                None => None,
                Some(children) => Some(
                    (
                        ChunkModel { id: b.subrange(pos, pos + 4), content: b.subrange(pos + 12, p2), children },
                        cend,
                    ),
                ),
            }
        }
    }
}

/// Chunks read one after another from `pos` until `cend`.
pub open spec fn spec_read_children(b: Seq<u8>, pos: int, cend: int) -> Option<Seq<ChunkModel>>
    decreases cend - pos, 1int,
{
    if pos >= cend {
        Some(Seq::empty())
    } else {
        match spec_read_chunk(b, pos, cend) {
            None => None,
            Some((c, p)) => {
                if pos < p && p <= cend {
                    match spec_read_children(b, p, cend) {
                        None => None,
                        Some(rest) => Some(seq![c] + rest),
                    }
                } else {
                    None
                }
            },
        }
    }
}

proof fn lemma_read_chunk_advances(b: Seq<u8>, pos: int, end: int)
    ensures
        spec_read_chunk(b, pos, end) matches Some((c, p)) ==> pos + 12 <= p <= end,
{
}

proof fn lemma_chunks_view_push(cs: Seq<Chunk>, c: Chunk)
    ensures
        chunks_view(cs.push(c)) == chunks_view(cs).push(chunk_view(c)),
{
    assert(cs.push(c).drop_last() =~= cs);
}

/// Reads the chunk at `pos` that must end by `end`; returns it with the
/// position after it.
pub fn read_chunk(buf: &[u8], pos: usize, end: usize) -> (r: Result<(Chunk, usize), ()>)
    requires
        end <= buf@.len(),
    ensures
        r matches Ok((c, p)) ==> spec_read_chunk(buf@, pos as int, end as int) == Some((chunk_view(c), p as int)),
        r is Err ==> spec_read_chunk(buf@, pos as int, end as int) is None,
    decreases end - pos,
{
    if pos > end || end - pos < 12 {
        return Err(());
    }
    let id: [u8; 4] = [buf[pos], buf[pos + 1], buf[pos + 2], buf[pos + 3]];
    proof {
        assert(id@ =~= buf@.subrange(pos as int, pos + 4));
    }
    let n32 = read_u32_le_at(buf, pos + 4);
    let m32 = read_u32_le_at(buf, pos + 8);
    proof {
        assert(buf@.subrange(pos + 4, pos + 4 + 4) =~= buf@.subrange(pos + 4, pos + 8));
        assert(buf@.subrange(pos + 8, pos + 8 + 4) =~= buf@.subrange(pos + 8, pos + 12));
    }
    let n = n32 as usize;
    let m = m32 as usize;
    let p1 = pos + 12;
    if n > end - p1 {
        return Err(());
    }
    let content = copy_bytes(buf, p1, n);
    let p2 = p1 + n;
    let cend = if m < end - p2 {
        p2 + m
    } else {
        end
    };
    let mut children: Vec<Chunk> = Vec::new();
    let mut cur = p2;
    assert(spec_read_children(buf@, p2 as int, cend as int) is None ==> spec_read_chunk(buf@, pos as int, end as int) is None);
    while cur < cend
        invariant
            spec_read_children(buf@, p2 as int, cend as int) is None ==> spec_read_chunk(buf@, pos as int, end as int) is None,
            p2 <= cur <= cend,
            cend <= end,
            end <= buf@.len(),
            pos + 12 <= p2,
            spec_read_children(buf@, p2 as int, cend as int) matches Some(all) ==> (spec_read_children(
                buf@,
                cur as int,
                cend as int,
            ) matches Some(rest) && all == chunks_view(children@) + rest),
            spec_read_children(buf@, p2 as int, cend as int) is None ==> spec_read_children(
                buf@,
                cur as int,
                cend as int,
            ) is None,
        decreases cend - cur,
    {
        let (child, next) = match read_chunk(buf, cur, cend) {
            Ok(r) => r,
            Err(()) => {
                assert(spec_read_children(buf@, cur as int, cend as int) is None);
                assert(spec_read_children(buf@, p2 as int, cend as int) is None);
                return Err(());
            },
        };
        proof {
            lemma_read_chunk_advances(buf@, cur as int, cend as int);
            lemma_chunks_view_push(children@, child);
            if let Some(all) = spec_read_children(buf@, p2 as int, cend as int) {
                let rest = spec_read_children(buf@, cur as int, cend as int).unwrap();
                let rest2 = spec_read_children(buf@, next as int, cend as int).unwrap();
                assert(rest == seq![chunk_view(child)] + rest2);
                assert(all =~= chunks_view(children@.push(child)) + rest2);
            }
        }
        children.push(child);
        cur = next;
    }
    proof {
        if let Some(all) = spec_read_children(buf@, p2 as int, cend as int) {
            assert(all =~= chunks_view(children@));
        }
    }
    let c = Chunk { id, content, children };
    proof {
        assert(chunk_view(c).children == chunks_view(children@));
    }
    Ok((c, cend))
}

} // verus!
