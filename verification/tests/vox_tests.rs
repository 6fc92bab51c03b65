use cunning3d::registry::VoxImporter;
use cunning3d::vox::{parse_vox_scene, VoxError, Voxel};
use cunning3d::vox_bytes::{read_chunk, read_dict, read_i32, read_string, read_u32};
use cunning3d::vox_import::{hash64, parse_vox, vox_grid_cells, vox_node_id_bits, vox_would_abort, VoxData};
use cunning3d::vox_xform::{decode_rot, split_whitespace, parse_i32, parse_u8, Xform};
use std::hash::{Hash, Hasher};

fn le32(v: u32) -> Vec<u8> {
    v.to_le_bytes().to_vec()
}

fn chunk(id: &[u8; 4], content: &[u8], children: &[u8]) -> Vec<u8> {
    let mut out = id.to_vec();
    out.extend(le32(content.len() as u32));
    out.extend(le32(children.len() as u32));
    out.extend_from_slice(content);
    out.extend_from_slice(children);
    out
}

fn string(s: &str) -> Vec<u8> {
    let mut out = le32(s.len() as u32);
    out.extend_from_slice(s.as_bytes());
    out
}

fn dict(entries: &[(&str, &str)]) -> Vec<u8> {
    let mut out = le32(entries.len() as u32);
    for (k, v) in entries {
        out.extend(string(k));
        out.extend(string(v));
    }
    out
}

fn xyzi(voxels: &[[u8; 4]]) -> Vec<u8> {
    let mut c = le32(voxels.len() as u32);
    for v in voxels {
        c.extend_from_slice(v);
    }
    chunk(b"XYZI", &c, &[])
}

fn vox_file(children: &[Vec<u8>]) -> Vec<u8> {
    let mut kids = Vec::new();
    for c in children {
        kids.extend_from_slice(c);
    }
    let mut out = b"VOX ".to_vec();
    out.extend(le32(150));
    out.extend(chunk(b"MAIN", &[], &kids));
    out
}

fn parse(bytes: &[u8]) -> Result<VoxData, VoxError> {
    assert!(!vox_would_abort(bytes));
    parse_vox(bytes)
}

fn v(x: i32, y: i32, z: i32, index: u8) -> Voxel {
    Voxel { x, y, z, index }
}

#[test]
fn little_endian_readers() {
    let buf = [1u8, 0, 0, 0, 0xff, 0xff, 0xff, 0xff, 9];
    let mut pos = 0usize;
    assert_eq!(read_u32(&buf, &mut pos), Ok(1));
    assert_eq!(read_i32(&buf, &mut pos), Ok(-1));
    assert_eq!(pos, 8);
    assert_eq!(read_u32(&buf, &mut pos), Err(()));
    assert_eq!(pos, 8);
}

#[test]
fn strings_and_dicts() {
    let mut b = string("_t");
    b.extend(string("1 2 3"));
    let mut pos = 0usize;
    assert_eq!(read_string(&b, &mut pos), Ok(b"_t".to_vec()));
    assert_eq!(read_string(&b, &mut pos), Ok(b"1 2 3".to_vec()));
    let d = dict(&[("_r", "4"), ("_t", "0 0 1")]);
    let mut pos = 0usize;
    let entries = read_dict(&d, &mut pos).unwrap();
    assert_eq!(pos, d.len());
    assert_eq!(entries.len(), 2);
    assert_eq!(entries[1].key, b"_t".to_vec());
    assert_eq!(entries[1].value, b"0 0 1".to_vec());
    let truncated = &d[..d.len() - 1];
    let mut pos = 0usize;
    assert!(read_dict(truncated, &mut pos).is_err());
}

#[test]
fn chunk_tree() {
    let inner = chunk(b"SIZE", &[1, 2, 3], &[]);
    let outer = chunk(b"MAIN", &[], &inner);
    let (c, end) = read_chunk(&outer, 0, outer.len()).unwrap();
    assert_eq!(end, outer.len());
    assert_eq!(&c.id, b"MAIN");
    assert_eq!(c.children.len(), 1);
    assert_eq!(&c.children[0].id, b"SIZE");
    assert_eq!(c.children[0].content, vec![1, 2, 3]);
    assert!(read_chunk(&outer, 0, 5).is_err());
}

#[test]
fn single_model_swaps_y_and_z_and_raises_index_zero() {
    let bytes = vox_file(&[chunk(b"SIZE", &[2, 0, 0, 0, 2, 0, 0, 0, 2, 0, 0, 0], &[]), xyzi(&[[1, 2, 3, 5], [0, 0, 0, 0]])]);
    let d = parse(&bytes).unwrap();
    assert_eq!(d.voxels, vec![v(1, 3, 2, 5), v(0, 0, 0, 1)]);
    assert_eq!(d.palette.len(), 256);
    assert_eq!(d.palette[0], [0, 0, 0, 0]);
    assert_eq!(d.palette[5], [5, 5, 5, 255]);
    assert_eq!(d.imap, None);
}

#[test]
fn duplicate_voxels_are_dropped() {
    let bytes = vox_file(&[xyzi(&[[1, 1, 1, 3], [1, 1, 1, 3], [1, 1, 1, 4]]), xyzi(&[[1, 1, 1, 3]])]);
    let d = parse(&bytes).unwrap();
    assert_eq!(d.voxels, vec![v(1, 1, 1, 3), v(1, 1, 1, 4)]);
}

#[test]
fn no_models_gives_no_voxels() {
    let d = parse(&vox_file(&[])).unwrap();
    assert!(d.voxels.is_empty());
}

#[test]
fn header_errors() {
    assert_eq!(parse(b"VO").unwrap_err(), VoxError::BadHeader);
    assert_eq!(parse(b"VOXX\x96\0\0\0").unwrap_err(), VoxError::MissingMagic);
    assert_eq!(parse(b"VOX \x96\0").unwrap_err(), VoxError::BadVersion);
    assert_eq!(parse(b"VOX \x96\0\0\0MAI").unwrap_err(), VoxError::ChunkDecodeFailed);
    let mut not_main = b"VOX ".to_vec();
    not_main.extend(le32(150));
    not_main.extend(chunk(b"MAIX", &[], &[]));
    assert_eq!(parse(&not_main).unwrap_err(), VoxError::MissingMain);
    assert_eq!(VoxError::MissingMain.message(), "missing MAIN chunk");
}

#[test]
fn chunk_content_errors() {
    let short_xyzi = vox_file(&[chunk(b"XYZI", &[2, 0, 0, 0, 1, 1, 1, 1], &[])]);
    assert_eq!(parse(&short_xyzi).unwrap_err(), VoxError::BadXyzi);
    let short_size = vox_file(&[chunk(b"SIZE", &[1, 0, 0, 0], &[])]);
    assert_eq!(parse(&short_size).unwrap_err(), VoxError::BadSize);
    let short_rgba = vox_file(&[chunk(b"RGBA", &[0; 16], &[])]);
    assert_eq!(parse(&short_rgba).unwrap_err(), VoxError::BadRgba);
    let short_pack = vox_file(&[chunk(b"PACK", &[1], &[])]);
    assert_eq!(parse(&short_pack).unwrap_err(), VoxError::BadPack);
}

#[test]
fn palette_and_index_map() {
    let mut rgba = Vec::new();
    for i in 0..256u32 {
        rgba.extend_from_slice(&[i as u8, 1, 2, 3]);
    }
    let mut imap = Vec::new();
    for i in 0..256i32 {
        imap.extend((if i == 7 { 300 } else if i == 8 { -4 } else { i }).to_le_bytes());
    }
    let bytes = vox_file(&[xyzi(&[[0, 0, 0, 7]]), chunk(b"RGBA", &rgba, &[]), chunk(b"IMAP", &imap, &[])]);
    let d = parse(&bytes).unwrap();
    assert_eq!(d.palette[1], [0, 1, 2, 3]);
    assert_eq!(d.palette[255], [254, 1, 2, 3]);
    assert_eq!(d.palette[0], [0, 0, 0, 0]);
    let m = d.imap.clone().unwrap();
    assert_eq!(m[7], 255);
    assert_eq!(m[8], 0);
    assert_eq!(m[9], 9);
    let cells = vox_grid_cells(&d);
    assert_eq!(cells, vec![v(0, 0, 0, 255)]);
}

fn trn(id: i32, child: i32, frame: &[(&str, &str)]) -> Vec<u8> {
    let mut c = id.to_le_bytes().to_vec();
    c.extend(dict(&[]));
    c.extend(child.to_le_bytes());
    c.extend((-1i32).to_le_bytes());
    c.extend(0i32.to_le_bytes());
    c.extend(1i32.to_le_bytes());
    c.extend(dict(frame));
    chunk(b"nTRN", &c, &[])
}

fn grp(id: i32, children: &[i32]) -> Vec<u8> {
    let mut c = id.to_le_bytes().to_vec();
    c.extend(dict(&[]));
    c.extend((children.len() as i32).to_le_bytes());
    for ch in children {
        c.extend(ch.to_le_bytes());
    }
    chunk(b"nGRP", &c, &[])
}

fn shp(id: i32, models: &[i32]) -> Vec<u8> {
    let mut c = id.to_le_bytes().to_vec();
    c.extend(dict(&[]));
    c.extend((models.len() as i32).to_le_bytes());
    for m in models {
        c.extend(m.to_le_bytes());
        c.extend(dict(&[]));
    }
    chunk(b"nSHP", &c, &[])
}

#[test]
fn scene_graph_places_models() {
    let bytes = vox_file(&[
        xyzi(&[[1, 2, 3, 9]]),
        trn(0, 1, &[]),
        grp(1, &[2, 4]),
        trn(2, 3, &[("_t", "10 0 0")]),
        shp(3, &[0]),
        trn(4, 5, &[("_t", "0 0 5"), ("_r", "17")]),
        shp(5, &[0]),
    ]);
    let d = parse(&bytes).unwrap();
    // Translated by (10, 0, 0), then y and z swapped.
    assert_eq!(d.voxels[0], v(11, 3, 2, 9));
    // Rotation 17: row 0 = -x (column 1 sign bit 4), row 1 = y, row 2 = z;
    // r & 3 = 1, (r >> 2) & 3 = 0, so row 0 is -e1, row 1 is e0, row 2 is e2.
    assert_eq!(d.voxels[1], v(-2, 8, 1, 9));
    assert_eq!(d.voxels.len(), 2);
}

#[test]
fn scene_errors() {
    let bad_trn = vox_file(&[chunk(b"nTRN", &[0, 0, 0, 0], &[])]);
    assert_eq!(parse(&bad_trn).unwrap_err(), VoxError::BadTrnDict);
    let bad_grp = vox_file(&[chunk(b"nGRP", &[0, 0], &[])]);
    assert_eq!(parse(&bad_grp).unwrap_err(), VoxError::BadGrp);
}

#[test]
fn scene_parse_keeps_chunks_in_order() {
    let bytes = vox_file(&[xyzi(&[[0, 0, 0, 1]]), xyzi(&[[1, 1, 1, 1]]), shp(7, &[1])]);
    let s = parse_vox_scene(&bytes).unwrap();
    assert_eq!(s.models.len(), 2);
    assert_eq!(s.shps.len(), 1);
    assert_eq!(s.shps[0].id, 7);
}

#[test]
fn rotation_decoding() {
    assert_eq!(decode_rot(4), [[1, 0, 0], [0, 1, 0], [0, 0, 1]]);
    assert_eq!(decode_rot(17), [[0, -1, 0], [1, 0, 0], [0, 0, 1]]);
    assert_eq!(decode_rot(4 | 64), [[1, 0, 0], [0, 1, 0], [0, 0, -1]]);
    assert_eq!(decode_rot(0), [[1, 0, 0], [1, 0, 0], [0, 1, 0]]);
}

#[test]
fn transforms_compose() {
    let id = Xform::identity();
    assert_eq!(id.apply((3, -4, 5)), (3, -4, 5));
    let t = Xform { m: [[0, -1, 0], [1, 0, 0], [0, 0, 1]], t: [1, 2, 3] };
    assert_eq!(id.mul(&t), t);
    assert_eq!(t.mul(&id), t);
    assert_eq!(t.apply((1, 0, 0)), (1, 3, 3));
    let tt = t.mul(&t);
    assert_eq!(tt.apply((1, 0, 0)), t.apply(t.apply((1, 0, 0))));
    let big = Xform { m: [[1, 0, 0], [0, 1, 0], [0, 0, 1]], t: [i32::MAX, 0, 0] };
    assert_eq!(big.apply((1, 0, 0)).0, i32::MIN);
}

#[test]
fn whitespace_and_integers() {
    let toks = split_whitespace(&b" 10\t-3\n\xc2\xa07 ".to_vec());
    assert_eq!(toks, vec![b"10".to_vec(), b"-3".to_vec(), b"7".to_vec()]);
    assert_eq!(parse_i32(&b"-2147483648".to_vec()), Some(i32::MIN));
    assert_eq!(parse_i32(&b"2147483648".to_vec()), None);
    assert_eq!(parse_i32(&b"+12".to_vec()), Some(12));
    assert_eq!(parse_i32(&b"1x".to_vec()), None);
    assert_eq!(parse_u8(&b"255".to_vec()), Some(255));
    assert_eq!(parse_u8(&b"256".to_vec()), None);
    assert_eq!(parse_u8(&b"-1".to_vec()), None);
}

fn std_hash(s: &str) -> u64 {
    let mut h = std::collections::hash_map::DefaultHasher::new();
    s.hash(&mut h);
    h.finish()
}

#[test]
fn hashing_matches_the_standard_library() {
    assert_eq!(hash64("castle.vox"), std_hash("castle.vox"));
    assert_eq!(hash64(""), std_hash(""));
    assert_eq!(vox_node_id_bits(1, 2), (1u128 << 64) | 2);
}

#[test]
fn node_id_text_is_the_uuid_of_the_path_hashes() {
    let path = "assets/castle.vox";
    let bits = ((std_hash(path) as u128) << 64) | std_hash(&format!("vox:{}", path)) as u128;
    let expected = uuid::Uuid::from_u128(bits).to_string();
    assert_eq!(VoxImporter.node_id_text(path), expected);
    assert_eq!(VoxImporter.voxel_size_millis(), 100);
}

#[test]
fn xform_mul_applies_the_right_transform_first() {
    let a = Xform { m: [[0, -1, 0], [1, 0, 0], [0, 0, 1]], t: [1, 2, 3] };
    let b = Xform { m: [[2, 0, 0], [0, 0, 1], [0, 1, 0]], t: [-4, 5, 0] };
    let ab = a.mul(&b);
    for p in [(0, 0, 0), (1, 2, 3), (-7, 11, 5)] {
        assert_eq!(ab.apply(p), a.apply(b.apply(p)));
    }
    // wrapping arithmetic composes as well
    let w = Xform { m: [[3, 0, 0], [0, 1, 0], [0, 0, 1]], t: [i32::MAX, 0, 0] };
    let p = (i32::MAX, 1, 1);
    assert_eq!(a.mul(&w).apply(p), a.apply(w.apply(p)));
    assert_eq!(ab.apply((1, 1, 1)), (-5, 0, 4));
}
