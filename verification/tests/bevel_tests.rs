use cunning3d::bevel_params::{
    is_vertex_only, miter_test, AngleKind, BevelAffect, BevelChoices, FaceStrength, MiterType, OffsetType, ProfileShape,
    VMeshMethod,
};
use cunning3d::bevel_graph::BevelWorkspace;
use cunning3d::bevel_poly::{apply_square_in_weld, try_square_in_weld, edge_strip_quads, emit_weld_edge_polys, orient_profile};
use cunning3d::vmesh_emit::{cutoff_faces, cutoff_to_vmesh};
use cunning3d::face_rebuild::{rebuild_existing_polygons, rebuild_polygon, BevVertMapping};
use cunning3d::geometry::{Geometry, Primitive};
use cunning3d::resample::undirected_edge_key;
use std::collections::{HashMap, HashSet};

#[test]
fn test_miter_test_basic() {
    // 3 beveled edges, one LARGER angle
    let angles = vec![AngleKind::Straight, AngleKind::Larger, AngleKind::Smaller];
    let (outer, idx, inner) = miter_test(3, &angles, MiterType::Patch, MiterType::Sharp);
    assert!(outer);
    assert_eq!(idx, Some(1));
    assert!(!inner);
}

#[test]
fn test_miter_sharp_no_action() {
    let angles = vec![AngleKind::Larger, AngleKind::Smaller];
    let (outer, idx, _) = miter_test(3, &angles, MiterType::Sharp, MiterType::Sharp);
    assert!(!outer);
    assert!(idx.is_none());
}

#[test]
fn miter_outer_needs_three_beveled_edges() {
    let angles = vec![AngleKind::Smaller, AngleKind::Larger, AngleKind::Larger];
    assert_eq!(miter_test(2, &angles, MiterType::Arc, MiterType::Arc), (false, None, true));
    assert_eq!(miter_test(4, &angles, MiterType::Arc, MiterType::Arc), (true, Some(1), true));
    assert_eq!(miter_test(4, &vec![], MiterType::Patch, MiterType::Arc), (false, None, false));
}

#[test]
fn bevel_choices_decode_codes() {
    let c = BevelChoices::from_node_params(1, 3, 0, 1, 2, 1, 1, 2);
    assert_eq!(c.affect, BevelAffect::Vertices);
    assert_eq!(c.offset_type, OffsetType::Percent);
    assert_eq!(c.seg, 1);
    assert_eq!(c.profile_shape, ProfileShape::Custom);
    assert_eq!(c.miter_outer, MiterType::Arc);
    assert_eq!(c.miter_inner, MiterType::Arc);
    assert_eq!(c.vmesh_method, VMeshMethod::Cutoff);
    assert_eq!(c.face_strength, FaceStrength::Affected);
    assert!(is_vertex_only(&c));
    let d = BevelChoices::from_node_params(0, 9, 5, 0, 7, 2, 0, -1);
    assert_eq!(d.affect, BevelAffect::Edges);
    assert_eq!(d.offset_type, OffsetType::Offset);
    assert_eq!(d.seg, 5);
    assert_eq!(d.profile_shape, ProfileShape::Superellipse);
    assert_eq!(d.miter_outer, MiterType::Sharp);
    assert_eq!(d.miter_inner, MiterType::Sharp);
    assert_eq!(d.vmesh_method, VMeshMethod::GridFill);
    assert_eq!(d.face_strength, FaceStrength::Off);
    assert!(!is_vertex_only(&d));
}

#[test]
fn test_rebuild_simple() {
    let mut mapping = BevVertMapping::default();
    // Vertex 0 has 3 boundary verts (seg=2)
    mapping.boundary_verts.insert(0, vec![(10, 0), (11, 1), (12, 2)]);
    mapping.seg_count.insert(0, 2);

    let orig = vec![0, 1, 2];
    let edge_map = HashMap::new();

    let result = rebuild_polygon(0, &orig, &mapping, &edge_map);
    assert!(result.is_some());
    let (verts, _) = result.unwrap();
    // Should have 3 boundary verts + 2 original = 5 total
    assert_eq!(verts.len(), 5);
}

fn corner_mapping() -> BevVertMapping {
    let mut mapping = BevVertMapping::default();
    mapping.boundary_verts.insert(0, vec![(12, 2), (10, 0), (11, 1), (13, 1)]);
    mapping.seg_count.insert(0, 2);
    mapping
}

#[test]
fn rebuild_polygon_follows_the_half_edge_order() {
    let mapping = corner_mapping();
    let orig = vec![0, 1, 2];
    let (verts, map) = rebuild_polygon(0, &orig, &mapping, &HashMap::new()).unwrap();
    assert_eq!(verts, vec![10, 11, 12, 1, 2]);
    assert_eq!(map.get(&11), Some(&0));
    assert_eq!(map.get(&1), Some(&1));
    assert_eq!(map.len(), 5);
    let mut edges = HashMap::new();
    edges.insert(undirected_edge_key(2, 0), (0, 5));
    edges.insert(undirected_edge_key(0, 1), (0, 3));
    let (verts, _) = rebuild_polygon(0, &orig, &mapping, &edges).unwrap();
    assert_eq!(verts, vec![12, 11, 10, 1, 2]);
}

#[test]
fn rebuild_polygon_needs_a_beveled_corner_and_three_vertices() {
    let mut mapping = BevVertMapping::default();
    mapping.boundary_verts.insert(0, vec![]);
    mapping.boundary_verts.insert(5, vec![(40, 7)]);
    assert!(rebuild_polygon(0, &vec![0, 1, 2], &mapping, &HashMap::new()).is_none());
    // Only position 7 exists at point 5, beyond its one segment.
    assert!(rebuild_polygon(0, &vec![5, 1, 2], &mapping, &HashMap::new()).is_none());
    mapping.seg_count.insert(5, 7);
    let (verts, _) = rebuild_polygon(0, &vec![5, 1, 2], &mapping, &HashMap::new()).unwrap();
    assert_eq!(verts, vec![40, 1, 2]);
}

#[test]
fn rebuild_existing_polygons_touches_only_beveled_faces() {
    let geo = Geometry {
        num_points: 4,
        vertices: vec![0, 1, 2, 3],
        primitives: vec![
            Primitive::Polygon { vertices: vec![0, 1, 2] },
            Primitive::Polygon { vertices: vec![1, 2, 3] },
            Primitive::Polyline { vertices: vec![0, 3], closed: false },
        ],
    };
    let mut beveled = HashSet::new();
    beveled.insert(0usize);
    let r = rebuild_existing_polygons(&geo, &beveled, &corner_mapping(), &HashMap::new());
    assert_eq!(r.new_polys, vec![vec![10, 11, 12, 1, 2]]);
    assert!(r.rebuilt_faces.contains(&0) && r.rebuilt_faces.len() == 1);
    assert_eq!(r.nv_bv_map.get(&12), Some(&0));
}

#[test]
fn weld_joins_two_profiles_through_the_weld_profile() {
    let mut out_p = vec![0u8; 5];
    let mut out_polys: Vec<Vec<usize>> = Vec::new();
    emit_weld_edge_polys(&vec![7u8, 8, 9], &vec![10, 11, 12], &vec![20, 21], &mut out_p, &mut out_polys);
    assert_eq!(out_p, vec![0, 0, 0, 0, 0, 7, 8, 9]);
    assert_eq!(
        out_polys,
        vec![vec![10, 11, 6, 5], vec![11, 12, 7, 6], vec![5, 6, 21, 7], vec![6, 7, 20, 21]]
    );
    let mut none: Vec<Vec<usize>> = Vec::new();
    emit_weld_edge_polys(&vec![1u8], &vec![], &vec![], &mut out_p, &mut none);
    assert_eq!(out_p.len(), 8);
    assert!(none.is_empty());
}

#[test]
fn cutoff_faces_close_each_profile() {
    assert_eq!(
        cutoff_faces(&vec![2, 2, 2], 1, true),
        vec![vec![0, 3, 4, 1], vec![1, 5, 6, 2], vec![2, 7, 8, 0], vec![0, 1, 2]]
    );
    assert_eq!(cutoff_faces(&vec![2, 1, 3], 4, false), vec![vec![0, 3, 4], vec![1, 5], vec![2, 6, 7, 8]]);
    assert!(cutoff_faces(&vec![2], 1, true).is_empty());
    assert!(cutoff_faces(&vec![2, 2, 2], 0, true).is_empty());
}

#[test]
fn cutoff_grid_holds_profile_starts() {
    let g = cutoff_to_vmesh(&vec![Some(5u32), None, Some(7)], 2, 0);
    assert_eq!(g.n, 3);
    assert_eq!(g.get(0, 0, 0), 5);
    assert_eq!(g.get(1, 0, 0), 0);
    assert_eq!(g.get(2, 0, 0), 7);
    assert_eq!(g.get(0, 1, 1), 0);
}

#[test]
fn edge_strips_follow_the_oriented_profiles() {
    assert_eq!(orient_profile(&vec![1, 2, 3], 4, 5, 4), vec![1, 2, 3]);
    assert_eq!(orient_profile(&vec![1, 2, 3], 4, 5, 5), vec![3, 2, 1]);
    assert_eq!(orient_profile(&vec![1, 2, 3], 4, 5, 6), vec![1, 2, 3]);
    let q = edge_strip_quads(&vec![1, 2, 3], &vec![11, 12, 13], &vec![true, false]);
    assert_eq!(q, vec![vec![1, 11, 12, 2], vec![2, 3, 13, 12]]);
    assert!(edge_strip_quads(&vec![1], &vec![2], &vec![]).is_empty());
}

#[test]
fn bevel_workspace_corner_points_read_back() {
    let mut w = BevelWorkspace::new();
    w.prepare(3, 4);
    assert_eq!(w.corner_pt, vec![u32::MAX; 4]);
    assert_eq!(w.any_bev_point, vec![false; 3]);
    assert_eq!(w.dense_to_he, vec![usize::MAX; 4]);
    assert_eq!(w.get_corner_pt(2), None);
    w.set_corner_pt(2, 17);
    w.set_corner_pt(9, 5);
    assert_eq!(w.get_corner_pt(2), Some(17));
    assert_eq!(w.get_corner_pt(9), None);
    w.bev_edge[1] = true;
    w.dense_to_pid[0] = 6;
    w.out_polys.push(vec![0, 1, 2]);
    w.reset();
    assert_eq!(w.get_corner_pt(2), None);
    assert_eq!(w.bev_edge, vec![false; 4]);
    assert_eq!(w.dense_to_pid[0], 6);
    assert!(w.out_polys.is_empty());
}

#[test]
fn test_square_in_weld_basic() {
    let mut out_p: Vec<[f32; 3]> = Vec::new();
    let profiles = vec![
        vec![[0.0f32; 3]; 5], // ns=4, so 5 points
        vec![[0.0f32; 3]; 5],
        vec![[0.0f32; 3]; 5],
    ];
    let result = try_square_in_weld(3, &profiles, 4, &mut out_p);
    assert!(result.is_some());
    let r = result.unwrap();
    assert_eq!(r.ids.len(), 3);
    // Check merging pattern: ids[1][1] should equal ids[0][3], ids[1][2] should equal ids[0][2].
    assert_eq!(r.ids[1][1], r.ids[0][3]);
    assert_eq!(r.ids[1][2], r.ids[0][2]);
    // ids[2][3] should equal ids[0][1].
    assert_eq!(r.ids[2][3], r.ids[0][1]);
}

#[test]
fn test_square_in_odd() {
    let mut out_p: Vec<[f32; 3]> = Vec::new();
    let profiles = vec![
        vec![[0.0f32; 3]; 6], // ns=5 (odd)
        vec![[0.0f32; 3]; 6],
        vec![[0.0f32; 3]; 6],
    ];
    let result = try_square_in_weld(3, &profiles, 5, &mut out_p);
    assert!(result.is_some());
    let r = result.unwrap();
    assert!(r.center_tri.is_some());
}

#[test]
fn square_in_weld_ids_and_points() {
    let m = usize::MAX;
    let profiles = vec![vec![10u32, 11, 12, 13, 14], vec![20, 21, 22, 23, 24], vec![30, 31, 32, 33, 34]];
    let mut out_p = vec![0u32; 2];
    let r = try_square_in_weld(3, &profiles, 4, &mut out_p).unwrap();
    assert_eq!(out_p, vec![0, 0, 11, 12, 13, 23]);
    assert_eq!(r.ids, vec![vec![m, 2, 3, 4, m], vec![m, 4, 3, 5, m], vec![m, 5, 3, 2, m]]);
    assert!(r.center_tri.is_none());
    let mut unchanged = vec![0u32; 2];
    assert!(try_square_in_weld(2, &profiles, 4, &mut unchanged).is_none());
    assert!(try_square_in_weld(3, &profiles, 1, &mut unchanged).is_none());
    assert_eq!(unchanged.len(), 2);
    let mut ids = vec![vec![7usize; 5], vec![8; 5], vec![9; 5]];
    let mut pts = Vec::new();
    assert!(apply_square_in_weld(&mut ids, &profiles, 4, &mut pts));
    assert_eq!(ids, vec![vec![7, 0, 1, 2, 7], vec![8, 2, 1, 3, 8], vec![9, 3, 1, 0, 9]]);
    assert!(!apply_square_in_weld(&mut vec![vec![0usize; 5]], &profiles, 4, &mut pts));
}
