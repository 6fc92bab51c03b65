use cunning3d::adjust_chains::{find_adjust_chains, ChainEdge};
use cunning3d::bevel_poly::{build_poly, build_trifan, is_weld_case};
use cunning3d::convert_line::ConvertLineNode;
use cunning3d::geometry::{Geometry, Primitive};
use cunning3d::params::{Parameter, ParameterValue};
use cunning3d::remesh::{build_triangles, tri_fan, triangles_to_geo, RemeshNode};
use cunning3d::reverse::{flip_input_winding, ReverseNode};
use cunning3d::subdivide::{split_pass, vertex_neighbours};
use cunning3d::vmesh::VMeshGrid;
use cunning3d::vmesh_emit::{emit_vmesh_faces, emit_vmesh_result, parallel_vmesh_emit, VMeshResult};

fn poly(v: &[usize]) -> Primitive {
    Primitive::Polygon { vertices: v.to_vec() }
}

fn line(v: &[usize], closed: bool) -> Primitive {
    Primitive::Polyline { vertices: v.to_vec(), closed }
}

#[test]
fn test_build_trifan() {
    let poly = vec![0, 1, 2, 3, 4];
    let mut prims = Vec::new();
    build_trifan(&poly, &mut prims);
    assert_eq!(prims.len(), 3); // n-2 triangles for n vertices
}

#[test]
fn build_trifan_triangles() {
    let mut prims = vec![vec![9]];
    build_trifan(&[5, 6, 7, 8], &mut prims);
    assert_eq!(prims, vec![vec![9], vec![5, 6, 7], vec![5, 7, 8]]);
    let mut none: Vec<Vec<usize>> = Vec::new();
    build_trifan(&[1, 2], &mut none);
    assert!(none.is_empty());
}

#[test]
fn build_poly_takes_arc_prefixes() {
    let arcs = vec![vec![1, 2, 3], vec![], vec![7, 8]];
    assert_eq!(build_poly(3, 2, &arcs), vec![1, 2, 7, 8]);
    assert_eq!(build_poly(4, 1, &arcs), vec![1, 7]);
    assert_eq!(build_poly(1, 5, &arcs), vec![1, 2, 3]);
    assert_eq!(build_poly(0, 3, &arcs), Vec::<usize>::new());
}

#[test]
fn tri_fan_from_first_point() {
    let mut out = Vec::new();
    tri_fan(&mut out, &[4, 5, 6, 7, 8]);
    assert_eq!(out, vec![[4, 5, 6], [4, 6, 7], [4, 7, 8]]);
    tri_fan(&mut out, &[1, 2]);
    assert_eq!(out.len(), 3);
}

#[test]
fn build_triangles_skips_broken_polygons_and_lines() {
    let g = Geometry {
        num_points: 4,
        vertices: vec![0, 1, 2, 3, 9],
        primitives: vec![
            poly(&[0, 1, 2, 3]),
            line(&[0, 1], false),
            poly(&[0, 1, 4]),
            poly(&[0, 1, 7]),
            poly(&[2, 1, 0]),
        ],
    };
    assert_eq!(build_triangles(&g), vec![[0, 1, 2], [0, 2, 3], [2, 1, 0]]);
}

#[test]
fn triangles_to_geo_makes_one_polygon_per_triangle() {
    let g = triangles_to_geo(3, &vec![[0, 1, 2], [2, 1, 0]]);
    assert_eq!(g.num_points, 3);
    assert_eq!(g.vertices, vec![0, 1, 2, 2, 1, 0]);
    assert_eq!(g.primitives, vec![poly(&[0, 1, 2]), poly(&[3, 4, 5])]);
    let e = triangles_to_geo(0, &vec![]);
    assert_eq!(e.num_points, 0);
    assert!(e.primitives.is_empty());
    let no_tris = triangles_to_geo(5, &vec![]);
    assert_eq!(no_tris.num_points, 0);
}

#[test]
fn remesh_iterations_last_integer_wins() {
    assert_eq!(RemeshNode::iterations(&[]), 5);
    let ps = vec![
        Parameter::new("iterations", ParameterValue::Int(3)),
        Parameter::new("iterations", ParameterValue::Int(8)),
        Parameter::new("iterations", ParameterValue::Bool(true)),
    ];
    assert_eq!(RemeshNode::iterations(&ps), 8);
    assert_eq!(RemeshNode::iterations(&[Parameter::new("iterations", ParameterValue::Int(-1))]), u32::MAX);
}

fn mixed() -> Geometry {
    Geometry {
        num_points: 4,
        vertices: vec![0, 1, 2, 3],
        primitives: vec![
            poly(&[0, 1, 2]),
            line(&[1, 2, 3], true),
            Primitive::BezierCurve { vertices: vec![0, 1, 2, 3], closed: false },
        ],
    }
}

#[test]
fn reverse_node_reverses_polygons_and_polylines() {
    let out = ReverseNode.compute(&[], Some(mixed()));
    assert_eq!(
        out.primitives,
        vec![
            poly(&[2, 1, 0]),
            line(&[3, 2, 1], true),
            Primitive::BezierCurve { vertices: vec![0, 1, 2, 3], closed: false },
        ]
    );
    assert_eq!(out.vertices, vec![0, 1, 2, 3]);
    let off = ReverseNode.compute(&[Parameter::new("reverse_vertices", ParameterValue::Bool(false))], Some(mixed()));
    assert_eq!(off, mixed());
    let none = ReverseNode.compute(&[], None);
    assert_eq!(none.num_points, 0);
}

#[test]
fn reverse_twice_is_identity() {
    let once = ReverseNode.compute(&[], Some(mixed()));
    let twice = ReverseNode.compute(&[], Some(once));
    assert_eq!(twice, mixed());
}

#[test]
fn flip_input_winding_only_polygons() {
    let out = flip_input_winding(&mixed());
    assert_eq!(out.primitives[0], poly(&[2, 1, 0]));
    assert_eq!(out.primitives[1], line(&[1, 2, 3], true));
    assert_eq!(out.num_points, 4);
}

#[test]
fn convert_line_splits_polylines_and_shares_polygon_edges() {
    let g = Geometry {
        num_points: 4,
        vertices: vec![0, 1, 2, 3, 0, 2],
        primitives: vec![poly(&[0, 1, 2]), poly(&[4, 2, 3]), line(&[0, 1], false)],
    };
    let out = ConvertLineNode.compute(&g);
    assert_eq!(out.num_points, 4);
    // Segments as point pairs, in order of emission.
    let mut segs = Vec::new();
    for p in &out.primitives {
        match p {
            Primitive::Polyline { vertices, closed } => {
                assert!(!closed);
                assert_eq!(vertices.len(), 2);
                segs.push((out.vertices[vertices[0]], out.vertices[vertices[1]]));
            }
            _ => panic!("only polylines expected"),
        }
    }
    assert_eq!(segs, vec![(0, 1), (1, 2), (2, 0), (2, 3), (3, 0), (0, 1)]);
}

use cunning3d::orient::{flip_triangles, orient_tris_consistent};

#[test]
fn orientation_flips_a_triangle_running_the_same_way() {
    let mut tris = vec![[0, 1, 2], [0, 1, 3]];
    let (comp, ncomp) = orient_tris_consistent(&mut tris, &vec![0, 1, 2, 3]);
    assert_eq!(tris, vec![[0, 1, 2], [0, 3, 1]]);
    assert_eq!(comp, vec![0, 0]);
    assert_eq!(ncomp, 1);
}

#[test]
fn orientation_keeps_consistent_triangles() {
    let mut tris = vec![[0, 1, 2], [1, 0, 3], [7, 8, 9]];
    let (comp, ncomp) = orient_tris_consistent(&mut tris, &(0..10).collect());
    assert_eq!(tris, vec![[0, 1, 2], [1, 0, 3], [7, 8, 9]]);
    assert_eq!(comp, vec![0, 0, 1]);
    assert_eq!(ncomp, 2);
}

#[test]
fn orientation_uses_welded_points() {
    // Point 4 is welded onto point 0, so both triangles share the edge 0-1.
    let mut tris = vec![[0, 1, 2], [4, 1, 3]];
    let (comp, _) = orient_tris_consistent(&mut tris, &vec![0, 1, 2, 3, 0]);
    assert_eq!(tris, vec![[0, 1, 2], [4, 3, 1]]);
    assert_eq!(comp, vec![0, 0]);
}

#[test]
fn orientation_across_a_strip() {
    // A strip of three triangles; the last two agree with each other but not
    // with the first, so both are flipped to follow it.
    let mut tris = vec![[0, 1, 2], [1, 2, 3], [3, 2, 4]];
    let (comp, ncomp) = orient_tris_consistent(&mut tris, &(0..5).collect());
    assert_eq!(ncomp, 1);
    assert_eq!(comp, vec![0, 0, 0]);
    assert_eq!(tris, vec![[0, 1, 2], [1, 3, 2], [3, 4, 2]]);
}

#[test]
fn flipping_marked_triangles() {
    let mut tris = vec![[0, 1, 2], [3, 4, 5]];
    flip_triangles(&mut tris, &vec![false, true]);
    assert_eq!(tris, vec![[0, 1, 2], [3, 5, 4]]);
    flip_triangles(&mut tris, &vec![true]);
    assert_eq!(tris, vec![[0, 2, 1], [3, 5, 4]]);
}

#[test]
fn split_pass_shares_midpoints_of_common_edges() {
    let tris = vec![[0usize, 1, 2], [2, 1, 3]];
    let split = vec![true, true];
    let mut rep = vec![0usize, 1, 2, 3];
    let (out, mids, any) = split_pass(&tris, &split, &mut rep);
    assert!(any);
    assert_eq!(
        out,
        vec![
            [0, 4, 6], [4, 1, 5], [6, 5, 2], [4, 5, 6],
            [2, 5, 8], [5, 1, 7], [8, 7, 3], [5, 7, 8],
        ]
    );
    assert_eq!(mids, vec![(0, 1), (1, 2), (0, 2), (1, 3), (2, 3)]);
    assert_eq!(rep, vec![0, 1, 2, 3, 4, 5, 6, 7, 8]);
}

#[test]
fn split_pass_keeps_unmarked_triangles() {
    let tris = vec![[0usize, 1, 2], [2, 1, 3]];
    let split = vec![false, true];
    let mut rep = vec![0usize, 1, 2, 3];
    let (out, mids, any) = split_pass(&tris, &split, &mut rep);
    assert!(any);
    assert_eq!(out, vec![[0, 1, 2], [2, 4, 6], [4, 1, 5], [6, 5, 3], [4, 5, 6]]);
    assert_eq!(mids, vec![(1, 2), (1, 3), (2, 3)]);
    assert_eq!(rep.len(), 7);

    let mut rep2 = vec![0usize, 1, 2, 3];
    let (out2, mids2, any2) = split_pass(&tris, &vec![false, false], &mut rep2);
    assert!(!any2);
    assert_eq!(out2, tris);
    assert!(mids2.is_empty());
    assert_eq!(rep2, vec![0, 1, 2, 3]);
}

#[test]
fn split_pass_welds_seam_duplicates() {
    // Point 3 is a seam copy of point 1: the edge (0, 3) is the edge (0, 1).
    let tris = vec![[0usize, 1, 2], [3, 0, 4]];
    let split = vec![true, true];
    let mut rep = vec![0usize, 1, 2, 1, 4];
    let (out, mids, _) = split_pass(&tris, &split, &mut rep);
    assert_eq!(mids, vec![(0, 1), (1, 2), (0, 2), (0, 4), (1, 4)]);
    assert_eq!(out[4], [3, 5, 9]);
    assert_eq!(out[0], [0, 5, 7]);
}

#[test]
fn vertex_neighbours_sorted_and_unique() {
    let tris = vec![[0usize, 1, 2], [2, 1, 3]];
    let n = vertex_neighbours(5, &tris);
    assert_eq!(n, vec![vec![1, 2], vec![0, 2, 3], vec![0, 1, 3], vec![1, 2], vec![]]);
    let d = vertex_neighbours(2, &vec![[1usize, 1, 0]]);
    assert_eq!(d, vec![vec![1], vec![0, 1]]);
}

fn numbered_grid(n: usize, ns: usize) -> VMeshGrid<usize> {
    let mut g = VMeshGrid::new(n, ns, 0usize);
    for i in 0..n {
        for j in 0..=ns / 2 {
            for k in 0..=ns {
                g.set(i, j, k, 100 * i + 10 * j + k);
            }
        }
    }
    g
}

#[test]
fn vmesh_grid_canonical_cells() {
    let g = numbered_grid(3, 2);
    assert_eq!(g.data.len(), 3 * 2 * 3);
    assert_eq!(g.canon(1, 1, 1), (0, 1, 1));
    assert_eq!(g.canon(0, 1, 0), (2, 0, 1));
    assert_eq!(g.canon(0, 0, 2), (1, 0, 0));
    assert_eq!(g.canon(2, 0, 1), (2, 0, 1));
    assert!(g.is_canon(0, 1, 1));
    assert!(!g.is_canon(1, 1, 1));
    assert!(g.is_canon(2, 0, 1));
    assert!(!g.is_canon(0, 0, 2));
    let odd = numbered_grid(4, 3);
    assert_eq!(odd.ns2, 1);
    assert_eq!(odd.canon(0, 0, 3), (1, 0, 0));
    assert_eq!(odd.canon(3, 1, 2), (0, 1, 1));
    assert!(odd.is_canon(2, 1, 1));
}

#[test]
fn vmesh_copy_equiv_fills_shared_cells() {
    let mut g = numbered_grid(3, 2);
    g.copy_equiv();
    // Canonical cells keep their values.
    assert_eq!(g.get(2, 0, 1), 201);
    assert_eq!(g.get(0, 1, 1), 11);
    // The others take the value of their canonical cell.
    assert_eq!(g.get(0, 0, 2), 100);
    assert_eq!(g.get(0, 1, 0), 201);
    assert_eq!(g.get(1, 1, 1), 11);
    assert_eq!(g.get(2, 1, 1), 11);
}

#[test]
fn test_is_weld_case() {
    assert!(is_weld_case(2, 2));
    assert!(!is_weld_case(2, 3));
    assert!(!is_weld_case(3, 2));
}

fn edge(pair_index: usize, left_v: Option<usize>) -> ChainEdge {
    ChainEdge { pair_index, left_v }
}

#[test]
fn adjust_chains_find_cycles_and_open_runs() {
    let efirst = vec![Some(0), Some(1), Some(2), None, Some(3)];
    let edges = vec![edge(1, Some(0)), edge(2, Some(1)), edge(0, Some(2)), edge(3, None)];
    let chains = find_adjust_chains(&efirst, &edges);
    assert_eq!(chains.len(), 1);
    assert_eq!(chains[0].verts, vec![0, 1, 2]);
    assert!(chains[0].is_cycle);

    // 0 -> 1, and 1 has no follower: an open chain; 2 -> 1 is already taken.
    let efirst2 = vec![Some(0), Some(1), Some(2)];
    let edges2 = vec![edge(2, Some(1)), edge(1, None), edge(0, Some(1))];
    let chains2 = find_adjust_chains(&efirst2, &edges2);
    assert_eq!(chains2.len(), 1);
    assert_eq!(chains2[0].verts, vec![0, 1]);
    assert!(!chains2[0].is_cycle);

    assert!(find_adjust_chains(&vec![], &vec![]).is_empty());
}

#[test]
fn vmesh_faces_even_segments_share_the_centre() {
    let g = numbered_grid(3, 2);
    let r = emit_vmesh_result(&g, 2);
    assert_eq!(r.points, vec![0, 1, 11, 201, 100, 101, 200]);
    assert_eq!(r.polys, vec![vec![0, 1, 2, 3], vec![4, 5, 2, 1], vec![6, 3, 2, 5]]);
}

#[test]
fn vmesh_faces_odd_segments_close_with_a_centre_polygon() {
    let g = numbered_grid(3, 3);
    let r = emit_vmesh_result(&g, 3);
    assert_eq!(r.points, vec![0, 1, 11, 10, 110, 111, 100, 101, 210, 211, 200, 201]);
    assert_eq!(
        r.polys,
        vec![
            vec![0, 1, 2, 3],
            vec![1, 4, 5, 2],
            vec![6, 7, 5, 4],
            vec![7, 8, 9, 5],
            vec![10, 11, 9, 8],
            vec![11, 3, 2, 9],
            vec![2, 5, 9],
        ]
    );
}

#[test]
fn vmesh_faces_two_patches_drop_the_centre_polygon() {
    let g = numbered_grid(2, 3);
    let r = emit_vmesh_result(&g, 3);
    // The centre cells still get their points.
    assert_eq!(r.points, vec![0, 1, 11, 10, 110, 111, 100, 101]);
    assert_eq!(r.polys, vec![vec![0, 1, 2, 3], vec![1, 4, 5, 2], vec![6, 7, 5, 4], vec![7, 3, 2, 5]]);
}

#[test]
fn vmesh_faces_reuse_profile_points() {
    let g = numbered_grid(3, 2);
    let mut out_p = vec![7usize, 8];
    let mut out_polys: Vec<Vec<usize>> = vec![vec![0, 1]];
    let boundary = vec![
        vec![Some(50), Some(51), Some(52)],
        vec![Some(60), Some(61), Some(62)],
        vec![Some(70), Some(71), Some(72)],
    ];
    emit_vmesh_faces(&g, 2, &mut out_p, &boundary, &mut out_polys);
    assert_eq!(out_p, vec![7, 8, 11]);
    assert_eq!(out_polys, vec![vec![0, 1], vec![50, 51, 2, 71], vec![60, 61, 2, 51], vec![70, 71, 2, 61]]);
}

#[test]
fn vmesh_faces_missing_profile_point_gets_a_new_point() {
    let g = numbered_grid(3, 3);
    let mut out_p = vec![7usize, 8];
    let mut out_polys: Vec<Vec<usize>> = Vec::new();
    let boundary = vec![
        vec![Some(50), None, Some(52), Some(53)],
        vec![Some(60), Some(61), Some(62), Some(63)],
        vec![Some(70), Some(71), Some(72), Some(73)],
    ];
    emit_vmesh_faces(&g, 3, &mut out_p, &boundary, &mut out_polys);
    assert_eq!(out_p, vec![7, 8, 1, 11, 111, 211]);
    assert_eq!(
        out_polys,
        vec![
            vec![50, 2, 3, 72],
            vec![2, 52, 4, 3],
            vec![60, 61, 4, 52],
            vec![61, 62, 5, 4],
            vec![70, 71, 5, 62],
            vec![71, 72, 3, 5],
            vec![3, 4, 5],
        ]
    );
}

#[test]
fn vmesh_parallel_emit_numbers_each_corner_after_the_last() {
    let corners = vec![(numbered_grid(3, 3), 0usize), (numbered_grid(2, 3), 1usize)];
    let r = parallel_vmesh_emit(&corners, 3);
    assert_eq!(r.points.len(), 12 + 8);
    assert_eq!(r.points[12..].to_vec(), vec![0, 1, 11, 10, 110, 111, 100, 101]);
    assert_eq!(r.polys.len(), 7 + 4);
    assert_eq!(r.polys[6], vec![2, 5, 9]);
    assert_eq!(r.polys[7], vec![12, 13, 14, 15]);
    assert_eq!(r.polys[10], vec![19, 15, 14, 17]);
    let empty: Vec<(VMeshGrid<usize>, usize)> = Vec::new();
    let none = parallel_vmesh_emit(&empty, 2);
    assert!(none.points.is_empty() && none.polys.is_empty());
    let fresh: VMeshResult<usize> = VMeshResult::with_capacity(4, 4);
    assert!(fresh.points.is_empty() && fresh.polys.is_empty());
}
