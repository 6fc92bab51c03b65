use cunning3d::fbx::{parse_geometry_node, FbxAttribute, FbxNode};
use cunning3d::geometry::Primitive;
use cunning3d::import_mesh::TriangleMesh;
use cunning3d::registry::{FbxImporter, GltfImporter, ObjImporter, PlyImporter, StlImporter};

fn poly(v: &[usize]) -> Primitive {
    Primitive::Polygon { vertices: v.to_vec() }
}

#[test]
fn obj_meshes_are_offset_by_earlier_points() {
    let meshes = vec![
        TriangleMesh { point_count: 3, indices: vec![0, 1, 2] },
        TriangleMesh { point_count: 4, indices: vec![0, 1, 2, 2, 3, 0] },
    ];
    let g = ObjImporter::build_geometry(&meshes);
    assert_eq!(g.num_points, 7);
    assert_eq!(g.vertices, vec![0, 1, 2, 3, 4, 5, 5, 6, 3]);
    assert_eq!(g.primitives, vec![poly(&[0, 1, 2]), poly(&[3, 4, 5]), poly(&[6, 7, 8])]);
}

#[test]
fn obj_invalid_index_drops_the_triangle_but_keeps_its_vertices() {
    let meshes = vec![TriangleMesh { point_count: 3, indices: vec![0, 1, 7, 2, 1, 0] }];
    let g = ObjImporter::build_geometry(&meshes);
    assert_eq!(g.vertices, vec![0, 1, 2, 1, 0]);
    assert_eq!(g.primitives, vec![poly(&[2, 3, 4])]);
}

#[test]
fn gltf_ignores_incomplete_triangle_and_empty_primitives() {
    let prims = vec![
        TriangleMesh { point_count: 0, indices: vec![0, 1, 2] },
        TriangleMesh { point_count: 3, indices: vec![2, 1, 0, 1] },
    ];
    let g = GltfImporter::build_geometry(&prims);
    assert_eq!(g.num_points, 3);
    assert_eq!(g.vertices, vec![2, 1, 0]);
    assert_eq!(g.primitives, vec![poly(&[0, 1, 2])]);
}

#[test]
fn ply_faces_with_fewer_than_three_indices_are_skipped() {
    let faces = vec![vec![0, 1, 2, 3], vec![0, 1], vec![3, 9, 2, 1], vec![9, 8, 0]];
    let g = PlyImporter::build_geometry(4, &faces);
    assert_eq!(g.num_points, 4);
    assert_eq!(g.vertices, vec![0, 1, 2, 3, 3, 2, 1, 0]);
    assert_eq!(g.primitives, vec![poly(&[0, 1, 2, 3]), poly(&[4, 5, 6])]);
}

#[test]
fn stl_merges_corners_with_equal_keys() {
    // Four STL vertices, the last a duplicate of the first.
    let keys: Vec<u128> = vec![10, 20, 30, 10];
    let faces = vec![[0, 1, 2], [3, 2, 1]];
    let (g, sources) = StlImporter::build_geometry(&keys, &faces);
    assert_eq!(sources, vec![0, 1, 2]);
    assert_eq!(g.num_points, 3);
    assert_eq!(g.vertices, vec![0, 1, 2, 0, 2, 1]);
    assert_eq!(g.primitives, vec![poly(&[0, 1, 2]), poly(&[3, 4, 5])]);
}

#[test]
fn stl_points_numbered_by_first_use() {
    let keys: Vec<u128> = vec![5, 6, 7, 8];
    let faces = vec![[3, 1, 0], [2, 3, 1]];
    let (g, sources) = StlImporter::build_geometry(&keys, &faces);
    assert_eq!(sources, vec![3, 1, 0, 2]);
    assert_eq!(g.vertices, vec![0, 1, 2, 3, 0, 1]);
}

fn node(name: &str, attrs: Vec<FbxAttribute>, children: Vec<FbxNode>) -> FbxNode {
    FbxNode { name: name.to_string(), attributes: attrs, children }
}

fn geometry_node(npos: usize, indices: Vec<i32>, uv_len: usize, uv_index: Option<Vec<i32>>) -> FbxNode {
    let mut layer = vec![node("UV", vec![FbxAttribute::F64Array { id: 1, len: uv_len }], vec![])];
    if let Some(ix) = uv_index {
        layer.push(node("UVIndex", vec![FbxAttribute::I32Array(ix)], vec![]));
    }
    node(
        "Geometry",
        vec![],
        vec![
            node("Vertices", vec![FbxAttribute::F64Array { id: 0, len: 3 * npos }], vec![]),
            node("PolygonVertexIndex", vec![FbxAttribute::I32Array(indices)], vec![]),
            node("LayerElementUV", vec![], layer),
        ],
    )
}

#[test]
fn fbx_geometry_node_errors() {
    let no_points = node("Geometry", vec![], vec![node("Vertices", vec![FbxAttribute::F64Array { id: 0, len: 2 }], vec![])]);
    assert_eq!(parse_geometry_node(&no_points), Err("No vertices".to_string()));
    let no_indices = node("Geometry", vec![], vec![node("Vertices", vec![FbxAttribute::F64Array { id: 0, len: 6 }], vec![])]);
    assert_eq!(parse_geometry_node(&no_indices), Err("No indices".to_string()));
    let wrong_kind = node("Geometry", vec![], vec![node("Vertices", vec![FbxAttribute::I32Array(vec![1, 2, 3])], vec![])]);
    assert_eq!(parse_geometry_node(&wrong_kind), Err("No vertices".to_string()));
}

#[test]
fn fbx_geometry_node_arrays() {
    let n = geometry_node(4, vec![0, 1, -3], 7, Some(vec![2, 1, 0]));
    let d = parse_geometry_node(&n).unwrap();
    assert_eq!(d.point_count, 4);
    assert_eq!(d.position_arrays, vec![(0, 12)]);
    assert_eq!(d.indices, vec![0, 1, -3]);
    assert_eq!(d.uv_count, 3);
    assert_eq!(d.uv_arrays, vec![(1, 7)]);
    assert_eq!(d.uv_indices, vec![2, 1, 0]);
}

#[test]
fn fbx_polygons_end_at_negative_indices() {
    let root = node(
        "",
        vec![],
        vec![node("Objects", vec![], vec![geometry_node(4, vec![0, 1, 2, -4, 1, 2, -4], 0, None)])],
    );
    let r = FbxImporter::build_geometry(&root);
    assert_eq!(r.geometry.num_points, 4);
    assert_eq!(r.geometry.vertices, vec![0, 1, 2, 3, 1, 2, 3]);
    assert_eq!(r.geometry.primitives, vec![poly(&[0, 1, 2, 3]), poly(&[4, 5, 6])]);
    assert_eq!(r.vertex_uvs, vec![None; 7]);
    assert_eq!(r.meshes.len(), 1);
}

#[test]
fn fbx_short_polygon_carries_over() {
    // -2 closes a polygon of two vertices: they stay for the next polygon.
    let root = node(
        "",
        vec![],
        vec![node("Objects", vec![], vec![geometry_node(3, vec![0, -2, 2, -1], 0, None)])],
    );
    let r = FbxImporter::build_geometry(&root);
    assert_eq!(r.geometry.vertices, vec![0, 1, 2, 0]);
    assert_eq!(r.geometry.primitives, vec![poly(&[0, 1, 2, 3])]);
}

#[test]
fn fbx_uv_references() {
    let with_index = geometry_node(3, vec![0, 1, -3], 6, Some(vec![2, -1]));
    let without_index = geometry_node(3, vec![0, 1, -3], 4, None);
    let skipped = node("Model", vec![], vec![]);
    let root = node("", vec![], vec![node("Objects", vec![], vec![with_index, skipped, without_index])]);
    let r = FbxImporter::build_geometry(&root);
    assert_eq!(r.geometry.num_points, 6);
    assert_eq!(r.geometry.vertices, vec![0, 1, 2, 3, 4, 5]);
    // First node: UV index list [2, -1], then index 0 past its end.
    // Second node: its own UVs come after the 3 of the first; only 2 exist.
    assert_eq!(r.vertex_uvs, vec![Some(2), None, Some(0), Some(3), Some(4), None]);
    assert_eq!(r.meshes.len(), 2);
}

#[test]
fn fbx_without_objects_is_empty() {
    let root = node("", vec![], vec![node("Geometry", vec![], vec![])]);
    let r = FbxImporter::build_geometry(&root);
    assert_eq!(r.geometry.num_points, 0);
    assert!(r.geometry.vertices.is_empty() && r.geometry.primitives.is_empty());
    assert!(r.meshes.is_empty());
}
