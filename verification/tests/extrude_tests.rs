use cunning3d::extrude::{
    extrude_connected, extrude_individual, polygon_half_edges, ExtrudeFaces, FaceGroup, PointSource,
    PolyExtrudeNode, PolyHalfEdge,
};
use cunning3d::bevel_poly::bevel_edge_selection;
use cunning3d::extrude_input::{keep_polys_and_lines, remap_group};
use cunning3d::geometry::{Geometry, Primitive};
use cunning3d::params::{Parameter, ParameterValue};
use cunning3d::resample::{polygon_edges, resample_polygon_edges, EdgePoint, ResampleNode};
use PointSource::{Base, Front};

fn poly(v: &[usize]) -> Primitive {
    Primitive::Polygon { vertices: v.to_vec() }
}

fn verts(p: &Primitive) -> Vec<usize> {
    match p {
        Primitive::Polygon { vertices } => vertices.clone(),
        Primitive::Polyline { vertices, .. } => vertices.clone(),
        Primitive::BezierCurve { vertices, .. } => vertices.clone(),
    }
}

/// The points of each primitive, through its vertices.
fn prim_points(g: &Geometry) -> Vec<Vec<usize>> {
    g.primitives.iter().map(|p| verts(p).iter().map(|&v| g.vertices[v]).collect()).collect()
}

fn quad_geo() -> Geometry {
    Geometry { num_points: 4, vertices: vec![0, 1, 2, 3], primitives: vec![poly(&[0, 1, 2, 3])] }
}

fn two_quads() -> Geometry {
    // 0 1 2
    // 3 4 5
    Geometry {
        num_points: 6,
        vertices: vec![0, 1, 4, 3, 1, 2, 5, 4],
        primitives: vec![poly(&[0, 1, 2, 3]), poly(&[4, 5, 6, 7])],
    }
}

#[test]
fn individual_quad_front_and_sides() {
    let f = ExtrudeFaces { front: true, back: false, side: true };
    let r = extrude_individual(&quad_geo(), 4, &vec![true], f);
    assert_eq!(r.geometry.num_points, 8);
    assert_eq!(r.geometry.vertices, (0..8).collect::<Vec<usize>>());
    assert_eq!(
        r.sources,
        vec![
            PointSource::PolygonFront(0, 0),
            PointSource::Base(0),
            PointSource::PolygonFront(1, 0),
            PointSource::Base(1),
            PointSource::PolygonFront(2, 0),
            PointSource::Base(2),
            PointSource::PolygonFront(3, 0),
            PointSource::Base(3),
        ]
    );
    let prims: Vec<Vec<usize>> = r.geometry.primitives.iter().map(verts).collect();
    assert_eq!(prims, vec![vec![0, 2, 4, 6], vec![1, 3, 2, 0], vec![3, 5, 4, 2], vec![5, 7, 6, 4], vec![7, 1, 0, 6]]);
    assert_eq!(r.groups, vec![FaceGroup::Front, FaceGroup::Side, FaceGroup::Side, FaceGroup::Side, FaceGroup::Side]);
}

#[test]
fn individual_back_face_reverses_the_base_ring() {
    let f = ExtrudeFaces { front: false, back: true, side: true };
    let r = extrude_individual(&quad_geo(), 4, &vec![true], f);
    let prims: Vec<Vec<usize>> = r.geometry.primitives.iter().map(verts).collect();
    assert_eq!(prims, vec![vec![7, 5, 3, 1], vec![7, 5, 2, 0], vec![5, 3, 4, 2], vec![3, 1, 6, 4], vec![1, 7, 0, 6]]);
    assert_eq!(r.groups[0], FaceGroup::Back);
}

#[test]
fn individual_skips_unselected_and_unplaced_polygons() {
    let f = ExtrudeFaces { front: true, back: true, side: true };
    let r = extrude_individual(&quad_geo(), 4, &vec![false], f);
    assert_eq!(r.geometry.num_points, 0);
    assert!(r.geometry.primitives.is_empty());
    // Point 3 has no position.
    let r2 = extrude_individual(&quad_geo(), 3, &vec![true], f);
    assert_eq!(r2.geometry.num_points, 0);
    assert!(r2.sources.is_empty());
}

#[test]
fn half_edges_pair_shared_edges() {
    let hes = polygon_half_edges(&two_quads());
    let plain: Vec<(usize, usize, usize)> = hes.iter().map(|h| (h.origin, h.dest, h.prim)).collect();
    assert_eq!(
        plain,
        vec![(0, 1, 0), (1, 4, 0), (4, 3, 0), (3, 0, 0), (1, 2, 1), (2, 5, 1), (5, 4, 1), (4, 1, 1)]
    );
    let pairs: Vec<Option<usize>> = hes.iter().map(|h| h.pair).collect();
    assert_eq!(pairs, vec![None, Some(7), None, None, None, None, None, Some(1)]);
}

#[test]
fn connected_quads_share_front_and_base_points() {
    let g = two_quads();
    let hes = polygon_half_edges(&g);
    let f = ExtrudeFaces { front: true, back: false, side: true };
    let r = extrude_connected(&g, 6, &vec![true, true], &hes, f, 1);
    assert_eq!(r.geometry.num_points, 12);
    assert_eq!(
        r.sources,
        vec![Front(0), Front(1), Front(4), Front(3), Front(2), Front(5), Base(0), Base(1), Base(4), Base(3), Base(2), Base(5)]
    );
    assert_eq!(
        prim_points(&r.geometry),
        vec![
            vec![0, 1, 2, 3],
            vec![1, 4, 5, 2],
            vec![6, 7, 1, 0],
            vec![8, 9, 3, 2],
            vec![9, 6, 0, 3],
            vec![7, 10, 4, 1],
            vec![10, 11, 5, 4],
            vec![11, 8, 2, 5],
        ]
    );
    let mut groups = vec![FaceGroup::Front, FaceGroup::Front];
    groups.extend(std::iter::repeat(FaceGroup::Side).take(6));
    assert_eq!(r.groups, groups);
}

#[test]
fn connected_divisions_add_points_between() {
    let g = Geometry { num_points: 3, vertices: vec![0, 1, 2], primitives: vec![poly(&[0, 1, 2])] };
    let hes = polygon_half_edges(&g);
    let f = ExtrudeFaces { front: false, back: false, side: true };
    let r = extrude_connected(&g, 3, &vec![true], &hes, f, 2);
    // Fronts 0..3, then the first border edge 0 -> 1: bases 3 and 4, and
    // two points half-way.
    assert_eq!(
        &r.sources[3..7],
        &[
            PointSource::Base(0),
            PointSource::Base(1),
            PointSource::Between { from: 3, to: 0, step: 1, steps: 2 },
            PointSource::Between { from: 4, to: 1, step: 1, steps: 2 },
        ]
    );
    let pp = prim_points(&r.geometry);
    assert_eq!(pp[0], vec![3, 4, 6, 5]);
    assert_eq!(pp[1], vec![5, 6, 1, 0]);
    assert_eq!(pp.len(), 6);
}

#[test]
fn connected_missing_position_gives_nothing() {
    let g = two_quads();
    let hes = polygon_half_edges(&g);
    let f = ExtrudeFaces { front: true, back: true, side: true };
    let r = extrude_connected(&g, 4, &vec![true, false], &hes, f, 1);
    assert_eq!(r.geometry.num_points, 0);
    assert!(r.geometry.primitives.is_empty());
    assert!(r.sources.is_empty());
}

#[test]
fn connected_keeps_unselected_and_extrudes_polylines() {
    let g = Geometry {
        num_points: 4,
        vertices: vec![0, 1, 2, 3],
        primitives: vec![
            Primitive::Polyline { vertices: vec![0, 1], closed: false },
            Primitive::Polyline { vertices: vec![2, 3], closed: true },
        ],
    };
    let hes = polygon_half_edges(&g);
    assert!(hes.is_empty());
    let f = ExtrudeFaces { front: true, back: true, side: true };
    let r = extrude_connected(&g, 4, &vec![true, false], &hes, f, 1);
    assert_eq!(r.sources, vec![Front(0), Front(1), Base(2), Base(3), Base(0), Base(1)]);
    match &r.geometry.primitives[0] {
        Primitive::Polyline { closed, .. } => assert!(*closed),
        _ => panic!("kept polyline expected"),
    }
    assert_eq!(prim_points(&r.geometry), vec![vec![2, 3], vec![4, 5, 1, 0]]);
    assert_eq!(r.groups, vec![FaceGroup::Kept, FaceGroup::Side]);
}

#[test]
fn extrude_settings_defaults_and_overrides() {
    let s = PolyExtrudeNode::settings(&[]);
    assert!(!s.individual);
    assert_eq!(s.divisions, 1);
    assert_eq!(s.faces, ExtrudeFaces { front: true, back: false, side: true });
    assert_eq!(s.front_group, "extrudeFront");
    assert_eq!(s.back_group, "extrudeBack");
    assert_eq!(s.side_group, "extrudeSide");
    assert_eq!(s.group, "");
    let params = vec![
        Parameter::new("split", ParameterValue::Int(1)),
        Parameter::new("divisions", ParameterValue::Int(-3)),
        Parameter::new("output_back", ParameterValue::Bool(true)),
        Parameter::new("group", ParameterValue::String("top".to_string())),
    ];
    let s2 = PolyExtrudeNode::settings(&params);
    assert!(s2.individual);
    assert_eq!(s2.divisions, 1);
    assert!(s2.faces.back);
    assert_eq!(s2.group, "top");
    let s3 = PolyExtrudeNode::settings(&[Parameter::new("divisions", ParameterValue::Int(4))]);
    assert_eq!(s3.divisions, 4);
}

#[test]
fn extrude_dispatches_on_split_mode() {
    let g = quad_geo();
    let mut s = PolyExtrudeNode::settings(&[]);
    let connected = PolyExtrudeNode::extrude(&g, 4, &vec![true], &s);
    assert_eq!(connected.geometry.num_points, 8);
    assert_eq!(connected.sources[0], PointSource::Front(0));
    s.individual = true;
    let individual = PolyExtrudeNode::extrude(&g, 4, &vec![true], &s);
    assert_eq!(individual.sources[0], PointSource::PolygonFront(0, 0));
    let _unused: Option<PolyHalfEdge> = None;
}

fn three_quads() -> Geometry {
    // 0 1 2 3
    // 4 5 6 7
    Geometry {
        num_points: 8,
        vertices: vec![0, 1, 5, 4, 1, 2, 6, 5, 2, 3, 7, 6],
        primitives: vec![poly(&[0, 1, 2, 3]), poly(&[4, 5, 6, 7]), poly(&[8, 9, 10, 11])],
    }
}

#[test]
fn bevel_selection_follows_the_group_or_takes_every_inner_edge() {
    let g = three_quads();
    let hes = polygon_half_edges(&g);
    let pairs: Vec<Option<usize>> = hes.iter().map(|h| h.pair).collect();
    assert_eq!(pairs[1], Some(7));
    assert_eq!(pairs[5], Some(11));
    let by_group = bevel_edge_selection(&hes, 3, Some(&vec![true, false, false]));
    let expect: Vec<bool> = (0..12).map(|h| h == 1 || h == 7).collect();
    assert_eq!(by_group, expect);
    let all: Vec<bool> = (0..12).map(|h| h == 1 || h == 5 || h == 7 || h == 11).collect();
    assert_eq!(bevel_edge_selection(&hes, 3, None), all);
    // A group that marks nothing falls back to every inner edge.
    assert_eq!(bevel_edge_selection(&hes, 3, Some(&vec![false, false, false])), all);
}

#[test]
fn resample_shares_points_of_common_edges() {
    let g = two_quads();
    let sel = vec![true, true];
    let edges = polygon_edges(&g, &sel);
    assert_eq!(edges, vec![(0, 1), (1, 4), (4, 3), (3, 0), (1, 2), (2, 5), (5, 4)]);
    let counts = vec![1, 2, 0, 0, 1, 0, 0];
    let r = resample_polygon_edges(&g, &sel, &edges, &counts);
    assert_eq!(r.geometry.num_points, 10);
    assert_eq!(
        r.points,
        vec![
            EdgePoint { from: 0, to: 1, step: 1, steps: 2 },
            EdgePoint { from: 1, to: 4, step: 1, steps: 3 },
            EdgePoint { from: 1, to: 4, step: 2, steps: 3 },
            EdgePoint { from: 1, to: 2, step: 1, steps: 2 },
        ]
    );
    assert_eq!(r.geometry.vertices, vec![0, 1, 4, 3, 1, 2, 5, 4, 6, 7, 8, 9, 8, 7]);
    let prims: Vec<Vec<usize>> = r.geometry.primitives.iter().map(verts).collect();
    assert_eq!(prims, vec![vec![0, 8, 1, 9, 10, 2, 3], vec![4, 11, 5, 6, 7, 12, 13]]);
    // The shared edge runs 1 -> 4 in the first quad and 4 -> 1 in the second.
    assert_eq!(prim_points(&r.geometry)[1], vec![1, 9, 2, 5, 4, 8, 7]);
}

#[test]
fn resample_keeps_unselected_polygons() {
    let g = two_quads();
    let sel = vec![false, true];
    let edges = polygon_edges(&g, &sel);
    assert_eq!(edges.len(), 4);
    let counts = vec![0, 0, 1, 0];
    let r = resample_polygon_edges(&g, &sel, &edges, &counts);
    let prims: Vec<Vec<usize>> = r.geometry.primitives.iter().map(verts).collect();
    assert_eq!(prims[0], vec![0, 1, 2, 3]);
    assert_eq!(prim_points(&r.geometry)[1], vec![1, 2, 5, 6, 4]);
    assert_eq!(ResampleNode::points_per_edge_by_count(10), 9);
    assert_eq!(ResampleNode::points_per_edge_by_count(0), 0);
}

#[test]
fn keep_polys_and_lines_shares_points_in_first_use_order() {
    let geo = Geometry {
        num_points: 5,
        vertices: vec![0, 1, 2, 3, 4, 9],
        primitives: vec![
            Primitive::Polygon { vertices: vec![0, 1, 2] },
            Primitive::BezierCurve { vertices: vec![0, 1], closed: false },
            Primitive::Polyline { vertices: vec![2, 3], closed: true },
            Primitive::Polygon { vertices: vec![4, 5, 0] },
            Primitive::Polygon { vertices: vec![0, 7] },
            Primitive::Polyline { vertices: vec![1], closed: false },
        ],
    };
    let k = keep_polys_and_lines(&geo);
    assert_eq!(k.geometry.num_points, 5);
    assert_eq!(k.geometry.vertices, vec![0, 1, 2, 2, 3, 4, 0, 1]);
    assert_eq!(
        k.geometry.primitives,
        vec![Primitive::Polygon { vertices: vec![0, 1, 2] }, Primitive::Polyline { vertices: vec![3, 4], closed: true }]
    );
    assert_eq!(k.source_points, vec![0, 1, 2, 3, 4]);
    assert_eq!(k.prim_map, vec![Some(0), None, Some(1), None, None, None]);
    assert_eq!(remap_group(&vec![true, false, true, true, false, false], &k.prim_map, 2), vec![true, true]);
    assert_eq!(remap_group(&vec![false, true, false, true], &k.prim_map, 2), vec![false, false]);
    assert_eq!(remap_group(&vec![true], &k.prim_map, 2), vec![true, false]);
}
