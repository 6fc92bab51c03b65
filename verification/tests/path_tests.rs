use cunning3d::geometry::{Geometry, Primitive};
use cunning3d::polypath::{
    build_adjacency, emit_paths, path_starts, polyline_segment_edges, prepare_paths, trace_paths,
    LineEdge, PolyPathNode,
};
use cunning3d::bevel_graph::{build_bevel_graph, BevEdge};
use cunning3d::spokes::{around_next, around_prev, spoke_fan, HalfEdge, Topology, INVALID_HALF_EDGE};
use std::collections::HashMap;

fn line(v: &[usize], closed: bool) -> Primitive {
    Primitive::Polyline { vertices: v.to_vec(), closed }
}

#[test]
fn polypath_joins_polylines_through_degree_two_points() {
    let g = Geometry {
        num_points: 4,
        vertices: vec![0, 1, 2, 2, 3],
        primitives: vec![line(&[0, 1, 2], false), line(&[3, 4], false)],
    };
    let (base, paths) = PolyPathNode.plan(&g);
    assert_eq!(base.num_points, 4);
    assert!(base.primitives.is_empty());
    assert_eq!(paths, vec![(vec![0, 1, 2, 3], false)]);
}

#[test]
fn polypath_closed_loop_is_closed() {
    let g = Geometry { num_points: 3, vertices: vec![0, 1, 2], primitives: vec![line(&[0, 1, 2], true)] };
    let (_, paths) = PolyPathNode.plan(&g);
    assert_eq!(paths, vec![(vec![0, 1, 2], true)]);
}

#[test]
fn polypath_keeps_polygons() {
    let g = Geometry {
        num_points: 3,
        vertices: vec![0, 1, 2],
        primitives: vec![Primitive::Polygon { vertices: vec![0, 1, 2] }],
    };
    let (base, paths) = PolyPathNode.plan(&g);
    assert!(paths.is_empty());
    assert_eq!(base.vertices, vec![0, 1, 2]);
    assert_eq!(base.primitives, vec![Primitive::Polygon { vertices: vec![0, 1, 2] }]);
}

#[test]
fn branching_point_starts_paths() {
    // A star: point 0 joined to 1, 2 and 3.
    let edges = vec![LineEdge { a: 0, b: 1 }, LineEdge { a: 0, b: 2 }, LineEdge { a: 0, b: 3 }];
    let adj = build_adjacency(&edges);
    let starts = path_starts(4, &edges, &adj);
    assert_eq!(starts, vec![0, 1, 2, 3]);
    let paths = trace_paths(&edges, &adj, &starts);
    assert_eq!(paths, vec![vec![0, 1], vec![0, 2], vec![0, 3]]);
}

#[test]
fn segment_edges_of_polylines() {
    assert_eq!(
        polyline_segment_edges(&vec![5, 6, 7], true),
        vec![LineEdge { a: 5, b: 6 }, LineEdge { a: 6, b: 7 }, LineEdge { a: 7, b: 5 }]
    );
    assert_eq!(polyline_segment_edges(&vec![5], true), vec![]);
    assert_eq!(LineEdge { a: 1, b: 2 }.other(2), Some(1));
    assert_eq!(LineEdge { a: 1, b: 2 }.other(3), None);
}

#[test]
fn prepared_paths_drop_repeated_endpoint() {
    let out = prepare_paths(vec![vec![1, 2, 3, 1], vec![4, 5], vec![6], vec![7, 7]]);
    assert_eq!(out, vec![(vec![1, 2, 3], true), (vec![4, 5], false)]);
}

#[test]
fn emitted_paths_become_polylines_or_faces() {
    let mut out = Geometry { num_points: 4, vertices: vec![], primitives: vec![] };
    let paths = vec![(vec![0, 1, 2], true), (vec![1, 3], false), (vec![0, 2, 3], false)];
    emit_paths(&mut out, &paths, true, true, &vec![false, true, true]);
    assert_eq!(out.vertices, vec![0, 1, 2, 1, 3, 0, 2, 3]);
    assert_eq!(
        out.primitives,
        vec![
            Primitive::Polygon { vertices: vec![0, 1, 2] },
            Primitive::Polyline { vertices: vec![3, 4], closed: false },
            Primitive::Polygon { vertices: vec![5, 6, 7] },
        ]
    );
}

fn two_triangles(start: usize) -> Topology {
    let n = INVALID_HALF_EDGE;
    let he = |o: usize, next: usize, prev: usize, pair: usize| HalfEdge { origin_point: o, next, prev, pair };
    let mut map = HashMap::new();
    map.insert(0usize, start);
    Topology {
        half_edges: vec![
            he(0, 1, 2, n),
            he(1, 2, 0, n),
            he(2, 0, 1, 3),
            he(0, 4, 5, 2),
            he(2, 5, 3, n),
            he(3, 3, 4, n),
        ],
        point_to_halfedge: map,
    }
}

#[test]
fn spoke_fan_walks_the_whole_fan() {
    assert_eq!(spoke_fan(&two_triangles(0), 0), vec![0, 3]);
    assert_eq!(spoke_fan(&two_triangles(3), 0), vec![0, 3]);
    assert_eq!(spoke_fan(&two_triangles(0), 7), Vec::<usize>::new());
    assert_eq!(spoke_fan(&two_triangles(1), 0), Vec::<usize>::new());
    let t = two_triangles(0);
    assert_eq!(around_next(&t, 0), 3);
    assert_eq!(around_prev(&t, 3), 0);
    assert_eq!(around_prev(&t, 0), INVALID_HALF_EDGE);
}

#[test]
fn bevel_graph_links_edge_halves_around_beveled_points() {
    let mut t = two_triangles(0);
    t.point_to_halfedge.insert(1, 1);
    t.point_to_halfedge.insert(2, 2);
    t.point_to_halfedge.insert(3, 5);
    let sel = vec![false, false, true, true, false, false];
    let g = build_bevel_graph(&t, 4, &sel, 3);
    assert_eq!(g.verts.len(), 2);
    assert_eq!((g.verts[0].p_id, g.verts[0].edges.clone()), (0, vec![0, 1]));
    assert_eq!((g.verts[1].p_id, g.verts[1].edges.clone()), (2, vec![2, 3]));
    let m = usize::MAX;
    let e = |he_id, pair_index, next_index, prev_index, origin_bev_vert, seg, is_bev| BevEdge {
        he_id,
        pair_index,
        next_index,
        prev_index,
        origin_bev_vert,
        seg,
        is_bev,
    };
    assert_eq!(
        g.edges,
        vec![e(0, m, 1, 1, 0, 0, false), e(3, 3, 0, 0, 0, 3, true), e(4, m, 3, 3, 1, 0, false), e(2, 1, 2, 2, 1, 3, true)]
    );
    let none = build_bevel_graph(&t, 4, &vec![false; 6], 3);
    assert!(none.verts.is_empty() && none.edges.is_empty());
}

#[test]
fn tracing_walks_each_segment_once() {
    // A square with a tail: 0-1-2-3-0 and 2-4.
    let edges = vec![
        LineEdge { a: 0, b: 1 },
        LineEdge { a: 1, b: 2 },
        LineEdge { a: 2, b: 3 },
        LineEdge { a: 3, b: 0 },
        LineEdge { a: 2, b: 4 },
    ];
    let adj = build_adjacency(&edges);
    let starts = path_starts(5, &edges, &adj);
    let paths = trace_paths(&edges, &adj, &starts);
    let steps: usize = paths.iter().map(|p| p.len() - 1).sum();
    assert_eq!(steps, edges.len());
    let mut walked: Vec<(usize, usize)> = Vec::new();
    for p in &paths {
        for w in p.windows(2) {
            walked.push((w[0].min(w[1]), w[0].max(w[1])));
        }
    }
    walked.sort();
    let mut expected: Vec<(usize, usize)> = edges.iter().map(|e| (e.a.min(e.b), e.a.max(e.b))).collect();
    expected.sort();
    assert_eq!(walked, expected);
}

fn sorted_keys(pairs: Vec<(usize, usize)>) -> Vec<(usize, usize)> {
    let mut keys: Vec<(usize, usize)> = pairs.into_iter().map(|(x, y)| if x <= y { (x, y) } else { (y, x) }).collect();
    keys.sort();
    keys
}

#[test]
fn traced_paths_walk_each_segment_once() {
    // A triangle 0-1-2 with a tail 2-3-4, a doubled segment 4-5 and a
    // separate loop 6-7-8.
    let edges = vec![
        LineEdge { a: 0, b: 1 },
        LineEdge { a: 1, b: 2 },
        LineEdge { a: 2, b: 0 },
        LineEdge { a: 2, b: 3 },
        LineEdge { a: 3, b: 4 },
        LineEdge { a: 4, b: 5 },
        LineEdge { a: 5, b: 4 },
        LineEdge { a: 6, b: 7 },
        LineEdge { a: 7, b: 8 },
        LineEdge { a: 8, b: 6 },
    ];
    let adj = build_adjacency(&edges);
    let starts = path_starts(9, &edges, &adj);
    let paths = trace_paths(&edges, &adj, &starts);
    let mut steps = Vec::new();
    for p in &paths {
        for w in p.windows(2) {
            steps.push((w[0], w[1]));
        }
    }
    let segments: Vec<(usize, usize)> = edges.iter().map(|e| (e.a, e.b)).collect();
    assert_eq!(sorted_keys(steps), sorted_keys(segments));
}
