use cunning3d::bevel_boundary::{boundary_topology, BoundVertTopo, EdgeTopo};
use cunning3d::bevel_params::{AngleKind, MiterType};

fn vert(prev: usize, next: usize, index: usize, efirst: Option<usize>, elast: Option<usize>, arc: bool, patch: bool) -> BoundVertTopo {
    BoundVertTopo { prev, next, index, efirst, elast, is_arc_start: arc, is_patch_start: patch }
}

fn edge(is_bev: bool, profile_index: i32, left: Option<usize>, right: Option<usize>) -> EdgeTopo {
    EdgeTopo { is_bev, profile_index, left_bv: left, right_bv: right }
}

#[test]
fn boundary_with_too_few_spokes_or_none_beveled_is_empty() {
    let r = boundary_topology(&vec![true], &vec![AngleKind::Straight], MiterType::Sharp, MiterType::Sharp, 1);
    assert!(r.verts.is_empty() && r.edges.is_empty() && r.miter_edge.is_none());
    let r = boundary_topology(&vec![false, false, false], &vec![AngleKind::Larger; 3], MiterType::Patch, MiterType::Arc, 1);
    assert!(r.verts.is_empty() && r.edges.is_empty() && r.miter_edge.is_none());
}

#[test]
fn boundary_without_miters_has_one_vertex_per_corner() {
    let bev = vec![true, false, true, false];
    let r = boundary_topology(&bev, &vec![AngleKind::Straight; 4], MiterType::Sharp, MiterType::Sharp, 2);
    assert_eq!(r.verts, vec![vert(1, 1, 0, Some(0), Some(2), false, false), vert(0, 0, 1, Some(2), Some(0), false, false)]);
    assert_eq!(
        r.edges,
        vec![
            edge(true, 0, Some(0), Some(1)),
            edge(false, 0, Some(0), Some(0)),
            edge(true, 0, Some(1), Some(0)),
            edge(false, 0, Some(1), Some(1)),
        ]
    );
    assert_eq!(r.miter_edge, None);
}

#[test]
fn boundary_patch_miter_adds_three_vertices_at_the_first_larger_corner() {
    let bev = vec![true, true, true];
    let angles = vec![AngleKind::Larger, AngleKind::Smaller, AngleKind::Smaller];
    let r = boundary_topology(&bev, &angles, MiterType::Patch, MiterType::Sharp, 2);
    assert_eq!(
        r.verts,
        vec![
            vert(4, 1, 0, Some(0), Some(0), false, true),
            vert(0, 2, 1, None, None, false, false),
            vert(1, 3, 2, Some(1), Some(1), false, false),
            vert(2, 4, 3, Some(1), Some(2), false, false),
            vert(3, 0, 4, Some(2), Some(0), false, false),
        ]
    );
    assert_eq!(
        r.edges,
        vec![edge(true, 0, Some(0), Some(4)), edge(true, 0, Some(3), Some(2)), edge(true, 0, Some(4), Some(3))]
    );
    assert_eq!(r.miter_edge, Some(0));
}

#[test]
fn boundary_outer_miter_needs_three_beveled_spokes() {
    let bev = vec![true, false, true];
    let r = boundary_topology(&bev, &vec![AngleKind::Larger; 3], MiterType::Patch, MiterType::Sharp, 2);
    assert_eq!(r.verts.len(), 2);
    assert_eq!(r.miter_edge, None);
}

#[test]
fn boundary_arc_miter_spreads_the_profile_over_the_spokes_between() {
    let bev = vec![true, false, false, false];
    let angles = vec![AngleKind::Smaller, AngleKind::Straight, AngleKind::Straight, AngleKind::Straight];
    let r = boundary_topology(&bev, &angles, MiterType::Sharp, MiterType::Arc, 4);
    assert_eq!(r.verts, vec![vert(1, 1, 0, Some(0), Some(3), true, false), vert(0, 0, 1, Some(0), Some(0), false, false)]);
    assert_eq!(
        r.edges,
        vec![
            edge(true, 0, Some(0), Some(1)),
            edge(false, 0, Some(0), Some(0)),
            edge(false, 2, Some(0), Some(0)),
            edge(false, 4, Some(0), Some(0)),
        ]
    );
    assert_eq!(r.miter_edge, None);
}
