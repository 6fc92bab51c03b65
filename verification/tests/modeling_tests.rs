use cunning3d::material::{assign_values, PrimAttr};
use cunning3d::dsu::Dsu;
use cunning3d::material::{decimal, MaterialAssignNode, MaterialKey, MaterialOutcome, QuickMaterialNode};
use cunning3d::geometry::{Geometry, Primitive};
use cunning3d::modeling_nodes::{
    compute_boolean, AddNode, AttrType, Axis, ConnType, ConnectivityNode, BooleanNode, CopyToPointsNode, BooleanOperation, BooleanOutcome, FuseNode,
    FuseOutputMode, FuseSettings, HeightDisplaceHighPolyV2Node, NormalStrategy, OutputTopology,
    PointJitterNode, PolyFrameNode, RemeshStep, Side,
};
use cunning3d::params::{
    find_param, get_bool, get_int, get_string, params_to_map, Parameter, ParameterValue,
};

fn p(name: &str, v: ParameterValue) -> Parameter {
    Parameter::new(name, v)
}

fn tri_geo() -> Geometry {
    Geometry {
        num_points: 3,
        vertices: vec![0, 1, 2],
        primitives: vec![Primitive::Polygon { vertices: vec![0, 1, 2] }],
    }
}

fn empty_geo() -> Geometry {
    Geometry { num_points: 0, vertices: vec![], primitives: vec![] }
}

#[test]
fn first_parameter_of_a_name_wins() {
    let ps = vec![
        p("seed", ParameterValue::Int(4)),
        p("seed", ParameterValue::Int(9)),
        p("flag", ParameterValue::Bool(true)),
    ];
    assert_eq!(find_param(&ps, "seed"), Some(&ParameterValue::Int(4)));
    assert_eq!(find_param(&ps, "missing"), None);
    assert_eq!(get_int(&ps, "seed", 0), 4);
    assert_eq!(get_int(&ps, "flag", 7), 7);
    assert_eq!(get_bool(&ps, "flag", false), true);
    assert_eq!(get_bool(&ps, "seed", false), false);
    assert_eq!(get_string(&ps, "seed", "dflt"), "dflt");
}

#[test]
fn parameter_map_keeps_the_last_of_a_name() {
    let m = params_to_map(&[p("operation", ParameterValue::Int(0)), p("operation", ParameterValue::Int(1))]);
    let out = compute_boolean(&[tri_geo(), tri_geo()], &m);
    assert_eq!(
        out,
        BooleanOutcome::Run {
            op: BooleanOperation::Intersection,
            target: Side::A,
            cutter: Side::B,
            output_topology: OutputTopology::Polygons,
            preserve_hard_edges: true,
            normal_strategy: NormalStrategy::TransferFromInput,
        }
    );
}

#[test]
fn boolean_with_fewer_than_two_inputs_passes_through() {
    let m = params_to_map(&[]);
    assert_eq!(compute_boolean(&[], &m), BooleanOutcome::Empty);
    assert_eq!(compute_boolean(&[tri_geo()], &m), BooleanOutcome::CopyInput(Side::A));
}

#[test]
fn boolean_default_subtracts_b_from_a() {
    let m = params_to_map(&[]);
    assert_eq!(
        compute_boolean(&[tri_geo(), tri_geo()], &m),
        BooleanOutcome::Run {
            op: BooleanOperation::Difference,
            target: Side::A,
            cutter: Side::B,
            output_topology: OutputTopology::Polygons,
            preserve_hard_edges: true,
            normal_strategy: NormalStrategy::TransferFromInput,
        }
    );
}

#[test]
fn boolean_operand_choices() {
    let run = |op: i32, mode: i32| {
        let m = params_to_map(&[
            p("operation", ParameterValue::Int(op)),
            p("subtract_mode", ParameterValue::Int(mode)),
            p("output_topology", ParameterValue::Int(1)),
            p("preserve_hard_edges", ParameterValue::Bool(false)),
            p("normal_strategy", ParameterValue::Int(1)),
        ]);
        match compute_boolean(&[tri_geo(), tri_geo()], &m) {
            BooleanOutcome::Run { op, target, cutter, output_topology, preserve_hard_edges, normal_strategy } => {
                assert_eq!(output_topology, OutputTopology::Triangles);
                assert!(!preserve_hard_edges);
                assert_eq!(normal_strategy, NormalStrategy::Recompute);
                (op, target, cutter)
            }
            other => panic!("unexpected {:?}", other),
        }
    };
    assert_eq!(run(0, 0), (BooleanOperation::Union, Side::A, Side::B));
    assert_eq!(run(1, 0), (BooleanOperation::Intersection, Side::A, Side::B));
    assert_eq!(run(2, 0), (BooleanOperation::Difference, Side::A, Side::B));
    assert_eq!(run(2, 1), (BooleanOperation::Difference, Side::B, Side::A));
    assert_eq!(run(2, 2), (BooleanOperation::Xor, Side::A, Side::B));
    assert_eq!(run(2, 7), (BooleanOperation::Difference, Side::A, Side::B));
    assert_eq!(run(3, 0), (BooleanOperation::Xor, Side::A, Side::B));
    assert_eq!(run(9, 0), (BooleanOperation::Difference, Side::A, Side::B));
}

#[test]
fn boolean_with_empty_inputs() {
    let union = params_to_map(&[p("operation", ParameterValue::Int(0))]);
    let inter = params_to_map(&[p("operation", ParameterValue::Int(1))]);
    let sub_ab = params_to_map(&[p("operation", ParameterValue::Int(2))]);
    let sub_ba = params_to_map(&[p("operation", ParameterValue::Int(2)), p("subtract_mode", ParameterValue::Int(1))]);
    assert_eq!(compute_boolean(&[empty_geo(), tri_geo()], &union), BooleanOutcome::CopyInput(Side::B));
    assert_eq!(compute_boolean(&[empty_geo(), tri_geo()], &sub_ab), BooleanOutcome::Empty);
    assert_eq!(compute_boolean(&[tri_geo(), empty_geo()], &union), BooleanOutcome::CopyInput(Side::A));
    assert_eq!(compute_boolean(&[tri_geo(), empty_geo()], &sub_ab), BooleanOutcome::CopyInput(Side::A));
    assert_eq!(compute_boolean(&[tri_geo(), empty_geo()], &sub_ba), BooleanOutcome::Empty);
    assert_eq!(compute_boolean(&[tri_geo(), empty_geo()], &inter), BooleanOutcome::Empty);
}

#[test]
fn boolean_node_uses_last_parameter() {
    let ps = vec![p("operation", ParameterValue::Int(1)), p("operation", ParameterValue::Int(0))];
    let out = BooleanNode.compute(&ps, &[empty_geo(), tri_geo()]);
    assert_eq!(out, BooleanOutcome::CopyInput(Side::B));
}

#[test]
fn fuse_settings_defaults_and_values() {
    assert_eq!(
        FuseNode::settings(&[]),
        FuseSettings { output_mode: FuseOutputMode::Average, remove_unused_points: false, remove_degenerate_prims: false }
    );
    let ps = vec![p("remove_unused", ParameterValue::Bool(true)), p("remove_degenerate", ParameterValue::Bool(true))];
    let s = FuseNode::settings(&ps);
    assert!(s.remove_unused_points && s.remove_degenerate_prims);
}

#[test]
fn add_node_output_points() {
    let g = AddNode::output_geometry(3, 2);
    assert_eq!(g.num_points, 5);
    assert!(g.vertices.is_empty() && g.primitives.is_empty());
    assert_eq!(AddNode::output_geometry(0, 0).num_points, 0);
}

#[test]
fn jitter_settings() {
    let s = PointJitterNode::settings(&[]);
    assert_eq!(s.group, "");
    assert_eq!(s.seed, 0);
    assert!(!s.update_normals);
    let ps = vec![
        p("group", ParameterValue::String("  pts  ".to_string())),
        p("seed", ParameterValue::Int(-5)),
        p("update_normals", ParameterValue::Bool(true)),
    ];
    let s = PointJitterNode::settings(&ps);
    assert_eq!(s.group, "pts");
    assert_eq!(s.seed, 0);
    assert!(s.update_normals);
    let s = PointJitterNode::settings(&[p("seed", ParameterValue::Int(42))]);
    assert_eq!(s.seed, 42);
}

#[test]
fn normal_params_are_rewritten() {
    let ps = vec![
        p("compute_normals", ParameterValue::Bool(false)),
        p("add_normals_to", ParameterValue::Int(0)),
        p("cusp_angle", ParameterValue::Other),
    ];
    let out = PointJitterNode::normal_params(ps, 2);
    assert_eq!(out[0], p("compute_normals", ParameterValue::Bool(true)));
    assert_eq!(out[1], p("add_normals_to", ParameterValue::Int(2)));
    assert_eq!(out[2], p("cusp_angle", ParameterValue::Other));
}

#[test]
fn height_path_sources() {
    let with_param = vec![p("height_path", ParameterValue::String("  maps/h.png ".to_string()))];
    assert_eq!(HeightDisplaceHighPolyV2Node::height_path(&with_param, Some("other.png")), Some("maps/h.png".to_string()));
    let blank = vec![p("height_path", ParameterValue::String("   ".to_string()))];
    assert_eq!(HeightDisplaceHighPolyV2Node::height_path(&blank, Some(" gen/h.png ")), Some("gen/h.png".to_string()));
    assert_eq!(HeightDisplaceHighPolyV2Node::height_path(&blank, Some("  ")), None);
    assert_eq!(HeightDisplaceHighPolyV2Node::height_path(&[], None), None);
}

#[test]
fn remesh_step_settings() {
    assert_eq!(HeightDisplaceHighPolyV2Node::remesh_step(&[]), Some(RemeshStep { bandwidth: 3, hard_surface: false }));
    assert_eq!(HeightDisplaceHighPolyV2Node::remesh_step(&[p("sdf_remesh", ParameterValue::Bool(false))]), None);
    assert_eq!(
        HeightDisplaceHighPolyV2Node::remesh_step(&[p("bandwidth", ParameterValue::Int(100)), p("hard_surface", ParameterValue::Bool(true))]),
        Some(RemeshStep { bandwidth: 64, hard_surface: true })
    );
    assert_eq!(
        HeightDisplaceHighPolyV2Node::remesh_step(&[p("bandwidth", ParameterValue::Int(-3))]),
        Some(RemeshStep { bandwidth: 1, hard_surface: false })
    );
}

#[test]
fn dsu_merges_sets() {
    let mut d = Dsu::new(6);
    assert_eq!(d.len(), 6);
    for x in 0..6 {
        assert_eq!(d.find(x), x);
    }
    d.union(0, 1);
    d.union(2, 3);
    assert_eq!(d.find(0), d.find(1));
    assert_ne!(d.find(0), d.find(2));
    d.union(1, 3);
    let r = d.find(0);
    for x in 0..4 {
        assert_eq!(d.find(x), r);
    }
    assert_eq!(d.find(4), 4);
    assert_eq!(d.find(5), 5);
    // Merging within a set changes nothing.
    d.union(3, 0);
    assert_eq!(d.find(2), r);
    assert_ne!(d.find(4), d.find(5));
}

#[test]
fn copy_to_points_chunks_and_axes() {
    let g = Geometry { num_points: 10, vertices: vec![0; 10], primitives: vec![] };
    assert_eq!(CopyToPointsNode::recommend_chunk_size(&g, 1000), 48);
    assert_eq!(CopyToPointsNode::recommend_chunk_size(&g, 5), 5);
    assert_eq!(CopyToPointsNode::recommend_chunk_size(&g, 0), 1);
    let big = Geometry { num_points: 120_000, vertices: vec![], primitives: vec![] };
    assert_eq!(CopyToPointsNode::recommend_chunk_size(&big, 1000), 8);
    let mid = Geometry { num_points: 3_000, vertices: vec![0; 1_000], primitives: vec![] };
    assert_eq!(CopyToPointsNode::recommend_chunk_size(&mid, 1000), 24);
    assert_eq!(CopyToPointsNode::axis_from_choice(0), Axis { coord: 0, negative: false });
    assert_eq!(CopyToPointsNode::axis_from_choice(4), Axis { coord: 1, negative: true });
    assert_eq!(CopyToPointsNode::axis_from_choice(9), Axis { coord: 2, negative: false });
    assert_eq!(CopyToPointsNode::forward_axis(&[]), Axis { coord: 2, negative: false });
    let p = vec![Parameter::new("forward_axis", ParameterValue::Int(3))];
    assert_eq!(CopyToPointsNode::forward_axis(&p), Axis { coord: 0, negative: true });
}

#[test]
fn decimal_text_of_integers() {
    assert_eq!(decimal(0), "0");
    assert_eq!(decimal(7), "7");
    assert_eq!(decimal(-42), "-42");
    assert_eq!(decimal(1234567), "1234567");
    assert_eq!(decimal(i32::MAX), i32::MAX.to_string());
    assert_eq!(decimal(i32::MIN), "-2147483648");
}

#[test]
fn material_attribute_name_normalised() {
    assert_eq!(MaterialAssignNode::attribute_name(&[], "shop_materialpath"), "@shop_materialpath");
    let blank = vec![p("prim_attr", ParameterValue::String("   ".to_string()))];
    assert_eq!(MaterialAssignNode::attribute_name(&blank, "@mat"), "@mat");
    let spaced = vec![p("prim_attr", ParameterValue::String("  mat_key ".to_string()))];
    assert_eq!(MaterialAssignNode::attribute_name(&spaced, "x"), "@mat_key");
    let at = vec![p("prim_attr", ParameterValue::String("@kept ".to_string()))];
    assert_eq!(MaterialAssignNode::attribute_name(&at, "x"), "@kept ");
}

#[test]
fn material_assign_plan_cases() {
    assert!(matches!(MaterialAssignNode::plan(&[], None, false, false), MaterialOutcome::Empty));
    assert!(matches!(MaterialAssignNode::plan(&[], Some("  "), false, false), MaterialOutcome::Empty));
    assert!(matches!(MaterialAssignNode::plan(&[], Some("m1"), false, true), MaterialOutcome::Unchanged));
    match MaterialAssignNode::plan(&[], Some("m1"), false, false) {
        MaterialOutcome::Assign { key: MaterialKey::Name(n), matlib_prefix } => {
            assert_eq!(n, "m1");
            assert_eq!(matlib_prefix, "__cunning.matlib.m1.");
        }
        other => panic!("unexpected {:?}", other),
    }
    let params = vec![p("int_key", ParameterValue::Int(-7))];
    match MaterialAssignNode::plan(&params, Some("m1"), true, false) {
        MaterialOutcome::Assign { key: MaterialKey::Int(k), matlib_prefix } => {
            assert_eq!(k, -7);
            assert_eq!(matlib_prefix, "__cunning.matlib.-7.");
        }
        other => panic!("unexpected {:?}", other),
    }
    let names = MaterialAssignNode::matlib_entries("__cunning.matlib.3.");
    assert_eq!(names.len(), 8);
    assert_eq!(names[0], "__cunning.matlib.3.basecolor_tex");
    assert_eq!(names[4], "__cunning.matlib.3.basecolor_tint");
    assert_eq!(names[7], "__cunning.matlib.3.emissive");
}

#[test]
fn quick_material_identifier() {
    assert_eq!(QuickMaterialNode::material_id(&[], "mat_00ff"), "mat_00ff");
    let named = vec![p("name", ParameterValue::String("  Brick ".to_string()))];
    assert_eq!(QuickMaterialNode::material_id(&named, "mat_00ff"), "Brick");
}

#[test]
fn frame_attribute_names() {
    assert_eq!(PolyFrameNode::attribute_name("  ", "@N"), "@N");
    assert_eq!(PolyFrameNode::attribute_name(" tangentu ", "@N"), "@tangentu");
    assert_eq!(PolyFrameNode::attribute_name("@up ", "@N"), "@up");
}

#[test]
fn connectivity_settings_and_labels() {
    let d = ConnectivityNode::settings(&[], "uv");
    assert_eq!(d.conn_type, ConnType::Primitive);
    assert_eq!(d.attr_type, AttrType::Integer);
    assert_eq!(d.attribute, "class");
    assert_eq!(d.uv_attribute, "uv");
    assert!(!d.use_uv);
    let s = ConnectivityNode::settings(
        &[
            p("connectivity_type", ParameterValue::Int(0)),
            p("attribute_type", ParameterValue::Int(1)),
            p("attribute", ParameterValue::String("piece".to_string())),
            p("seam_group", ParameterValue::String("seams".to_string())),
            p("use_uv", ParameterValue::Bool(true)),
        ],
        "uv",
    );
    assert_eq!(s.conn_type, ConnType::Point);
    assert_eq!(s.attr_type, AttrType::Text);
    assert_eq!(s.attribute, "piece");
    assert_eq!(s.seam_group, "seams");
    assert!(s.use_uv);
    assert_eq!(
        ConnectivityNode::class_labels(&vec![-1, 0, 12, 9_000_000_000]),
        vec!["".to_string(), "0".to_string(), "12".to_string(), "9000000000".to_string()]
    );
}

#[test]
fn material_attribute_trims_unicode_space() {
    let params = vec![p("prim_attr", ParameterValue::String("\u{3000} mat\t\u{2028}".to_string()))];
    assert_eq!(MaterialAssignNode::attribute_name(&params, "shop_materialpath"), "@mat");
    let blank = vec![p("prim_attr", ParameterValue::String(" \u{a0} ".to_string()))];
    assert_eq!(MaterialAssignNode::attribute_name(&blank, "shop_materialpath"), "@shop_materialpath");
}

#[test]
fn assign_values_writes_the_key_to_selected_primitives() {
    let sel = vec![true, false, true, false];
    assert_eq!(
        assign_values(&MaterialKey::Int(7), Some(PrimAttr::Ints(vec![1, 2, 3])), &sel),
        PrimAttr::Ints(vec![7, 2, 7, 0])
    );
    assert_eq!(
        assign_values(&MaterialKey::Int(7), Some(PrimAttr::Names(vec!["a".to_string()])), &sel),
        PrimAttr::Ints(vec![7, 0, 7, 0])
    );
    assert_eq!(assign_values(&MaterialKey::Int(7), None, &vec![false, true]), PrimAttr::Ints(vec![0, 7]));
    assert_eq!(
        assign_values(
            &MaterialKey::Name("mat".to_string()),
            Some(PrimAttr::Names(vec!["x".to_string(), "y".to_string(), "z".to_string(), "w".to_string(), "v".to_string()])),
            &sel
        ),
        PrimAttr::Names(vec!["mat".to_string(), "y".to_string(), "mat".to_string(), "w".to_string()])
    );
    assert_eq!(
        assign_values(&MaterialKey::Name("mat".to_string()), Some(PrimAttr::Ints(vec![4, 5])), &vec![false, true]),
        PrimAttr::Names(vec![String::new(), "mat".to_string()])
    );
}
