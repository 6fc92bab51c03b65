use cunning3d::io_nodes::{
    compute_fbx_import, input_style, node_style, FileNode, InputStyle, NodeStyle,
};
use cunning3d::params::{params_to_map, Parameter, ParameterValue};
use cunning3d::registry::{
    get_registry, FbxImporter, FileImporter, FileMetadata, GltfImporter, ImporterKind,
    ImporterRegistry, ObjImporter, PlyImporter, StlImporter, VoxImporter,
};

#[test]
fn supported_extensions_in_registration_order() {
    let reg = get_registry();
    assert_eq!(
        reg.supported_extensions(),
        vec!["fbx", "obj", "gltf", "glb", "stl", "ply", "vox"]
    );
}

#[test]
fn importer_extensions() {
    assert_eq!(FbxImporter.extensions(), &["fbx"]);
    assert_eq!(ObjImporter.extensions(), &["obj"]);
    assert_eq!(GltfImporter.extensions(), &["gltf", "glb"]);
    assert_eq!(StlImporter.extensions(), &["stl"]);
    assert_eq!(PlyImporter.extensions(), &["ply"]);
    assert_eq!(VoxImporter.extensions(), &["vox"]);
    assert_eq!(ImporterKind::Gltf.extensions(), &["gltf", "glb"]);
}

#[test]
fn import_picks_importer_by_extension_ignoring_case() {
    let reg = ImporterRegistry::new();
    assert_eq!(reg.import("models/cube.OBJ"), Ok(ImporterKind::Obj));
    assert_eq!(reg.import("a/b/scene.GlB"), Ok(ImporterKind::Gltf));
    assert_eq!(reg.import("scene.gltf"), Ok(ImporterKind::Gltf));
    assert_eq!(reg.import("part.stl"), Ok(ImporterKind::Stl));
    assert_eq!(reg.import("scan.PLY"), Ok(ImporterKind::Ply));
    assert_eq!(reg.import("castle.vox"), Ok(ImporterKind::Vox));
    assert_eq!(reg.import("archive.tar.FBX"), Ok(ImporterKind::Fbx));
}

#[test]
fn import_unsupported_extension_is_an_error() {
    let reg = get_registry();
    assert_eq!(reg.import("mesh.3DS"), Err("Unsupported format: 3ds".to_string()));
    assert_eq!(reg.import("no_extension"), Err("Unsupported format: ".to_string()));
    assert_eq!(reg.import(".obj"), Err("Unsupported format: ".to_string()));
    assert_eq!(reg.import("model.XYZ"), Err("Unsupported format: xyz".to_string()));
    assert_eq!(reg.import("A.OBJ"), Ok(ImporterKind::Obj));
    assert_eq!(reg.import("trailing."), Err("Unsupported format: ".to_string()));
}

#[test]
fn importer_for_extension_lowercases() {
    let reg = get_registry();
    assert_eq!(reg.importer_for_extension("PLY"), Ok(ImporterKind::Ply));
    assert_eq!(reg.importer_for_extension("Obj"), Ok(ImporterKind::Obj));
    assert_eq!(
        reg.importer_for_extension("DAE"),
        Err("Unsupported format: dae".to_string())
    );
}

#[test]
fn peek_reports_nothing() {
    let reg = get_registry();
    assert_eq!(reg.peek("a.obj"), None);
    assert_eq!(reg.peek("a.xyz"), None);
    assert_eq!(reg.peek("noext"), None);
    assert_eq!(VoxImporter.peek("x.vox"), None);
}

#[test]
fn file_metadata_default_is_empty() {
    let m = FileMetadata::default();
    assert_eq!(m.point_count, 0);
    assert_eq!(m.primitive_count, 0);
    assert!(!m.has_uv && !m.has_normals && !m.has_colors);
}

#[test]
fn file_node_styles() {
    assert_eq!(node_style(), NodeStyle::Normal);
    assert_eq!(input_style(), InputStyle::Individual);
}

#[test]
fn file_node_filters_are_the_registry_extensions() {
    let f = FileNode::file_filters(&get_registry());
    assert_eq!(f, vec!["fbx", "obj", "gltf", "glb", "stl", "ply", "vox"]);
}

#[test]
fn file_node_requested_path() {
    let node = FileNode;
    let p = vec![Parameter::new("file_path", ParameterValue::String("meshes/a.obj".to_string()))];
    assert_eq!(node.requested_path(&p), Some("meshes/a.obj".to_string()));
    let empty = vec![Parameter::new("file_path", ParameterValue::String(String::new()))];
    assert_eq!(node.requested_path(&empty), None);
    let wrong_kind = vec![Parameter::new("file_path", ParameterValue::Int(3))];
    assert_eq!(node.requested_path(&wrong_kind), None);
    assert_eq!(node.requested_path(&[]), None);
    let first_wins = vec![
        Parameter::new("file_path", ParameterValue::String("first.obj".to_string())),
        Parameter::new("file_path", ParameterValue::String("second.obj".to_string())),
    ];
    assert_eq!(node.requested_path(&first_wins), Some("first.obj".to_string()));
}

#[test]
fn fbx_import_path_from_parameter_map() {
    let m = params_to_map(&[Parameter::new("path", ParameterValue::String("a.fbx".to_string()))]);
    assert_eq!(compute_fbx_import(&m), Some("a.fbx".to_string()));
    let m = params_to_map(&[Parameter::new("path", ParameterValue::String(String::new()))]);
    assert_eq!(compute_fbx_import(&m), None);
    let m = params_to_map(&[Parameter::new("path", ParameterValue::Bool(true))]);
    assert_eq!(compute_fbx_import(&m), None);
    let m = params_to_map(&[]);
    assert_eq!(compute_fbx_import(&m), None);
    let m = params_to_map(&[
        Parameter::new("path", ParameterValue::String("old.fbx".to_string())),
        Parameter::new("path", ParameterValue::String("new.fbx".to_string())),
    ]);
    assert_eq!(compute_fbx_import(&m), Some("new.fbx".to_string()));
}

#[test]
fn import_chooses_by_the_file_name_after_the_last_slash() {
    let reg = ImporterRegistry::new();
    assert_eq!(reg.import("dir/A.OBJ"), Ok(ImporterKind::Obj));
    assert_eq!(reg.import("/abs/path/scene.glb"), Ok(ImporterKind::Gltf));
    assert_eq!(reg.import("/abs/path/model.XYZ"), Err("Unsupported format: xyz".to_string()));
    assert_eq!(reg.import("some.dir/no_extension"), Err("Unsupported format: ".to_string()));
    assert_eq!(reg.import("a/b/.hidden"), Err("Unsupported format: ".to_string()));
}
