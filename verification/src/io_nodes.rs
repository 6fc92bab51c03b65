//! The file-import nodes: what they read from their parameters and which file
//! they ask an importer to read.

use vstd::prelude::*;
use vstd::hash_map::StringHashMap;
use vstd::string::StringExecFns;
use crate::params::{Parameter, ParameterValue, ValueModel, params_view, str_param, get_string};
use crate::registry::{ImporterRegistry, all_extensions, str_views};

verus! {

/// How a node is drawn in the graph editor.
#[derive(Clone, Copy, PartialEq, Eq, Structural, Debug)]
pub enum NodeStyle {
    Normal,
}

/// How a node's inputs are laid out.
#[derive(Clone, Copy, PartialEq, Eq, Structural, Debug)]
pub enum InputStyle {
    Individual,
    NamedPorts,
}

/// The file node is drawn as an ordinary node.
pub fn node_style() -> (s: NodeStyle)
    ensures
        s == NodeStyle::Normal,
{
    NodeStyle::Normal
}

/// The file node takes its inputs one by one.
pub fn input_style() -> (s: InputStyle)
    ensures
        s == InputStyle::Individual,
{
    InputStyle::Individual
}

/// The node that imports a file of any format the registry reads.
pub struct FileNode;

/// The characters of `file_path`.
pub open spec fn file_path_name() -> Seq<char> {
    seq!['f', 'i', 'l', 'e', '_', 'p', 'a', 't', 'h']
}

/// The file a file node with parameters `params` imports: its `file_path`
/// string parameter, if that is not empty.
pub open spec fn file_node_request(params: Seq<crate::params::ParamModel>) -> Option<Seq<char>> {
    let p = str_param(params, file_path_name(), Seq::empty());
    if p.len() == 0 {
        None
    } else {
        Some(p)
    }
}

impl FileNode {
    /// The file filters the node offers: every extension the registry reads.
    pub fn file_filters(registry: &ImporterRegistry) -> (r: Vec<String>)
        ensures
            r@.map_values(|s: String| s@) == all_extensions(registry@.importers),
    {
        let exts = registry.supported_extensions();
        let mut out: Vec<String> = Vec::new();
        let mut i: usize = 0;
        while i < exts.len()
            invariant
                i <= exts.len(),
                str_views(exts@) == all_extensions(registry@.importers),
                out.len() == i,
                forall|k: int| 0 <= k < i ==> #[trigger] out@[k]@ == exts@[k]@,
            decreases exts.len() - i,
        {
            out.push(String::from_str(exts[i]));
            i += 1;
        }
        proof {
            assert(out@.map_values(|s: String| s@) =~= str_views(exts@));
        }
        out
    }

    /// The path the node imports, or `None` when its `file_path` parameter is
    /// empty, missing or not a string (the node then outputs an empty
    /// geometry).
    pub fn requested_path(&self, params: &[Parameter]) -> (r: Option<String>)
        ensures
            r matches Some(s) ==> file_node_request(params_view(params@)) == Some(s@),
            r is None ==> file_node_request(params_view(params@)) is None,
    {
        let p = get_string(params, "file_path", "");
        proof {
            reveal_strlit("file_path");
            reveal_strlit("");
            assert("file_path"@ =~= file_path_name());
        }
        if p.as_str().is_empty() {
            None
        } else {
            Some(p)
        }
    }
}

/// The node that imports an FBX file.
pub struct FbxImporterNode;

/// The characters of `path`.
pub open spec fn path_name() -> Seq<char> {
    seq!['p', 'a', 't', 'h']
}

/// The file the FBX import reads for a parameter map: the `path` entry when
/// it is a non-empty string.
pub open spec fn fbx_request(params: Map<Seq<char>, ParameterValue>) -> Option<Seq<char>> {
    if params.dom().contains(path_name()) {
        match params[path_name()]@ {
            ValueModel::Str(s) => if s.len() == 0 {
                None
            } else {
                Some(s)
            },
            _ => None,
        }
    } else {
        None
    }
}

/// The FBX file to import for the parameters `params`, or `None` when the
/// `path` entry is missing, not a string or empty (the result is then an
/// empty geometry, as it is when the importer fails).
pub fn compute_fbx_import(params: &StringHashMap<ParameterValue>) -> (r: Option<String>)
    ensures
        r matches Some(s) ==> fbx_request(params@) == Some(s@),
        r is None ==> fbx_request(params@) is None,
{
    proof {
        reveal_strlit("path");
        assert("path"@ =~= path_name());
    }
    match params.get("path") {
        Some(ParameterValue::String(s)) => {
            if s.as_str().is_empty() {
                None
            } else {
                Some(s.clone())
            }
        },
        _ => None,
    }
}

/// The image extensions offered when picking a texture file.
pub open spec fn texture_extensions() -> Seq<Seq<char>> {
    seq![
        seq!['p', 'n', 'g'],
        seq!['j', 'p', 'g'],
        seq!['j', 'p', 'e', 'g'],
        seq!['t', 'g', 'a'],
        seq!['b', 'm', 'p'],
        seq!['h', 'd', 'r'],
        seq!['e', 'x', 'r'],
        seq!['k', 't', 'x', '2'],
        seq!['d', 'd', 's'],
    ]
}

/// The file filters of texture parameters.
pub fn tex_filters() -> (r: Vec<String>)
    ensures
        r@.map_values(|s: String| s@) == texture_extensions(),
{
    let names: [&str; 9] = ["png", "jpg", "jpeg", "tga", "bmp", "hdr", "exr", "ktx2", "dds"];
    proof {
        reveal_strlit("png");
        reveal_strlit("jpg");
        reveal_strlit("jpeg");
        reveal_strlit("tga");
        reveal_strlit("bmp");
        reveal_strlit("hdr");
        reveal_strlit("exr");
        reveal_strlit("ktx2");
        reveal_strlit("dds");
    }
    let mut out: Vec<String> = Vec::new();
    let mut i: usize = 0;
    while i < 9
        invariant
            i <= 9,
            names@ == seq!["png", "jpg", "jpeg", "tga", "bmp", "hdr", "exr", "ktx2", "dds"],
            out@.len() == i,
            forall|k: int| 0 <= k < i ==> #[trigger] out@[k]@ == names@[k]@,
        decreases 9 - i,
    {
        out.push(String::from_str(names[i]));
        i += 1;
    }
    proof {
        assert(names@[0]@ =~= texture_extensions()[0]);
        assert(names@[1]@ =~= texture_extensions()[1]);
        assert(names@[2]@ =~= texture_extensions()[2]);
        assert(names@[3]@ =~= texture_extensions()[3]);
        assert(names@[4]@ =~= texture_extensions()[4]);
        assert(names@[5]@ =~= texture_extensions()[5]);
        assert(names@[6]@ =~= texture_extensions()[6]);
        assert(names@[7]@ =~= texture_extensions()[7]);
        assert(names@[8]@ =~= texture_extensions()[8]);
        assert(out@.map_values(|s: String| s@) =~= texture_extensions());
    }
    out
}

} // verus!
