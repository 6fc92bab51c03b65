//! What the modeling nodes decide from their inputs and parameters before
//! the geometry kernels run: which boolean operation runs on which inputs,
//! the fuse and jitter settings, the points of the add node, where the
//! height map of the displacement node comes from, and how the
//! copy-to-points node splits its work and picks its forward axis.

use vstd::prelude::*;
use vstd::hash_map::StringHashMap;
use vstd::string::{StringExecFns, StrSliceExecFns};
use crate::geometry::{Geometry, GeoModel};
use crate::material::{decimal_i64, decimal_text};
use crate::params::{
    Parameter, ParameterValue, ValueModel, ParamModel, params_view, param_map, params_to_map,
    int_param, bool_param, str_param, get_int, get_bool, get_string, trim, trimmed,
};

verus! {

/// A boolean operation of the geometry kernel.
#[derive(Clone, Copy, PartialEq, Eq, Structural, Debug)]
pub enum BooleanOperation {
    Union,
    Intersection,
    Difference,
    Xor,
}

/// Whether the boolean result is made of polygons or triangles.
#[derive(Clone, Copy, PartialEq, Eq, Structural, Debug)]
pub enum OutputTopology {
    Polygons,
    Triangles,
}

/// Where the normals of the boolean result come from.
#[derive(Clone, Copy, PartialEq, Eq, Structural, Debug)]
pub enum NormalStrategy {
    TransferFromInput,
    Recompute,
}

/// The first or the second input of a two-input node.
#[derive(Clone, Copy, PartialEq, Eq, Structural, Debug)]
pub enum Side {
    A,
    B,
}

/// What the boolean node outputs: an empty geometry, a copy of one of its
/// inputs, or the result of the kernel run with `target` and `cutter`.
#[derive(Clone, Copy, PartialEq, Eq, Structural, Debug)]
pub enum BooleanOutcome {
    Empty,
    CopyInput(Side),
    Run {
        op: BooleanOperation,
        target: Side,
        cutter: Side,
        output_topology: OutputTopology,
        preserve_hard_edges: bool,
        normal_strategy: NormalStrategy,
    },
}

/// An integer entry of a parameter map, or `default`.
pub open spec fn map_int(m: Map<Seq<char>, ParameterValue>, key: Seq<char>, default: i32) -> i32 {
    if m.dom().contains(key) {
        match m[key]@ {
            ValueModel::Int(v) => v,
            _ => default,
        }
    } else {
        default
    }
}

/// A boolean entry of a parameter map, or `default`.
pub open spec fn map_bool(m: Map<Seq<char>, ParameterValue>, key: Seq<char>, default: bool) -> bool {
    if m.dom().contains(key) {
        match m[key]@ {
            ValueModel::Bool(b) => b,
            _ => default,
        }
    } else {
        default
    }
}

/// The operation and the target and cutter inputs for operation index `op`
/// (union, intersect, subtract, difference) and subtract mode `mode`
/// (A - B, B - A, both); unknown values subtract B from A.
pub open spec fn boolean_operands(op: i32, mode: i32) -> (BooleanOperation, Side, Side) {
    if op == 0 {
        (BooleanOperation::Union, Side::A, Side::B)
    } else if op == 1 {
        (BooleanOperation::Intersection, Side::A, Side::B)
    } else if op == 2 {
        if mode == 1 {
            (BooleanOperation::Difference, Side::B, Side::A)
        } else if mode == 2 {
            (BooleanOperation::Xor, Side::A, Side::B)
        } else {
            (BooleanOperation::Difference, Side::A, Side::B)
        }
    } else if op == 3 {
        (BooleanOperation::Xor, Side::A, Side::B)
    } else {
        (BooleanOperation::Difference, Side::A, Side::B)
    }
}

/// What the boolean node does with `n` inputs, whether the first two have
/// primitives, and parameters `m`.
///
/// With fewer than two inputs the first is passed through (nothing when
/// there is none). An input without primitives short-cuts the operation:
/// the union of nothing with B is B; nothing subtracted from A, or the union
/// of A with nothing, is A; anything else is empty.
pub open spec fn boolean_outcome(n: int, a_has_prims: bool, b_has_prims: bool, m: Map<Seq<char>, ParameterValue>) -> BooleanOutcome {
    let op = map_int(m, "operation"@, 2);
    let mode = map_int(m, "subtract_mode"@, 0);
    if n < 2 {
        if n == 1 {
            BooleanOutcome::CopyInput(Side::A)
        } else {
            BooleanOutcome::Empty
        }
    } else if !a_has_prims {
        if op == 0 {
            BooleanOutcome::CopyInput(Side::B)
        } else {
            BooleanOutcome::Empty
        }
    } else if !b_has_prims {
        if op == 0 || (op == 2 && mode == 0) {
            BooleanOutcome::CopyInput(Side::A)
        } else {
            BooleanOutcome::Empty
        }
    } else {
        let (o, t, c) = boolean_operands(op, mode);
        BooleanOutcome::Run {
            op: o,
            target: t,
            cutter: c,
            output_topology: if map_int(m, "output_topology"@, 0) == 0 {
                OutputTopology::Polygons
            } else {
                OutputTopology::Triangles
            },
            preserve_hard_edges: map_bool(m, "preserve_hard_edges"@, true),
            normal_strategy: if map_int(m, "normal_strategy"@, 0) == 0 {
                NormalStrategy::TransferFromInput
            } else {
                NormalStrategy::Recompute
            },
        }
    }
}

fn map_get_int(m: &StringHashMap<ParameterValue>, key: &str, default: i32) -> (r: i32)
    ensures
        r == map_int(m@, key@, default),
{
    match m.get(key) {
        Some(ParameterValue::Int(v)) => *v,
        _ => default,
    }
}

fn map_get_bool(m: &StringHashMap<ParameterValue>, key: &str, default: bool) -> (r: bool)
    ensures
        r == map_bool(m@, key@, default),
{
    match m.get(key) {
        Some(ParameterValue::Bool(b)) => *b,
        _ => default,
    }
}

/// What the boolean node does with `inputs` and the parameter map `params`
/// (the welding tolerance, a float, is read by the caller).
pub fn compute_boolean(inputs: &[Geometry], params: &StringHashMap<ParameterValue>) -> (r: BooleanOutcome)
    ensures
        r == boolean_outcome(
            inputs@.len() as int,
            inputs@.len() >= 1 && inputs@[0]@.prims.len() > 0,
            inputs@.len() >= 2 && inputs@[1]@.prims.len() > 0,
            params@,
        ),
{
    if inputs.len() < 2 {
        return if inputs.len() == 1 {
            BooleanOutcome::CopyInput(Side::A)
        } else {
            BooleanOutcome::Empty
        };
    }
    let op = map_get_int(params, "operation", 2);
    let mode = map_get_int(params, "subtract_mode", 0);
    let topo = map_get_int(params, "output_topology", 0);
    let output_topology = if topo == 0 {
        OutputTopology::Polygons
    } else {
        OutputTopology::Triangles
    };
    let preserve_hard_edges = map_get_bool(params, "preserve_hard_edges", true);
    let ns = map_get_int(params, "normal_strategy", 0);
    let normal_strategy = if ns == 0 {
        NormalStrategy::TransferFromInput
    } else {
        NormalStrategy::Recompute
    };
    if inputs[0].primitives.len() == 0 {
        return if op == 0 {
            BooleanOutcome::CopyInput(Side::B)
        } else {
            BooleanOutcome::Empty
        };
    }
    if inputs[1].primitives.len() == 0 {
        return if op == 0 || (op == 2 && mode == 0) {
            BooleanOutcome::CopyInput(Side::A)
        } else {
            BooleanOutcome::Empty
        };
    }
    let (o, t, c) = if op == 0 {
        (BooleanOperation::Union, Side::A, Side::B)
    } else if op == 1 {
        (BooleanOperation::Intersection, Side::A, Side::B)
    } else if op == 2 {
        if mode == 1 {
            (BooleanOperation::Difference, Side::B, Side::A)
        } else if mode == 2 {
            (BooleanOperation::Xor, Side::A, Side::B)
        } else {
            (BooleanOperation::Difference, Side::A, Side::B)
        }
    } else if op == 3 {
        (BooleanOperation::Xor, Side::A, Side::B)
    } else {
        (BooleanOperation::Difference, Side::A, Side::B)
    };
    BooleanOutcome::Run {
        op: o,
        target: t,
        cutter: c,
        output_topology,
        preserve_hard_edges,
        normal_strategy,
    }
}

/// The node that combines two geometries with a boolean operation.
pub struct BooleanNode;

impl BooleanNode {
    /// What the node does with `inputs` and its parameter list; a later
    /// parameter of a name replaces an earlier one.
    pub fn compute(&self, params: &[Parameter], inputs: &[Geometry]) -> (r: BooleanOutcome)
        ensures
            r == boolean_outcome(
                inputs@.len() as int,
                inputs@.len() >= 1 && inputs@[0]@.prims.len() > 0,
                inputs@.len() >= 2 && inputs@[1]@.prims.len() > 0,
                param_map(params@),
            ),
    {
        let m = params_to_map(params);
        compute_boolean(inputs, &m)
    }
}

/// How the fuse kernel places a merged point.
#[derive(Clone, Copy, PartialEq, Eq, Structural, Debug)]
pub enum FuseOutputMode {
    Average,
}

/// The settings of the fuse kernel other than the snap distance.
#[derive(Clone, Copy, PartialEq, Eq, Structural, Debug)]
pub struct FuseSettings {
    pub output_mode: FuseOutputMode,
    pub remove_unused_points: bool,
    pub remove_degenerate_prims: bool,
}

/// The node that merges points closer than a snap distance.
pub struct FuseNode;

impl FuseNode {
    /// The fuse settings read from `params`: points are averaged, and the
    /// clean-up toggles are off unless set.
    pub fn settings(params: &[Parameter]) -> (s: FuseSettings)
        ensures
            s.output_mode == FuseOutputMode::Average,
            s.remove_unused_points == bool_param(params_view(params@), "remove_unused"@, false),
            s.remove_degenerate_prims == bool_param(params_view(params@), "remove_degenerate"@, false),
    {
        FuseSettings {
            output_mode: FuseOutputMode::Average,
            remove_unused_points: get_bool(params, "remove_unused", false),
            remove_degenerate_prims: get_bool(params, "remove_degenerate", false),
        }
    }
}

/// The node that appends the points of a curve parameter to the points of
/// its input.
pub struct AddNode;

impl AddNode {
    /// The output of the add node: one point per input position followed by
    /// one per curve point, and no primitives.
    pub fn output_geometry(input_positions: usize, curve_points: usize) -> (g: Geometry)
        requires
            input_positions + curve_points <= usize::MAX,
        ensures
            g@.num_points == input_positions + curve_points,
            g@.vertices == Seq::<usize>::empty(),
            g@.prims.len() == 0,
    {
        let mut g = Geometry::new();
        let n = input_positions + curve_points;
        let mut i: usize = 0;
        while i < n
            invariant
                i <= n,
                g@.num_points == i,
                g@.vertices == Seq::<usize>::empty(),
                g@.prims.len() == 0,
            decreases n - i,
        {
            g.add_point();
            i += 1;
        }
        g
    }
}

/// The settings of the point jitter node other than its float scales.
#[derive(Clone, Debug, PartialEq, Eq)]
pub struct JitterSettings {
    pub group: String,
    pub seed: u64,
    pub update_normals: bool,
}

/// The node that moves points by a random offset.
pub struct PointJitterNode;

impl PointJitterNode {
    /// The jitter settings read from `params`: the point group with white
    /// space trimmed (empty means every point), the seed (negative seeds
    /// count as zero), and whether normals are recomputed (off by default).
    pub fn settings(params: &[Parameter]) -> (s: JitterSettings)
        ensures
            s.group@ == trimmed(str_param(params_view(params@), "group"@, ""@)),
            s.seed == (if int_param(params_view(params@), "seed"@, 0) < 0 {
                0
            } else {
                int_param(params_view(params@), "seed"@, 0)
            }),
            s.update_normals == bool_param(params_view(params@), "update_normals"@, false),
    {
        let g = get_string(params, "group", "");
        let seed = get_int(params, "seed", 0);
        JitterSettings {
            group: trim(g.as_str()),
            seed: if seed < 0 {
                0
            } else {
                seed as u64
            },
            update_normals: get_bool(params, "update_normals", false),
        }
    }

    /// The parameters of the normal node set to compute normals onto
    /// `target`: `compute_normals` becomes true and `add_normals_to` becomes
    /// `target`; every other parameter is kept.
    pub fn normal_params(params: Vec<Parameter>, target: i32) -> (r: Vec<Parameter>)
        ensures
            r@.len() == params@.len(),
            forall|i: int|
                0 <= i < r@.len() ==> (#[trigger] r@[i]).name@ == params@[i].name@ && r@[i].value@ == (if params@[i].name@
                    == "compute_normals"@ {
                    ValueModel::Bool(true)
                } else if params@[i].name@ == "add_normals_to"@ {
                    ValueModel::Int(target)
                } else {
                    params@[i].value@
                }),
    {
        let k_compute = String::from_str("compute_normals");
        let k_add = String::from_str("add_normals_to");
        let mut out: Vec<Parameter> = Vec::new();
        let mut i: usize = 0;
        while i < params.len()
            invariant
                i <= params.len(),
                k_compute@ == "compute_normals"@,
                k_add@ == "add_normals_to"@,
                out@.len() == i,
                forall|k: int|
                    0 <= k < i ==> (#[trigger] out@[k]).name@ == params@[k].name@ && out@[k].value@ == (if params@[k].name@
                        == "compute_normals"@ {
                        ValueModel::Bool(true)
                    } else if params@[k].name@ == "add_normals_to"@ {
                        ValueModel::Int(target)
                    } else {
                        params@[k].value@
                    }),
            decreases params.len() - i,
        {
            let p = &params[i];
            let value = if p.name == k_compute {
                ParameterValue::Bool(true)
            } else if p.name == k_add {
                ParameterValue::Int(target)
            } else {
                p.value.duplicate()
            };
            out.push(Parameter { name: p.name.clone(), value });
            i += 1;
        }
        out
    }
}

/// Where the displacement node's height map comes from: its `height_path`
/// parameter when that is not blank, else the first string of the input's
/// height-map detail attribute; each with surrounding white space removed.
/// `None` when both are blank or missing.
pub open spec fn height_path_source(params: Seq<ParamModel>, detail_first: Option<Seq<char>>) -> Option<Seq<char>> {
    let p = trimmed(str_param(params, "height_path"@, ""@));
    let d = match detail_first {
        Some(s) => trimmed(s),
        None => Seq::empty(),
    };
    if p.len() > 0 {
        Some(p)
    } else if trimmed(d).len() > 0 {
        Some(trimmed(d))
    } else {
        None
    }
}

/// The settings of the displacement node's remesh step.
#[derive(Clone, Copy, PartialEq, Eq, Structural, Debug)]
pub struct RemeshStep {
    pub bandwidth: i32,
    pub hard_surface: bool,
}

/// The node that displaces points along their normals by a height map.
pub struct HeightDisplaceHighPolyV2Node;

impl HeightDisplaceHighPolyV2Node {
    /// The height map to read, relative to the assets folder unless
    /// absolute: see [`height_path_source`].
    pub fn height_path(params: &[Parameter], detail_first: Option<&str>) -> (r: Option<String>)
        ensures
            r matches Some(s) ==> height_path_source(params_view(params@), match detail_first {
                Some(d) => Some(d@),
                None => None,
            }) == Some(s@),
            r is None ==> height_path_source(params_view(params@), match detail_first {
                Some(d) => Some(d@),
                None => None,
            }) is None,
    {
        let from_param = get_string(params, "height_path", "");
        let p = trim(from_param.as_str());
        if !p.as_str().is_empty() {
            return Some(p);
        }
        let v = match detail_first {
            Some(d) => trim(d),
            None => {
                let e = String::new();
                e
            },
        };
        let rel = trim(v.as_str());
        if !rel.as_str().is_empty() {
            Some(rel)
        } else {
            None
        }
    }

    /// Whether the displaced mesh is remeshed, and with which settings: the
    /// band width is clamped to `1..=64`; remeshing is on by default.
    pub fn remesh_step(params: &[Parameter]) -> (r: Option<RemeshStep>)
        ensures
            r is None <==> !bool_param(params_view(params@), "sdf_remesh"@, true),
            r matches Some(s) ==> s.hard_surface == bool_param(params_view(params@), "hard_surface"@, false)
                && s.bandwidth == (if int_param(params_view(params@), "bandwidth"@, 3) < 1 {
                    1
                } else if int_param(params_view(params@), "bandwidth"@, 3) > 64 {
                    64
                } else {
                    int_param(params_view(params@), "bandwidth"@, 3)
                }),
    {
        if !get_bool(params, "sdf_remesh", true) {
            return None;
        }
        let b = get_int(params, "bandwidth", 3);
        let bandwidth = if b < 1 {
            1
        } else if b > 64 {
            64
        } else {
            b
        };
        Some(RemeshStep { bandwidth, hard_surface: get_bool(params, "hard_surface", false) })
    }
}

/// A unit axis: which coordinate, and whether it points the negative way.
#[derive(Clone, Copy, PartialEq, Eq, Structural, Debug)]
pub struct Axis {
    /// 0 for x, 1 for y, 2 for z.
    pub coord: u8,
    pub negative: bool,
}

/// The node that copies its first input onto the points of its second.
pub struct CopyToPointsNode;

/// The number of copies built per work chunk: fewer for a heavier source
/// (its points, vertices and primitives together), never more than the
/// number of copies, and at least one.
pub open spec fn chunk_size_spec(complexity: int, copies: int) -> int {
    let base: int = if complexity >= 120_000 {
        8
    } else if complexity >= 40_000 {
        12
    } else if complexity >= 12_000 {
        16
    } else if complexity >= 4_000 {
        24
    } else {
        48
    };
    let cap: int = if copies < 1 {
        1
    } else {
        copies
    };
    if base < cap {
        base
    } else {
        cap
    }
}

impl CopyToPointsNode {
    /// How many copies of `source` are built per work chunk (see
    /// `chunk_size_spec`).
    pub fn recommend_chunk_size(source: &Geometry, copies: usize) -> (r: usize)
        ensures
            r == chunk_size_spec((source@.num_points + source@.vertices.len() + source@.prims.len()) as int, copies as int),
            1 <= r <= 48,
    {
        let a = source.num_points;
        let b = source.vertices.len();
        let c = source.primitives.len();
        let complexity: u128 = a as u128 + b as u128 + c as u128;
        let base: usize = if complexity >= 120_000 {
            8
        } else if complexity >= 40_000 {
            12
        } else if complexity >= 12_000 {
            16
        } else if complexity >= 4_000 {
            24
        } else {
            48
        };
        let cap = if copies < 1 {
            1
        } else {
            copies
        };
        if base < cap {
            base
        } else {
            cap
        }
    }

    /// The forward axis chosen by its number: x, y, z, then their
    /// negatives; z for any other number.
    pub fn axis_from_choice(choice: i32) -> (a: Axis)
        ensures
            a == (match choice {
                0 => Axis { coord: 0, negative: false },
                1 => Axis { coord: 1, negative: false },
                3 => Axis { coord: 0, negative: true },
                4 => Axis { coord: 1, negative: true },
                5 => Axis { coord: 2, negative: true },
                _ => Axis { coord: 2, negative: false },
            }),
    {
        match choice {
            0 => Axis { coord: 0, negative: false },
            1 => Axis { coord: 1, negative: false },
            2 => Axis { coord: 2, negative: false },
            3 => Axis { coord: 0, negative: true },
            4 => Axis { coord: 1, negative: true },
            5 => Axis { coord: 2, negative: true },
            _ => Axis { coord: 2, negative: false },
        }
    }

    /// The forward axis parameter, `forward_axis`, 2 (z) by default.
    pub fn forward_axis(params: &[Parameter]) -> (a: Axis)
        ensures
            a == (match int_param(params_view(params@), "forward_axis"@, 2) {
                0 => Axis { coord: 0, negative: false },
                1 => Axis { coord: 1, negative: false },
                3 => Axis { coord: 0, negative: true },
                4 => Axis { coord: 1, negative: true },
                5 => Axis { coord: 2, negative: true },
                _ => Axis { coord: 2, negative: false },
            }),
    {
        Self::axis_from_choice(get_int(params, "forward_axis", 2))
    }
}

/// The attribute named by `name` for the frame node: `name` trimmed, with
/// `@` in front unless it starts with one; `default_attr` when blank.
pub open spec fn frame_attribute_spec(name: Seq<char>, default_attr: Seq<char>) -> Seq<char> {
    let n = trimmed(name);
    if n.len() == 0 {
        default_attr
    } else if n[0] == '@' {
        n
    } else {
        seq!['@'] + n
    }
}

/// The node that writes a frame (tangent, bitangent, normal) per element.
pub struct PolyFrameNode;

impl PolyFrameNode {
    /// The attribute a frame vector is written to (see
    /// `frame_attribute_spec`); `default_attr` is the normal attribute.
    pub fn attribute_name(name: &str, default_attr: &str) -> (r: String)
        ensures
            r@ == frame_attribute_spec(name@, default_attr@),
    {
        let n = trim(name);
        let len = n.as_str().unicode_len();
        if len == 0 {
            String::from_str(default_attr)
        } else if n.as_str().get_char(0) == '@' {
            n
        } else {
            proof {
                reveal_strlit("@");
            }
            let mut r = String::from_str("@");
            r.append(n.as_str());
            assert(r@ =~= seq!['@'] + trimmed(name@));
            r
        }
    }
}

/// Which elements the connectivity node classifies.
#[derive(Clone, Copy, PartialEq, Eq, Structural, Debug)]
pub enum ConnType {
    Point,
    Primitive,
}

/// How the connectivity node stores its classes.
#[derive(Clone, Copy, PartialEq, Eq, Structural, Debug)]
pub enum AttrType {
    Integer,
    Text,
}

/// What the connectivity node reads from its parameters: what it
/// classifies, how it stores the classes, under which attribute, over which
/// group, and which seam group and UV attribute split pieces.
pub struct ConnectivitySettings {
    pub conn_type: ConnType,
    pub attr_type: AttrType,
    pub include_group: String,
    pub attribute: String,
    pub seam_group: String,
    pub use_uv: bool,
    pub uv_attribute: String,
}

/// The node that labels the connected pieces of a geometry.
pub struct ConnectivityNode;

impl ConnectivityNode {
    /// The settings of `params`: points for connectivity type 0, else
    /// primitives; text classes for attribute type 1, else integers; the
    /// attribute `class`, and the UV attribute `uv_default`, unless named.
    pub fn settings(params: &[Parameter], uv_default: &str) -> (s: ConnectivitySettings)
        ensures
            s.conn_type == if int_param(params_view(params@), "connectivity_type"@, 1) == 0 {
                ConnType::Point
            } else {
                ConnType::Primitive
            },
            s.attr_type == if int_param(params_view(params@), "attribute_type"@, 0) == 1 {
                AttrType::Text
            } else {
                AttrType::Integer
            },
            s.include_group@ == str_param(params_view(params@), "include_group"@, ""@),
            s.attribute@ == str_param(params_view(params@), "attribute"@, "class"@),
            s.seam_group@ == str_param(params_view(params@), "seam_group"@, ""@),
            s.use_uv == bool_param(params_view(params@), "use_uv"@, false),
            s.uv_attribute@ == str_param(params_view(params@), "uv_attribute"@, uv_default@),
    {
        let conn_type = if get_int(params, "connectivity_type", 1) == 0 {
            ConnType::Point
        } else {
            ConnType::Primitive
        };
        let attr_type = if get_int(params, "attribute_type", 0) == 1 {
            AttrType::Text
        } else {
            AttrType::Integer
        };
        ConnectivitySettings {
            conn_type,
            attr_type,
            include_group: get_string(params, "include_group", ""),
            attribute: get_string(params, "attribute", "class"),
            seam_group: get_string(params, "seam_group", ""),
            use_uv: get_bool(params, "use_uv", false),
            uv_attribute: get_string(params, "uv_attribute", uv_default),
        }
    }

    /// The text classes of the pieces `ids`: the decimal number of each
    /// class, empty for an element in no class (a negative id).
    pub fn class_labels(ids: &Vec<i64>) -> (r: Vec<String>)
        ensures
            r@.len() == ids@.len(),
            forall|i: int| 0 <= i < ids@.len() ==> #[trigger] r@[i]@ == if ids@[i] < 0 {
                Seq::<char>::empty()
            } else {
                decimal_text(ids@[i] as int)
            },
    {
        let mut out: Vec<String> = Vec::new();
        let mut i: usize = 0;
        while i < ids.len()
            invariant
                i <= ids@.len(),
                out@.len() == i,
                forall|t: int| 0 <= t < i ==> #[trigger] out@[t]@ == if ids@[t] < 0 {
                    Seq::<char>::empty()
                } else {
                    decimal_text(ids@[t] as int)
                },
            decreases ids.len() - i,
        {
            let v = ids[i];
            let label = if v < 0 {
                String::new()
            } else {
                decimal_i64(v)
            };
            out.push(label);
            i += 1;
        }
        out
    }
}

} // verus!
