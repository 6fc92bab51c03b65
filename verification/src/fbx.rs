//! FBX geometry: finding the geometry nodes of an FBX node tree, reading
//! their vertex, polygon and UV arrays, and building polygons from the
//! polygon-vertex index list, where a negative index `i` stands for point
//! `-(i + 1)` and ends a polygon.

use vstd::prelude::*;
use vstd::string::StringExecFns;
use crate::geometry::{Geometry, GeoModel, Primitive, PrimModel, geo_wf};
use crate::registry::FbxImporter;

verus! {

/// The first attribute of an FBX node, as far as the geometry reader cares:
/// an array of `f64` (known by an identifier the caller keeps, and its
/// length), an array of `i32`, or anything else.
#[derive(Clone, Debug, PartialEq, Eq)]
pub enum FbxAttribute {
    F64Array { id: usize, len: usize },
    I32Array(Vec<i32>),
    Other,
}

/// A node of an FBX tree.
pub struct FbxNode {
    pub name: String,
    pub attributes: Vec<FbxAttribute>,
    pub children: Vec<FbxNode>,
}

/// What a geometry node holds: the `f64` arrays whose complete triples are
/// the point positions, the polygon-vertex indices, the `f64` arrays whose
/// complete pairs are the UVs, and the UV indices.
#[derive(Clone, Debug, PartialEq, Eq)]
pub struct FbxData {
    pub position_arrays: Vec<(usize, usize)>,
    pub point_count: usize,
    pub indices: Vec<i32>,
    pub uv_arrays: Vec<(usize, usize)>,
    pub uv_count: usize,
    pub uv_indices: Vec<i32>,
}

/// Abstract value of what a geometry node holds.
pub struct DataModel {
    pub positions: Seq<(usize, usize)>,
    pub point_count: nat,
    pub indices: Seq<i32>,
    pub uvs: Seq<(usize, usize)>,
    pub uv_count: nat,
    pub uv_indices: Seq<i32>,
}

impl View for FbxData {
    type V = DataModel;

    open spec fn view(&self) -> DataModel {
        DataModel {
            positions: self.position_arrays@,
            point_count: self.point_count as nat,
            indices: self.indices@,
            uvs: self.uv_arrays@,
            uv_count: self.uv_count as nat,
            uv_indices: self.uv_indices@,
        }
    }
}

pub open spec fn name_vertices() -> Seq<char> {
    seq!['V', 'e', 'r', 't', 'i', 'c', 'e', 's']
}

pub open spec fn name_polygon_vertex_index() -> Seq<char> {
    seq![
        'P', 'o', 'l', 'y', 'g', 'o', 'n', 'V', 'e', 'r', 't', 'e', 'x', 'I', 'n', 'd', 'e', 'x',
    ]
}

pub open spec fn name_layer_element_uv() -> Seq<char> {
    seq!['L', 'a', 'y', 'e', 'r', 'E', 'l', 'e', 'm', 'e', 'n', 't', 'U', 'V']
}

pub open spec fn name_uv() -> Seq<char> {
    seq!['U', 'V']
}

pub open spec fn name_uv_index() -> Seq<char> {
    seq!['U', 'V', 'I', 'n', 'd', 'e', 'x']
}

pub open spec fn name_objects() -> Seq<char> {
    seq!['O', 'b', 'j', 'e', 'c', 't', 's']
}

pub open spec fn name_geometry() -> Seq<char> {
    seq!['G', 'e', 'o', 'm', 'e', 't', 'r', 'y']
}

/// The `f64` array that is the first attribute of `n`, if it is one.
pub open spec fn first_f64(n: FbxNode) -> Option<(usize, usize)> {
    if n.attributes@.len() > 0 {
        match n.attributes@[0] {
            FbxAttribute::F64Array { id, len } => Some((id, len)),
            _ => None,
        }
    } else {
        None
    }
}

/// The `i32` array that is the first attribute of `n`, if it is one.
pub open spec fn first_i32(n: FbxNode) -> Option<Seq<i32>> {
    if n.attributes@.len() > 0 {
        match n.attributes@[0] {
            FbxAttribute::I32Array(v) => Some(v@),
            _ => None,
        }
    } else {
        None
    }
}

/// `d` after the children `uvc` of a `LayerElementUV` node: a `UV` child
/// adds its array of pairs, a `UVIndex` child replaces the UV indices.
pub open spec fn uv_layer_step(d: DataModel, uvc: Seq<FbxNode>) -> DataModel
    decreases uvc.len(),
{
    if uvc.len() == 0 {
        d
    } else {
        let d0 = uv_layer_step(d, uvc.drop_last());
        let s = uvc.last();
        if s.name@ == name_uv() {
            match first_f64(s) {
                Some(a) => DataModel { uvs: d0.uvs.push(a), uv_count: (d0.uv_count + a.1 / 2) as nat, ..d0 },
                None => d0,
            }
        } else if s.name@ == name_uv_index() {
            match first_i32(s) {
                Some(v) => DataModel { uv_indices: v, ..d0 },
                None => d0,
            }
        } else {
            d0
        }
    }
}

/// `d` after one child `c` of a geometry node.
pub open spec fn geometry_child_step(d: DataModel, c: FbxNode) -> DataModel {
    if c.name@ == name_vertices() {
        match first_f64(c) {
            Some(a) => DataModel {
                positions: d.positions.push(a),
                point_count: (d.point_count + a.1 / 3) as nat,
                ..d
            },
            None => d,
        }
    } else if c.name@ == name_polygon_vertex_index() {
        match first_i32(c) {
            Some(v) => DataModel { indices: v, ..d },
            None => d,
        }
    } else if c.name@ == name_layer_element_uv() {
        uv_layer_step(d, c.children@)
    } else {
        d
    }
}

/// What a geometry node's children `cs` hold, read in order.
pub open spec fn geometry_children(cs: Seq<FbxNode>) -> DataModel
    decreases cs.len(),
{
    if cs.len() == 0 {
        DataModel {
            positions: Seq::empty(),
            point_count: 0,
            indices: Seq::empty(),
            uvs: Seq::empty(),
            uv_count: 0,
            uv_indices: Seq::empty(),
        }
    } else {
        geometry_child_step(geometry_children(cs.drop_last()), cs.last())
    }
}

/// The error text for a geometry node without points.
pub open spec fn no_vertices() -> Seq<char> {
    seq!['N', 'o', ' ', 'v', 'e', 'r', 't', 'i', 'c', 'e', 's']
}

/// The error text for a geometry node without polygon indices.
pub open spec fn no_indices() -> Seq<char> {
    seq!['N', 'o', ' ', 'i', 'n', 'd', 'i', 'c', 'e', 's']
}

/// What the geometry node `n` holds, or why it cannot be used.
pub open spec fn parse_geometry(n: FbxNode) -> Result<DataModel, Seq<char>> {
    let d = geometry_children(n.children@);
    if d.point_count == 0 {
        Err(no_vertices())
    } else if d.indices.len() == 0 {
        Err(no_indices())
    } else {
        Ok(d)
    }
}

/// Whether `s` reads as `t`.
fn same_text(s: &String, t: &String) -> (r: bool)
    ensures
        r == (s@ == t@),
{
    *s == *t
}

/// The first attribute of `n` when it is an `f64` array.
fn first_f64_of(n: &FbxNode) -> (r: Option<(usize, usize)>)
    ensures
        r == first_f64(*n),
{
    if n.attributes.len() > 0 {
        match &n.attributes[0] {
            FbxAttribute::F64Array { id, len } => Some((*id, *len)),
            _ => None,
        }
    } else {
        None
    }
}

/// A copy of the first attribute of `n` when it is an `i32` array.
fn first_i32_of(n: &FbxNode) -> (r: Option<Vec<i32>>)
    ensures
        r matches Some(v) ==> first_i32(*n) == Some(v@),
        r is None ==> first_i32(*n) is None,
{
    if n.attributes.len() > 0 {
        match &n.attributes[0] {
            FbxAttribute::I32Array(v) => Some(v.clone()),
            _ => None,
        }
    } else {
        None
    }
}

proof fn lemma_uv_layer_mono(d: DataModel, uvc: Seq<FbxNode>)
    ensures
        uv_layer_step(d, uvc).point_count == d.point_count,
        uv_layer_step(d, uvc).uv_count >= d.uv_count,
    decreases uvc.len(),
{
    if uvc.len() > 0 {
        lemma_uv_layer_mono(d, uvc.drop_last());
    }
}

proof fn lemma_uv_layer_prefix(d: DataModel, uvc: Seq<FbxNode>, i: int)
    requires
        0 <= i <= uvc.len(),
    ensures
        uv_layer_step(d, uvc.take(i)).uv_count <= uv_layer_step(d, uvc).uv_count,
    decreases uvc.len() - i,
{
    if i < uvc.len() {
        lemma_uv_layer_prefix(d, uvc, i + 1);
        assert(uvc.take(i + 1).drop_last() =~= uvc.take(i));
    } else {
        assert(uvc.take(i) =~= uvc);
    }
}

proof fn lemma_children_step_mono(d: DataModel, c: FbxNode)
    ensures
        geometry_child_step(d, c).point_count >= d.point_count,
        geometry_child_step(d, c).uv_count >= d.uv_count,
{
    lemma_uv_layer_mono(d, c.children@);
}

proof fn lemma_children_prefix(cs: Seq<FbxNode>, i: int)
    requires
        0 <= i <= cs.len(),
    ensures
        geometry_children(cs.take(i)).point_count <= geometry_children(cs).point_count,
        geometry_children(cs.take(i)).uv_count <= geometry_children(cs).uv_count,
    decreases cs.len() - i,
{
    if i < cs.len() {
        lemma_children_prefix(cs, i + 1);
        assert(cs.take(i + 1).drop_last() =~= cs.take(i));
        lemma_children_step_mono(geometry_children(cs.take(i)), cs[i]);
    } else {
        assert(cs.take(i) =~= cs);
    }
}

/// Reads the children of a `LayerElementUV` node into `d`.
fn read_uv_layer(d: &mut FbxData, layer: &FbxNode, k_uv: &String, k_uv_index: &String)
    requires
        k_uv@ == name_uv(),
        k_uv_index@ == name_uv_index(),
        uv_layer_step(old(d)@, layer.children@).uv_count <= usize::MAX,
    ensures
        final(d)@ == uv_layer_step(old(d)@, layer.children@),
{
    let ghost d0 = d@;
    let mut j: usize = 0;
    assert(layer.children@.take(0) =~= Seq::<FbxNode>::empty());
    while j < layer.children.len()
        invariant
            j <= layer.children.len(),
            k_uv@ == name_uv(),
            k_uv_index@ == name_uv_index(),
            uv_layer_step(d0, layer.children@).uv_count <= usize::MAX,
            d@ == uv_layer_step(d0, layer.children@.take(j as int)),
        decreases layer.children.len() - j,
    {
        let s = &layer.children[j];
        proof {
            assert(layer.children@.take(j + 1).drop_last() =~= layer.children@.take(j as int));
            lemma_uv_layer_prefix(d0, layer.children@, j + 1);
        }
        if same_text(&s.name, k_uv) {
            match first_f64_of(s) {
                Some(a) => {
                    d.uv_arrays.push(a);
                    d.uv_count = d.uv_count + a.1 / 2;
                },
                None => {},
            }
        } else if same_text(&s.name, k_uv_index) {
            match first_i32_of(s) {
                Some(v) => {
                    d.uv_indices = v;
                },
                None => {},
            }
        }
        j += 1;
    }
    assert(layer.children@.take(j as int) =~= layer.children@);
}

/// What the geometry node `node` holds; an error when it gives no complete
/// point (`No vertices`) or no polygon indices (`No indices`).
///
/// A `Vertices` child adds the complete triples of its array to the points;
/// a `PolygonVertexIndex` child sets the polygon indices; the `UV` children
/// of a `LayerElementUV` child add the complete pairs of their arrays to the
/// UVs, and its `UVIndex` children set the UV indices. Only a child's first
/// attribute is read, and a later child of the same kind replaces an index
/// list.
pub fn parse_geometry_node(node: &FbxNode) -> (r: Result<FbxData, String>)
    requires
        geometry_children(node.children@).point_count <= usize::MAX,
        geometry_children(node.children@).uv_count <= usize::MAX,
    ensures
        r matches Ok(d) ==> parse_geometry(*node) == Ok::<DataModel, Seq<char>>(d@),
        r matches Err(e) ==> parse_geometry(*node) == Err::<DataModel, Seq<char>>(e@),
{
    let k_vertices = String::from_str("Vertices");
    let k_pvi = String::from_str("PolygonVertexIndex");
    let k_layer = String::from_str("LayerElementUV");
    let k_uv = String::from_str("UV");
    let k_uv_index = String::from_str("UVIndex");
    proof {
        reveal_strlit("Vertices");
        reveal_strlit("PolygonVertexIndex");
        reveal_strlit("LayerElementUV");
        reveal_strlit("UV");
        reveal_strlit("UVIndex");
        assert(k_vertices@ =~= name_vertices());
        assert(k_pvi@ =~= name_polygon_vertex_index());
        assert(k_layer@ =~= name_layer_element_uv());
        assert(k_uv@ =~= name_uv());
        assert(k_uv_index@ =~= name_uv_index());
    }
    let mut d = FbxData {
        position_arrays: Vec::new(),
        point_count: 0,
        indices: Vec::new(),
        uv_arrays: Vec::new(),
        uv_count: 0,
        uv_indices: Vec::new(),
    };
    let ghost cs = node.children@;
    proof {
        assert(cs.take(0) =~= Seq::<FbxNode>::empty());
        assert(d@ == geometry_children(cs.take(0)));
    }
    let mut i: usize = 0;
    while i < node.children.len()
        invariant
            i <= node.children.len(),
            cs == node.children@,
            k_vertices@ == name_vertices(),
            k_pvi@ == name_polygon_vertex_index(),
            k_layer@ == name_layer_element_uv(),
            k_uv@ == name_uv(),
            k_uv_index@ == name_uv_index(),
            geometry_children(cs).point_count <= usize::MAX,
            geometry_children(cs).uv_count <= usize::MAX,
            d@ == geometry_children(cs.take(i as int)),
        decreases node.children.len() - i,
    {
        let c = &node.children[i];
        proof {
            assert(cs.take(i + 1).drop_last() =~= cs.take(i as int));
            lemma_children_prefix(cs, i + 1);
        }
        if same_text(&c.name, &k_vertices) {
            match first_f64_of(c) {
                Some(a) => {
                    d.position_arrays.push(a);
                    d.point_count = d.point_count + a.1 / 3;
                },
                None => {},
            }
        } else if same_text(&c.name, &k_pvi) {
            match first_i32_of(c) {
                Some(v) => {
                    d.indices = v;
                },
                None => {},
            }
        } else if same_text(&c.name, &k_layer) {
            read_uv_layer(&mut d, c, &k_uv, &k_uv_index);
        }
        i += 1;
    }
    proof {
        assert(cs.take(i as int) =~= cs);
    }
    if d.point_count == 0 {
        let e = String::from_str("No vertices");
        proof {
            reveal_strlit("No vertices");
            assert(e@ =~= no_vertices());
        }
        return Err(e);
    }
    if d.indices.len() == 0 {
        let e = String::from_str("No indices");
        proof {
            reveal_strlit("No indices");
            assert(e@ =~= no_indices());
        }
        return Err(e);
    }
    Ok(d)
}

/// The point an entry of the polygon-vertex index list names: a negative
/// entry `i` names point `-(i + 1)`.
pub open spec fn fbx_point(idx: i32) -> int {
    if idx < 0 {
        -(idx + 1)
    } else {
        idx as int
    }
}

/// The UV of the `vi`-th vertex read from a geometry node with data `d`, as
/// an index into all UVs read so far (`uv_base` of them came before this
/// node), or `None` for the zero UV: through the UV index list when there is
/// one (index 0 past its end), else the `vi`-th UV.
pub open spec fn uv_ref(d: DataModel, vi: int, uv_base: int) -> Option<usize> {
    if d.uv_count == 0 {
        None
    } else {
        let i: int = if d.uv_indices.len() > 0 {
            if vi < d.uv_indices.len() {
                d.uv_indices[vi] as int
            } else {
                0
            }
        } else {
            vi
        };
        if 0 <= i < d.uv_count {
            Some((uv_base + i) as usize)
        } else {
            None
        }
    }
}

/// The state of an FBX import: the geometry so far, the vertices of the
/// polygon being read, how many vertices this node added, the UV of each
/// vertex, the data of each geometry node used, and how many UVs they hold.
pub struct ImportState {
    pub geo: GeoModel,
    pub poly: Seq<usize>,
    pub vi: int,
    pub uvs: Seq<Option<usize>>,
    pub meshes: Seq<DataModel>,
    pub uv_total: int,
}

/// The state after one entry `idx` of the polygon-vertex index list of a
/// node with data `d` whose points start at `pt_off`: a vertex when the entry
/// names a point of this node, and, when the entry is negative and the
/// polygon has three vertices or more, that polygon. (A negative entry that
/// closes fewer than three vertices leaves them to the next polygon.)
pub open spec fn index_step(s: ImportState, pt_off: int, d: DataModel, idx: i32) -> ImportState {
    let ai = fbx_point(idx) + pt_off;
    let s1 = if ai < s.geo.num_points {
        ImportState {
            geo: GeoModel { vertices: s.geo.vertices.push(ai as usize), ..s.geo },
            poly: s.poly.push(s.geo.vertices.len() as usize),
            vi: s.vi + 1,
            uvs: s.uvs.push(uv_ref(d, s.vi, s.uv_total)),
            ..s
        }
    } else {
        s
    };
    if idx < 0 && s1.poly.len() >= 3 {
        ImportState {
            geo: GeoModel { prims: s1.geo.prims.push(PrimModel::Polygon(s1.poly)), ..s1.geo },
            poly: Seq::empty(),
            ..s1
        }
    } else {
        s1
    }
}

/// The state after the first `n` entries of `d`'s index list.
pub open spec fn indices_prefix(s: ImportState, pt_off: int, d: DataModel, n: int) -> ImportState
    decreases n,
{
    if n <= 0 {
        s
    } else {
        index_step(indices_prefix(s, pt_off, d, n - 1), pt_off, d, d.indices[n - 1])
    }
}

/// The state after a geometry node with data `d`: its points are added,
/// then its index list is read.
pub open spec fn mesh_step(s: ImportState, d: DataModel) -> ImportState {
    let pt_off = s.geo.num_points as int;
    let s1 = ImportState {
        geo: GeoModel { num_points: (s.geo.num_points + d.point_count) as nat, ..s.geo },
        poly: Seq::empty(),
        vi: 0,
        ..s
    };
    let s2 = indices_prefix(s1, pt_off, d, d.indices.len() as int);
    ImportState { meshes: s2.meshes.push(d), uv_total: s2.uv_total + d.uv_count, ..s2 }
}

/// The state after the first `n` children of the `Objects` node: each
/// `Geometry` child that can be used is added.
pub open spec fn objects_prefix(s: ImportState, cs: Seq<FbxNode>, n: int) -> ImportState
    decreases n,
{
    if n <= 0 {
        s
    } else {
        let s0 = objects_prefix(s, cs, n - 1);
        let c = cs[n - 1];
        if c.name@ == name_geometry() {
            match parse_geometry(c) {
                Ok(d) => mesh_step(s0, d),
                Err(_) => s0,
            }
        } else {
            s0
        }
    }
}

/// The first of `cs` named `name`.
pub open spec fn find_child(cs: Seq<FbxNode>, name: Seq<char>) -> Option<FbxNode>
    decreases cs.len(),
{
    if cs.len() == 0 {
        None
    } else if cs[0].name@ == name {
        Some(cs[0])
    } else {
        find_child(cs.drop_first(), name)
    }
}

/// The state before anything is read.
pub open spec fn initial_state() -> ImportState {
    ImportState {
        geo: GeoModel { num_points: 0, vertices: Seq::empty(), prims: Seq::empty() },
        poly: Seq::empty(),
        vi: 0,
        uvs: Seq::empty(),
        meshes: Seq::empty(),
        uv_total: 0,
    }
}

/// The import of the FBX tree with root `root`: the geometry nodes under
/// the first `Objects` child of the root, read in order.
pub open spec fn fbx_tree(root: FbxNode) -> ImportState {
    match find_child(root.children@, name_objects()) {
        Some(o) => objects_prefix(initial_state(), o.children@, o.children@.len() as int),
        None => initial_state(),
    }
}

/// Every geometry node under the `Objects` node has counts that fit, and so
/// do the totals of the import.
pub open spec fn fbx_fits(root: FbxNode) -> bool {
    &&& fbx_tree(root).geo.num_points <= usize::MAX
    &&& fbx_tree(root).uv_total <= usize::MAX
    &&& forall|o: FbxNode, i: int|
        find_child(root.children@, name_objects()) == Some(o) && 0 <= i < o.children@.len()
            ==> #[trigger] geometry_children(o.children@[i].children@).point_count <= usize::MAX
            && geometry_children(o.children@[i].children@).uv_count <= usize::MAX
}

/// The result of an FBX import: the geometry, the data of each geometry node
/// used (in order), and for each vertex the index of its UV among the UVs of
/// those nodes, or `None` for the zero UV.
#[derive(Clone, Debug, PartialEq, Eq)]
pub struct FbxImport {
    pub geometry: Geometry,
    pub meshes: Vec<FbxData>,
    pub vertex_uvs: Vec<Option<usize>>,
}

/// The UV reference of the `vi`-th vertex of a node with data `d`.
fn uv_ref_of(d: &FbxData, vi: usize, uv_base: usize) -> (r: Option<usize>)
    requires
        uv_base + d.uv_count <= usize::MAX,
    ensures
        r == uv_ref(d@, vi as int, uv_base as int),
{
    if d.uv_count == 0 {
        return None;
    }
    if d.uv_indices.len() > 0 {
        let i: i32 = if vi < d.uv_indices.len() {
            d.uv_indices[vi]
        } else {
            0
        };
        if 0 <= i && (i as usize) < d.uv_count {
            Some(uv_base + i as usize)
        } else {
            None
        }
    } else {
        if vi < d.uv_count {
            Some(uv_base + vi)
        } else {
            None
        }
    }
}

proof fn lemma_indices_prefix_mono(s: ImportState, pt_off: int, d: DataModel, n: int)
    ensures
        indices_prefix(s, pt_off, d, n).geo.num_points == s.geo.num_points,
        indices_prefix(s, pt_off, d, n).uv_total == s.uv_total,
        indices_prefix(s, pt_off, d, n).meshes == s.meshes,
    decreases n,
{
    if n > 0 {
        lemma_indices_prefix_mono(s, pt_off, d, n - 1);
    }
}

proof fn lemma_objects_prefix_mono(s: ImportState, cs: Seq<FbxNode>, n: int, m: int)
    requires
        0 <= n <= m,
    ensures
        objects_prefix(s, cs, n).geo.num_points <= objects_prefix(s, cs, m).geo.num_points,
        objects_prefix(s, cs, n).uv_total <= objects_prefix(s, cs, m).uv_total,
    decreases m - n,
{
    if n < m {
        lemma_objects_prefix_mono(s, cs, n, m - 1);
        let s0 = objects_prefix(s, cs, m - 1);
        match parse_geometry(cs[m - 1]) {
            Ok(d) => {
                let s1 = ImportState {
                    geo: GeoModel { num_points: (s0.geo.num_points + d.point_count) as nat, ..s0.geo },
                    poly: Seq::empty(),
                    vi: 0,
                    ..s0
                };
                lemma_indices_prefix_mono(s1, s0.geo.num_points as int, d, d.indices.len() as int);
            },
            Err(_) => {},
        }
    }
}

proof fn lemma_find_child_step(cs: Seq<FbxNode>, name: Seq<char>, i: int)
    requires
        0 <= i < cs.len(),
        cs[i].name@ != name,
    ensures
        find_child(cs.skip(i), name) == find_child(cs.skip(i + 1), name),
{
    assert(cs.skip(i).drop_first() =~= cs.skip(i + 1));
}

/// The position of the first of `cs` named `name`.
fn find_child_index(cs: &Vec<FbxNode>, name: &String) -> (r: Option<usize>)
    ensures
        r matches Some(i) ==> i < cs@.len() && find_child(cs@, name@) == Some(cs@[i as int]),
        r is None ==> find_child(cs@, name@) is None,
{
    let mut i: usize = 0;
    assert(cs@.skip(0) =~= cs@);
    while i < cs.len()
        invariant
            i <= cs.len(),
            find_child(cs@.skip(i as int), name@) == find_child(cs@, name@),
        decreases cs.len() - i,
    {
        if same_text(&cs[i].name, name) {
            assert(cs@.skip(i as int)[0] == cs@[i as int]);
            return Some(i);
        }
        proof {
            lemma_find_child_step(cs@, name@, i as int);
        }
        i += 1;
    }
    assert(cs@.skip(i as int).len() == 0);
    None
}

/// Adds the points and polygons of one geometry node with data `d`, whose
/// UVs come after `uv_total` earlier ones, and the UV reference of each new
/// vertex.
fn add_mesh(geo: &mut Geometry, uvs: &mut Vec<Option<usize>>, d: &FbxData, uv_total: usize, Ghost(meshes): Ghost<Seq<DataModel>>)
    requires
        old(geo)@.num_points + d.point_count <= usize::MAX,
        uv_total + d.uv_count <= usize::MAX,
        geo_wf(old(geo)@),
        old(uvs)@.len() == old(geo)@.vertices.len(),
    ensures
        geo_wf(final(geo)@),
        final(uvs)@.len() == final(geo)@.vertices.len(),
        ({
            let s = ImportState {
                geo: old(geo)@,
                poly: Seq::empty(),
                vi: 0,
                uvs: old(uvs)@,
                meshes: meshes,
                uv_total: uv_total as int,
            };
            let t = mesh_step(s, d@);
            final(geo)@ == t.geo && final(uvs)@ == t.uvs
        }),
{
    let ghost s = ImportState {
        geo: geo@,
        poly: Seq::empty(),
        vi: 0,
        uvs: uvs@,
        meshes: meshes,
        uv_total: uv_total as int,
    };
    let pt_off = geo.num_points;
    geo.num_points = pt_off + d.point_count;
    let ghost s1 = ImportState {
        geo: GeoModel { num_points: (s.geo.num_points + d@.point_count) as nat, ..s.geo },
        poly: Seq::empty(),
        vi: 0,
        ..s
    };
    assert(geo@ == s1.geo);
    let mut poly: Vec<usize> = Vec::new();
    let mut vi: usize = 0;
    let mut j: usize = 0;
    while j < d.indices.len()
        invariant
            j <= d.indices.len(),
            pt_off <= geo@.num_points,
            uv_total + d.uv_count <= usize::MAX,
            s1.uv_total == uv_total,
            s1.geo.num_points == geo@.num_points,
            pt_off == s.geo.num_points,
            vi <= geo@.vertices.len(),
            geo_wf(geo@),
            uvs@.len() == geo@.vertices.len(),
            forall|k: int| 0 <= k < poly@.len() ==> #[trigger] poly@[k] < geo@.vertices.len(),
            ({
                let t = indices_prefix(s1, pt_off as int, d@, j as int);
                &&& geo@ == t.geo
                &&& poly@ == t.poly
                &&& vi == t.vi
                &&& uvs@ == t.uvs
                &&& t.uv_total == uv_total
                &&& t.geo.num_points == s1.geo.num_points
            }),
        decreases d.indices.len() - j,
    {
        let idx = d.indices[j];
        let a: usize = if idx < 0 {
            (-(idx + 1)) as usize
        } else {
            idx as usize
        };
        if a < geo.num_points - pt_off {
            let vid = geo.add_vertex(a + pt_off);
            poly.push(vid);
            let u = uv_ref_of(d, vi, uv_total);
            uvs.push(u);
            assert(vi < geo.vertices.len());
            vi = vi + 1;
        }
        if idx < 0 && poly.len() >= 3 {
            geo.add_primitive(Primitive::Polygon { vertices: poly });
            poly = Vec::new();
        }
        proof {
            let t0 = indices_prefix(s1, pt_off as int, d@, j as int);
            let t1 = indices_prefix(s1, pt_off as int, d@, j + 1);
            assert(t1 == index_step(t0, pt_off as int, d@, d@.indices[j as int]));
            assert(geo@ =~= t1.geo);
            assert(poly@ =~= t1.poly);
            assert(uvs@ =~= t1.uvs);
        }
        j += 1;
    }
}

impl FbxImporter {
    /// Builds the geometry of an FBX tree: the geometry nodes under the
    /// first `Objects` child of the root, in order, each that can be used
    /// adding its points, its polygons and its vertices' UV references.
    pub fn build_geometry(root: &FbxNode) -> (r: FbxImport)
        requires
            fbx_fits(*root),
        ensures
            r.geometry@ == fbx_tree(*root).geo,
            r.vertex_uvs@ == fbx_tree(*root).uvs,
            r.meshes@.map_values(|d: FbxData| d@) == fbx_tree(*root).meshes,
            geo_wf(r.geometry@),
            r.vertex_uvs@.len() == r.geometry@.vertices.len(),
    {
        let k_objects = String::from_str("Objects");
        let k_geometry = String::from_str("Geometry");
        proof {
            reveal_strlit("Objects");
            reveal_strlit("Geometry");
            assert(k_objects@ =~= name_objects());
            assert(k_geometry@ =~= name_geometry());
        }
        let mut geo = Geometry::new();
        let mut meshes: Vec<FbxData> = Vec::new();
        let mut uvs: Vec<Option<usize>> = Vec::new();
        let mut uv_total: usize = 0;
        proof {
            assert(geo@ =~= initial_state().geo);
            assert(uvs@ =~= initial_state().uvs);
            assert(meshes@.map_values(|d: FbxData| d@) =~= initial_state().meshes);
        }
        match find_child_index(&root.children, &k_objects) {
            None => {},
            Some(oi) => {
                let o = &root.children[oi];
                let ghost cs = o.children@;
                let mut i: usize = 0;
                while i < o.children.len()
                    invariant
                        i <= o.children.len(),
                        cs == o.children@,
                        k_geometry@ == name_geometry(),
                        find_child(root.children@, name_objects()) == Some(*o),
                        fbx_fits(*root),
                        fbx_tree(*root) == objects_prefix(initial_state(), cs, cs.len() as int),
                        geo_wf(geo@),
                        uvs@.len() == geo@.vertices.len(),
                        ({
                            let t = objects_prefix(initial_state(), cs, i as int);
                            &&& geo@ == t.geo
                            &&& uvs@ == t.uvs
                            &&& meshes@.map_values(|d: FbxData| d@) == t.meshes
                            &&& uv_total == t.uv_total
                        }),
                    decreases o.children.len() - i,
                {
                    let c = &o.children[i];
                    proof {
                        lemma_objects_prefix_mono(initial_state(), cs, i + 1, cs.len() as int);
                        assert(geometry_children(cs[i as int].children@).point_count <= usize::MAX);
                    }
                    if same_text(&c.name, &k_geometry) {
                        match parse_geometry_node(c) {
                            Ok(d) => {
                                let ghost t = objects_prefix(initial_state(), cs, i as int);
                                let ghost s1 = ImportState {
                                    geo: GeoModel { num_points: (t.geo.num_points + d@.point_count) as nat, ..t.geo },
                                    poly: Seq::empty(),
                                    vi: 0,
                                    ..t
                                };
                                proof {
                                    lemma_indices_prefix_mono(s1, t.geo.num_points as int, d@, d@.indices.len() as int);
                                }
                                add_mesh(&mut geo, &mut uvs, &d, uv_total, Ghost(t.meshes));
                                uv_total = uv_total + d.uv_count;
                                meshes.push(d);
                                proof {
                                    assert(meshes@.map_values(|d: FbxData| d@) =~= objects_prefix(initial_state(), cs, i + 1).meshes);
                                }
                            },
                            Err(_) => {},
                        }
                    }
                    i += 1;
                }
            },
        }
        FbxImport { geometry: geo, meshes, vertex_uvs: uvs }
    }
}

} // verus!
