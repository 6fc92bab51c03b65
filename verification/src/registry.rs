//! The registry of file importers: which importer reads a file is decided by
//! the file's extension, compared without regard to case.

use vstd::prelude::*;
use vstd::hash_map::StringHashMap;
use vstd::string::StringExecFns;

verus! {

/// What an importer can tell about a file without reading it whole.
#[derive(Clone, Debug, PartialEq, Eq)]
pub struct FileMetadata {
    pub point_count: usize,
    pub primitive_count: usize,
    pub has_uv: bool,
    pub has_normals: bool,
    pub has_colors: bool,
}

impl Default for FileMetadata {
    fn default() -> (m: FileMetadata)
        ensures
            m.point_count == 0,
            m.primitive_count == 0,
            !m.has_uv,
            !m.has_normals,
            !m.has_colors,
    {
        FileMetadata {
            point_count: 0,
            primitive_count: 0,
            has_uv: false,
            has_normals: false,
            has_colors: false,
        }
    }
}

/// The character sequences of a list of string slices.
pub open spec fn str_views(s: Seq<&str>) -> Seq<Seq<char>> {
    s.map_values(|x: &str| x@)
}

/// An importer of one file format.
pub trait FileImporter {
    /// The extensions this importer reads, in the order it lists them.
    spec fn spec_extensions(&self) -> Seq<Seq<char>>;

    /// The extensions this importer reads.
    fn extensions(&self) -> (r: &'static [&'static str])
        ensures
            str_views(r@) == self.spec_extensions(),
    ;

    /// A quick look at a file; importers that cannot tell without reading
    /// the whole file give nothing.
    fn peek(&self, path: &str) -> (r: Option<FileMetadata>)
        default_ensures
            r is None,
    {
        None
    }
}

/// Reads Autodesk FBX files.
pub struct FbxImporter;

/// Reads Wavefront OBJ files.
pub struct ObjImporter;

/// Reads glTF files, text or binary.
pub struct GltfImporter;

/// Reads STL files.
pub struct StlImporter;

/// Reads PLY files.
pub struct PlyImporter;

/// Reads MagicaVoxel files.
pub struct VoxImporter;

impl FileImporter for FbxImporter {
    open spec fn spec_extensions(&self) -> Seq<Seq<char>> {
        seq![seq!['f', 'b', 'x']]
    }

    fn extensions(&self) -> (r: &'static [&'static str]) {
        let r: &'static [&'static str] = &["fbx"];
        proof {
            reveal_strlit("fbx");
            assert(r@[0]@ == seq!['f', 'b', 'x']);
            assert(str_views(r@) =~= self.spec_extensions());
        }
        r
    }
}

impl FileImporter for ObjImporter {
    open spec fn spec_extensions(&self) -> Seq<Seq<char>> {
        seq![seq!['o', 'b', 'j']]
    }

    fn extensions(&self) -> (r: &'static [&'static str]) {
        let r: &'static [&'static str] = &["obj"];
        proof {
            reveal_strlit("obj");
            assert(r@[0]@ == seq!['o', 'b', 'j']);
            assert(str_views(r@) =~= self.spec_extensions());
        }
        r
    }
}

impl FileImporter for GltfImporter {
    open spec fn spec_extensions(&self) -> Seq<Seq<char>> {
        seq![seq!['g', 'l', 't', 'f'], seq!['g', 'l', 'b']]
    }

    fn extensions(&self) -> (r: &'static [&'static str]) {
        let r: &'static [&'static str] = &["gltf", "glb"];
        proof {
            reveal_strlit("gltf");
            reveal_strlit("glb");
            assert(r@[0]@ == seq!['g', 'l', 't', 'f']);
            assert(r@[1]@ == seq!['g', 'l', 'b']);
            assert(str_views(r@) =~= self.spec_extensions());
        }
        r
    }
}

impl FileImporter for StlImporter {
    open spec fn spec_extensions(&self) -> Seq<Seq<char>> {
        seq![seq!['s', 't', 'l']]
    }

    fn extensions(&self) -> (r: &'static [&'static str]) {
        let r: &'static [&'static str] = &["stl"];
        proof {
            reveal_strlit("stl");
            assert(r@[0]@ == seq!['s', 't', 'l']);
            assert(str_views(r@) =~= self.spec_extensions());
        }
        r
    }
}

impl FileImporter for PlyImporter {
    open spec fn spec_extensions(&self) -> Seq<Seq<char>> {
        seq![seq!['p', 'l', 'y']]
    }

    fn extensions(&self) -> (r: &'static [&'static str]) {
        let r: &'static [&'static str] = &["ply"];
        proof {
            reveal_strlit("ply");
            assert(r@[0]@ == seq!['p', 'l', 'y']);
            assert(str_views(r@) =~= self.spec_extensions());
        }
        r
    }
}

impl FileImporter for VoxImporter {
    open spec fn spec_extensions(&self) -> Seq<Seq<char>> {
        seq![seq!['v', 'o', 'x']]
    }

    fn extensions(&self) -> (r: &'static [&'static str]) {
        let r: &'static [&'static str] = &["vox"];
        proof {
            reveal_strlit("vox");
            assert(r@[0]@ == seq!['v', 'o', 'x']);
            assert(str_views(r@) =~= self.spec_extensions());
        }
        r
    }
}

/// One of the importers the registry holds.
#[derive(Clone, Copy, PartialEq, Eq, Structural, Debug)]
pub enum ImporterKind {
    Fbx,
    Obj,
    Gltf,
    Stl,
    Ply,
    Vox,
}

impl ImporterKind {
    /// The extensions the importer of this kind reads.
    pub open spec fn spec_extensions(self) -> Seq<Seq<char>> {
        match self {
            ImporterKind::Fbx => FbxImporter.spec_extensions(),
            ImporterKind::Obj => ObjImporter.spec_extensions(),
            ImporterKind::Gltf => GltfImporter.spec_extensions(),
            ImporterKind::Stl => StlImporter.spec_extensions(),
            ImporterKind::Ply => PlyImporter.spec_extensions(),
            ImporterKind::Vox => VoxImporter.spec_extensions(),
        }
    }

    /// The extensions the importer of this kind reads.
    pub fn extensions(&self) -> (r: &'static [&'static str])
        ensures
            str_views(r@) == self.spec_extensions(),
    {
        match self {
            ImporterKind::Fbx => FbxImporter.extensions(),
            ImporterKind::Obj => ObjImporter.extensions(),
            ImporterKind::Gltf => GltfImporter.extensions(),
            ImporterKind::Stl => StlImporter.extensions(),
            ImporterKind::Ply => PlyImporter.extensions(),
            ImporterKind::Vox => VoxImporter.extensions(),
        }
    }

    /// The quick look of the importer of this kind.
    pub fn peek(&self, path: &str) -> (r: Option<FileMetadata>)
        ensures
            r is None,
    {
        match self {
            ImporterKind::Fbx => FbxImporter.peek(path),
            ImporterKind::Obj => ObjImporter.peek(path),
            ImporterKind::Gltf => GltfImporter.peek(path),
            ImporterKind::Stl => StlImporter.peek(path),
            ImporterKind::Ply => PlyImporter.peek(path),
            ImporterKind::Vox => VoxImporter.peek(path),
        }
    }
}

/// What `str::to_lowercase` gives for a string: each character replaced by
/// its lowercase mapping as Unicode defines it.
pub uninterp spec fn lowercase(s: Seq<char>) -> Seq<char>;

/// A character with the ASCII letters `A` to `Z` turned into `a` to `z`.
pub open spec fn ascii_lower_char(c: char) -> char {
    if 'A' <= c && c <= 'Z' {
        ((c as u32) + 32) as char
    } else {
        c
    }
}

/// A text with every ASCII capital letter turned into its small letter and
/// every other character kept.
pub open spec fn ascii_lower(s: Seq<char>) -> Seq<char> {
    s.map_values(|c: char| ascii_lower_char(c))
}

/// `str::to_lowercase`. In general its result is named, not described; on
/// a text of ASCII characters alone, whose Unicode lowercase mappings are
/// those of ASCII, it turns `A` to `Z` into `a` to `z` and keeps every other
/// character.
#[verifier::external_body]
fn to_lowercase(s: &str) -> (r: String)
    ensures
        r@ == lowercase(s@),
        vstd::utf8::is_ascii_chars(s@) ==> r@ == ascii_lower(s@),
{
    s.to_lowercase()
}

/// Whether `e` can be what `Path::extension` gives for `path` (with the empty
/// text standing for no extension): an extension follows a `.` in the path
/// and holds no `.` itself.
pub open spec fn possible_extension(path: Seq<char>, e: Seq<char>) -> bool {
    ||| e.len() == 0
    ||| !e.contains('.') && exists|i: int|
        0 <= i && i + e.len() + 1 <= path.len() && #[trigger] path.subrange(i, i + e.len() + 1)
            == seq!['.'] + e
}

/// Whether `s` is a bare file name on every platform: no slash, backslash
/// or colon in it, and neither `.` nor `..`.
pub open spec fn plain_name(s: Seq<char>) -> bool {
    &&& !s.contains('/')
    &&& !s.contains('\\')
    &&& !s.contains(':')
    &&& s != seq!['.']
    &&& s != seq!['.', '.']
}

/// The index of the last `.` among the first `n` characters of `s`, or -1.
pub open spec fn last_dot(s: Seq<char>, n: int) -> int
    decreases n,
{
    if n <= 0 {
        -1
    } else if s[n - 1] == '.' {
        n - 1
    } else {
        last_dot(s, n - 1)
    }
}

/// The index of the last `/` among the first `n` characters of `s`, or -1.
pub open spec fn last_slash(s: Seq<char>, n: int) -> int
    decreases n,
{
    if n <= 0 {
        -1
    } else if s[n - 1] == '/' {
        n - 1
    } else {
        last_slash(s, n - 1)
    }
}

/// The text of `s` after its last `/` (all of `s` when it has none).
pub open spec fn file_part(s: Seq<char>) -> Seq<char> {
    s.subrange(last_slash(s, s.len() as int) + 1, s.len() as int)
}

/// Whether the file name of path `s` is the text after its last `/` on
/// every platform: `s` holds no backslash or colon (so no Windows prefix or
/// other separator), does not start with two slashes (a network share),
/// does not end in a slash, and that text is a bare file name (so neither
/// `.` nor `..`).
pub open spec fn slash_path(s: Seq<char>) -> bool {
    &&& !s.contains('\\')
    &&& !s.contains(':')
    &&& !(s.len() >= 2 && s[0] == '/' && s[1] == '/')
    &&& !(s.len() > 0 && s[s.len() - 1] == '/')
    &&& plain_name(file_part(s))
}

/// The extension of a bare file name: the text after its last `.`, when
/// that `.` is not its first character; none otherwise.
pub open spec fn name_extension(s: Seq<char>) -> Option<Seq<char>> {
    let d = last_dot(s, s.len() as int);
    if d >= 1 {
        Some(s.subrange(d + 1, s.len() as int))
    } else {
        None
    }
}

/// `Path::extension` of `path`, as text. As its documentation says, the
/// extension is what follows the last `.` of the file name, so it holds no
/// `.` and stands in `path` right after a `.`; a name with no `.` after its
/// first character has none. The file name is the last component of the
/// path; `/` separates components on every platform, so for a path that
/// `slash_path` admits the file name is `file_part` and the extension is
/// `name_extension` of it. For other paths (with backslashes, drive or
/// share prefixes, a trailing slash, or ending in `.` or `..`), which part
/// is the file name depends on the platform and is not stated beyond the
/// first clause.
#[verifier::external_body]
fn path_extension(path: &str) -> (r: Option<String>)
    ensures
        r matches Some(e) ==> possible_extension(path@, e@),
        slash_path(path@) ==> match r {
            Some(e) => name_extension(file_part(path@)) == Some(e@),
            None => name_extension(file_part(path@)) is None,
        },
{
    match std::path::Path::new(path).extension() {
        Some(e) => match e.to_str() {
            Some(t) => Some(t.to_string()),
            None => None,
        },
        None => None,
    }
}

/// The extension looked up for a file: its extension, or the empty text
/// when it has none.
pub open spec fn ext_or_empty(e: Option<Seq<char>>) -> Seq<char> {
    match e {
        Some(t) => t,
        None => Seq::empty(),
    }
}

/// Abstract value of a registry: its importers in registration order, and
/// the importer index registered for each lowercased extension.
pub struct RegistryModel {
    pub importers: Seq<ImporterKind>,
    pub extension_map: Map<Seq<char>, usize>,
}

/// Every extension maps to a registered importer.
pub open spec fn registry_wf(m: RegistryModel) -> bool {
    forall|k: Seq<char>| #[trigger]
        m.extension_map.dom().contains(k) ==> m.extension_map[k] < m.importers.len()
}

/// `m` with each of `exts`, lowercased, mapped to `idx`, in order.
pub open spec fn insert_keys(m: Map<Seq<char>, usize>, exts: Seq<Seq<char>>, idx: usize) -> Map<
    Seq<char>,
    usize,
>
    decreases exts.len(),
{
    if exts.len() == 0 {
        m
    } else {
        insert_keys(m, exts.drop_last(), idx).insert(lowercase(exts.last()), idx)
    }
}

/// `m` after registering an importer of kind `k`.
pub open spec fn registered(m: RegistryModel, k: ImporterKind) -> RegistryModel {
    RegistryModel {
        importers: m.importers.push(k),
        extension_map: insert_keys(m.extension_map, k.spec_extensions(), m.importers.len() as usize),
    }
}

/// The registry with every importer of this crate, in the order FBX, OBJ,
/// glTF, STL, PLY, VOX.
pub open spec fn default_registry() -> RegistryModel {
    let empty = RegistryModel { importers: Seq::empty(), extension_map: Map::empty() };
    registered(
        registered(
            registered(
                registered(
                    registered(registered(empty, ImporterKind::Fbx), ImporterKind::Obj),
                    ImporterKind::Gltf,
                ),
                ImporterKind::Stl,
            ),
            ImporterKind::Ply,
        ),
        ImporterKind::Vox,
    )
}

/// The extensions of all `importers`, in order.
pub open spec fn all_extensions(importers: Seq<ImporterKind>) -> Seq<Seq<char>>
    decreases importers.len(),
{
    if importers.len() == 0 {
        Seq::empty()
    } else {
        all_extensions(importers.drop_last()) + importers.last().spec_extensions()
    }
}

/// The text of the error for an extension no importer reads.
pub open spec fn unsupported_prefix() -> Seq<char> {
    seq![
        'U', 'n', 's', 'u', 'p', 'p', 'o', 'r', 't', 'e', 'd', ' ', 'f', 'o', 'r', 'm', 'a', 't', ':', ' ',
    ]
}

/// The importer registered under the lowercased extension `key`, or the
/// error text naming `key`.
pub open spec fn resolve_key(m: RegistryModel, key: Seq<char>) -> Result<ImporterKind, Seq<char>> {
    if m.extension_map.dom().contains(key) {
        Ok(m.importers[m.extension_map[key] as int])
    } else {
        Err(unsupported_prefix() + key)
    }
}

/// The importer registered for extension `ext`, compared in lowercase, or the
/// error text naming the lowercased extension.
pub open spec fn resolve(m: RegistryModel, ext: Seq<char>) -> Result<ImporterKind, Seq<char>> {
    resolve_key(m, lowercase(ext))
}

/// Where the registry of this crate's importers sends a lowercased
/// extension: to the importer that lists it, or to the error naming it.
pub open spec fn builtin_route(key: Seq<char>) -> Result<ImporterKind, Seq<char>> {
    if ImporterKind::Fbx.spec_extensions().contains(key) {
        Ok(ImporterKind::Fbx)
    } else if ImporterKind::Obj.spec_extensions().contains(key) {
        Ok(ImporterKind::Obj)
    } else if ImporterKind::Gltf.spec_extensions().contains(key) {
        Ok(ImporterKind::Gltf)
    } else if ImporterKind::Stl.spec_extensions().contains(key) {
        Ok(ImporterKind::Stl)
    } else if ImporterKind::Ply.spec_extensions().contains(key) {
        Ok(ImporterKind::Ply)
    } else if ImporterKind::Vox.spec_extensions().contains(key) {
        Ok(ImporterKind::Vox)
    } else {
        Err(unsupported_prefix() + key)
    }
}

/// Every extension of importers of kind `k` is its own lowercase.
spec fn lower_fixed(k: ImporterKind) -> bool {
    forall|i: int|
        0 <= i < k.spec_extensions().len() ==> lowercase(#[trigger] k.spec_extensions()[i])
            == k.spec_extensions()[i]
}

/// The extensions of this crate's importers are small ASCII letters.
proof fn lemma_builtin_ascii(k: ImporterKind)
    ensures
        forall|i: int|
            0 <= i < k.spec_extensions().len() ==> vstd::utf8::is_ascii_chars(
                #[trigger] k.spec_extensions()[i],
            ) && ascii_lower(k.spec_extensions()[i]) == k.spec_extensions()[i],
{
    assert forall|i: int| 0 <= i < k.spec_extensions().len() implies vstd::utf8::is_ascii_chars(
        #[trigger] k.spec_extensions()[i],
    ) && ascii_lower(k.spec_extensions()[i]) == k.spec_extensions()[i] by {
        let e = k.spec_extensions()[i];
        assert(ascii_lower(e) =~= e);
    }
}

/// A result with its error text as characters.
pub open spec fn result_view(r: Result<ImporterKind, String>) -> Result<ImporterKind, Seq<char>> {
    match r {
        Ok(k) => Ok(k),
        Err(s) => Err(s@),
    }
}

proof fn lemma_insert_keys_values(m: Map<Seq<char>, usize>, exts: Seq<Seq<char>>, idx: usize)
    ensures
        forall|k: Seq<char>| #[trigger]
            insert_keys(m, exts, idx).dom().contains(k) ==> insert_keys(m, exts, idx)[k] == idx
                || (m.dom().contains(k) && insert_keys(m, exts, idx)[k] == m[k]),
    decreases exts.len(),
{
    if exts.len() > 0 {
        lemma_insert_keys_values(m, exts.drop_last(), idx);
        let prev = insert_keys(m, exts.drop_last(), idx);
        assert forall|k: Seq<char>| #[trigger]
            insert_keys(m, exts, idx).dom().contains(k) implies insert_keys(m, exts, idx)[k] == idx
                || (m.dom().contains(k) && insert_keys(m, exts, idx)[k] == m[k]) by {
            if k != lowercase(exts.last()) {
                assert(prev.dom().contains(k));
            }
        }
    }
}

proof fn lemma_registered_wf(m: RegistryModel, k: ImporterKind)
    requires
        registry_wf(m),
        m.importers.len() < usize::MAX,
    ensures
        registry_wf(registered(m, k)),
{
    lemma_insert_keys_values(m.extension_map, k.spec_extensions(), m.importers.len() as usize);
}

/// The file importers, found by extension.
pub struct ImporterRegistry {
    importers: Vec<ImporterKind>,
    extension_map: StringHashMap<usize>,
}

impl View for ImporterRegistry {
    type V = RegistryModel;

    closed spec fn view(&self) -> RegistryModel {
        RegistryModel { importers: self.importers@, extension_map: self.extension_map@ }
    }
}

impl ImporterRegistry {
    /// The registry holds an importer for every extension it maps.
    pub open spec fn wf(&self) -> bool {
        registry_wf(self@)
    }

    /// A registry with every importer of this crate.
    pub fn new() -> (r: ImporterRegistry)
        ensures
            r@ == default_registry(),
            r.wf(),
            forall|key: Seq<char>| #[trigger] resolve_key(r@, key) == builtin_route(key),
    {
        let mut reg = ImporterRegistry { importers: Vec::new(), extension_map: StringHashMap::new() };
        let ghost m0 = reg@;
        proof {
            assert(reg@.importers =~= Seq::<ImporterKind>::empty());
        }
        reg.register(ImporterKind::Fbx);
        reg.register(ImporterKind::Obj);
        reg.register(ImporterKind::Gltf);
        reg.register(ImporterKind::Stl);
        reg.register(ImporterKind::Ply);
        reg.register(ImporterKind::Vox);
        proof {
            let m1 = registered(m0, ImporterKind::Fbx);
            let m2 = registered(m1, ImporterKind::Obj);
            let m3 = registered(m2, ImporterKind::Gltf);
            let m4 = registered(m3, ImporterKind::Stl);
            let m5 = registered(m4, ImporterKind::Ply);
            lemma_registered_wf(m0, ImporterKind::Fbx);
            lemma_registered_wf(m1, ImporterKind::Obj);
            lemma_registered_wf(m2, ImporterKind::Gltf);
            lemma_registered_wf(m3, ImporterKind::Stl);
            lemma_registered_wf(m4, ImporterKind::Ply);
            lemma_registered_wf(m5, ImporterKind::Vox);
            lemma_builtin_ascii(ImporterKind::Fbx);
            lemma_builtin_ascii(ImporterKind::Obj);
            lemma_builtin_ascii(ImporterKind::Gltf);
            lemma_builtin_ascii(ImporterKind::Stl);
            lemma_builtin_ascii(ImporterKind::Ply);
            lemma_builtin_ascii(ImporterKind::Vox);
            assert forall|key: Seq<char>| #[trigger] resolve_key(reg@, key) == builtin_route(key) by {
                lemma_default_routes(key);
            }
        }
        reg
    }

    /// Adds an importer; each of its extensions, lowercased, now leads to it.
    fn register(&mut self, kind: ImporterKind)
        ensures
            final(self)@ == registered(old(self)@, kind),
            forall|j: int|
                0 <= j < kind.spec_extensions().len() && vstd::utf8::is_ascii_chars(
                    #[trigger] kind.spec_extensions()[j],
                ) ==> lowercase(kind.spec_extensions()[j]) == ascii_lower(kind.spec_extensions()[j]),
    {
        let idx = self.importers.len();
        let exts = kind.extensions();
        let ghost e = str_views(exts@);
        let mut i: usize = 0;
        while i < exts.len()
            invariant
                i <= exts.len(),
                e == str_views(exts@),
                e == kind.spec_extensions(),
                idx == old(self)@.importers.len(),
                self.importers@ == old(self)@.importers,
                self.extension_map@ == insert_keys(old(self)@.extension_map, e.take(i as int), idx),
                forall|j: int|
                    0 <= j < i && vstd::utf8::is_ascii_chars(#[trigger] e[j]) ==> lowercase(e[j])
                        == ascii_lower(e[j]),
            decreases exts.len() - i,
        {
            let key = to_lowercase(exts[i]);
            assert(exts[i as int]@ == e[i as int]);
            self.extension_map.insert(key, idx);
            proof {
                assert(e.take(i + 1).drop_last() =~= e.take(i as int));
            }
            i += 1;
        }
        proof {
            assert(e.take(i as int) =~= e);
        }
        self.importers.push(kind);
    }

    /// The importer for files with extension `ext`, compared in lowercase, or
    /// an error naming the extension.
    pub fn importer_for_extension(&self, ext: &str) -> (r: Result<ImporterKind, String>)
        requires
            self.wf(),
        ensures
            result_view(r) == resolve(self@, ext@),
            vstd::utf8::is_ascii_chars(ext@) ==> result_view(r) == resolve_key(
                self@,
                ascii_lower(ext@),
            ),
    {
        let key = to_lowercase(ext);
        match self.extension_map.get(key.as_str()) {
            Some(idx) => Ok(self.importers[*idx]),
            None => {
                let mut msg = String::from_str("Unsupported format: ");
                proof {
                    reveal_strlit("Unsupported format: ");
                    assert(msg@ =~= unsupported_prefix());
                }
                msg.append(key.as_str());
                Err(msg)
            },
        }
    }

    /// Which importer reads the file at `path`, chosen by the file's
    /// extension (none counts as the empty extension), or an error naming an
    /// extension no importer reads.
    pub fn import(&self, path: &str) -> (r: Result<ImporterKind, String>)
        requires
            self.wf(),
        ensures
            exists|e: Seq<char>| #[trigger]
                possible_extension(path@, e) && result_view(r) == resolve(self@, e),
            slash_path(path@) ==> result_view(r) == resolve(self@, ext_or_empty(name_extension(file_part(path@)))),
            slash_path(path@) && vstd::utf8::is_ascii_chars(ext_or_empty(name_extension(file_part(path@))))
                ==> result_view(r) == resolve_key(
                self@,
                ascii_lower(ext_or_empty(name_extension(file_part(path@)))),
            ),
    {
        let ext = path_extension(path);
        match ext {
            Some(e) => {
                let r = self.importer_for_extension(e.as_str());
                assert(possible_extension(path@, e@));
                r
            },
            None => {
                let r = self.importer_for_extension("");
                proof {
                    reveal_strlit("");
                    assert(possible_extension(path@, ""@));
                    assert(""@ =~= Seq::<char>::empty());
                }
                r
            },
        }
    }

    /// The extensions of all importers, in registration order.
    pub fn supported_extensions(&self) -> (r: Vec<&'static str>)
        ensures
            str_views(r@) == all_extensions(self@.importers),
    {
        let mut out: Vec<&'static str> = Vec::new();
        let mut i: usize = 0;
        while i < self.importers.len()
            invariant
                i <= self.importers.len(),
                str_views(out@) == all_extensions(self@.importers.take(i as int)),
            decreases self.importers.len() - i,
        {
            let exts = self.importers[i].extensions();
            let ghost before = out@;
            let mut j: usize = 0;
            while j < exts.len()
                invariant
                    j <= exts.len(),
                    out@ == before + exts@.take(j as int),
                decreases exts.len() - j,
            {
                out.push(exts[j]);
                proof {
                    assert(out@ =~= before + exts@.take(j + 1));
                }
                j += 1;
            }
            proof {
                assert(exts@.take(j as int) =~= exts@);
                assert(str_views(out@) =~= str_views(before) + str_views(exts@));
                assert(self@.importers.take(i + 1).drop_last() =~= self@.importers.take(i as int));
            }
            i += 1;
        }
        proof {
            assert(self@.importers.take(i as int) =~= self@.importers);
        }
        out
    }

    /// A quick look at the file at `path` by the importer its extension
    /// selects; none of this crate's importers can tell without reading the
    /// file, so there is never anything to report.
    pub fn peek(&self, path: &str) -> (r: Option<FileMetadata>)
        requires
            self.wf(),
        ensures
            r is None,
    {
        let ext = match path_extension(path) {
            Some(e) => e,
            None => {
                return None;
            },
        };
        let key = to_lowercase(ext.as_str());
        match self.extension_map.get(key.as_str()) {
            Some(idx) => {
                assert(self@.extension_map.dom().contains(key@));
                self.importers[*idx].peek(path)
            },
            None => None,
        }
    }
}

/// The registry of all importers of this crate.
pub fn get_registry() -> (r: ImporterRegistry)
    ensures
        r@ == default_registry(),
        r.wf(),
        forall|key: Seq<char>| #[trigger] resolve_key(r@, key) == builtin_route(key),
{
    ImporterRegistry::new()
}

proof fn lemma_insert_keys_at(m: Map<Seq<char>, usize>, exts: Seq<Seq<char>>, idx: usize, key: Seq<char>)
    ensures
        (exists|i: int| 0 <= i < exts.len() && lowercase(#[trigger] exts[i]) == key) ==> insert_keys(m, exts, idx).dom().contains(key)
            && insert_keys(m, exts, idx)[key] == idx,
        (forall|i: int| 0 <= i < exts.len() ==> lowercase(#[trigger] exts[i]) != key) ==> (insert_keys(m, exts, idx).dom().contains(key)
            == m.dom().contains(key) && (m.dom().contains(key) ==> insert_keys(m, exts, idx)[key] == m[key])),
    decreases exts.len(),
{
    if exts.len() > 0 {
        let prev = exts.drop_last();
        lemma_insert_keys_at(m, prev, idx, key);
        if exists|i: int| 0 <= i < exts.len() && lowercase(#[trigger] exts[i]) == key {
            let i = choose|i: int| 0 <= i < exts.len() && lowercase(#[trigger] exts[i]) == key;
            if i < exts.len() - 1 {
                assert(lowercase(prev[i]) == key);
            }
        } else {
            assert forall|i: int| 0 <= i < prev.len() implies lowercase(#[trigger] prev[i]) != key by {
                assert(prev[i] == exts[i]);
            }
        }
    }
}

/// After registering an importer, a file whose extension matches one of the
/// importer's extensions without regard to case is read by that importer.
pub proof fn lemma_registered_resolves(m: RegistryModel, k: ImporterKind, e: Seq<char>)
    requires
        registry_wf(m),
        m.importers.len() < usize::MAX,
        exists|i: int| 0 <= i < k.spec_extensions().len() && lowercase(#[trigger] k.spec_extensions()[i]) == lowercase(e),
    ensures
        resolve(registered(m, k), e) == Ok::<ImporterKind, Seq<char>>(k),
{
    lemma_insert_keys_at(m.extension_map, k.spec_extensions(), m.importers.len() as usize, lowercase(e));
}

/// Registering an importer changes nothing for extensions it does not read.
pub proof fn lemma_registered_keeps_others(m: RegistryModel, k: ImporterKind, e: Seq<char>)
    requires
        registry_wf(m),
        m.importers.len() < usize::MAX,
        forall|i: int| 0 <= i < k.spec_extensions().len() ==> lowercase(#[trigger] k.spec_extensions()[i]) != lowercase(e),
    ensures
        resolve(registered(m, k), e) == resolve(m, e),
{
    lemma_insert_keys_at(m.extension_map, k.spec_extensions(), m.importers.len() as usize, lowercase(e));
}

/// With the extensions of this crate's importers their own lowercase, the
/// registry of all of them sends each lowercased extension where
/// `builtin_route` says.
proof fn lemma_default_routes(key: Seq<char>)
    requires
        lower_fixed(ImporterKind::Fbx),
        lower_fixed(ImporterKind::Obj),
        lower_fixed(ImporterKind::Gltf),
        lower_fixed(ImporterKind::Stl),
        lower_fixed(ImporterKind::Ply),
        lower_fixed(ImporterKind::Vox),
    ensures
        resolve_key(default_registry(), key) == builtin_route(key),
{
    let m0 = RegistryModel { importers: Seq::empty(), extension_map: Map::empty() };
    let m1 = registered(m0, ImporterKind::Fbx);
    let m2 = registered(m1, ImporterKind::Obj);
    let m3 = registered(m2, ImporterKind::Gltf);
    let m4 = registered(m3, ImporterKind::Stl);
    let m5 = registered(m4, ImporterKind::Ply);
    let m6 = registered(m5, ImporterKind::Vox);
    lemma_key_after(m0, ImporterKind::Fbx, key);
    lemma_key_after(m1, ImporterKind::Obj, key);
    lemma_key_after(m2, ImporterKind::Gltf, key);
    lemma_key_after(m3, ImporterKind::Stl, key);
    lemma_key_after(m4, ImporterKind::Ply, key);
    lemma_key_after(m5, ImporterKind::Vox, key);
    assert(m6.importers =~= seq![
        ImporterKind::Fbx,
        ImporterKind::Obj,
        ImporterKind::Gltf,
        ImporterKind::Stl,
        ImporterKind::Ply,
        ImporterKind::Vox,
    ]);
}

/// How one registration of an importer whose extensions are their own
/// lowercase changes the entry under `key`.
proof fn lemma_key_after(m: RegistryModel, k: ImporterKind, key: Seq<char>)
    requires
        lower_fixed(k),
        m.importers.len() < usize::MAX,
    ensures
        k.spec_extensions().contains(key) ==> registered(m, k).extension_map.dom().contains(key)
            && registered(m, k).extension_map[key] == m.importers.len(),
        !k.spec_extensions().contains(key) ==> (registered(m, k).extension_map.dom().contains(key)
            == m.extension_map.dom().contains(key) && (m.extension_map.dom().contains(key)
            ==> registered(m, k).extension_map[key] == m.extension_map[key])),
{
    let exts = k.spec_extensions();
    lemma_insert_keys_at(m.extension_map, exts, m.importers.len() as usize, key);
    if exts.contains(key) {
        let i = choose|i: int| 0 <= i < exts.len() && exts[i] == key;
        assert(lowercase(exts[i]) == key);
    } else {
        assert forall|i: int| 0 <= i < exts.len() implies lowercase(#[trigger] exts[i]) != key by {
            assert(lowercase(exts[i]) == exts[i]);
        }
    }
}

} // verus!
