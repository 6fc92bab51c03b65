//! What the material-assign node decides: the primitive attribute that
//! holds the material, the key written to the selected primitives, and the
//! names under which the material's description is recorded.

use vstd::prelude::*;
use vstd::string::{StringExecFns, StrSliceExecFns};
use crate::params::{Parameter, params_view, str_param, int_param, get_string, get_int, trim, trimmed};

verus! {

/// The character of decimal digit `d`.
pub open spec fn digit_char(d: int) -> char {
    if d == 0 {
        '0'
    } else if d == 1 {
        '1'
    } else if d == 2 {
        '2'
    } else if d == 3 {
        '3'
    } else if d == 4 {
        '4'
    } else if d == 5 {
        '5'
    } else if d == 6 {
        '6'
    } else if d == 7 {
        '7'
    } else if d == 8 {
        '8'
    } else {
        '9'
    }
}

/// The decimal digits of `n`, most significant first, without leading
/// zeros (`0` for zero).
pub open spec fn digits(n: nat) -> Seq<char>
    decreases n,
{
    if n < 10 {
        seq![digit_char(n as int)]
    } else {
        digits(n / 10).push(digit_char((n % 10) as int))
    }
}

/// The decimal text of `v`: its digits, after a minus sign when negative.
pub open spec fn decimal_text(v: int) -> Seq<char> {
    if v < 0 {
        seq!['-'] + digits((-v) as nat)
    } else {
        digits(v as nat)
    }
}

fn digit_str(d: u64) -> (s: &'static str)
    requires
        d < 10,
    ensures
        s@ == seq![digit_char(d as int)],
{
    proof {
        reveal_strlit("0");
        reveal_strlit("1");
        reveal_strlit("2");
        reveal_strlit("3");
        reveal_strlit("4");
        reveal_strlit("5");
        reveal_strlit("6");
        reveal_strlit("7");
        reveal_strlit("8");
        reveal_strlit("9");
    }
    let s = if d == 0 {
        "0"
    } else if d == 1 {
        "1"
    } else if d == 2 {
        "2"
    } else if d == 3 {
        "3"
    } else if d == 4 {
        "4"
    } else if d == 5 {
        "5"
    } else if d == 6 {
        "6"
    } else if d == 7 {
        "7"
    } else if d == 8 {
        "8"
    } else {
        "9"
    };
    assert(s@ =~= seq![digit_char(d as int)]);
    s
}

/// The decimal text of `v` (see `decimal_text`).
pub fn decimal(v: i32) -> (s: String)
    ensures
        s@ == decimal_text(v as int),
{
    decimal_i64(v as i64)
}

/// The decimal text of a 64-bit `v` (see `decimal_text`).
pub fn decimal_i64(v: i64) -> (s: String)
    ensures
        s@ == decimal_text(v as int),
{
    let neg = v < 0;
    let mut m: u64 = if neg {
        (-(v as i128)) as u64
    } else {
        v as u64
    };
    let ghost mag = m as nat;
    let mut ds: Vec<u64> = Vec::new();
    let ghost mut tail: Seq<char> = Seq::empty();
    while m >= 10
        invariant
            digits(mag) == digits(m as nat) + tail,
            tail.len() == ds@.len(),
            forall|i: int| 0 <= i < ds@.len() ==> #[trigger] ds@[i] < 10,
            forall|i: int| 0 <= i < ds@.len() ==> tail[tail.len() - 1 - i] == digit_char(#[trigger] ds@[i] as int),
        decreases m,
    {
        let d = m % 10;
        proof {
            assert(digits(m as nat) == digits((m / 10) as nat).push(digit_char(d as int)));
            assert(digits(m as nat) + tail =~= digits((m / 10) as nat) + (seq![digit_char(d as int)] + tail));
            tail = seq![digit_char(d as int)] + tail;
        }
        ds.push(d);
        m = m / 10;
    }
    let mut s = if neg {
        proof {
            reveal_strlit("-");
        }
        String::from_str("-")
    } else {
        String::new()
    };
    let ghost start = s@;
    let first = digit_str(m);
    s.append(first);
    let mut i: usize = ds.len();
    while i > 0
        invariant
            i <= ds@.len(),
            tail.len() == ds@.len(),
            forall|k: int| 0 <= k < ds@.len() ==> #[trigger] ds@[k] < 10,
            forall|k: int| 0 <= k < ds@.len() ==> tail[tail.len() - 1 - k] == digit_char(#[trigger] ds@[k] as int),
            s@ == start + seq![digit_char(m as int)] + tail.take(ds@.len() - i),
        decreases i,
    {
        i -= 1;
        let piece = digit_str(ds[i]);
        s.append(piece);
        proof {
            assert(tail[tail.len() - 1 - i] == digit_char(ds@[i as int] as int));
            assert(tail.take(ds@.len() - i) =~= tail.take(ds@.len() - i - 1).push(tail[ds@.len() - i - 1]));
        }
    }
    proof {
        assert(tail.take(ds@.len() as int) =~= tail);
        assert(digits(m as nat) == seq![digit_char(m as int)]);
        if neg {
            assert(start =~= seq!['-']);
            assert(mag == -(v as int));
        } else {
            assert(start =~= Seq::<char>::empty());
        }
        assert(s@ =~= decimal_text(v as int));
    }
    s
}

/// The key the material-assign node writes to the selected primitives.
#[derive(Clone, Debug)]
pub enum MaterialKey {
    /// Into an attribute that holds integers: the node's integer key.
    Int(i32),
    /// Into any other attribute: the material's identifier.
    Name(String),
}

/// What the material-assign node does.
#[derive(Clone, Debug)]
pub enum MaterialOutcome {
    /// The material has no identifier: the output is empty.
    Empty,
    /// Nothing is selected: the input is output unchanged.
    Unchanged,
    /// The selected primitives get `key`, and the material's description is
    /// recorded under names that start with `matlib_prefix`.
    Assign { key: MaterialKey, matlib_prefix: String },
}

/// The node that assigns a material to primitives.
pub struct MaterialAssignNode;

/// The attribute named by parameter value `p`: `default_attr` when `p` is
/// blank; then prefixed with `@` (and trimmed) unless it starts with `@`.
pub open spec fn material_attribute_spec(p: Seq<char>, default_attr: Seq<char>) -> Seq<char> {
    let a = if trimmed(p).len() == 0 {
        default_attr
    } else {
        p
    };
    if a.len() > 0 && a[0] == '@' {
        a
    } else {
        seq!['@'] + trimmed(a)
    }
}

/// The names under which the description of a material is recorded start
/// with this prefix.
pub open spec fn matlib_prefix_spec(key: Seq<char>) -> Seq<char> {
    "__cunning.matlib."@ + key + "."@
}

/// The suffix of the `i`-th entry of a material's description.
pub open spec fn matlib_suffix(i: int) -> Seq<char> {
    if i == 0 {
        "basecolor_tex"@
    } else if i == 1 {
        "normal_tex"@
    } else if i == 2 {
        "orm_tex"@
    } else if i == 3 {
        "emissive_tex"@
    } else if i == 4 {
        "basecolor_tint"@
    } else if i == 5 {
        "roughness"@
    } else if i == 6 {
        "metallic"@
    } else {
        "emissive"@
    }
}

impl MaterialAssignNode {
    /// The primitive attribute that holds the material (see
    /// `material_attribute_spec`), from the `prim_attr` parameter;
    /// `default_attr` is the standard material-path attribute.
    pub fn attribute_name(params: &[Parameter], default_attr: &str) -> (r: String)
        ensures
            r@ == material_attribute_spec(str_param(params_view(params@), "prim_attr"@, ""@), default_attr@),
    {
        let p = get_string(params, "prim_attr", "");
        let t = trim(p.as_str());
        let a = if t.as_str().unicode_len() == 0 {
            String::from_str(default_attr)
        } else {
            p
        };
        let n = a.as_str().unicode_len();
        if n > 0 && a.as_str().get_char(0) == '@' {
            a
        } else {
            proof {
                reveal_strlit("@");
            }
            let mut r = String::from_str("@");
            let ta = trim(a.as_str());
            r.append(ta.as_str());
            assert(r@ =~= seq!['@'] + trimmed(a@));
            r
        }
    }

    /// What the node does, given the identifier of the material (if its
    /// input has one), whether the attribute already holds integers and
    /// whether the selection is empty: nothing without an identifier (or a
    /// blank one); the input unchanged when nothing is selected; else the
    /// integer key `int_key` (0 by default) into an integer attribute, the
    /// identifier into any other, and the description recorded under the
    /// key's text.
    pub fn plan(params: &[Parameter], mat_id: Option<&str>, attr_holds_ints: bool, selection_empty: bool) -> (r:
        MaterialOutcome)
        ensures
            mat_id is None || trimmed(mat_id->0@).len() == 0 ==> r is Empty,
            mat_id is Some && trimmed(mat_id->0@).len() > 0 && selection_empty ==> r is Unchanged,
            mat_id is Some && trimmed(mat_id->0@).len() > 0 && !selection_empty ==> match r {
                MaterialOutcome::Assign { key, matlib_prefix } => if attr_holds_ints {
                    let k = int_param(params_view(params@), "int_key"@, 0);
                    key == MaterialKey::Int(k) && matlib_prefix@ == matlib_prefix_spec(decimal_text(k as int))
                } else {
                    key matches MaterialKey::Name(n) && n@ == mat_id->0@ && matlib_prefix@ == matlib_prefix_spec(
                        mat_id->0@,
                    )
                },
                _ => false,
            },
    {
        let m = match mat_id {
            None => {
                return MaterialOutcome::Empty;
            },
            Some(m) => m,
        };
        let t = trim(m);
        if t.as_str().unicode_len() == 0 {
            return MaterialOutcome::Empty;
        }
        if selection_empty {
            return MaterialOutcome::Unchanged;
        }
        let mut prefix = String::from_str("__cunning.matlib.");
        if attr_holds_ints {
            let k = get_int(params, "int_key", 0);
            let text = decimal(k);
            prefix.append(text.as_str());
            prefix.append(".");
            MaterialOutcome::Assign { key: MaterialKey::Int(k), matlib_prefix: prefix }
        } else {
            prefix.append(m);
            prefix.append(".");
            MaterialOutcome::Assign { key: MaterialKey::Name(String::from_str(m)), matlib_prefix: prefix }
        }
    }

    /// The names of the entries of a material's description under
    /// `prefix`, in order: base colour texture, normal texture, ORM
    /// texture, emissive texture, base colour tint, roughness, metallic,
    /// emissive.
    pub fn matlib_entries(prefix: &str) -> (r: Vec<String>)
        ensures
            r@.len() == 8,
            forall|i: int| 0 <= i < 8 ==> (#[trigger] r@[i])@ == prefix@ + matlib_suffix(i),
    {
        let mut r: Vec<String> = Vec::new();
        let suffixes = [
            "basecolor_tex",
            "normal_tex",
            "orm_tex",
            "emissive_tex",
            "basecolor_tint",
            "roughness",
            "metallic",
            "emissive",
        ];
        let mut i: usize = 0;
        while i < 8
            invariant
                i <= 8,
                r@.len() == i,
                forall|q: int| 0 <= q < 8 ==> (#[trigger] suffixes@[q])@ == matlib_suffix(q),
                forall|q: int| 0 <= q < i ==> (#[trigger] r@[q])@ == prefix@ + matlib_suffix(q),
            decreases 8 - i,
        {
            let mut s = String::from_str(prefix);
            s.append(suffixes[i]);
            r.push(s);
            i += 1;
        }
        r
    }
}

/// The node that describes a simple material on its input.
pub struct QuickMaterialNode;

impl QuickMaterialNode {
    /// The material's identifier: the `name` parameter, trimmed, unless it
    /// is blank; else `auto_id`, the identifier derived from the material's
    /// settings.
    pub fn material_id(params: &[Parameter], auto_id: &str) -> (r: String)
        ensures
            r@ == if trimmed(str_param(params_view(params@), "name"@, ""@)).len() == 0 {
                auto_id@
            } else {
                trimmed(str_param(params_view(params@), "name"@, ""@))
            },
    {
        let name = get_string(params, "name", "");
        let t = trim(name.as_str());
        if t.as_str().unicode_len() == 0 {
            String::from_str(auto_id)
        } else {
            t
        }
    }
}

/// The values of a primitive attribute: integers or names.
#[derive(Clone, Debug, PartialEq)]
pub enum PrimAttr {
    Ints(Vec<i32>),
    Names(Vec<String>),
}

/// Abstract value of a primitive attribute.
pub enum PrimAttrModel {
    Ints(Seq<i32>),
    Names(Seq<Seq<char>>),
}

/// The characters of each string of `v`.
pub open spec fn string_views(v: Seq<String>) -> Seq<Seq<char>> {
    v.map_values(|x: String| x@)
}

impl View for PrimAttr {
    type V = PrimAttrModel;

    open spec fn view(&self) -> PrimAttrModel {
        match self {
            PrimAttr::Ints(v) => PrimAttrModel::Ints(v@),
            PrimAttr::Names(v) => PrimAttrModel::Names(string_views(v@)),
        }
    }
}

/// The attribute after the material key is written: one value per
/// primitive of `sel`; a selected primitive gets the key, any other keeps
/// its value in the attribute when the attribute holds that kind of value
/// and has one for it, and the default (0 or the empty name) otherwise.
pub open spec fn assigned_values(key: MaterialKey, existing: Option<PrimAttrModel>, sel: Seq<bool>) -> PrimAttrModel {
    match key {
        MaterialKey::Int(k) => {
            let old: Seq<i32> = match existing {
                Some(PrimAttrModel::Ints(v)) => v,
                _ => Seq::empty(),
            };
            PrimAttrModel::Ints(
                Seq::new(
                    sel.len(),
                    |i: int|
                        if sel[i] {
                            k
                        } else if i < old.len() {
                            old[i]
                        } else {
                            0i32
                        },
                ),
            )
        },
        MaterialKey::Name(name) => {
            let old: Seq<Seq<char>> = match existing {
                Some(PrimAttrModel::Names(v)) => v,
                _ => Seq::empty(),
            };
            PrimAttrModel::Names(
                Seq::new(
                    sel.len(),
                    |i: int|
                        if sel[i] {
                            name@
                        } else if i < old.len() {
                            old[i]
                        } else {
                            Seq::<char>::empty()
                        },
                ),
            )
        },
    }
}

/// The view of an optional attribute.
pub open spec fn attr_view(a: Option<PrimAttr>) -> Option<PrimAttrModel> {
    match a {
        Some(x) => Some(x@),
        None => None,
    }
}

/// Writes the material key to the selected primitives (see
/// `assigned_values`).
pub fn assign_values(key: &MaterialKey, existing: Option<PrimAttr>, selection: &Vec<bool>) -> (r: PrimAttr)
    ensures
        r@ == assigned_values(*key, attr_view(existing), selection@),
{
    let n = selection.len();
    match key {
        MaterialKey::Int(k) => {
            let old: Vec<i32> = match existing {
                Some(PrimAttr::Ints(v)) => v,
                _ => Vec::new(),
            };
            let mut out: Vec<i32> = Vec::new();
            let mut i: usize = 0;
            while i < n
                invariant
                    n == selection.len(),
                    i <= n,
                    out@.len() == i,
                    forall|j: int|
                        0 <= j < i ==> #[trigger] out@[j] == (if selection@[j] {
                            *k
                        } else if j < old@.len() {
                            old@[j]
                        } else {
                            0i32
                        }),
                decreases n - i,
            {
                let v = if selection[i] {
                    *k
                } else if i < old.len() {
                    old[i]
                } else {
                    0
                };
                out.push(v);
                i = i + 1;
            }
            let r = PrimAttr::Ints(out);
            proof {
                let old_m: Seq<i32> = match attr_view(existing) {
                    Some(PrimAttrModel::Ints(v)) => v,
                    _ => Seq::empty(),
                };
                assert(old_m == old@);
                if let PrimAttrModel::Ints(t) = assigned_values(*key, attr_view(existing), selection@) {
                    assert(out@ =~= t);
                }
            }
            r
        },
        MaterialKey::Name(name) => {
            let old: Vec<String> = match existing {
                Some(PrimAttr::Names(v)) => v,
                _ => Vec::new(),
            };
            let mut out: Vec<String> = Vec::new();
            let mut i: usize = 0;
            while i < n
                invariant
                    n == selection.len(),
                    i <= n,
                    out@.len() == i,
                    forall|j: int|
                        0 <= j < i ==> #[trigger] out@[j]@ == (if selection@[j] {
                            name@
                        } else if j < old@.len() {
                            old@[j]@
                        } else {
                            Seq::<char>::empty()
                        }),
                decreases n - i,
            {
                let v: String = if selection[i] {
                    name.clone()
                } else if i < old.len() {
                    old[i].clone()
                } else {
                    String::new()
                };
                out.push(v);
                i = i + 1;
            }
            let r = PrimAttr::Names(out);
            proof {
                let old_m: Seq<Seq<char>> = match attr_view(existing) {
                    Some(PrimAttrModel::Names(v)) => v,
                    _ => Seq::empty(),
                };
                assert(old_m =~= string_views(old@));
                if let PrimAttrModel::Names(t) = assigned_values(*key, attr_view(existing), selection@) {
                    assert(string_views(out@) =~= t);
                }
            }
            r
        },
    }
}

} // verus!
