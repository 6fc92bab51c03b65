//! Node parameters: named values, and how a node reads one by name.
//!
//! A node receives its parameters as a list; the first parameter with a given
//! name is the one that counts, and a parameter of another kind than the one
//! asked for reads as the default.

use vstd::prelude::*;
use vstd::string::StringExecFns;

verus! {

/// The value of a parameter. Kinds that the verified logic never reads
/// (floating-point scalars, vectors, curves, colours) are `Other`.
#[derive(Clone, Debug, PartialEq, Eq)]
pub enum ParameterValue {
    Int(i32),
    Bool(bool),
    String(String),
    Other,
}

/// Abstract value of a parameter value.
pub enum ValueModel {
    Int(i32),
    Bool(bool),
    Str(Seq<char>),
    Other,
}

impl View for ParameterValue {
    type V = ValueModel;

    open spec fn view(&self) -> ValueModel {
        match self {
            ParameterValue::Int(v) => ValueModel::Int(*v),
            ParameterValue::Bool(b) => ValueModel::Bool(*b),
            ParameterValue::String(s) => ValueModel::Str(s@),
            ParameterValue::Other => ValueModel::Other,
        }
    }
}

impl ParameterValue {
    /// A copy of this value.
    pub fn duplicate(&self) -> (r: ParameterValue)
        ensures
            r == *self,
    {
        match self {
            ParameterValue::Int(v) => ParameterValue::Int(*v),
            ParameterValue::Bool(b) => ParameterValue::Bool(*b),
            ParameterValue::String(s) => ParameterValue::String(s.clone()),
            ParameterValue::Other => ParameterValue::Other,
        }
    }
}

/// A named parameter.
#[derive(Clone, Debug, PartialEq, Eq)]
pub struct Parameter {
    pub name: String,
    pub value: ParameterValue,
}

/// Abstract value of a parameter.
pub struct ParamModel {
    pub name: Seq<char>,
    pub value: ValueModel,
}

impl View for Parameter {
    type V = ParamModel;

    open spec fn view(&self) -> ParamModel {
        ParamModel { name: self.name@, value: self.value@ }
    }
}

impl Parameter {
    /// A parameter named `name` with value `value`.
    pub fn new(name: &str, value: ParameterValue) -> (p: Parameter)
        ensures
            p@.name == name@,
            p@.value == value@,
    {
        Parameter { name: String::from_str(name), value }
    }
}

/// The abstract values of a parameter list.
pub open spec fn params_view(params: Seq<Parameter>) -> Seq<ParamModel> {
    params.map_values(|p: Parameter| p@)
}

/// The value of the first parameter named `name`, if there is one.
pub open spec fn named_value(params: Seq<ParamModel>, name: Seq<char>) -> Option<ValueModel>
    decreases params.len(),
{
    if params.len() == 0 {
        None
    } else if params[0].name == name {
        Some(params[0].value)
    } else {
        named_value(params.drop_first(), name)
    }
}

/// An integer parameter, or `default` when the first parameter of that name
/// is missing or not an integer.
pub open spec fn int_param(params: Seq<ParamModel>, name: Seq<char>, default: i32) -> i32 {
    match named_value(params, name) {
        Some(ValueModel::Int(v)) => v,
        _ => default,
    }
}

/// A boolean parameter, or `default` when the first parameter of that name
/// is missing or not a boolean.
pub open spec fn bool_param(params: Seq<ParamModel>, name: Seq<char>, default: bool) -> bool {
    match named_value(params, name) {
        Some(ValueModel::Bool(b)) => b,
        _ => default,
    }
}

/// A string parameter, or `default` when the first parameter of that name
/// is missing or not a string.
pub open spec fn str_param(params: Seq<ParamModel>, name: Seq<char>, default: Seq<char>) -> Seq<
    char,
> {
    match named_value(params, name) {
        Some(ValueModel::Str(s)) => s,
        _ => default,
    }
}

proof fn lemma_named_value_step(params: Seq<ParamModel>, name: Seq<char>, i: int)
    requires
        0 <= i < params.len(),
        params[i].name != name,
    ensures
        named_value(params.skip(i), name) == named_value(params.skip(i + 1), name),
{
    assert(params.skip(i).drop_first() =~= params.skip(i + 1));
}

/// The value of the first parameter named `name`.
pub fn find_param<'a>(params: &'a [Parameter], name: &str) -> (r: Option<&'a ParameterValue>)
    ensures
        r matches Some(v) ==> named_value(params_view(params@), name@) == Some(v@),
        r is None ==> named_value(params_view(params@), name@) is None,
{
    let key = String::from_str(name);
    let ghost ps = params_view(params@);
    let mut i: usize = 0;
    assert(ps.skip(0) =~= ps);
    while i < params.len()
        invariant
            i <= params.len(),
            ps == params_view(params@),
            key@ == name@,
            named_value(ps.skip(i as int), name@) == named_value(ps, name@),
        decreases params.len() - i,
    {
        if params[i].name == key {
            assert(ps.skip(i as int)[0] == ps[i as int]);
            return Some(&params[i].value);
        }
        proof {
            lemma_named_value_step(ps, name@, i as int);
        }
        i += 1;
    }
    assert(ps.skip(i as int).len() == 0);
    None
}

/// An integer parameter; `default` when the first parameter named `name` is
/// missing or of another kind.
pub fn get_int(params: &[Parameter], name: &str, default: i32) -> (r: i32)
    ensures
        r == int_param(params_view(params@), name@, default),
{
    match find_param(params, name) {
        Some(ParameterValue::Int(v)) => *v,
        _ => default,
    }
}

/// A boolean parameter; `default` when the first parameter named `name` is
/// missing or of another kind.
pub fn get_bool(params: &[Parameter], name: &str, default: bool) -> (r: bool)
    ensures
        r == bool_param(params_view(params@), name@, default),
{
    match find_param(params, name) {
        Some(ParameterValue::Bool(b)) => *b,
        _ => default,
    }
}

/// A string parameter; `default` when the first parameter named `name` is
/// missing or of another kind.
pub fn get_string(params: &[Parameter], name: &str, default: &str) -> (r: String)
    ensures
        r@ == str_param(params_view(params@), name@, default@),
{
    match find_param(params, name) {
        Some(ParameterValue::String(s)) => s.clone(),
        _ => String::from_str(default),
    }
}

/// Whether `c` has Unicode's White_Space property.
pub open spec fn is_white_space(c: char) -> bool {
    let u = c as u32;
    ||| 0x09 <= u <= 0x0d
    ||| u == 0x20
    ||| u == 0x85
    ||| u == 0xa0
    ||| u == 0x1680
    ||| 0x2000 <= u <= 0x200a
    ||| u == 0x2028
    ||| u == 0x2029
    ||| u == 0x202f
    ||| u == 0x205f
    ||| u == 0x3000
}

/// The number of white-space characters that `s` starts with.
pub open spec fn leading_space(s: Seq<char>) -> nat
    decreases s.len(),
{
    if s.len() > 0 && is_white_space(s[0]) {
        1 + leading_space(s.drop_first())
    } else {
        0
    }
}

/// The number of white-space characters that `s` ends with.
pub open spec fn trailing_space(s: Seq<char>) -> nat
    decreases s.len(),
{
    if s.len() > 0 && is_white_space(s.last()) {
        1 + trailing_space(s.drop_last())
    } else {
        0
    }
}

/// What `str::trim` gives for a string: the string without its leading and
/// trailing white space, as Unicode's White_Space property defines it.
pub open spec fn trimmed(s: Seq<char>) -> Seq<char> {
    let rest = s.subrange(leading_space(s) as int, s.len() as int);
    rest.subrange(0, rest.len() - trailing_space(rest))
}

/// Whether `t` is a contiguous part of `s`.
pub open spec fn is_part_of(t: Seq<char>, s: Seq<char>) -> bool {
    exists|i: int, j: int| 0 <= i <= j <= s.len() && t == s.subrange(i, j)
}

/// `str::trim`: `s` without its leading and trailing white space (see
/// `trimmed`), which is a contiguous part of `s`.
#[verifier::external_body]
pub(crate) fn trim(s: &str) -> (r: String)
    ensures
        r@ == trimmed(s@),
        is_part_of(r@, s@),
{
    s.trim().to_string()
}

/// The parameter list as a map from name to value, a later parameter of a
/// name replacing an earlier one.
pub open spec fn param_map(params: Seq<Parameter>) -> Map<Seq<char>, ParameterValue>
    decreases params.len(),
{
    if params.len() == 0 {
        Map::empty()
    } else {
        param_map(params.drop_last()).insert(params.last().name@, params.last().value)
    }
}

/// The parameter list as a map from name to value; a later parameter of a
/// name replaces an earlier one.
pub fn params_to_map(params: &[Parameter]) -> (m: vstd::hash_map::StringHashMap<ParameterValue>)
    ensures
        m@ == param_map(params@),
{
    let mut m = vstd::hash_map::StringHashMap::new();
    let mut i: usize = 0;
    assert(params@.take(0) =~= Seq::<Parameter>::empty());
    while i < params.len()
        invariant
            i <= params.len(),
            m@ == param_map(params@.take(i as int)),
        decreases params.len() - i,
    {
        m.insert(params[i].name.clone(), params[i].value.duplicate());
        proof {
            assert(params@.take(i + 1).drop_last() =~= params@.take(i as int));
        }
        i += 1;
    }
    assert(params@.take(i as int) =~= params@);
    m
}

} // verus!
