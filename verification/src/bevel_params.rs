//! The choices of a bevel: what it affects, how offsets are measured, the
//! profile, the miters, the vertex mesh and the face strength, decoded from
//! the integer codes of the node's parameters; and the miter test of a
//! beveled vertex.

use vstd::prelude::*;

verus! {

/// What a bevel affects.
#[derive(Clone, Copy, Debug, PartialEq, Eq, Structural)]
pub enum BevelAffect {
    Edges,
    Vertices,
}

/// How the offset of a bevel is measured.
#[derive(Clone, Copy, Debug, PartialEq, Eq, Structural)]
pub enum OffsetType {
    Offset,
    Width,
    Depth,
    Percent,
    Absolute,
}

/// The shape of a bevel's profile.
#[derive(Clone, Copy, Debug, PartialEq, Eq, Structural)]
pub enum ProfileShape {
    Superellipse,
    Custom,
}

/// How a bevel treats the corners where beveled edges meet at an angle.
#[derive(Clone, Copy, Debug, PartialEq, Eq, Structural)]
pub enum MiterType {
    Sharp,
    Patch,
    Arc,
}

/// How the vertex mesh at a beveled vertex is built.
#[derive(Clone, Copy, Debug, PartialEq, Eq, Structural)]
pub enum VMeshMethod {
    GridFill,
    Cutoff,
}

/// Which faces get a face-strength mark.
#[derive(Clone, Copy, Debug, PartialEq, Eq, Structural)]
pub enum FaceStrength {
    Off,
    New,
    Affected,
    All,
}

/// The kind of angle between two edges at a vertex, seen from the face.
#[derive(Clone, Copy, Debug, PartialEq, Eq, Structural)]
pub enum AngleKind {
    Straight,
    Smaller,
    Larger,
}

/// The discrete choices of a bevel.
#[derive(Clone, Copy, Debug, PartialEq, Eq, Structural)]
pub struct BevelChoices {
    pub affect: BevelAffect,
    pub offset_type: OffsetType,
    /// The number of segments, at least one.
    pub seg: usize,
    pub profile_shape: ProfileShape,
    pub miter_outer: MiterType,
    pub miter_inner: MiterType,
    pub vmesh_method: VMeshMethod,
    pub face_strength: FaceStrength,
}

/// The affect of code `c`: 1 means vertices, anything else edges.
pub open spec fn affect_of(c: i32) -> BevelAffect {
    if c == 1 {
        BevelAffect::Vertices
    } else {
        BevelAffect::Edges
    }
}

/// The offset type of code `c`: 1 to 4 are width, depth, percent and
/// absolute; anything else is offset.
pub open spec fn offset_type_of(c: i32) -> OffsetType {
    if c == 1 {
        OffsetType::Width
    } else if c == 2 {
        OffsetType::Depth
    } else if c == 3 {
        OffsetType::Percent
    } else if c == 4 {
        OffsetType::Absolute
    } else {
        OffsetType::Offset
    }
}

/// The outer miter of code `c`: 1 is patch, 2 arc, anything else sharp.
pub open spec fn miter_outer_of(c: i32) -> MiterType {
    if c == 1 {
        MiterType::Patch
    } else if c == 2 {
        MiterType::Arc
    } else {
        MiterType::Sharp
    }
}

/// The inner miter of code `c`: 1 is arc, anything else sharp.
pub open spec fn miter_inner_of(c: i32) -> MiterType {
    if c == 1 {
        MiterType::Arc
    } else {
        MiterType::Sharp
    }
}

/// The face strength of code `c`: 1 to 3 are new, affected and all;
/// anything else off.
pub open spec fn face_strength_of(c: i32) -> FaceStrength {
    if c == 1 {
        FaceStrength::New
    } else if c == 2 {
        FaceStrength::Affected
    } else if c == 3 {
        FaceStrength::All
    } else {
        FaceStrength::Off
    }
}

impl BevelChoices {
    /// Decodes the choices of a bevel from the codes of its parameters: the
    /// profile is custom for profile type 1 and a superellipse otherwise,
    /// the vertex mesh is cut off for method 1 and grid-filled otherwise, and
    /// there is at least one segment.
    pub fn from_node_params(
        affect: i32,
        offset_type: i32,
        divisions: usize,
        profile_type: i32,
        miter_outer: i32,
        miter_inner: i32,
        vmesh_method: i32,
        face_strength: i32,
    ) -> (r: Self)
        ensures
            r.affect == affect_of(affect),
            r.offset_type == offset_type_of(offset_type),
            r.seg == if divisions == 0 {
                1
            } else {
                divisions
            },
            r.profile_shape == if profile_type == 1 {
                ProfileShape::Custom
            } else {
                ProfileShape::Superellipse
            },
            r.miter_outer == miter_outer_of(miter_outer),
            r.miter_inner == miter_inner_of(miter_inner),
            r.vmesh_method == if vmesh_method == 1 {
                VMeshMethod::Cutoff
            } else {
                VMeshMethod::GridFill
            },
            r.face_strength == face_strength_of(face_strength),
    {
        BevelChoices {
            affect: if affect == 1 {
                BevelAffect::Vertices
            } else {
                BevelAffect::Edges
            },
            offset_type: match offset_type {
                1 => OffsetType::Width,
                2 => OffsetType::Depth,
                3 => OffsetType::Percent,
                4 => OffsetType::Absolute,
                _ => OffsetType::Offset,
            },
            seg: if divisions == 0 {
                1
            } else {
                divisions
            },
            profile_shape: if profile_type == 1 {
                ProfileShape::Custom
            } else {
                ProfileShape::Superellipse
            },
            miter_outer: match miter_outer {
                1 => MiterType::Patch,
                2 => MiterType::Arc,
                _ => MiterType::Sharp,
            },
            miter_inner: match miter_inner {
                1 => MiterType::Arc,
                _ => MiterType::Sharp,
            },
            vmesh_method: if vmesh_method == 1 {
                VMeshMethod::Cutoff
            } else {
                VMeshMethod::GridFill
            },
            face_strength: match face_strength {
                1 => FaceStrength::New,
                2 => FaceStrength::Affected,
                3 => FaceStrength::All,
                _ => FaceStrength::Off,
            },
        }
    }
}

/// Whether the bevel is of vertices only.
pub fn is_vertex_only(params: &BevelChoices) -> (r: bool)
    ensures
        r == (params.affect == BevelAffect::Vertices),
{
    match params.affect {
        BevelAffect::Vertices => true,
        BevelAffect::Edges => false,
    }
}

/// The index of the first larger angle among the first `n` of `kinds`.
pub open spec fn first_larger(kinds: Seq<AngleKind>, n: int) -> Option<usize>
    decreases n,
{
    if n <= 0 {
        None
    } else {
        match first_larger(kinds, n - 1) {
            Some(i) => Some(i),
            None => if kinds[n - 1] == AngleKind::Larger {
                Some((n - 1) as usize)
            } else {
                None
            },
        }
    }
}

/// The first larger angle is a larger angle, and none comes before it;
/// without one, no angle is larger.
pub proof fn lemma_first_larger(kinds: Seq<AngleKind>, n: int)
    requires
        0 <= n <= kinds.len(),
        n <= usize::MAX,
    ensures
        match first_larger(kinds, n) {
            Some(i) => 0 <= i < n && kinds[i as int] == AngleKind::Larger && forall|t: int| 0 <= t < i ==> kinds[t] != AngleKind::Larger,
            None => forall|t: int| 0 <= t < n ==> kinds[t] != AngleKind::Larger,
        },
    decreases n,
{
    if n > 0 {
        lemma_first_larger(kinds, n - 1);
    }
}

/// The miter test of a vertex with `selcount` beveled edges whose angles
/// are `kinds`: an outer miter, at the first larger angle, when the outer
/// miter is not sharp and at least three edges are beveled; an inner miter
/// when the inner miter is not sharp and some angle is smaller.
pub open spec fn miter_test_spec(
    selcount: nat,
    kinds: Seq<AngleKind>,
    miter_outer: MiterType,
    miter_inner: MiterType,
) -> (bool, Option<usize>, bool) {
    let outer = if selcount >= 3 && miter_outer != MiterType::Sharp {
        first_larger(kinds, kinds.len() as int)
    } else {
        None
    };
    let inner = miter_inner != MiterType::Sharp && exists|i: int| 0 <= i < kinds.len() && kinds[i] == AngleKind::Smaller;
    (outer is Some, outer, inner)
}

/// Whether a vertex needs an outer miter, at which angle, and whether it
/// needs an inner miter (see `miter_test_spec`).
pub fn miter_test(selcount: usize, angle_kinds: &Vec<AngleKind>, miter_outer: MiterType, miter_inner: MiterType) -> (r: (
    bool,
    Option<usize>,
    bool,
))
    ensures
        r == miter_test_spec(selcount as nat, angle_kinds@, miter_outer, miter_inner),
{
    let effective_outer = if selcount >= 3 {
        miter_outer
    } else {
        MiterType::Sharp
    };
    let mut outer_idx: Option<usize> = None;
    let mut needs_inner = false;
    let mut i: usize = 0;
    while i < angle_kinds.len()
        invariant
            i <= angle_kinds@.len(),
            effective_outer == if selcount >= 3 {
                miter_outer
            } else {
                MiterType::Sharp
            },
            outer_idx == if effective_outer != MiterType::Sharp {
                first_larger(angle_kinds@, i as int)
            } else {
                None
            },
            needs_inner == (miter_inner != MiterType::Sharp && exists|t: int| 0 <= t < i && angle_kinds@[t] == AngleKind::Smaller),
        decreases angle_kinds.len() - i,
    {
        let ang = angle_kinds[i];
        if effective_outer != MiterType::Sharp && outer_idx.is_none() && ang == AngleKind::Larger {
            outer_idx = Some(i);
        }
        if miter_inner != MiterType::Sharp && ang == AngleKind::Smaller {
            needs_inner = true;
        }
        i += 1;
    }
    (outer_idx.is_some(), outer_idx, needs_inner)
}

} // verus!
