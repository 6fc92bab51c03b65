//! Transforms of the `.vox` scene graph: integer rotation matrices with a
//! translation, decoded from the `_r` and `_t` attributes of transform nodes.

use vstd::prelude::*;
use vstd::wrapping::i32_specs::{wrapping_add, wrapping_mul};
use crate::vox_bytes::DictEntry;

verus! {

/// An integer affine transform: `p -> m * p + t`, with `i32` arithmetic
/// that wraps on overflow.
#[derive(Clone, Copy, Debug, PartialEq, Eq)]
pub struct Xform {
    pub m: [[i32; 3]; 3],
    pub t: [i32; 3],
}

/// `a0 * b0 + a1 * b1 + a2 * b2 + c`, evaluated left to right with wrapping.
pub open spec fn dot3_plus(a0: i32, a1: i32, a2: i32, b0: i32, b1: i32, b2: i32, c: i32) -> i32 {
    wrapping_add(wrapping_add(wrapping_add(wrapping_mul(a0, b0), wrapping_mul(a1, b1)), wrapping_mul(a2, b2)), c)
}

/// `a0 * b0 + a1 * b1 + a2 * b2`, evaluated left to right with wrapping.
pub open spec fn dot3(a0: i32, a1: i32, a2: i32, b0: i32, b1: i32, b2: i32) -> i32 {
    wrapping_add(wrapping_add(wrapping_mul(a0, b0), wrapping_mul(a1, b1)), wrapping_mul(a2, b2))
}

pub open spec fn identity_xform() -> Xform {
    Xform { m: [[1, 0, 0], [0, 1, 0], [0, 0, 1]], t: [0, 0, 0] }
}

/// The image of point `p` under `x`.
pub open spec fn spec_apply(x: Xform, p: (i32, i32, i32)) -> (i32, i32, i32) {
    (
        dot3_plus(x.m[0][0], x.m[0][1], x.m[0][2], p.0, p.1, p.2, x.t[0]),
        dot3_plus(x.m[1][0], x.m[1][1], x.m[1][2], p.0, p.1, p.2, x.t[1]),
        dot3_plus(x.m[2][0], x.m[2][1], x.m[2][2], p.0, p.1, p.2, x.t[2]),
    )
}

/// Entry `(r, c)` of the product `a.m * b.m`.
pub open spec fn prod_entry(a: Xform, b: Xform, r: int, c: int) -> i32 {
    dot3(a.m[r][0], a.m[r][1], a.m[r][2], b.m[0][c], b.m[1][c], b.m[2][c])
}

/// The composition "first `b`, then `a`": matrix `a.m * b.m`, translation
/// `a.m * b.t + a.t`.
pub open spec fn spec_mul(a: Xform, b: Xform) -> Xform {
    Xform {
        m: [
            [prod_entry(a, b, 0, 0), prod_entry(a, b, 0, 1), prod_entry(a, b, 0, 2)],
            [prod_entry(a, b, 1, 0), prod_entry(a, b, 1, 1), prod_entry(a, b, 1, 2)],
            [prod_entry(a, b, 2, 0), prod_entry(a, b, 2, 1), prod_entry(a, b, 2, 2)],
        ],
        t: [
            dot3_plus(a.m[0][0], a.m[0][1], a.m[0][2], b.t[0], b.t[1], b.t[2], a.t[0]),
            dot3_plus(a.m[1][0], a.m[1][1], a.m[1][2], b.t[0], b.t[1], b.t[2], a.t[1]),
            dot3_plus(a.m[2][0], a.m[2][1], a.m[2][2], b.t[0], b.t[1], b.t[2], a.t[2]),
        ],
    }
}

fn dot3_exec(a0: i32, a1: i32, a2: i32, b0: i32, b1: i32, b2: i32) -> (r: i32)
    ensures
        r == dot3(a0, a1, a2, b0, b1, b2),
{
    a0.wrapping_mul(b0).wrapping_add(a1.wrapping_mul(b1)).wrapping_add(a2.wrapping_mul(b2))
}

impl Xform {
    pub fn identity() -> (x: Xform)
        ensures
            x == identity_xform(),
    {
        Xform { m: [[1, 0, 0], [0, 1, 0], [0, 0, 1]], t: [0, 0, 0] }
    }

    /// Maps point `p`.
    pub fn apply(&self, p: (i32, i32, i32)) -> (r: (i32, i32, i32))
        ensures
            r == spec_apply(*self, p),
    {
        let x = dot3_exec(self.m[0][0], self.m[0][1], self.m[0][2], p.0, p.1, p.2).wrapping_add(self.t[0]);
        let y = dot3_exec(self.m[1][0], self.m[1][1], self.m[1][2], p.0, p.1, p.2).wrapping_add(self.t[1]);
        let z = dot3_exec(self.m[2][0], self.m[2][1], self.m[2][2], p.0, p.1, p.2).wrapping_add(self.t[2]);
        (x, y, z)
    }

    /// The transform that applies `b` first and then `self`.
    pub fn mul(&self, b: &Xform) -> (r: Xform)
        ensures
            r == spec_mul(*self, *b),
    {
        let a = self;
        let e = |r: usize, c: usize| -> (v: i32)
            requires
                r < 3,
                c < 3,
            ensures
                v == prod_entry(*a, *b, r as int, c as int),
            { dot3_exec(a.m[r][0], a.m[r][1], a.m[r][2], b.m[0][c], b.m[1][c], b.m[2][c]) };
        let m = [[e(0, 0), e(0, 1), e(0, 2)], [e(1, 0), e(1, 1), e(1, 2)], [e(2, 0), e(2, 1), e(2, 2)]];
        let t0 = dot3_exec(a.m[0][0], a.m[0][1], a.m[0][2], b.t[0], b.t[1], b.t[2]).wrapping_add(a.t[0]);
        let t1 = dot3_exec(a.m[1][0], a.m[1][1], a.m[1][2], b.t[0], b.t[1], b.t[2]).wrapping_add(a.t[1]);
        let t2 = dot3_exec(a.m[2][0], a.m[2][1], a.m[2][2], b.t[0], b.t[1], b.t[2]).wrapping_add(a.t[2]);
        let r = Xform { m, t: [t0, t1, t2] };
        assert(r.m =~= spec_mul(*self, *b).m);
        assert(r.t =~= spec_mul(*self, *b).t);
        r
    }
}

proof fn lemma_wrap_units(x: i32)
    ensures
        wrapping_mul(1, x) == x,
        wrapping_mul(x, 1) == x,
        wrapping_mul(0, x) == 0,
        wrapping_mul(x, 0) == 0,
        wrapping_add(x, 0) == x,
        wrapping_add(0, x) == x,
{
    assert(1 * x == x && x * 1 == x && 0 * x == 0 && x * 0 == 0) by (nonlinear_arith);
    assert(vstd::wrapping::i32_specs::signed_crop(x as int) == x) by {
        if x >= 0 {
            assert((x as int) % 0x1_0000_0000 == x as int);
        } else {
            assert((x as int) % 0x1_0000_0000 == x + 0x1_0000_0000);
        }
    }
    assert(vstd::wrapping::i32_specs::signed_crop(0) == 0);
}

/// Whether `x` and `y` agree modulo 2^32, the modulus of `i32` arithmetic.
pub open spec fn cong(x: int, y: int) -> bool {
    x % 0x1_0000_0000 == y % 0x1_0000_0000
}

proof fn lemma_crop_cong(x: int)
    ensures
        cong(vstd::wrapping::i32_specs::signed_crop(x) as int, x),
{
    let w: int = 0x1_0000_0000;
    let r = x % w;
    assert(0 <= r < w);
    if r > i32::MAX {
        assert((r - w) % w == r) by {
            vstd::arithmetic::div_mod::lemma_mod_sub_multiples_vanish(r, w);
            vstd::arithmetic::div_mod::lemma_mod_self_0(w);
            vstd::arithmetic::div_mod::lemma_small_mod(r as nat, w as nat);
        }
    } else {
        vstd::arithmetic::div_mod::lemma_small_mod(r as nat, w as nat);
    }
}

proof fn lemma_wadd_cong(x: i32, y: i32)
    ensures
        cong(wrapping_add(x, y) as int, x + y),
{
    let w: int = 0x1_0000_0000;
    if x + y > i32::MAX {
        vstd::arithmetic::div_mod::lemma_mod_sub_multiples_vanish(x + y, w);
    } else if x + y < i32::MIN {
        vstd::arithmetic::div_mod::lemma_mod_add_multiples_vanish(x + y, w);
    }
}

proof fn lemma_wmul_cong(x: i32, y: i32)
    ensures
        cong(wrapping_mul(x, y) as int, x * y),
{
    lemma_crop_cong(x * y);
}

proof fn lemma_cong_add(a: int, a2: int, b: int, b2: int)
    requires
        cong(a, a2),
        cong(b, b2),
    ensures
        cong(a + b, a2 + b2),
{
    let w: int = 0x1_0000_0000;
    vstd::arithmetic::div_mod::lemma_add_mod_noop(a, b, w);
    vstd::arithmetic::div_mod::lemma_add_mod_noop(a2, b2, w);
}

proof fn lemma_cong_mul(a: int, a2: int, b: int, b2: int)
    requires
        cong(a, a2),
        cong(b, b2),
    ensures
        cong(a * b, a2 * b2),
{
    let w: int = 0x1_0000_0000;
    vstd::arithmetic::div_mod::lemma_mul_mod_noop(a, b, w);
    vstd::arithmetic::div_mod::lemma_mul_mod_noop(a2, b2, w);
}

proof fn lemma_cong_eq(u: i32, v: i32)
    requires
        cong(u as int, v as int),
    ensures
        u == v,
{
    let w: int = 0x1_0000_0000;
    vstd::arithmetic::div_mod::lemma_fundamental_div_mod(u as int, w);
    vstd::arithmetic::div_mod::lemma_fundamental_div_mod(v as int, w);
    let qu = (u as int) / w;
    let qv = (v as int) / w;
    let ui = u as int;
    let vi = v as int;
    assert(ui - vi == w * (qu - qv)) by (nonlinear_arith)
        requires
            ui == w * qu + ui % w,
            vi == w * qv + vi % w,
            ui % w == vi % w,
    ;
    assert(qu - qv == 0) by (nonlinear_arith)
        requires
            ui - vi == w * (qu - qv),
            -w < ui - vi,
            ui - vi < w,
            w > 0,
    ;
}

proof fn lemma_dot3_plus_cong(a0: i32, a1: i32, a2: i32, b0: i32, b1: i32, b2: i32, c: i32)
    ensures
        cong(dot3_plus(a0, a1, a2, b0, b1, b2, c) as int, a0 * b0 + a1 * b1 + a2 * b2 + c),
        cong(dot3(a0, a1, a2, b0, b1, b2) as int, a0 * b0 + a1 * b1 + a2 * b2),
{
    let m0 = wrapping_mul(a0, b0);
    let m1 = wrapping_mul(a1, b1);
    let m2 = wrapping_mul(a2, b2);
    lemma_wmul_cong(a0, b0);
    lemma_wmul_cong(a1, b1);
    lemma_wmul_cong(a2, b2);
    let s1 = wrapping_add(m0, m1);
    lemma_wadd_cong(m0, m1);
    lemma_cong_add(m0 as int, a0 * b0, m1 as int, a1 * b1);
    let s2 = wrapping_add(s1, m2);
    lemma_wadd_cong(s1, m2);
    lemma_cong_add(s1 as int, a0 * b0 + a1 * b1, m2 as int, a2 * b2);
    lemma_wadd_cong(s2, c);
    lemma_cong_add(s2 as int, a0 * b0 + a1 * b1 + a2 * b2, c as int, c as int);
}

/// Linear combinations keep congruence.
proof fn lemma_cong_comb(x0: int, x1: int, x2: int, y0: int, y1: int, y2: int, k0: int, k1: int, k2: int, c: int, d: int)
    requires
        cong(x0, y0),
        cong(x1, y1),
        cong(x2, y2),
        cong(c, d),
    ensures
        cong(k0 * x0 + k1 * x1 + k2 * x2 + c, k0 * y0 + k1 * y1 + k2 * y2 + d),
{
    lemma_cong_mul(k0, k0, x0, y0);
    lemma_cong_mul(k1, k1, x1, y1);
    lemma_cong_mul(k2, k2, x2, y2);
    lemma_cong_add(k0 * x0, k0 * y0, k1 * x1, k1 * y1);
    lemma_cong_add(k0 * x0 + k1 * x1, k0 * y0 + k1 * y1, k2 * x2, k2 * y2);
    lemma_cong_add(k0 * x0 + k1 * x1 + k2 * x2, k0 * y0 + k1 * y1 + k2 * y2, c, d);
}

/// Linear combinations keep congruence, coefficients on the right.
proof fn lemma_cong_comb_right(x0: int, x1: int, x2: int, y0: int, y1: int, y2: int, k0: int, k1: int, k2: int, c: int, d: int)
    requires
        cong(x0, y0),
        cong(x1, y1),
        cong(x2, y2),
        cong(c, d),
    ensures
        cong(x0 * k0 + x1 * k1 + x2 * k2 + c, y0 * k0 + y1 * k1 + y2 * k2 + d),
{
    lemma_cong_mul(x0, y0, k0, k0);
    lemma_cong_mul(x1, y1, k1, k1);
    lemma_cong_mul(x2, y2, k2, k2);
    lemma_cong_add(x0 * k0, y0 * k0, x1 * k1, y1 * k1);
    lemma_cong_add(x0 * k0 + x1 * k1, y0 * k0 + y1 * k1, x2 * k2, y2 * k2);
    lemma_cong_add(x0 * k0 + x1 * k1 + x2 * k2, y0 * k0 + y1 * k1 + y2 * k2, c, d);
}

/// The exact value of the composition law: `p * (a * b) + (a * bt + at)`
/// equals `a * (b * p + bt) + at`.
proof fn lemma_compose_exact(
    a0: int, a1: int, a2: int, at: int,
    b00: int, b01: int, b02: int, b10: int, b11: int, b12: int, b20: int, b21: int, b22: int,
    t0: int, t1: int, t2: int, p0: int, p1: int, p2: int,
)
    ensures
        (a0 * b00 + a1 * b10 + a2 * b20) * p0 + (a0 * b01 + a1 * b11 + a2 * b21) * p1 + (a0 * b02 + a1 * b12 + a2 * b22) * p2
            + (a0 * t0 + a1 * t1 + a2 * t2 + at)
        == a0 * (b00 * p0 + b01 * p1 + b02 * p2 + t0) + a1 * (b10 * p0 + b11 * p1 + b12 * p2 + t1) + a2 * (b20 * p0 + b21 * p1 + b22
            * p2 + t2) + at,
{
    assert((a0 * b00 + a1 * b10 + a2 * b20) * p0 == a0 * b00 * p0 + a1 * b10 * p0 + a2 * b20 * p0) by (nonlinear_arith);
    assert((a0 * b01 + a1 * b11 + a2 * b21) * p1 == a0 * b01 * p1 + a1 * b11 * p1 + a2 * b21 * p1) by (nonlinear_arith);
    assert((a0 * b02 + a1 * b12 + a2 * b22) * p2 == a0 * b02 * p2 + a1 * b12 * p2 + a2 * b22 * p2) by (nonlinear_arith);
    lemma_dist_row(a0, b00, b01, b02, t0, p0, p1, p2);
    lemma_dist_row(a1, b10, b11, b12, t1, p0, p1, p2);
    lemma_dist_row(a2, b20, b21, b22, t2, p0, p1, p2);
}

proof fn lemma_dist_row(a: int, x: int, y: int, z: int, t: int, p0: int, p1: int, p2: int)
    ensures
        a * (x * p0 + y * p1 + z * p2 + t) == a * x * p0 + a * y * p1 + a * z * p2 + a * t,
{
    assert(a * (x * p0 + y * p1 + z * p2 + t) == a * (x * p0) + a * (y * p1) + a * (z * p2) + a * t) by (nonlinear_arith);
    vstd::arithmetic::mul::lemma_mul_is_associative(a, x, p0);
    vstd::arithmetic::mul::lemma_mul_is_associative(a, y, p1);
    vstd::arithmetic::mul::lemma_mul_is_associative(a, z, p2);
}

proof fn lemma_cong_trans(x: int, y: int, z: int)
    requires
        cong(x, y),
        cong(y, z),
    ensures
        cong(x, z),
{
}

/// Row `r` of the composition law.
proof fn lemma_mul_apply_row(a: Xform, b: Xform, p: (i32, i32, i32), r: int)
    requires
        0 <= r < 3,
    ensures
        dot3_plus(
            spec_mul(a, b).m[r][0],
            spec_mul(a, b).m[r][1],
            spec_mul(a, b).m[r][2],
            p.0,
            p.1,
            p.2,
            spec_mul(a, b).t[r],
        ) == dot3_plus(a.m[r][0], a.m[r][1], a.m[r][2], spec_apply(b, p).0, spec_apply(b, p).1, spec_apply(b, p).2, a.t[r]),
{
    let ab = spec_mul(a, b);
    let q = spec_apply(b, p);
    let (a0, a1, a2) = (a.m[r][0] as int, a.m[r][1] as int, a.m[r][2] as int);
    let (p0, p1, p2) = (p.0 as int, p.1 as int, p.2 as int);
    // exact values of the product's entries and translation
    let e0 = a0 * b.m[0][0] + a1 * b.m[1][0] + a2 * b.m[2][0];
    let e1 = a0 * b.m[0][1] + a1 * b.m[1][1] + a2 * b.m[2][1];
    let e2 = a0 * b.m[0][2] + a1 * b.m[1][2] + a2 * b.m[2][2];
    let et = a0 * b.t[0] + a1 * b.t[1] + a2 * b.t[2] + a.t[r];
    assert(ab.m[r][0] == prod_entry(a, b, r, 0) && ab.m[r][1] == prod_entry(a, b, r, 1) && ab.m[r][2] == prod_entry(a, b, r, 2));
    assert(ab.t[r] == dot3_plus(a.m[r][0], a.m[r][1], a.m[r][2], b.t[0], b.t[1], b.t[2], a.t[r]));
    lemma_dot3_plus_cong(a.m[r][0], a.m[r][1], a.m[r][2], b.m[0][0], b.m[1][0], b.m[2][0], 0);
    lemma_dot3_plus_cong(a.m[r][0], a.m[r][1], a.m[r][2], b.m[0][1], b.m[1][1], b.m[2][1], 0);
    lemma_dot3_plus_cong(a.m[r][0], a.m[r][1], a.m[r][2], b.m[0][2], b.m[1][2], b.m[2][2], 0);
    lemma_dot3_plus_cong(a.m[r][0], a.m[r][1], a.m[r][2], b.t[0], b.t[1], b.t[2], a.t[r]);
    // left side
    let lhs = dot3_plus(ab.m[r][0], ab.m[r][1], ab.m[r][2], p.0, p.1, p.2, ab.t[r]);
    lemma_dot3_plus_cong(ab.m[r][0], ab.m[r][1], ab.m[r][2], p.0, p.1, p.2, ab.t[r]);
    lemma_cong_comb_right(ab.m[r][0] as int, ab.m[r][1] as int, ab.m[r][2] as int, e0, e1, e2, p0, p1, p2, ab.t[r] as int, et);
    let lx = e0 * p0 + e1 * p1 + e2 * p2 + et;
    lemma_cong_trans(lhs as int, ab.m[r][0] * p0 + ab.m[r][1] * p1 + ab.m[r][2] * p2 + ab.t[r], lx);
    // right side
    let f0 = b.m[0][0] * p0 + b.m[0][1] * p1 + b.m[0][2] * p2 + b.t[0];
    let f1 = b.m[1][0] * p0 + b.m[1][1] * p1 + b.m[1][2] * p2 + b.t[1];
    let f2 = b.m[2][0] * p0 + b.m[2][1] * p1 + b.m[2][2] * p2 + b.t[2];
    lemma_dot3_plus_cong(b.m[0][0], b.m[0][1], b.m[0][2], p.0, p.1, p.2, b.t[0]);
    lemma_dot3_plus_cong(b.m[1][0], b.m[1][1], b.m[1][2], p.0, p.1, p.2, b.t[1]);
    lemma_dot3_plus_cong(b.m[2][0], b.m[2][1], b.m[2][2], p.0, p.1, p.2, b.t[2]);
    let rhs = dot3_plus(a.m[r][0], a.m[r][1], a.m[r][2], q.0, q.1, q.2, a.t[r]);
    lemma_dot3_plus_cong(a.m[r][0], a.m[r][1], a.m[r][2], q.0, q.1, q.2, a.t[r]);
    lemma_cong_comb(q.0 as int, q.1 as int, q.2 as int, f0, f1, f2, a0, a1, a2, a.t[r] as int, a.t[r] as int);
    let rx = a0 * f0 + a1 * f1 + a2 * f2 + a.t[r];
    lemma_cong_trans(rhs as int, a0 * q.0 + a1 * q.1 + a2 * q.2 + a.t[r], rx);
    // the exact values agree
    lemma_compose_exact(
        a0, a1, a2, a.t[r] as int,
        b.m[0][0] as int, b.m[0][1] as int, b.m[0][2] as int,
        b.m[1][0] as int, b.m[1][1] as int, b.m[1][2] as int,
        b.m[2][0] as int, b.m[2][1] as int, b.m[2][2] as int,
        b.t[0] as int, b.t[1] as int, b.t[2] as int, p0, p1, p2,
    );
    assert(lx == rx);
    lemma_cong_trans(lhs as int, lx, rhs as int);
    lemma_cong_eq(lhs, rhs);
}

/// Composing transforms is applying them in turn, `b` first: in `i32`
/// arithmetic, which wraps modulo 2^32, the two agree on every point.
pub proof fn lemma_mul_apply(a: Xform, b: Xform, p: (i32, i32, i32))
    ensures
        spec_apply(spec_mul(a, b), p) == spec_apply(a, spec_apply(b, p)),
{
    lemma_mul_apply_row(a, b, p, 0);
    lemma_mul_apply_row(a, b, p, 1);
    lemma_mul_apply_row(a, b, p, 2);
}

/// The identity transform maps every point to itself.
pub proof fn lemma_identity_apply(p: (i32, i32, i32))
    ensures
        spec_apply(identity_xform(), p) == p,
{
    lemma_wrap_units(p.0);
    lemma_wrap_units(p.1);
    lemma_wrap_units(p.2);
    lemma_wrap_units(0);
}

/// Composing with the identity transform, on either side, changes nothing.
pub proof fn lemma_identity_mul(x: Xform)
    ensures
        spec_mul(identity_xform(), x) == x,
        spec_mul(x, identity_xform()) == x,
{
    lemma_wrap_units(0);
    lemma_wrap_units(x.m[0][0]);
    lemma_wrap_units(x.m[0][1]);
    lemma_wrap_units(x.m[0][2]);
    lemma_wrap_units(x.m[1][0]);
    lemma_wrap_units(x.m[1][1]);
    lemma_wrap_units(x.m[1][2]);
    lemma_wrap_units(x.m[2][0]);
    lemma_wrap_units(x.m[2][1]);
    lemma_wrap_units(x.m[2][2]);
    lemma_wrap_units(x.t[0]);
    lemma_wrap_units(x.t[1]);
    lemma_wrap_units(x.t[2]);
    let a = spec_mul(identity_xform(), x);
    let b = spec_mul(x, identity_xform());
    let id = identity_xform();
    assert(id.m[0][0] == 1 && id.m[0][1] == 0 && id.m[0][2] == 0);
    assert(id.m[1][0] == 0 && id.m[1][1] == 1 && id.m[1][2] == 0);
    assert(id.m[2][0] == 0 && id.m[2][1] == 0 && id.m[2][2] == 1);
    assert(id.t[0] == 0 && id.t[1] == 0 && id.t[2] == 0);
    assert(a.m[0] =~= x.m[0]);
    assert(a.m[1] =~= x.m[1]);
    assert(a.m[2] =~= x.m[2]);
    assert(b.m[0] =~= x.m[0]);
    assert(b.m[1] =~= x.m[1]);
    assert(b.m[2] =~= x.m[2]);
    assert(a.m =~= x.m);
    assert(a.t =~= x.t);
    assert(b.m =~= x.m);
    assert(b.t =~= x.t);
}

/// Whether a rotation byte names a matrix column outside `0..3` (the first
/// two fields are two-bit column indices).
pub open spec fn rotation_out_of_range(r: u8) -> bool {
    r % 4 == 3 || (r / 4) % 4 == 3
}

/// The row `[0, 0, 0]` with `s` at column `idx`.
pub open spec fn one_hot(idx: int, s: i32) -> [i32; 3] {
    [if idx == 0 {
        s
    } else {
        0
    }, if idx == 1 {
        s
    } else {
        0
    }, if idx == 2 {
        s
    } else {
        0
    }]
}

pub open spec fn sign_bit(r: u8, k: nat) -> i32 {
    if (r as int / pow2(k)) % 2 == 0 {
        1i32
    } else {
        -1i32
    }
}

pub open spec fn pow2(k: nat) -> int
    decreases k,
{
    if k == 0 {
        1
    } else {
        2 * pow2((k - 1) as nat)
    }
}

/// The rotation matrix of a `.vox` rotation byte: row 0 has its non-zero
/// entry at column `r & 3`, row 1 at `(r >> 2) & 3`, row 2 at the smallest
/// column not taken (column 2 if both were taken, which cannot happen), with
/// signs from bits 4, 5 and 6.
pub open spec fn spec_decode_rot(r: u8) -> [[i32; 3]; 3] {
    let r1 = r as int % 4;
    let r2 = (r as int / 4) % 4;
    let r3 = if r1 != r2 {
        3 - r1 - r2
    } else if r1 == 0 {
        1
    } else {
        0
    };
    [one_hot(r1, sign_bit(r, 4)), one_hot(r2, sign_bit(r, 5)), one_hot(r3, sign_bit(r, 6))]
}

/// 1 for a non-zero entry, 0 for zero.
pub open spec fn nonzero(x: i32) -> int {
    if x != 0 {
        1
    } else {
        0
    }
}

/// A rotation byte whose two column indices are in range and differ
/// decodes to a signed permutation matrix: every entry is 0, 1 or -1, and
/// every row and every column has exactly one non-zero entry.
pub proof fn lemma_decode_rot_signed_permutation(r: u8)
    requires
        !rotation_out_of_range(r),
        r as int % 4 != (r as int / 4) % 4,
    ensures
        forall|i: int, c: int|
            0 <= i < 3 && 0 <= c < 3 ==> #[trigger] spec_decode_rot(r)[i][c] == 0 || spec_decode_rot(r)[i][c] == 1
                || spec_decode_rot(r)[i][c] == -1,
        forall|i: int|
            0 <= i < 3 ==> nonzero(#[trigger] spec_decode_rot(r)[i][0]) + nonzero(spec_decode_rot(r)[i][1]) + nonzero(
                spec_decode_rot(r)[i][2],
            ) == 1,
        forall|c: int|
            0 <= c < 3 ==> nonzero(#[trigger] spec_decode_rot(r)[0][c]) + nonzero(spec_decode_rot(r)[1][c]) + nonzero(
                spec_decode_rot(r)[2][c],
            ) == 1,
{
    let m = spec_decode_rot(r);
    assert(sign_bit(r, 4) == 1 || sign_bit(r, 4) == -1);
    assert(sign_bit(r, 5) == 1 || sign_bit(r, 5) == -1);
    assert(sign_bit(r, 6) == 1 || sign_bit(r, 6) == -1);
}

fn one_hot_exec(idx: usize, s: i32) -> (row: [i32; 3])
    ensures
        row == one_hot(idx as int, s),
{
    let row = [if idx == 0 {
        s
    } else {
        0
    }, if idx == 1 {
        s
    } else {
        0
    }, if idx == 2 {
        s
    } else {
        0
    }];
    assert(row =~= one_hot(idx as int, s));
    row
}

/// Decodes a rotation byte. Both column indices must be below three.
pub fn decode_rot(r: u8) -> (m: [[i32; 3]; 3])
    requires
        !rotation_out_of_range(r),
    ensures
        m == spec_decode_rot(r),
{
    let r1 = (r % 4) as usize;
    let r2 = ((r / 4) % 4) as usize;
    let s1: i32 = if (r / 16) % 2 == 0 {
        1
    } else {
        -1
    };
    let s2: i32 = if (r / 32) % 2 == 0 {
        1
    } else {
        -1
    };
    let s3: i32 = if (r / 64) % 2 == 0 {
        1
    } else {
        -1
    };
    let r3: usize = if r1 != r2 {
        3 - r1 - r2
    } else if r1 == 0 {
        1
    } else {
        0
    };
    proof {
        reveal_with_fuel(pow2, 7);
    }
    let m = [one_hot_exec(r1, s1), one_hot_exec(r2, s2), one_hot_exec(r3, s3)];
    assert(m =~= spec_decode_rot(r));
    m
}

// ---------------------------------------------------------------------------
// Attribute text: whitespace splitting and integer parsing.
// ---------------------------------------------------------------------------

/// Length in bytes of the UTF-8 encoded Unicode white-space character that
/// starts at `i` (ASCII tab through carriage return and space, U+0085,
/// U+00A0, U+1680, U+2000 to U+200A, U+2028, U+2029, U+202F, U+205F,
/// U+3000), or 0.
pub open spec fn ws_len(b: Seq<u8>, i: int) -> int {
    let c = b[i];
    if c == 0x20 || (0x09 <= c && c <= 0x0d) {
        1
    } else if i + 1 < b.len() && c == 0xC2 && (b[i + 1] == 0x85 || b[i + 1] == 0xA0) {
        2
    } else if i + 2 < b.len() && c == 0xE1 && b[i + 1] == 0x9A && b[i + 2] == 0x80 {
        3
    } else if i + 2 < b.len() && c == 0xE2 && b[i + 1] == 0x80 && ((0x80 <= b[i + 2] && b[i + 2] <= 0x8A)
        || b[i + 2] == 0xA8 || b[i + 2] == 0xA9 || b[i + 2] == 0xAF) {
        3
    } else if i + 2 < b.len() && c == 0xE2 && b[i + 1] == 0x81 && b[i + 2] == 0x9F {
        3
    } else if i + 2 < b.len() && c == 0xE3 && b[i + 1] == 0x80 && b[i + 2] == 0x80 {
        3
    } else {
        0
    }
}

/// The white-space separated tokens of `b` from position `i` on, given the
/// token `cur` being built and the tokens `acc` found so far.
pub open spec fn tokens_from(b: Seq<u8>, i: int, cur: Seq<u8>, acc: Seq<Seq<u8>>) -> Seq<Seq<u8>>
    decreases b.len() - i,
{
    if i < 0 || i >= b.len() {
        if cur.len() > 0 {
            acc.push(cur)
        } else {
            acc
        }
    } else {
        let w = ws_len(b, i);
        if w > 0 {
            tokens_from(
                b,
                i + w,
                Seq::empty(),
                if cur.len() > 0 {
                    acc.push(cur)
                } else {
                    acc
                },
            )
        } else {
            tokens_from(b, i + 1, cur.push(b[i]), acc)
        }
    }
}

/// The white-space separated tokens of `b`.
pub open spec fn split_ws(b: Seq<u8>) -> Seq<Seq<u8>> {
    tokens_from(b, 0, Seq::empty(), Seq::empty())
}

fn ws_len_exec(b: &Vec<u8>, i: usize) -> (w: usize)
    requires
        i < b@.len(),
    ensures
        w as int == ws_len(b@, i as int),
{
    let c = b[i];
    let n = b.len();
    if c == 0x20 || (0x09 <= c && c <= 0x0d) {
        1
    } else if n - i > 1 && c == 0xC2 && (b[i + 1] == 0x85 || b[i + 1] == 0xA0) {
        2
    } else if n - i > 2 && c == 0xE1 && b[i + 1] == 0x9A && b[i + 2] == 0x80 {
        3
    } else if n - i > 2 && c == 0xE2 && b[i + 1] == 0x80 && ((0x80 <= b[i + 2] && b[i + 2] <= 0x8A)
        || b[i + 2] == 0xA8 || b[i + 2] == 0xA9 || b[i + 2] == 0xAF) {
        3
    } else if n - i > 2 && c == 0xE2 && b[i + 1] == 0x81 && b[i + 2] == 0x9F {
        3
    } else if n - i > 2 && c == 0xE3 && b[i + 1] == 0x80 && b[i + 2] == 0x80 {
        3
    } else {
        0
    }
}

/// Splits `b` at Unicode white space (as `str::split_whitespace` does on
/// its UTF-8 decoding).
pub fn split_whitespace(b: &Vec<u8>) -> (toks: Vec<Vec<u8>>)
    ensures
        toks@.map_values(|t: Vec<u8>| t@) == split_ws(b@),
{
    let mut toks: Vec<Vec<u8>> = Vec::new();
    let mut cur: Vec<u8> = Vec::new();
    let mut i: usize = 0;
    assert(toks@.map_values(|t: Vec<u8>| t@) =~= Seq::<Seq<u8>>::empty());
    assert(cur@ =~= Seq::<u8>::empty());
    while i < b.len()
        invariant
            i <= b@.len(),
            tokens_from(b@, i as int, cur@, toks@.map_values(|t: Vec<u8>| t@)) == split_ws(b@),
        decreases b.len() - i,
    {
        let w = ws_len_exec(b, i);
        if w > 0 {
            if cur.len() > 0 {
                let ghost before = toks@.map_values(|t: Vec<u8>| t@);
                let c = cur;
                cur = Vec::new();
                toks.push(c);
                proof {
                    assert(toks@.map_values(|t: Vec<u8>| t@) =~= before.push(c@));
                }
            }
            assert(cur@ =~= Seq::<u8>::empty());
            i = if w <= b.len() - i {
                i + w
            } else {
                b.len()
            };
        } else {
            cur.push(b[i]);
            i += 1;
        }
    }
    if cur.len() > 0 {
        let ghost before = toks@.map_values(|t: Vec<u8>| t@);
        toks.push(cur);
        proof {
            assert(toks@.map_values(|t: Vec<u8>| t@) =~= before.push(cur@));
        }
    }
    toks
}

/// The value of a string of decimal digits.
pub open spec fn digits_value(d: Seq<u8>) -> int
    decreases d.len(),
{
    if d.len() == 0 {
        0
    } else {
        digits_value(d.drop_last()) * 10 + (d.last() - 48)
    }
}

pub open spec fn all_digits(d: Seq<u8>) -> bool {
    forall|i: int| 0 <= i < d.len() ==> 48 <= #[trigger] d[i] <= 57
}

/// `str::parse::<i32>`: an optional `+` or `-` followed by one or more
/// ASCII digits, whose value fits in `i32`.
pub open spec fn parse_i32_spec(t: Seq<u8>) -> Option<i32> {
    let neg = t.len() > 0 && t[0] == 45;
    let d = if t.len() > 0 && (t[0] == 45 || t[0] == 43) {
        t.skip(1)
    } else {
        t
    };
    if d.len() == 0 || !all_digits(d) {
        None
    } else {
        let v = if neg {
            -digits_value(d)
        } else {
            digits_value(d)
        };
        if i32::MIN <= v <= i32::MAX {
            Some(v as i32)
        } else {
            None
        }
    }
}

/// `str::parse::<u8>`: an optional `+` followed by one or more ASCII digits,
/// whose value is at most 255.
pub open spec fn parse_u8_spec(t: Seq<u8>) -> Option<u8> {
    let d = if t.len() > 0 && t[0] == 43 {
        t.skip(1)
    } else {
        t
    };
    if d.len() == 0 || !all_digits(d) {
        None
    } else if digits_value(d) <= 255 {
        Some(digits_value(d) as u8)
    } else {
        None
    }
}

proof fn lemma_digits_value_nonneg(d: Seq<u8>)
    requires
        all_digits(d),
    ensures
        digits_value(d) >= 0,
    decreases d.len(),
{
    if d.len() > 0 {
        assert(all_digits(d.drop_last()));
        lemma_digits_value_nonneg(d.drop_last());
    }
}

proof fn lemma_digits_value_mono(d: Seq<u8>, i: int)
    requires
        all_digits(d),
        0 <= i <= d.len(),
    ensures
        digits_value(d.take(i)) <= digits_value(d),
    decreases d.len() - i,
{
    if i < d.len() {
        lemma_digits_value_mono(d, i + 1);
        assert(d.take(i + 1).drop_last() =~= d.take(i));
        assert(all_digits(d.take(i)));
        lemma_digits_value_nonneg(d.take(i));
    } else {
        assert(d.take(i) =~= d);
    }
}

/// Scans the digits of `t` from `start`: `Some(value)` when they are all
/// digits, there is at least one, and the value is at most `limit`.
fn scan_digits(t: &Vec<u8>, start: usize, limit: u64) -> (r: Option<u64>)
    requires
        start <= t@.len(),
        limit <= 0x1_0000_0000,
    ensures
        r matches Some(v) ==> t@.skip(start as int).len() > 0 && all_digits(t@.skip(start as int)) && v
            == digits_value(t@.skip(start as int)) && v <= limit,
        r is None ==> t@.skip(start as int).len() == 0 || !all_digits(t@.skip(start as int)) || digits_value(
            t@.skip(start as int),
        ) > limit,
{
    let ghost d = t@.skip(start as int);
    if start == t.len() {
        return None;
    }
    let mut v: u64 = 0;
    let mut i: usize = start;
    let mut too_big = false;
    while i < t.len()
        invariant
            start <= i <= t@.len(),
            d == t@.skip(start as int),
            limit <= 0x1_0000_0000,
            all_digits(d.take(i - start)),
            !too_big ==> v == digits_value(d.take(i - start)) && v <= limit,
            too_big ==> digits_value(d.take(i - start)) > limit,
        decreases t.len() - i,
    {
        let c = t[i];
        if c < 48 || c > 57 {
            assert(d[i - start] == c);
            return None;
        }
        proof {
            assert(d.take(i - start + 1).drop_last() =~= d.take(i - start));
            assert(all_digits(d.take(i - start + 1)));
            lemma_digits_value_nonneg(d.take(i - start));
        }
        if !too_big {
            let nv = v * 10 + (c - 48) as u64;
            if nv > limit {
                too_big = true;
            } else {
                v = nv;
            }
        }
        i += 1;
    }
    assert(d.take(i - start) =~= d);
    if too_big {
        None
    } else {
        Some(v)
    }
}

/// Parses a decimal `i32` (see `parse_i32_spec`).
pub fn parse_i32(t: &Vec<u8>) -> (r: Option<i32>)
    ensures
        r == parse_i32_spec(t@),
{
    let neg = t.len() > 0 && t[0] == 45;
    let start: usize = if t.len() > 0 && (t[0] == 45 || t[0] == 43) {
        1
    } else {
        0
    };
    assert(start == 0 ==> t@.skip(0) =~= t@);
    let limit: u64 = if neg {
        0x8000_0000
    } else {
        0x7fff_ffff
    };
    match scan_digits(t, start, limit) {
        None => None,
        Some(v) => {
            if neg {
                Some((0 - (v as i64)) as i32)
            } else {
                Some(v as i32)
            }
        },
    }
}

/// Parses a decimal `u8` (see `parse_u8_spec`).
pub fn parse_u8(t: &Vec<u8>) -> (r: Option<u8>)
    ensures
        r == parse_u8_spec(t@),
{
    let start: usize = if t.len() > 0 && t[0] == 43 {
        1
    } else {
        0
    };
    assert(start == 0 ==> t@.skip(0) =~= t@);
    match scan_digits(t, start, 255) {
        None => None,
        Some(v) => Some(v as u8),
    }
}

// ---------------------------------------------------------------------------
// Transform node attributes.
// ---------------------------------------------------------------------------

/// The value of the last entry of `d` whose key is `key` (a later entry
/// replaces an earlier one).
pub open spec fn dict_lookup(d: Seq<(Seq<u8>, Seq<u8>)>, key: Seq<u8>) -> Option<Seq<u8>>
    decreases d.len(),
{
    if d.len() == 0 {
        None
    } else if d.last().0 == key {
        Some(d.last().1)
    } else {
        dict_lookup(d.drop_last(), key)
    }
}

pub open spec fn key_t() -> Seq<u8> {
    seq![95u8, 116u8]
}

pub open spec fn key_r() -> Seq<u8> {
    seq![95u8, 114u8]
}

/// A translation component: the `k`-th token parsed as `i32`, 0 when absent
/// or malformed.
pub open spec fn translation_component(toks: Seq<Seq<u8>>, k: int) -> i32 {
    if k < toks.len() {
        match parse_i32_spec(toks[k]) {
            Some(v) => v,
            None => 0,
        }
    } else {
        0
    }
}

/// The local transform of a transform node, or `None` when its rotation
/// byte is out of range. The attributes are those of the first frame (the
/// node's own when it has no frame); `_t` gives the translation, `_r` (from
/// the frame, else from the node) the rotation.
pub open spec fn spec_trn_local(attrs: Seq<(Seq<u8>, Seq<u8>)>, frames: Seq<Seq<(Seq<u8>, Seq<u8>)>>) -> Option<Xform> {
    let f = if frames.len() > 0 {
        frames[0]
    } else {
        attrs
    };
    let t = match dict_lookup(f, key_t()) {
        Some(v) => {
            let toks = split_ws(v);
            [translation_component(toks, 0), translation_component(toks, 1), translation_component(toks, 2)]
        },
        None => [0i32, 0i32, 0i32],
    };
    let r = match dict_lookup(f, key_r()) {
        Some(v) => Some(v),
        None => dict_lookup(attrs, key_r()),
    };
    match r {
        Some(rv) => match parse_u8_spec(rv) {
            Some(b) => if rotation_out_of_range(b) {
                None
            } else {
                Some(Xform { m: spec_decode_rot(b), t })
            },
            None => Some(Xform { m: identity_xform().m, t }),
        },
        None => Some(Xform { m: identity_xform().m, t }),
    }
}

pub open spec fn entries_view(d: Seq<DictEntry>) -> Seq<(Seq<u8>, Seq<u8>)> {
    d.map_values(|e: DictEntry| (e.key@, e.value@))
}

fn bytes_eq(a: &Vec<u8>, b: &[u8]) -> (r: bool)
    ensures
        r == (a@ == b@),
{
    if a.len() != b.len() {
        return false;
    }
    let mut i: usize = 0;
    while i < a.len()
        invariant
            i <= a@.len(),
            a@.len() == b@.len(),
            forall|j: int| 0 <= j < i ==> a@[j] == b@[j],
        decreases a.len() - i,
    {
        if a[i] != b[i] {
            return false;
        }
        i += 1;
    }
    assert(a@ =~= b@);
    true
}

/// The value of the last entry whose key is `key`.
pub fn dict_get<'a>(d: &'a Vec<DictEntry>, key: &[u8]) -> (r: Option<&'a Vec<u8>>)
    ensures
        r matches Some(v) ==> dict_lookup(entries_view(d@), key@) == Some(v@),
        r is None ==> dict_lookup(entries_view(d@), key@) is None,
{
    let mut i = d.len();
    assert(d@.take(i as int) =~= d@);
    while i > 0
        invariant
            i <= d@.len(),
            dict_lookup(entries_view(d@), key@) == dict_lookup(entries_view(d@.take(i as int)), key@),
        decreases i,
    {
        proof {
            assert(entries_view(d@.take(i as int)).drop_last() =~= entries_view(d@.take(i - 1)));
        }
        if bytes_eq(&d[i - 1].key, key) {
            return Some(&d[i - 1].value);
        }
        i -= 1;
    }
    None
}

/// The local transform of a transform node (see `spec_trn_local`).
pub fn trn_local(attrs: &Vec<DictEntry>, frames: &Vec<Vec<DictEntry>>) -> (r: Option<Xform>)
    ensures
        r == spec_trn_local(entries_view(attrs@), frames@.map_values(|f: Vec<DictEntry>| entries_view(f@))),
{
    let ghost fv = frames@.map_values(|f: Vec<DictEntry>| entries_view(f@));
    let f = if frames.len() > 0 {
        &frames[0]
    } else {
        attrs
    };
    let key_t_bytes: [u8; 2] = [95, 116];
    let key_r_bytes: [u8; 2] = [95, 114];
    proof {
        assert(key_t_bytes@ =~= key_t());
        assert(key_r_bytes@ =~= key_r());
    }
    let mut t: [i32; 3] = [0, 0, 0];
    match dict_get(f, key_t_bytes.as_slice()) {
        Some(v) => {
            let toks = split_whitespace(v);
            let ghost tv = toks@.map_values(|t: Vec<u8>| t@);
            let mut comps: [i32; 3] = [0, 0, 0];
            let mut k: usize = 0;
            while k < 3
                invariant
                    k <= 3,
                    tv == toks@.map_values(|t: Vec<u8>| t@),
                    forall|j: int| 0 <= j < k ==> comps[j] == translation_component(tv, j),
                decreases 3 - k,
            {
                let c = if k < toks.len() {
                    match parse_i32(&toks[k]) {
                        Some(x) => x,
                        None => 0,
                    }
                } else {
                    0
                };
                comps[k] = c;
                k += 1;
            }
            t = comps;
        },
        None => {},
    }
    let r = match dict_get(f, key_r_bytes.as_slice()) {
        Some(v) => Some(v),
        None => dict_get(attrs, key_r_bytes.as_slice()),
    };
    let m = match r {
        Some(rv) => match parse_u8(rv) {
            Some(b) => {
                if b % 4 == 3 || (b / 4) % 4 == 3 {
                    return None;
                }
                decode_rot(b)
            },
            None => [[1, 0, 0], [0, 1, 0], [0, 0, 1]],
        },
        None => [[1, 0, 0], [0, 1, 0], [0, 0, 1]],
    };
    let x = Xform { m, t };
    proof {
        assert(frames@.len() > 0 ==> fv[0] == entries_view(frames@[0]@));
        assert(x.t =~= spec_trn_local(entries_view(attrs@), fv).unwrap().t);
        assert(x.m =~= spec_trn_local(entries_view(attrs@), fv).unwrap().m);
    }
    Some(x)
}

} // verus!
