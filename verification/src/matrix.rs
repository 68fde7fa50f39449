//! 4x4 column-major transform matrices over fixed-point scalars.
//!
//! Entry `e[c * 4 + r]` is the element in row `r` of column `c`, as in the
//! usual OpenGL memory layout. Every constructor and the multiply are exact
//! mirrors of their specification functions, which are stated over
//! mathematical integers.

use vstd::prelude::*;
use crate::fixed::{
    fx_add, fx_add_s, fx_div, fx_div_s, fx_divi, fx_divi_s, fx_mul, fx_mul_s, fx_sub, fx_sub_s,
    tan_s, tan_fx, FX_ONE,
};

verus! {

broadcast use vstd::array::group_array_axioms;

/// A 3-component fixed-point vector.
#[derive(Clone, Copy, Debug, PartialEq, Eq, Structural)]
pub struct Vec3 {
    pub x: i64,
    pub y: i64,
    pub z: i64,
}

/// A rotation quaternion `[x, y, z, w]` in fixed point. Callers are
/// responsible for normalization; the library does not re-normalize.
#[derive(Clone, Copy, Debug, PartialEq, Eq, Structural)]
pub struct Quat {
    pub x: i64,
    pub y: i64,
    pub z: i64,
    pub w: i64,
}

/// A 4x4 matrix of fixed-point scalars in column-major order.
#[derive(Clone, Copy, Debug, PartialEq)]
pub struct Mat4 {
    pub e: [i64; 16],
}

impl Mat4 {
    /// The matrix as a sequence of 16 mathematical integers, column-major.
    pub open spec fn v(self) -> Seq<int> {
        self.e@.map(|_i: int, x: i64| x as int)
    }
}

/// The identity quaternion (no rotation).
pub open spec fn quat_identity_s() -> Quat {
    Quat { x: 0, y: 0, z: 0, w: FX_ONE }
}

/// The identity quaternion (no rotation).
pub fn quat_identity() -> (q: Quat)
    ensures
        q == quat_identity_s(),
{
    Quat { x: 0, y: 0, z: 0, w: FX_ONE }
}

/// The unit scale vector.
pub open spec fn unit_scale_s() -> Vec3 {
    Vec3 { x: FX_ONE, y: FX_ONE, z: FX_ONE }
}

/// A translation matrix: identity with the offset in the last column.
pub open spec fn translation_s(x: int, y: int, z: int) -> Seq<int> {
    let o = FX_ONE as int;
    seq![o, 0, 0, 0, 0, o, 0, 0, 0, 0, o, 0, x, y, z, o]
}

/// A scale matrix: the factors on the diagonal, identity elsewhere.
pub open spec fn scale_s(x: int, y: int, z: int) -> Seq<int> {
    let o = FX_ONE as int;
    seq![x, 0, 0, 0, 0, y, 0, 0, 0, 0, z, 0, 0, 0, 0, o]
}

/// The identity matrix.
pub open spec fn identity_s() -> Seq<int> {
    translation_s(0, 0, 0)
}

/// The standard quaternion-to-rotation-matrix conversion, evaluated in
/// fixed point. Assumes a unit quaternion; the bottom row is `[0, 0, 0, 1]`.
pub open spec fn rotation_s(q: Quat) -> Seq<int> {
    let x = q.x as int;
    let y = q.y as int;
    let z = q.z as int;
    let w = q.w as int;
    let xx = fx_mul_s(x, x);
    let yy = fx_mul_s(y, y);
    let zz = fx_mul_s(z, z);
    let xy = fx_mul_s(x, y);
    let xz = fx_mul_s(x, z);
    let yz = fx_mul_s(y, z);
    let wx = fx_mul_s(w, x);
    let wy = fx_mul_s(w, y);
    let wz = fx_mul_s(w, z);
    let o = FX_ONE as int;
    let a = fx_add_s(yy, zz);
    let b = fx_add_s(xy, wz);
    let c = fx_sub_s(xz, wy);
    let d = fx_sub_s(xy, wz);
    let e = fx_add_s(xx, zz);
    let f = fx_add_s(yz, wx);
    let g = fx_add_s(xz, wy);
    let h = fx_sub_s(yz, wx);
    let i = fx_add_s(xx, yy);
    seq![
        fx_sub_s(o, fx_add_s(a, a)),
        fx_add_s(b, b),
        fx_add_s(c, c),
        0,
        fx_add_s(d, d),
        fx_sub_s(o, fx_add_s(e, e)),
        fx_add_s(f, f),
        0,
        fx_add_s(g, g),
        fx_add_s(h, h),
        fx_sub_s(o, fx_add_s(i, i)),
        0,
        0,
        0,
        0,
        o,
    ]
}

/// Row `r` of `a` dotted with column `c` of `b`, in fixed point, summed
/// left to right.
pub open spec fn mm_entry(a: Seq<int>, b: Seq<int>, r: int, c: int) -> int {
    fx_add_s(
        fx_add_s(
            fx_add_s(fx_mul_s(a[0 * 4 + r], b[c * 4 + 0]), fx_mul_s(a[1 * 4 + r], b[c * 4 + 1])),
            fx_mul_s(a[2 * 4 + r], b[c * 4 + 2]),
        ),
        fx_mul_s(a[3 * 4 + r], b[c * 4 + 3]),
    )
}

/// The matrix product `a * b` in column-major layout.
pub open spec fn mat_mul_s(a: Seq<int>, b: Seq<int>) -> Seq<int> {
    Seq::new(16, |i: int| mm_entry(a, b, i % 4, i / 4))
}

/// The combined local transform `translation * rotation * scale`.
pub open spec fn local_s(position: Vec3, rotation: Quat, scale: Vec3) -> Seq<int> {
    mat_mul_s(
        mat_mul_s(
            translation_s(position.x as int, position.y as int, position.z as int),
            rotation_s(rotation),
        ),
        scale_s(scale.x as int, scale.y as int, scale.z as int),
    )
}

/// A right-handed perspective projection with OpenGL-style clip range,
/// evaluated in fixed point. Degenerate inputs (a field of view at the
/// tangent singularity, `near == far`) saturate instead of producing the
/// infinities a floating-point version would.
pub open spec fn perspective_s(fovy: int, aspect: int, near: int, far: int) -> Seq<int> {
    let o = FX_ONE as int;
    let f = fx_div_s(o, tan_s(fx_divi_s(fovy, 2)));
    let nf = fx_div_s(o, fx_sub_s(near, far));
    let t = fx_mul_s(far, near);
    seq![
        fx_div_s(f, aspect),
        0,
        0,
        0,
        0,
        f,
        0,
        0,
        0,
        0,
        fx_mul_s(fx_add_s(far, near), nf),
        -o,
        0,
        0,
        fx_mul_s(fx_add_s(t, t), nf),
        0,
    ]
}

/// Creates a translation matrix from a position vector.
pub fn translation_matrix(pos: Vec3) -> (m: Mat4)
    ensures
        m.v() == translation_s(pos.x as int, pos.y as int, pos.z as int),
{
    let m = Mat4 {
        e: [
            FX_ONE,
            0,
            0,
            0,
            0,
            FX_ONE,
            0,
            0,
            0,
            0,
            FX_ONE,
            0,
            pos.x,
            pos.y,
            pos.z,
            FX_ONE,
        ],
    };
    proof {
        assert(m.v() =~= translation_s(pos.x as int, pos.y as int, pos.z as int));
    }
    m
}

/// Creates a scale matrix from per-axis scale factors.
pub fn scale_matrix(scale: Vec3) -> (m: Mat4)
    ensures
        m.v() == scale_s(scale.x as int, scale.y as int, scale.z as int),
{
    let m = Mat4 {
        e: [scale.x, 0, 0, 0, 0, scale.y, 0, 0, 0, 0, scale.z, 0, 0, 0, 0, FX_ONE],
    };
    proof {
        assert(m.v() =~= scale_s(scale.x as int, scale.y as int, scale.z as int));
    }
    m
}

/// The identity matrix (no transformation).
pub fn identity_matrix() -> (m: Mat4)
    ensures
        m.v() == identity_s(),
{
    let m = Mat4 { e: [FX_ONE, 0, 0, 0, 0, FX_ONE, 0, 0, 0, 0, FX_ONE, 0, 0, 0, 0, FX_ONE] };
    proof {
        assert(m.v() =~= identity_s());
    }
    m
}

/// Converts a quaternion rotation into a 4x4 rotation matrix.
pub fn rotation_matrix_from_quat(q: Quat) -> (m: Mat4)
    ensures
        m.v() == rotation_s(q),
{
    let xx = fx_mul(q.x, q.x);
    let yy = fx_mul(q.y, q.y);
    let zz = fx_mul(q.z, q.z);
    let xy = fx_mul(q.x, q.y);
    let xz = fx_mul(q.x, q.z);
    let yz = fx_mul(q.y, q.z);
    let wx = fx_mul(q.w, q.x);
    let wy = fx_mul(q.w, q.y);
    let wz = fx_mul(q.w, q.z);
    let a = fx_add(yy, zz);
    let b = fx_add(xy, wz);
    let c = fx_sub(xz, wy);
    let d = fx_sub(xy, wz);
    let e = fx_add(xx, zz);
    let f = fx_add(yz, wx);
    let g = fx_add(xz, wy);
    let h = fx_sub(yz, wx);
    let i = fx_add(xx, yy);
    let m = Mat4 {
        e: [
            fx_sub(FX_ONE, fx_add(a, a)),
            fx_add(b, b),
            fx_add(c, c),
            0,
            fx_add(d, d),
            fx_sub(FX_ONE, fx_add(e, e)),
            fx_add(f, f),
            0,
            fx_add(g, g),
            fx_add(h, h),
            fx_sub(FX_ONE, fx_add(i, i)),
            0,
            0,
            0,
            0,
            FX_ONE,
        ],
    };
    proof {
        assert(m.v() =~= rotation_s(q));
    }
    m
}

/// One entry of the matrix product: row `r` of `a` times column `c` of `b`.
fn mm_e(a: &Mat4, b: &Mat4, r: usize, c: usize) -> (o: i64)
    requires
        r < 4,
        c < 4,
    ensures
        o as int == mm_entry(a.v(), b.v(), r as int, c as int),
{
    fx_add(
        fx_add(
            fx_add(
                fx_mul(a.e[0 * 4 + r], b.e[c * 4 + 0]),
                fx_mul(a.e[1 * 4 + r], b.e[c * 4 + 1]),
            ),
            fx_mul(a.e[2 * 4 + r], b.e[c * 4 + 2]),
        ),
        fx_mul(a.e[3 * 4 + r], b.e[c * 4 + 3]),
    )
}

/// Multiplies two 4x4 column-major matrices; the result is `a * b`.
/// Not commutative: callers order operands to match the intended
/// composition (local = T * R * S; world = parent_world * local).
pub fn matrix_mul_4x4(a: &Mat4, b: &Mat4) -> (m: Mat4)
    ensures
        m.v() == mat_mul_s(a.v(), b.v()),
{
    let m = Mat4 {
        e: [
            mm_e(a, b, 0, 0),
            mm_e(a, b, 1, 0),
            mm_e(a, b, 2, 0),
            mm_e(a, b, 3, 0),
            mm_e(a, b, 0, 1),
            mm_e(a, b, 1, 1),
            mm_e(a, b, 2, 1),
            mm_e(a, b, 3, 1),
            mm_e(a, b, 0, 2),
            mm_e(a, b, 1, 2),
            mm_e(a, b, 2, 2),
            mm_e(a, b, 3, 2),
            mm_e(a, b, 0, 3),
            mm_e(a, b, 1, 3),
            mm_e(a, b, 2, 3),
            mm_e(a, b, 3, 3),
        ],
    };
    proof {
        assert(m.v() =~= mat_mul_s(a.v(), b.v()));
    }
    m
}

/// Computes the combined local transformation matrix
/// `translation * rotation * scale`.
pub fn compute_local_matrix(position: Vec3, rotation: Quat, scale: Vec3) -> (m: Mat4)
    ensures
        m.v() == local_s(position, rotation, scale),
{
    let t = translation_matrix(position);
    let r = rotation_matrix_from_quat(rotation);
    let s = scale_matrix(scale);
    matrix_mul_4x4(&matrix_mul_4x4(&t, &r), &s)
}

/// A right-handed perspective projection matrix with OpenGL-style clip
/// range. Numerically degenerate parameters saturate (see `perspective_s`).
pub fn perspective_matrix(fovy: i64, aspect: i64, near: i64, far: i64) -> (m: Mat4)
    ensures
        m.v() == perspective_s(fovy as int, aspect as int, near as int, far as int),
{
    let f = fx_div(FX_ONE, tan_fx(fx_divi(fovy, 2)));
    let nf = fx_div(FX_ONE, fx_sub(near, far));
    let t = fx_mul(far, near);
    let m = Mat4 {
        e: [
            fx_div(f, aspect),
            0,
            0,
            0,
            0,
            f,
            0,
            0,
            0,
            0,
            fx_mul(fx_add(far, near), nf),
            -FX_ONE,
            0,
            0,
            fx_mul(fx_add(t, t), nf),
            0,
        ],
    };
    proof {
        assert(m.v() =~= perspective_s(fovy as int, aspect as int, near as int, far as int));
    }
    m
}

} // verus!
