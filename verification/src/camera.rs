//! A perspective camera: view/projection matrices derived on demand, and a
//! depth-only visibility test for bounding spheres.
//!
//! The camera has no caching layer: every matrix is recomputed on each call,
//! by design, since cameras change every frame. The visibility test checks
//! only the clip-space depth of the sphere's center against the canonical
//! `[-1, 1]` range; it performs no left/right/top/bottom plane rejection.
//! That is an intentional, documented approximation, not a defect.

use vstd::prelude::*;
use crate::fixed::{
    deg_to_rad, deg_to_rad_s, fx_add, fx_add_s, fx_mul, fx_mul_s, fx_neg, fx_neg_s, fx_sub,
    fx_sub_s, FX_ONE,
};
use crate::matrix::{
    mat_mul_s, matrix_mul_4x4, perspective_matrix, perspective_s, quat_identity,
    quat_identity_s, rotation_matrix_from_quat, rotation_s, translation_matrix, translation_s,
    Mat4, Quat, Vec3,
};

verus! {

/// Default camera position: `(0, 0, 5)` in fixed point.
pub const CAMERA_DEFAULT_Z: i64 = 327680;

/// Default vertical field of view: 60 degrees, in fixed point.
pub const CAMERA_DEFAULT_FOV_DEG: i64 = 3932160;

/// Default near plane distance: about `0.1` in fixed point.
pub const CAMERA_DEFAULT_NEAR: i64 = 6554;

/// Default far plane distance: `100.0` in fixed point.
pub const CAMERA_DEFAULT_FAR: i64 = 6553600;

/// A perspective projection camera in a right-handed coordinate system,
/// producing column-major matrices. With the identity rotation it looks
/// down the negative Z axis.
#[derive(Clone, Copy, Debug, PartialEq, Eq, Structural)]
pub struct Camera {
    /// The camera's world-space position.
    pub position: Vec3,
    /// The camera's orientation as a unit quaternion `[x, y, z, w]`.
    pub rotation: Quat,
    /// Vertical field of view in radians (fixed point).
    pub fov_y: i64,
    /// Viewport aspect ratio (width / height, fixed point).
    pub aspect: i64,
    /// Distance to the near clipping plane.
    pub near: i64,
    /// Distance to the far clipping plane.
    pub far: i64,
}

/// The view matrix: `rotation * translation(-position)`, the inverse of the
/// camera's world placement (valid because rotation matrices here are
/// orthonormal).
pub open spec fn view_s(c: Camera) -> Seq<int> {
    mat_mul_s(
        rotation_s(c.rotation),
        translation_s(
            fx_neg_s(c.position.x as int),
            fx_neg_s(c.position.y as int),
            fx_neg_s(c.position.z as int),
        ),
    )
}

/// The camera's perspective projection matrix.
pub open spec fn projection_s(c: Camera) -> Seq<int> {
    perspective_s(c.fov_y as int, c.aspect as int, c.near as int, c.far as int)
}

/// The combined `projection * view` matrix.
pub open spec fn proj_view_s(c: Camera) -> Seq<int> {
    mat_mul_s(projection_s(c), view_s(c))
}

/// The clip-space depth of a world-space point: row 2 of the combined
/// matrix applied to the homogeneous point.
pub open spec fn clip_z_s(c: Camera, x: int, y: int, z: int) -> int {
    let m = proj_view_s(c);
    fx_add_s(
        fx_add_s(fx_add_s(fx_mul_s(m[2], x), fx_mul_s(m[6], y)), fx_mul_s(m[10], z)),
        m[14],
    )
}

/// The depth-only sphere visibility test:
/// `clip_z + radius > -1 && clip_z - radius < 1`.
pub open spec fn visible_s(c: Camera, x: int, y: int, z: int, radius: int) -> bool {
    let cz = clip_z_s(c, x, y, z);
    fx_add_s(cz, radius) > -(FX_ONE as int) && fx_sub_s(cz, radius) < FX_ONE as int
}

impl Camera {
    /// Creates a camera with the default parameters and the given aspect
    /// ratio: position `(0, 0, 5)`, identity rotation, 60 degree vertical
    /// field of view, near `0.1`, far `100`.
    pub fn new(aspect: i64) -> (c: Camera)
        ensures
            c.position == (Vec3 { x: 0, y: 0, z: CAMERA_DEFAULT_Z }),
            c.rotation == quat_identity_s(),
            c.fov_y as int == deg_to_rad_s(CAMERA_DEFAULT_FOV_DEG as int),
            c.aspect == aspect,
            c.near == CAMERA_DEFAULT_NEAR,
            c.far == CAMERA_DEFAULT_FAR,
    {
        Camera {
            position: Vec3 { x: 0, y: 0, z: CAMERA_DEFAULT_Z },
            rotation: quat_identity(),
            fov_y: deg_to_rad(CAMERA_DEFAULT_FOV_DEG),
            aspect,
            near: CAMERA_DEFAULT_NEAR,
            far: CAMERA_DEFAULT_FAR,
        }
    }

    /// Replaces the camera's position.
    pub fn set_position(&mut self, pos: Vec3)
        ensures
            *final(self) == (Camera { position: pos, ..*old(self) }),
    {
        self.position = pos;
    }

    /// Replaces the camera's rotation quaternion.
    pub fn set_rotation(&mut self, rot: Quat)
        ensures
            *final(self) == (Camera { rotation: rot, ..*old(self) }),
    {
        self.rotation = rot;
    }

    /// Replaces the near and far clipping distances.
    pub fn set_near_far(&mut self, near: i64, far: i64)
        ensures
            *final(self) == (Camera { near, far, ..*old(self) }),
    {
        self.near = near;
        self.far = far;
    }

    /// Sets the vertical field of view from degrees, converting to radians
    /// before storing.
    pub fn set_fov(&mut self, fov: i64)
        ensures
            final(self).fov_y as int == deg_to_rad_s(fov as int),
            *final(self) == (Camera { fov_y: final(self).fov_y, ..*old(self) }),
    {
        self.fov_y = deg_to_rad(fov);
    }

    /// Computes the view matrix from the camera's position and rotation.
    pub fn view_matrix(&self) -> (m: Mat4)
        ensures
            m.v() == view_s(*self),
    {
        let rot_matrix = rotation_matrix_from_quat(self.rotation);
        let trans_matrix = translation_matrix(
            Vec3 {
                x: fx_neg(self.position.x),
                y: fx_neg(self.position.y),
                z: fx_neg(self.position.z),
            },
        );
        matrix_mul_4x4(&rot_matrix, &trans_matrix)
    }

    /// Computes the perspective projection matrix from the camera's current
    /// field of view, aspect ratio and clip planes.
    pub fn projection_matrix(&self) -> (m: Mat4)
        ensures
            m.v() == projection_s(*self),
    {
        perspective_matrix(self.fov_y, self.aspect, self.near, self.far)
    }

    /// The combined `projection * view` matrix, recomputed fresh on every
    /// call.
    pub fn proj_view_matrix(&self) -> (m: Mat4)
        ensures
            m.v() == proj_view_s(*self),
    {
        matrix_mul_4x4(&self.projection_matrix(), &self.view_matrix())
    }

    /// The depth-only bounding-sphere test: transforms the center's
    /// clip-space depth and checks it against the canonical range. Rejects
    /// spheres fully before the near plane or behind the far plane; does
    /// not cull against the side planes.
    pub fn intersects_sphere(&self, world_pos: Vec3, radius: i64) -> (vis: bool)
        ensures
            vis == visible_s(
                *self,
                world_pos.x as int,
                world_pos.y as int,
                world_pos.z as int,
                radius as int,
            ),
    {
        let m = self.proj_view_matrix();
        let clip_z = fx_add(
            fx_add(
                fx_add(fx_mul(m.e[2], world_pos.x), fx_mul(m.e[6], world_pos.y)),
                fx_mul(m.e[10], world_pos.z),
            ),
            m.e[14],
        );
        fx_add(clip_z, radius) > -FX_ONE && fx_sub(clip_z, radius) < FX_ONE
    }
}

} // verus!
