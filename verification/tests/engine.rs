use scenegraph::camera::Camera;
use scenegraph::fixed::{cos_fx, fx_mul, sin_fx, tan_fx, FX_ONE, FX_PI};
use scenegraph::matrix::{
    compute_local_matrix, matrix_mul_4x4, perspective_matrix, quat_identity, rotation_matrix_from_quat,
    scale_matrix, translation_matrix, Mat4, Quat, Vec3,
};
use scenegraph::scene::{DrawStep, Geometry, Object3D, Scene, Vertex};
use scenegraph::shader::GLShaderProgram;

const ONE: i64 = FX_ONE;

fn v(x: i64, y: i64, z: i64) -> Vec3 {
    Vec3 { x, y, z }
}

fn unit_scale() -> Vec3 {
    v(ONE, ONE, ONE)
}

#[test]
fn identity_composition_matches_translation() {
    // local = T * R * S with identity rotation and unit scale is exactly T
    let p = v(3 * ONE, -7 * ONE, ONE / 2);
    let local = compute_local_matrix(p, quat_identity(), unit_scale());
    let t = translation_matrix(p);
    assert_eq!(local.e, t.e);
}

#[test]
fn translation_and_scale_entries() {
    let t = translation_matrix(v(ONE, 2 * ONE, 3 * ONE));
    assert_eq!(t.e[12], ONE);
    assert_eq!(t.e[13], 2 * ONE);
    assert_eq!(t.e[14], 3 * ONE);
    assert_eq!(t.e[0], ONE);
    assert_eq!(t.e[15], ONE);
    let s = scale_matrix(v(2 * ONE, ONE / 2, 3 * ONE));
    assert_eq!(s.e[0], 2 * ONE);
    assert_eq!(s.e[5], ONE / 2);
    assert_eq!(s.e[10], 3 * ONE);
    assert_eq!(s.e[15], ONE);
    assert_eq!(s.e[12], 0);
}

#[test]
fn rotation_of_identity_quaternion_is_identity() {
    let r = rotation_matrix_from_quat(quat_identity());
    let expected: [i64; 16] = [
        ONE, 0, 0, 0, 0, ONE, 0, 0, 0, 0, ONE, 0, 0, 0, 0, ONE,
    ];
    assert_eq!(r.e, expected);
}

#[test]
fn matrix_multiply_associative_within_epsilon() {
    let a = translation_matrix(v(ONE, 2 * ONE, 3 * ONE));
    // a unit quaternion (0.5, 0.5, 0.5, 0.5)
    let q = Quat { x: ONE / 2, y: ONE / 2, z: ONE / 2, w: ONE / 2 };
    let b = rotation_matrix_from_quat(q);
    let c = scale_matrix(v(2 * ONE, ONE / 2, 3 * ONE / 2));
    let ab_c = matrix_mul_4x4(&matrix_mul_4x4(&a, &b), &c);
    let a_bc = matrix_mul_4x4(&a, &matrix_mul_4x4(&b, &c));
    for i in 0..16 {
        let d = (ab_c.e[i] - a_bc.e[i]).abs();
        assert!(d <= 8, "entry {} differs by {}", i, d);
    }
}

#[test]
fn trig_sanity() {
    assert_eq!(sin_fx(0), 0);
    assert_eq!(cos_fx(0), ONE);
    // tan(pi/4) is 1 up to polynomial and fixed-point error
    let t = tan_fx(FX_PI / 4);
    assert!((t - ONE).abs() < 300, "tan(pi/4) = {}", t);
}

#[test]
fn perspective_sanity_point_in_clip_range() {
    // 90 degree fov, unit aspect, near ~0.1, far 100
    let mut cam = Camera::new(ONE);
    cam.set_fov(90 * ONE);
    cam.set_near_far(6554, 100 * ONE);
    let m = perspective_matrix(cam.fov_y, cam.aspect, cam.near, cam.far);
    // apply to the homogeneous point (0, 0, -1, 1)
    let z = fx_mul(m.e[10], -ONE) + fx_mul(m.e[14], ONE);
    let w = fx_mul(m.e[11], -ONE) + fx_mul(m.e[15], ONE);
    assert_eq!(w, ONE);
    assert!(-ONE < z && z < ONE, "clip z = {}", z);
}

#[test]
fn depth_culling_bands() {
    // default camera at (0, 0, 5) looking toward the origin
    let cam = Camera::new(ONE);
    // a sphere close in front of the camera passes the depth band
    assert!(cam.intersects_sphere(v(0, 0, 9 * ONE / 2), ONE));
    // far outside the far plane: culled
    assert!(!cam.intersects_sphere(v(0, 0, -500 * ONE), ONE));
    // the depth-only test is approximate: even the sphere at the origin
    // falls outside the unnormalized [-1, 1] band at this distance
    assert!(!cam.intersects_sphere(v(0, 0, 0), ONE));
}

#[test]
fn dirty_propagation_and_idempotence() {
    let mut sc = Scene::new();
    let root = sc.add_node(Object3D::new());
    let child = sc.add_node(Object3D::new());
    let gchild = sc.add_node(Object3D::new());
    sc.add_child(root, child);
    sc.add_child(child, gchild);
    let _ = sc.world_matrix(gchild);
    let _ = sc.world_matrix(root);
    assert!(!sc.is_dirty(root) && !sc.is_dirty(child) && !sc.is_dirty(gchild));
    let n0 = sc.recompute_count();
    sc.set_position(root, v(ONE, 0, 0));
    assert!(sc.is_dirty(root) && sc.is_dirty(child) && sc.is_dirty(gchild));
    // a second setter call without intervening reads changes nothing visible
    sc.set_position(root, v(ONE, 0, 0));
    assert!(sc.is_dirty(root) && sc.is_dirty(child) && sc.is_dirty(gchild));
    assert_eq!(sc.recompute_count(), n0);
}

#[test]
fn clean_invariant_no_recompute_on_reread() {
    let mut sc = Scene::new();
    let root = sc.add_node(Object3D::new());
    let child = sc.add_node(Object3D::new());
    sc.add_child(root, child);
    let first = sc.world_matrix(child);
    let n = sc.recompute_count();
    let second = sc.world_matrix(child);
    assert_eq!(first.e, second.e);
    assert_eq!(sc.recompute_count(), n);
}

#[test]
fn parent_composition_two_level_chain() {
    let mut sc = Scene::new();
    let root = sc.add_node(Object3D::new());
    let child = sc.add_node(Object3D::new());
    sc.add_child(root, child);
    sc.set_position(root, v(ONE, 0, 0));
    sc.set_position(child, v(0, 2 * ONE, 0));
    let w = sc.world_matrix(child);
    assert_eq!(w.e[12], ONE);
    assert_eq!(w.e[13], 2 * ONE);
    assert_eq!(w.e[14], 0);
}

#[test]
fn dangling_parent_falls_back_to_local() {
    let mut sc = Scene::new();
    let parent = sc.add_node(Object3D::new());
    let child = sc.add_node(Object3D::new());
    sc.add_child(parent, child);
    sc.set_position(parent, v(ONE, 0, 0));
    sc.set_position(child, v(0, 2 * ONE, 0));
    let _ = sc.world_matrix(child);
    sc.destroy(parent);
    assert!(!sc.is_live(parent));
    assert!(sc.is_dirty(child));
    let w = sc.world_matrix(child);
    let l = sc.local_matrix(child);
    assert_eq!(w.e, l.e);
    // the parent's former translation no longer contributes
    assert_eq!(w.e[12], 0);
    assert_eq!(w.e[13], 2 * ONE);
}

#[test]
fn draw_emits_uniforms_then_mesh_and_culls_subtrees() {
    let mut sc = Scene::new();
    let mut node = Object3D::new();
    node.shader = Some(GLShaderProgram { id: 7 });
    let root = sc.add_node(node);
    let geom = Geometry {
        vertices: vec![
            Vertex { position: v(0, 0, 0), normal: v(0, 0, ONE), u: 0, v: 0 },
            Vertex { position: v(ONE, 0, 0), normal: v(0, 0, ONE), u: ONE, v: 0 },
            Vertex { position: v(0, ONE, 0), normal: v(0, 0, ONE), u: 0, v: ONE },
        ],
        indices: vec![0, 1, 2],
    };
    sc.set_geometry(root, geom);
    // place the node just in front of the camera so it passes the band
    sc.set_position(root, v(0, 0, 9 * ONE / 2));
    let cam = Camera::new(ONE);
    assert!(sc.is_dirty(root));
    let steps = sc.draw(root, &cam);
    // drawing reads world_matrix through the cache, so the node is clean now
    assert!(!sc.is_dirty(root));
    let n = sc.recompute_count();
    let _ = sc.draw(root, &cam);
    assert_eq!(sc.recompute_count(), n);
    assert_eq!(steps.len(), 2);
    match steps[0] {
        DrawStep::Uniforms { shader, model, proj_view } => {
            assert_eq!(shader.id, 7);
            assert_eq!(model.e[14], 9 * ONE / 2);
            assert_eq!(proj_view.e, cam.proj_view_matrix().e);
        }
        _ => panic!("expected a uniform upload first"),
    }
    assert_eq!(steps[1], DrawStep::Mesh { node: root });
    // a culled root culls its whole subtree
    let mut n2 = Object3D::new();
    n2.shader = Some(GLShaderProgram { id: 8 });
    let child = sc.add_node(n2);
    sc.add_child(root, child);
    sc.set_position(root, v(0, 0, -500 * ONE));
    let steps = sc.draw(root, &cam);
    assert!(steps.is_empty());
}

#[test]
fn camera_setters() {
    let mut cam = Camera::new(2 * ONE);
    assert_eq!(cam.position.z, 5 * ONE);
    assert_eq!(cam.near, 6554);
    assert_eq!(cam.far, 100 * ONE);
    cam.set_position(v(ONE, ONE, ONE));
    assert_eq!(cam.position, v(ONE, ONE, ONE));
    cam.set_near_far(ONE, 10 * ONE);
    assert_eq!((cam.near, cam.far), (ONE, 10 * ONE));
    let before = cam.fov_y;
    cam.set_fov(90 * ONE);
    assert_ne!(cam.fov_y, before);
    // 90 degrees is about pi/2
    assert!((cam.fov_y - FX_PI / 2).abs() < 200);
}
