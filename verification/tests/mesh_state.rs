use k3d::mesh::Geometry;
use k3d::mesh::K3dMesh;
use k3d::mesh::Mat4;
use k3d::mesh::Quat;
use k3d::mesh::RenderMode;
use k3d::mesh::Vec3;
use k3d::mesh::ONE_BITS;
use k3d::mesh::NEG_ZERO_BITS;

fn test_mesh(vertices: &[[u32; 3]]) -> K3dMesh<'_> {
    let g = Geometry {
        vertices,
        faces: &[],
        colors: &[],
        lines: &[],
        normals: &[],
    };
    K3dMesh::try_new(g).unwrap()
}

fn some_matrix(seed: u32) -> Mat4 {
    let mut m = [0u32; 16];
    for (i, e) in m.iter_mut().enumerate() {
        *e = seed.wrapping_add(i as u32);
    }
    Mat4 { m }
}

#[test]
fn new_mesh_is_clean_with_identity_transform() {
    let vertices = [[0u32, 0, 0]];
    let mesh = test_mesh(&vertices);
    assert!(!mesh.needs_update());
    assert_eq!(mesh.translation, Vec3 { x: 0, y: 0, z: 0 });
    assert_eq!(mesh.rotation, Quat { x: 0, y: 0, z: 0, w: ONE_BITS });
    assert_eq!(mesh.scale, ONE_BITS);
    assert_eq!(mesh.color, 0xFFFF);
    assert_eq!(mesh.render_mode, RenderMode::Points);
    let m = mesh.get_model_matrix();
    for i in 0..16 {
        let expected = if i % 5 == 0 { ONE_BITS } else { 0 };
        assert_eq!(m.m[i], expected);
    }
}

#[test]
fn setting_position_to_current_value_keeps_flag() {
    let vertices = [[0u32, 0, 0]];
    let mut mesh = test_mesh(&vertices);
    let (x, y, z) = (1.5f32.to_bits(), 2.0f32.to_bits(), (-3.0f32).to_bits());
    mesh.set_position(x, y, z);
    assert!(mesh.needs_update());
    mesh.update_model_matrix(some_matrix(7));
    assert!(!mesh.needs_update());
    // Re-setting the identical position must not dirty the cache again.
    mesh.set_position(x, y, z);
    assert!(!mesh.needs_update());
    mesh.set_position(x, y, 4.0f32.to_bits());
    assert!(mesh.needs_update());
}

#[test]
fn setting_attitude_to_current_value_keeps_flag() {
    let vertices = [[0u32, 0, 0]];
    let mut mesh = test_mesh(&vertices);
    let q = Quat {
        x: 0.1f32.to_bits(),
        y: 0.2f32.to_bits(),
        z: 0.3f32.to_bits(),
        w: 0.9f32.to_bits(),
    };
    mesh.set_attitude(q);
    assert!(mesh.needs_update());
    mesh.update_model_matrix(some_matrix(9));
    assert!(!mesh.needs_update());
    mesh.set_attitude(q);
    assert!(!mesh.needs_update());
}

#[test]
fn setting_scale_to_current_value_or_zero_keeps_flag() {
    let vertices = [[0u32, 0, 0]];
    let mut mesh = test_mesh(&vertices);
    let s = 2.5f32.to_bits();
    mesh.set_scale(s);
    assert!(mesh.needs_update());
    assert_eq!(mesh.get_scale(), s);
    mesh.update_model_matrix(some_matrix(11));
    assert!(!mesh.needs_update());
    mesh.set_scale(s);
    assert!(!mesh.needs_update());
    // A zero scale, under either sign pattern, is rejected as a no-op.
    mesh.set_scale(0.0f32.to_bits());
    mesh.set_scale(NEG_ZERO_BITS);
    assert!(!mesh.needs_update());
    assert_eq!(mesh.get_scale(), s);
}

#[test]
fn matrix_accessor_is_stable_between_mutations() {
    let vertices = [[0u32, 0, 0]];
    let mut mesh = test_mesh(&vertices);
    mesh.set_position(1.0f32.to_bits(), 0, 0);
    let composed = some_matrix(21);
    assert!(mesh.needs_update());
    mesh.update_model_matrix(composed);
    // The refresh consumed the one composition; reads never recompose.
    assert!(!mesh.needs_update());
    let m1 = mesh.get_model_matrix();
    let m2 = mesh.get_model_matrix();
    assert_eq!(m1, m2);
    assert_eq!(m1, composed);
    // Refreshing a clean mesh ignores the argument.
    mesh.update_model_matrix(some_matrix(99));
    assert_eq!(mesh.get_model_matrix(), composed);
}

#[test]
fn translate_accumulates_and_ignores_zero_delta() {
    let vertices = [[0u32, 0, 0]];
    let mut mesh = test_mesh(&vertices);
    mesh.update_model_matrix(some_matrix(1));
    let zero = 0.0f32.to_bits();
    let before = mesh.get_position();
    mesh.translate(zero, NEG_ZERO_BITS, zero, Vec3 { x: 1, y: 2, z: 3 });
    assert!(!mesh.needs_update());
    assert_eq!(mesh.get_position(), before);
    let moved = Vec3 {
        x: 1.0f32.to_bits(),
        y: 0,
        z: 0,
    };
    mesh.translate(1.0f32.to_bits(), zero, zero, moved);
    assert!(mesh.needs_update());
    assert_eq!(mesh.get_position(), moved);
}

#[test]
fn rotate_always_dirties() {
    let vertices = [[0u32, 0, 0]];
    let mut mesh = test_mesh(&vertices);
    mesh.update_model_matrix(some_matrix(2));
    assert!(!mesh.needs_update());
    let q = Quat { x: 0, y: 0, z: 0, w: ONE_BITS };
    mesh.rotate(q);
    assert!(mesh.needs_update());
    assert_eq!(mesh.rotation, q);
}

#[test]
fn set_target_resets_scale_and_dirties() {
    let vertices = [[0u32, 0, 0]];
    let mut mesh = test_mesh(&vertices);
    mesh.set_scale(4.0f32.to_bits());
    mesh.update_model_matrix(some_matrix(3));
    let t = Vec3 { x: 10, y: 11, z: 12 };
    let q = Quat { x: 1, y: 2, z: 3, w: 4 };
    mesh.set_target(t, q);
    assert!(mesh.needs_update());
    assert_eq!(mesh.translation, t);
    assert_eq!(mesh.rotation, q);
    assert_eq!(mesh.get_scale(), ONE_BITS);
}

#[test]
fn color_and_render_mode_setters_do_not_touch_the_cache() {
    let vertices = [[0u32, 0, 0]];
    let mut mesh = test_mesh(&vertices);
    assert!(!mesh.needs_update());
    mesh.set_color(0x1234);
    mesh.set_render_mode(RenderMode::Lines);
    assert!(!mesh.needs_update());
    assert_eq!(mesh.color, 0x1234);
    assert_eq!(mesh.render_mode, RenderMode::Lines);
}

#[test]
fn default_mesh_is_empty_and_clean() {
    let mesh = K3dMesh::default();
    assert!(!mesh.needs_update());
    assert!(mesh.geometry.vertices.is_empty());
    assert_eq!(mesh.scale, ONE_BITS);
    assert_eq!(mesh.translation, Vec3 { x: 0, y: 0, z: 0 });
}
