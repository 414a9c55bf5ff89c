//! Each matrix operation must agree bit for bit with the math library it
//! delegates to.

use thndr::math::{FLOAT_ONE, Mat4, Quat, Vec3};
use thndr::transform::{GlobalTransform, Position, Rotation, Scale};

fn b(x: f32) -> u32 {
    x.to_bits()
}

fn bits_of(m: glam::Mat4) -> [u32; 16] {
    let a = m.to_cols_array();
    let mut out = [0u32; 16];
    let mut i = 0;
    while i < 16 {
        out[i] = a[i].to_bits();
        i += 1;
    }
    out
}

#[test]
fn srt_composition_matches_glam() {
    let g = GlobalTransform::from_position_rotation_scale(
        Position::new(b(1.0), b(-2.0), b(3.5)),
        Rotation::new(b(0.5), b(0.5), b(0.5), b(0.5)),
        Scale::new(b(2.0), b(0.25), b(-1.0)),
    );
    let expected = glam::Mat4::from_scale_rotation_translation(
        glam::Vec3::new(2.0, 0.25, -1.0),
        glam::Quat::from_xyzw(0.5, 0.5, 0.5, 0.5),
        glam::Vec3::new(1.0, -2.0, 3.5),
    );
    assert_eq!(g.0.bits, bits_of(expected));
}

#[test]
fn rt_composition_matches_glam() {
    let g = GlobalTransform::from_position_rotation(
        Position::new(b(4.0), b(0.0), b(-7.25)),
        Rotation::new(b(0.0), b(1.0), b(0.0), b(0.0)),
    );
    let expected = glam::Mat4::from_rotation_translation(
        glam::Quat::from_xyzw(0.0, 1.0, 0.0, 0.0),
        glam::Vec3::new(4.0, 0.0, -7.25),
    );
    assert_eq!(g.0.bits, bits_of(expected));
}

#[test]
fn translation_matrix_matches_glam() {
    let g = GlobalTransform::from_position(Position::new(b(9.5), b(-0.125), b(2.0)));
    let expected = glam::Mat4::from_translation(glam::Vec3::new(9.5, -0.125, 2.0));
    assert_eq!(g.0.bits, bits_of(expected));
}

#[test]
fn rotation_matrix_matches_glam() {
    let g = GlobalTransform::from_rotation(Rotation::new(b(0.5), b(0.5), b(0.5), b(0.5)));
    let expected = glam::Mat4::from_quat(glam::Quat::from_xyzw(0.5, 0.5, 0.5, 0.5));
    assert_eq!(g.0.bits, bits_of(expected));
}

#[test]
fn scale_matrix_matches_glam() {
    let g = GlobalTransform::from_scale(Scale::new(b(3.0), b(4.0), b(5.0)));
    let expected = glam::Mat4::from_scale(glam::Vec3::new(3.0, 4.0, 5.0));
    assert_eq!(g.0.bits, bits_of(expected));
}

#[test]
fn matrix_product_matches_glam() {
    let g = GlobalTransform::from_position_scale(
        Position::new(b(1.0), b(2.0), b(3.0)),
        Scale::new(b(2.0), b(2.0), b(2.0)),
    );
    let expected = glam::Mat4::from_translation(glam::Vec3::new(1.0, 2.0, 3.0))
        * glam::Mat4::from_scale(glam::Vec3::new(2.0, 2.0, 2.0));
    assert_eq!(g.0.bits, bits_of(expected));
}

#[test]
fn rotation_scale_matches_glam() {
    let g = GlobalTransform::from_rotation_scale(
        Rotation::new(b(0.0), b(0.0), b(1.0), b(0.0)),
        Scale::new(b(1.5), b(1.5), b(1.5)),
    );
    let expected = glam::Mat4::from_quat(glam::Quat::from_xyzw(0.0, 0.0, 1.0, 0.0))
        * glam::Mat4::from_scale(glam::Vec3::new(1.5, 1.5, 1.5));
    assert_eq!(g.0.bits, bits_of(expected));
}

#[test]
fn component_defaults_are_identities() {
    assert_eq!(Position::default().0.bits, [0, 0, 0]);
    assert_eq!(Rotation::default().0.bits, [0, 0, 0, 1.0f32.to_bits()]);
    assert_eq!(Scale::default().0.bits, [b(1.0), b(1.0), b(1.0)]);
    assert_eq!(GlobalTransform::default().0.bits, bits_of(glam::Mat4::IDENTITY));
}

#[test]
fn identity_constants_match_glam() {
    assert_eq!(FLOAT_ONE, 1.0f32.to_bits());
    assert_eq!(Mat4::identity().bits, bits_of(glam::Mat4::IDENTITY));
    let q = Quat::identity();
    assert_eq!(q.bits, [0, 0, 0, 1.0f32.to_bits()]);
    let one = Vec3::one();
    assert_eq!(one.bits, [b(1.0), b(1.0), b(1.0)]);
    let zero = Vec3::zero();
    assert_eq!(zero.bits, [0, 0, 0]);
    assert_eq!(GlobalTransform::identity().0.bits, bits_of(glam::Mat4::default()));
}
