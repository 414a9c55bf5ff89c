//! Fixed-size vector, quaternion and matrix values, each held as the exact
//! IEEE-754 bit patterns of its entries, together with the composition
//! operations the propagation engine needs.
//!
//! The engine never inspects an entry arithmetically: it only builds
//! matrices from local transform data and multiplies them. Keeping the
//! entries as bit patterns lets every contract state bit-for-bit equality of
//! whole matrices, which is exactly the guarantee the propagation engine
//! gives. The arithmetic itself is done by glam; each operation's result is
//! named by an uninterpreted function of the operands' bits.

use vstd::prelude::*;

verus! {

/// The bit pattern of the floating-point number one.
pub const FLOAT_ONE: u32 = 0x3F80_0000;

/// A three-component vector, entries stored as bit patterns in x, y, z order.
#[derive(Clone, Copy, PartialEq, Debug)]
pub struct Vec3 {
    /// The entries' bit patterns.
    pub bits: [u32; 3],
}

impl View for Vec3 {
    type V = Seq<u32>;

    open spec fn view(&self) -> Seq<u32> {
        self.bits@
    }
}

impl Vec3 {
    /// Builds a vector from three entry bit patterns.
    pub fn new(x: u32, y: u32, z: u32) -> (v: Vec3)
        ensures
            v@ == seq![x, y, z],
    {
        let bits = [x, y, z];
        let v = Vec3 { bits };
        proof {
            assert(v@ =~= seq![x, y, z]);
        }
        v
    }

    /// The zero vector.
    pub fn zero() -> (v: Vec3)
        ensures
            v@ == Vec3::zero_spec(),
    {
        Vec3::new(0, 0, 0)
    }

    /// The bits of the zero vector: floating-point zero is all-zero bits.
    pub open spec fn zero_spec() -> Seq<u32> {
        seq![0u32, 0u32, 0u32]
    }

    /// The all-ones vector.
    pub fn one() -> (v: Vec3)
        ensures
            v@ == Vec3::one_spec(),
    {
        Vec3::new(FLOAT_ONE, FLOAT_ONE, FLOAT_ONE)
    }

    /// The bits of the all-ones vector.
    pub open spec fn one_spec() -> Seq<u32> {
        seq![FLOAT_ONE, FLOAT_ONE, FLOAT_ONE]
    }
}

/// A quaternion, entries stored as bit patterns in x, y, z, w order.
#[derive(Clone, Copy, PartialEq, Debug)]
pub struct Quat {
    /// The entries' bit patterns.
    pub bits: [u32; 4],
}

impl View for Quat {
    type V = Seq<u32>;

    open spec fn view(&self) -> Seq<u32> {
        self.bits@
    }
}

impl Quat {
    /// Builds a quaternion from four entry bit patterns.
    pub fn from_xyzw(x: u32, y: u32, z: u32, w: u32) -> (q: Quat)
        ensures
            q@ == seq![x, y, z, w],
    {
        let bits = [x, y, z, w];
        let q = Quat { bits };
        proof {
            assert(q@ =~= seq![x, y, z, w]);
        }
        q
    }

    /// The identity rotation.
    pub fn identity() -> (q: Quat)
        ensures
            q@ == Quat::identity_spec(),
    {
        Quat::from_xyzw(0, 0, 0, FLOAT_ONE)
    }

    /// The bits of the identity rotation (0, 0, 0, 1).
    pub open spec fn identity_spec() -> Seq<u32> {
        seq![0u32, 0u32, 0u32, FLOAT_ONE]
    }
}

/// A 4x4 matrix, entries stored as bit patterns in column-major order.
#[derive(Clone, Copy, PartialEq, Debug)]
pub struct Mat4 {
    /// The entries' bit patterns, column by column.
    pub bits: [u32; 16],
}

impl View for Mat4 {
    type V = Seq<u32>;

    open spec fn view(&self) -> Seq<u32> {
        self.bits@
    }
}

impl Mat4 {
    /// The identity matrix.
    pub fn identity() -> (m: Mat4)
        ensures
            m@ == Mat4::identity_spec(),
    {
        let bits = [
            FLOAT_ONE, 0, 0, 0,
            0, FLOAT_ONE, 0, 0,
            0, 0, FLOAT_ONE, 0,
            0, 0, 0, FLOAT_ONE,
        ];
        let m = Mat4 { bits };
        proof {
            assert(m@ =~= Mat4::identity_spec());
        }
        m
    }

    /// The bits of the identity matrix: ones on the diagonal, zeroes elsewhere.
    pub open spec fn identity_spec() -> Seq<u32> {
        seq![
            FLOAT_ONE, 0u32, 0u32, 0u32,
            0u32, FLOAT_ONE, 0u32, 0u32,
            0u32, 0u32, FLOAT_ONE, 0u32,
            0u32, 0u32, 0u32, FLOAT_ONE,
        ]
    }
}

/// The bits of the scale-rotate-translate matrix glam builds from the given
/// scale, rotation and translation bits.
pub uninterp spec fn srt_matrix(scale: Seq<u32>, rotation: Seq<u32>, translation: Seq<u32>) -> Seq<u32>;

/// The bits of the rotate-translate matrix glam builds from the given
/// rotation and translation bits.
pub uninterp spec fn rt_matrix(rotation: Seq<u32>, translation: Seq<u32>) -> Seq<u32>;

/// The bits of the translation matrix glam builds from the given translation bits.
pub uninterp spec fn translation_matrix(translation: Seq<u32>) -> Seq<u32>;

/// The bits of the rotation matrix glam builds from the given quaternion bits.
pub uninterp spec fn rotation_matrix(rotation: Seq<u32>) -> Seq<u32>;

/// The bits of the scale matrix glam builds from the given scale bits.
pub uninterp spec fn scale_matrix(scale: Seq<u32>) -> Seq<u32>;

/// The bits of the matrix product a * b as glam computes it.
pub uninterp spec fn mat_product(a: Seq<u32>, b: Seq<u32>) -> Seq<u32>;

/// Relies on glam's `Mat4::from_scale_rotation_translation`: builds the
/// matrix scaling, then rotating, then translating; a pure function of its
/// three arguments with no other state.
#[verifier::external_body]
pub(crate) fn compose_srt(scale: &Vec3, rotation: &Quat, translation: &Vec3) -> (m: Mat4)
    ensures
        m@ == srt_matrix(scale@, rotation@, translation@),
        m@.len() == 16,
{
    let out = glam::Mat4::from_scale_rotation_translation(
        glam::Vec3::from_array(bytemuck::cast(scale.bits)),
        glam::Quat::from_array(bytemuck::cast(rotation.bits)),
        glam::Vec3::from_array(bytemuck::cast(translation.bits)),
    );
    Mat4 { bits: bytemuck::cast(out.to_cols_array()) }
}

/// Relies on glam's `Mat4::from_rotation_translation`: builds the matrix
/// rotating, then translating; a pure function of its two arguments.
#[verifier::external_body]
pub(crate) fn compose_rt(rotation: &Quat, translation: &Vec3) -> (m: Mat4)
    ensures
        m@ == rt_matrix(rotation@, translation@),
        m@.len() == 16,
{
    let out = glam::Mat4::from_rotation_translation(
        glam::Quat::from_array(bytemuck::cast(rotation.bits)),
        glam::Vec3::from_array(bytemuck::cast(translation.bits)),
    );
    Mat4 { bits: bytemuck::cast(out.to_cols_array()) }
}

/// Relies on glam's `Mat4::from_translation`: builds the translation matrix;
/// a pure function of its argument.
#[verifier::external_body]
pub(crate) fn from_translation(translation: &Vec3) -> (m: Mat4)
    ensures
        m@ == translation_matrix(translation@),
        m@.len() == 16,
{
    let out = glam::Mat4::from_translation(glam::Vec3::from_array(bytemuck::cast(translation.bits)));
    Mat4 { bits: bytemuck::cast(out.to_cols_array()) }
}

/// Relies on glam's `Mat4::from_quat`: builds the rotation matrix of a
/// quaternion; a pure function of its argument.
#[verifier::external_body]
pub(crate) fn from_rotation(rotation: &Quat) -> (m: Mat4)
    ensures
        m@ == rotation_matrix(rotation@),
        m@.len() == 16,
{
    let out = glam::Mat4::from_quat(glam::Quat::from_array(bytemuck::cast(rotation.bits)));
    Mat4 { bits: bytemuck::cast(out.to_cols_array()) }
}

/// Relies on glam's `Mat4::from_scale`: builds the non-uniform scale matrix;
/// a pure function of its argument.
#[verifier::external_body]
pub(crate) fn from_scale(scale: &Vec3) -> (m: Mat4)
    ensures
        m@ == scale_matrix(scale@),
        m@.len() == 16,
{
    let out = glam::Mat4::from_scale(glam::Vec3::from_array(bytemuck::cast(scale.bits)));
    Mat4 { bits: bytemuck::cast(out.to_cols_array()) }
}

/// Relies on glam's `Mul<Mat4> for Mat4`: the 4x4 matrix product; a pure
/// function of its two arguments.
#[verifier::external_body]
pub(crate) fn mat4_mul(a: &Mat4, b: &Mat4) -> (m: Mat4)
    ensures
        m@ == mat_product(a@, b@),
        m@.len() == 16,
{
    let out = glam::Mat4::from_cols_array(&bytemuck::cast(a.bits))
        * glam::Mat4::from_cols_array(&bytemuck::cast(b.bits));
    Mat4 { bits: bytemuck::cast(out.to_cols_array()) }
}

} // verus!
