//! The spatial components: local position, rotation and scale, and the
//! computed world-space transform.

use vstd::prelude::*;

use crate::math::{
    compose_rt, compose_srt, from_rotation, from_scale, from_translation, mat4_mul, mat_product,
    rotation_matrix, rt_matrix, scale_matrix, srt_matrix, translation_matrix, Mat4, Quat, Vec3,
};

verus! {

/// A translation relative to the parent entity, or to the world for a root.
#[derive(Clone, Copy, PartialEq, Debug)]
pub struct Position(pub Vec3);

impl View for Position {
    type V = Seq<u32>;

    open spec fn view(&self) -> Seq<u32> {
        self.0@
    }
}

impl Default for Position {
    /// The origin.
    fn default() -> (p: Position)
        ensures
            p@ == Vec3::zero_spec(),
    {
        Position::origin()
    }
}

impl Position {
    /// Builds a position from three entry bit patterns.
    pub fn new(x: u32, y: u32, z: u32) -> (p: Position)
        ensures
            p@ == seq![x, y, z],
    {
        Position(Vec3::new(x, y, z))
    }

    /// The default position: the origin.
    pub fn origin() -> (p: Position)
        ensures
            p@ == Vec3::zero_spec(),
    {
        Position(Vec3::zero())
    }
}

/// An orientation relative to the parent entity, or to the world for a root.
#[derive(Clone, Copy, PartialEq, Debug)]
pub struct Rotation(pub Quat);

impl View for Rotation {
    type V = Seq<u32>;

    open spec fn view(&self) -> Seq<u32> {
        self.0@
    }
}

impl Default for Rotation {
    /// The identity rotation.
    fn default() -> (r: Rotation)
        ensures
            r@ == Quat::identity_spec(),
    {
        Rotation::identity()
    }
}

impl Rotation {
    /// Builds a rotation from four entry bit patterns, in x, y, z, w order.
    pub fn new(x: u32, y: u32, z: u32, w: u32) -> (r: Rotation)
        ensures
            r@ == seq![x, y, z, w],
    {
        Rotation(Quat::from_xyzw(x, y, z, w))
    }

    /// The default rotation: the identity quaternion.
    pub fn identity() -> (r: Rotation)
        ensures
            r@ == Quat::identity_spec(),
    {
        Rotation(Quat::identity())
    }
}

/// A non-uniform scale relative to the parent entity, or to the world for a
/// root.
#[derive(Clone, Copy, PartialEq, Debug)]
pub struct Scale(pub Vec3);

impl View for Scale {
    type V = Seq<u32>;

    open spec fn view(&self) -> Seq<u32> {
        self.0@
    }
}

impl Default for Scale {
    /// The unit scale.
    fn default() -> (s: Scale)
        ensures
            s@ == Vec3::one_spec(),
    {
        Scale::unit()
    }
}

impl Scale {
    /// Builds a scale from three entry bit patterns.
    pub fn new(x: u32, y: u32, z: u32) -> (s: Scale)
        ensures
            s@ == seq![x, y, z],
    {
        Scale(Vec3::new(x, y, z))
    }

    /// The default scale: the unit scale.
    pub fn unit() -> (s: Scale)
        ensures
            s@ == Vec3::one_spec(),
    {
        Scale(Vec3::one())
    }
}

/// The bits of the local transform matrix of an entity with the given
/// position, rotation and scale: scale, then rotate, then translate.
pub open spec fn local_matrix(p: Seq<u32>, r: Seq<u32>, s: Seq<u32>) -> Seq<u32> {
    srt_matrix(s, r, p)
}

/// The world-space transform of an entity, written by the propagation engine
/// and read by its consumers.
#[derive(Clone, Copy, PartialEq, Debug)]
pub struct GlobalTransform(pub Mat4);

impl View for GlobalTransform {
    type V = Seq<u32>;

    open spec fn view(&self) -> Seq<u32> {
        self.0@
    }
}

impl Default for GlobalTransform {
    /// The identity transform, the placeholder the consistency pass inserts.
    fn default() -> (g: GlobalTransform)
        ensures
            g@ == Mat4::identity_spec(),
    {
        GlobalTransform::identity()
    }
}

impl GlobalTransform {
    /// Wraps a matrix.
    pub fn new(matrix: Mat4) -> (g: GlobalTransform)
        ensures
            g@ == matrix@,
    {
        GlobalTransform(matrix)
    }

    /// The placeholder transform the consistency pass inserts: the identity.
    pub fn identity() -> (g: GlobalTransform)
        ensures
            g@ == Mat4::identity_spec(),
    {
        GlobalTransform(Mat4::identity())
    }

    /// Builds the local transform matrix of the given position, rotation and
    /// scale, composed as scale, then rotate, then translate.
    pub fn from_position_rotation_scale(
        position: Position,
        rotation: Rotation,
        scale: Scale,
    ) -> (g: GlobalTransform)
        ensures
            g@ == local_matrix(position@, rotation@, scale@),
    {
        GlobalTransform(compose_srt(&scale.0, &rotation.0, &position.0))
    }

    /// Builds the transform rotating, then translating.
    pub fn from_position_rotation(position: Position, rotation: Rotation) -> (g: GlobalTransform)
        ensures
            g@ == rt_matrix(rotation@, position@),
    {
        GlobalTransform(compose_rt(&rotation.0, &position.0))
    }

    /// Builds the transform scaling, then translating.
    pub fn from_position_scale(position: Position, scale: Scale) -> (g: GlobalTransform)
        ensures
            g@ == mat_product(translation_matrix(position@), scale_matrix(scale@)),
    {
        let t = GlobalTransform::from_position(position);
        let s = GlobalTransform::from_scale(scale);
        GlobalTransform(mat4_mul(&t.0, &s.0))
    }

    /// Builds the transform scaling, then rotating.
    pub fn from_rotation_scale(rotation: Rotation, scale: Scale) -> (g: GlobalTransform)
        ensures
            g@ == mat_product(rotation_matrix(rotation@), scale_matrix(scale@)),
    {
        let r = GlobalTransform::from_rotation(rotation);
        let s = GlobalTransform::from_scale(scale);
        GlobalTransform(mat4_mul(&r.0, &s.0))
    }

    /// Builds the pure translation transform.
    pub fn from_position(position: Position) -> (g: GlobalTransform)
        ensures
            g@ == translation_matrix(position@),
    {
        GlobalTransform(from_translation(&position.0))
    }

    /// Builds the pure rotation transform.
    pub fn from_rotation(rotation: Rotation) -> (g: GlobalTransform)
        ensures
            g@ == rotation_matrix(rotation@),
    {
        GlobalTransform(from_rotation(&rotation.0))
    }

    /// Builds the pure scale transform.
    pub fn from_scale(scale: Scale) -> (g: GlobalTransform)
        ensures
            g@ == scale_matrix(scale@),
    {
        GlobalTransform(from_scale(&scale.0))
    }
}

} // verus!
