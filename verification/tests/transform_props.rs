//! The propagation engine's guarantees on concrete scenes: root transforms,
//! chained transforms, the documented scenario, and idempotence.

use thndr::propagate::{insert_transforms, propagate_transforms};
use thndr::transform::{Position, Rotation, Scale};
use thndr::world::World;
use thndr::Entity;

fn b(x: f32) -> u32 {
    x.to_bits()
}

fn bits_of(m: glam::Mat4) -> [u32; 16] {
    let a = m.to_cols_array();
    let mut out = [0u32; 16];
    let mut i = 0;
    while i < 16 {
        out[i] = a[i].to_bits();
        i += 1;
    }
    out
}

fn gt_bits(w: &World, e: Entity) -> [u32; 16] {
    w.global_transform(e).unwrap().0.bits
}

fn translation_bits(w: &World, e: Entity) -> [u32; 3] {
    let m = gt_bits(w, e);
    [m[12], m[13], m[14]]
}

#[test]
fn root_transform_is_own_composition() {
    let mut w = World::new();
    let r = w.spawn();
    w.insert_position(r, Position::new(b(1.0), b(2.0), b(3.0))).unwrap();
    w.insert_rotation(r, Rotation::new(b(0.5), b(0.5), b(0.5), b(0.5))).unwrap();
    w.insert_scale(r, Scale::new(b(2.0), b(1.0), b(0.5))).unwrap();
    insert_transforms(&mut w);
    propagate_transforms(&mut w);
    let expected = glam::Mat4::from_scale_rotation_translation(
        glam::Vec3::new(2.0, 1.0, 0.5),
        glam::Quat::from_xyzw(0.5, 0.5, 0.5, 0.5),
        glam::Vec3::new(1.0, 2.0, 3.0),
    );
    assert_eq!(gt_bits(&w, r), bits_of(expected));
}

#[test]
fn child_transform_composes_with_parent() {
    let mut w = World::new();
    let r = w.spawn();
    let a = w.spawn();
    w.insert_position(r, Position::new(b(0.0), b(5.0), b(0.0))).unwrap();
    w.insert_position(a, Position::new(b(3.0), b(1.0), b(0.0))).unwrap();
    w.attach(a, r).unwrap();
    insert_transforms(&mut w);
    propagate_transforms(&mut w);
    let rm = glam::Mat4::from_scale_rotation_translation(
        glam::Vec3::ONE,
        glam::Quat::IDENTITY,
        glam::Vec3::new(0.0, 5.0, 0.0),
    );
    let am = rm
        * glam::Mat4::from_scale_rotation_translation(
            glam::Vec3::ONE,
            glam::Quat::IDENTITY,
            glam::Vec3::new(3.0, 1.0, 0.0),
        );
    assert_eq!(gt_bits(&w, r), bits_of(rm));
    assert_eq!(gt_bits(&w, a), bits_of(am));
}

#[test]
fn three_level_scenario() {
    // Root at (0,5,0) scaled (1,2.5,3.9); child A at (3,1,0); grandchild B
    // at (0,-1,3). Every world translation reflects the whole chain.
    let mut w = World::new();
    let r = w.spawn();
    let a = w.spawn();
    let gb = w.spawn();
    w.insert_position(r, Position::new(b(0.0), b(5.0), b(0.0))).unwrap();
    w.insert_scale(r, Scale::new(b(1.0), b(2.5), b(3.9))).unwrap();
    w.insert_position(a, Position::new(b(3.0), b(1.0), b(0.0))).unwrap();
    w.insert_position(gb, Position::new(b(0.0), b(-1.0), b(3.0))).unwrap();
    w.attach(a, r).unwrap();
    w.attach(gb, a).unwrap();
    insert_transforms(&mut w);
    propagate_transforms(&mut w);

    let rm = glam::Mat4::from_scale_rotation_translation(
        glam::Vec3::new(1.0, 2.5, 3.9),
        glam::Quat::IDENTITY,
        glam::Vec3::new(0.0, 5.0, 0.0),
    );
    let am = rm
        * glam::Mat4::from_scale_rotation_translation(
            glam::Vec3::ONE,
            glam::Quat::IDENTITY,
            glam::Vec3::new(3.0, 1.0, 0.0),
        );
    let bm = am
        * glam::Mat4::from_scale_rotation_translation(
            glam::Vec3::ONE,
            glam::Quat::IDENTITY,
            glam::Vec3::new(0.0, -1.0, 3.0),
        );
    assert_eq!(
        translation_bits(&w, r),
        [b(0.0), b(5.0), b(0.0)],
        "the root's world translation is its own"
    );
    assert_eq!(gt_bits(&w, a), bits_of(am));
    assert_eq!(gt_bits(&w, gb), bits_of(bm));
    // B's world translation reflects the full chain, not just its own offset.
    let wt = bm.w_axis;
    assert_eq!(translation_bits(&w, gb), [wt.x.to_bits(), wt.y.to_bits(), wt.z.to_bits()]);
    assert_ne!(translation_bits(&w, gb), [b(0.0), b(-1.0), b(3.0)]);
}

#[test]
fn propagation_is_idempotent() {
    let mut w = World::new();
    let r = w.spawn();
    let a = w.spawn();
    let c = w.spawn();
    w.insert_position(r, Position::new(b(1.0), b(0.0), b(0.0))).unwrap();
    w.insert_rotation(a, Rotation::new(b(0.5), b(0.5), b(0.5), b(0.5))).unwrap();
    w.insert_scale(c, Scale::new(b(2.0), b(3.0), b(4.0))).unwrap();
    w.attach(a, r).unwrap();
    w.attach(c, a).unwrap();
    insert_transforms(&mut w);
    propagate_transforms(&mut w);
    let first: Vec<[u32; 16]> = [r, a, c].iter().map(|e| gt_bits(&w, *e)).collect();
    propagate_transforms(&mut w);
    let second: Vec<[u32; 16]> = [r, a, c].iter().map(|e| gt_bits(&w, *e)).collect();
    assert_eq!(first, second);
}

#[test]
fn gap_leaves_subtree_local() {
    // An ancestor without spatial data breaks the chain: its descendants
    // keep their flat-pass value, the local matrix taken as world space.
    let mut w = World::new();
    let root = w.spawn();
    let bare = w.spawn();
    let leaf = w.spawn();
    w.insert_position(root, Position::new(b(7.0), b(7.0), b(7.0))).unwrap();
    w.insert_position(leaf, Position::new(b(1.0), b(2.0), b(3.0))).unwrap();
    // bare carries nothing and sits between root and leaf
    w.attach(bare, root).unwrap();
    w.attach(leaf, bare).unwrap();
    insert_transforms(&mut w);
    propagate_transforms(&mut w);
    assert!(w.global_transform(bare).is_none(), "an empty entity gains nothing");
    let own = glam::Mat4::from_scale_rotation_translation(
        glam::Vec3::ONE,
        glam::Quat::IDENTITY,
        glam::Vec3::new(1.0, 2.0, 3.0),
    );
    assert_eq!(gt_bits(&w, leaf), bits_of(own));
}
