//! The consistency pass: any entity carrying part of the spatial set ends
//! up with all of it, defaults filled with identities; bare entities gain
//! nothing.

use thndr::math::FLOAT_ONE;
use thndr::propagate::insert_transforms;
use thndr::transform::{GlobalTransform, Position, Rotation, Scale};
use thndr::world::World;

fn b(x: f32) -> u32 {
    x.to_bits()
}

#[test]
fn partial_spatial_data_is_completed() {
    let mut w = World::new();
    let only_pos = w.spawn();
    let only_rot = w.spawn();
    let only_scl = w.spawn();
    w.insert_position(only_pos, Position::new(b(1.0), b(2.0), b(3.0))).unwrap();
    w.insert_rotation(only_rot, Rotation::new(b(0.0), b(1.0), b(0.0), b(0.0))).unwrap();
    w.insert_scale(only_scl, Scale::new(b(5.0), b(5.0), b(5.0))).unwrap();
    insert_transforms(&mut w);
    for e in [only_pos, only_rot, only_scl] {
        assert!(w.position(e).is_some());
        assert!(w.rotation(e).is_some());
        assert!(w.scale(e).is_some());
        assert!(w.global_transform(e).is_some());
    }
    // what was present is untouched
    assert_eq!(w.position(only_pos).unwrap().0.bits, [b(1.0), b(2.0), b(3.0)]);
    // the defaults are the identities
    assert_eq!(w.position(only_rot).unwrap().0.bits, [0, 0, 0]);
    assert_eq!(w.rotation(only_pos).unwrap().0.bits, [0, 0, 0, FLOAT_ONE]);
    assert_eq!(w.scale(only_pos).unwrap().0.bits, [FLOAT_ONE, FLOAT_ONE, FLOAT_ONE]);
    assert_eq!(
        w.global_transform(only_pos).unwrap().0.bits,
        GlobalTransform::identity().0.bits
    );
}

#[test]
fn bare_entities_gain_nothing() {
    let mut w = World::new();
    let bare = w.spawn();
    insert_transforms(&mut w);
    assert!(w.position(bare).is_none());
    assert!(w.rotation(bare).is_none());
    assert!(w.scale(bare).is_none());
    assert!(w.global_transform(bare).is_none());
}

#[test]
fn consistency_pass_is_stable() {
    let mut w = World::new();
    let e = w.spawn();
    w.insert_position(e, Position::new(b(4.0), b(4.0), b(4.0))).unwrap();
    insert_transforms(&mut w);
    let before = (
        w.position(e).unwrap().0.bits,
        w.rotation(e).unwrap().0.bits,
        w.scale(e).unwrap().0.bits,
        w.global_transform(e).unwrap().0.bits,
    );
    insert_transforms(&mut w);
    let after = (
        w.position(e).unwrap().0.bits,
        w.rotation(e).unwrap().0.bits,
        w.scale(e).unwrap().0.bits,
        w.global_transform(e).unwrap().0.bits,
    );
    assert_eq!(before, after);
}
