//! A large forest propagated through the worker-pool flat pass must match
//! the sequential engine bit for bit.

use thndr::propagate::{insert_transforms, propagate_transforms, propagate_transforms_par};
use thndr::transform::{Position, Scale};
use thndr::world::World;
use thndr::Entity;

fn b(x: f32) -> u32 {
    x.to_bits()
}

/// One thousand independent subtrees, each a chain ten levels deep, with
/// varied local data.
fn build_forest() -> World {
    let mut w = World::new();
    for t in 0..1000u32 {
        let root = w.spawn();
        w.insert_position(root, Position::new(b(t as f32), b(0.5), b(-1.0))).unwrap();
        w.insert_scale(root, Scale::new(b(1.0 + (t % 3) as f32), b(1.0), b(2.0))).unwrap();
        let mut parent = root;
        for d in 0..9u32 {
            let c = w.spawn();
            w.insert_position(c, Position::new(b(d as f32), b(t as f32 * 0.25), b(3.0)))
                .unwrap();
            w.attach(c, parent).unwrap();
            parent = c;
        }
    }
    w
}

#[test]
fn parallel_forest_matches_sequential_reference() {
    let mut seq = build_forest();
    let mut par = build_forest();
    insert_transforms(&mut seq);
    insert_transforms(&mut par);
    propagate_transforms(&mut seq);
    propagate_transforms_par(&mut par);
    let total = seq.len();
    assert_eq!(total, par.len());
    assert_eq!(total, 10000);
    for i in 0..total {
        let e = Entity { id: i };
        let a = seq.global_transform(e).expect("every spatial entity has a transform");
        let c = par.global_transform(e).expect("every spatial entity has a transform");
        assert_eq!(a.0.bits, c.0.bits, "bit-identical transforms at slot {}", i);
    }
}
