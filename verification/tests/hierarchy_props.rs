//! The hierarchy operations: sibling bookkeeping, the backward walk,
//! reparenting, and every refusal an operation can answer with.

use thndr::propagate::{insert_transforms, propagate_transforms};
use thndr::transform::Position;
use thndr::world::{World, WorldError};

fn b(x: f32) -> u32 {
    x.to_bits()
}

fn bits_of(m: glam::Mat4) -> [u32; 16] {
    let a = m.to_cols_array();
    let mut out = [0u32; 16];
    let mut i = 0;
    while i < 16 {
        out[i] = a[i].to_bits();
        i += 1;
    }
    out
}

#[test]
fn sibling_walk_visits_each_child_once() {
    let mut w = World::new();
    let p = w.spawn();
    let mut kids = Vec::new();
    for _ in 0..5 {
        let c = w.spawn();
        w.attach(c, p).unwrap();
        kids.push(c);
    }
    assert_eq!(w.num_children(p), 5);
    assert_eq!(w.last_child(p), Some(kids[4]));
    let walked = w.collect_children_backward(p);
    assert_eq!(walked.len(), 5, "the walk visits exactly the attached children");
    let mut expected = kids.clone();
    expected.reverse();
    assert_eq!(walked, expected, "the walk runs in reverse attach order");
    for (i, c) in walked.iter().enumerate() {
        assert!(!walked[..i].contains(c), "no child is visited twice");
    }
    assert_eq!(w.children_of(p), kids);
}

#[test]
fn sibling_links_are_consistent() {
    let mut w = World::new();
    let p = w.spawn();
    let c0 = w.spawn();
    let c1 = w.spawn();
    let c2 = w.spawn();
    w.attach(c0, p).unwrap();
    w.attach(c1, p).unwrap();
    w.attach(c2, p).unwrap();
    assert_eq!(w.prev_sibling(c2), Some(c1));
    assert_eq!(w.prev_sibling(c1), Some(c0));
    assert_eq!(w.prev_sibling(c0), None);
    assert_eq!(w.next_sibling(c0), Some(c1));
    assert_eq!(w.next_sibling(c2), None);
    assert_eq!(w.parent_of(c1), Some(p));
    assert!(w.has_children(p));
    assert!(!w.has_parent(p));
}

#[test]
fn detach_splices_the_chain() {
    let mut w = World::new();
    let p = w.spawn();
    let c0 = w.spawn();
    let c1 = w.spawn();
    let c2 = w.spawn();
    w.attach(c0, p).unwrap();
    w.attach(c1, p).unwrap();
    w.attach(c2, p).unwrap();
    w.detach(c1).unwrap();
    assert_eq!(w.num_children(p), 2);
    assert_eq!(w.children_of(p), vec![c0, c2]);
    assert_eq!(w.prev_sibling(c2), Some(c0));
    assert_eq!(w.parent_of(c1), None);
}

#[test]
fn detach_keeps_the_subtree() {
    let mut w = World::new();
    let a = w.spawn();
    let c = w.spawn();
    let d = w.spawn();
    w.attach(c, a).unwrap();
    w.attach(d, c).unwrap();
    w.detach(c).unwrap();
    assert_eq!(w.parent_of(c), None);
    assert_eq!(w.parent_of(d), Some(c), "the detached entity keeps its own children");
    assert_eq!(w.children_of(c), vec![d]);
}

#[test]
fn reparenting_discards_the_old_ancestor() {
    let mut w = World::new();
    let a = w.spawn();
    let bp = w.spawn();
    let c = w.spawn();
    let d = w.spawn();
    w.insert_position(a, Position::new(b(100.0), b(0.0), b(0.0))).unwrap();
    w.insert_position(bp, Position::new(b(0.0), b(200.0), b(0.0))).unwrap();
    w.insert_position(c, Position::new(b(1.0), b(0.0), b(0.0))).unwrap();
    w.insert_position(d, Position::new(b(0.0), b(1.0), b(0.0))).unwrap();
    w.attach(c, a).unwrap();
    w.attach(d, c).unwrap();
    insert_transforms(&mut w);
    propagate_transforms(&mut w);
    let local = |x: f32, y: f32, z: f32| {
        glam::Mat4::from_scale_rotation_translation(
            glam::Vec3::ONE,
            glam::Quat::IDENTITY,
            glam::Vec3::new(x, y, z),
        )
    };
    let c_under_a = local(100.0, 0.0, 0.0) * local(1.0, 0.0, 0.0);
    assert_eq!(w.global_transform(c).unwrap().0.bits, bits_of(c_under_a));

    w.detach(c).unwrap();
    w.attach(c, bp).unwrap();
    propagate_transforms(&mut w);
    let c_under_b = local(0.0, 200.0, 0.0) * local(1.0, 0.0, 0.0);
    let d_under_b = c_under_b * local(0.0, 1.0, 0.0);
    assert_eq!(w.global_transform(c).unwrap().0.bits, bits_of(c_under_b));
    assert_eq!(w.global_transform(d).unwrap().0.bits, bits_of(d_under_b));
    assert_ne!(bits_of(c_under_a), bits_of(c_under_b));
}

#[test]
fn detach_children_empties_the_chain() {
    let mut w = World::new();
    let p = w.spawn();
    let c0 = w.spawn();
    let c1 = w.spawn();
    let grandchild = w.spawn();
    w.attach(c0, p).unwrap();
    w.attach(c1, p).unwrap();
    w.attach(grandchild, c1).unwrap();
    let detached = w.detach_children(p).unwrap();
    assert_eq!(detached, vec![c1, c0], "children come back in reverse attach order");
    assert_eq!(w.num_children(p), 0);
    assert_eq!(w.parent_of(c0), None);
    assert_eq!(w.parent_of(c1), None);
    assert_eq!(w.parent_of(grandchild), Some(c1), "grandchildren stay attached");
}

#[test]
fn detach_all_unlinks_completely() {
    let mut w = World::new();
    let top = w.spawn();
    let mid = w.spawn();
    let bottom = w.spawn();
    w.attach(mid, top).unwrap();
    w.attach(bottom, mid).unwrap();
    w.detach_all(mid).unwrap();
    assert_eq!(w.parent_of(mid), None);
    assert_eq!(w.num_children(mid), 0);
    assert_eq!(w.num_children(top), 0);
    assert_eq!(w.parent_of(bottom), None);
    w.despawn(mid).unwrap();
}

#[test]
fn attach_new_spawns_a_child() {
    let mut w = World::new();
    let p = w.spawn();
    let c = w.attach_new(p).unwrap();
    assert!(w.contains(c));
    assert_eq!(w.parent_of(c), Some(p));
    assert_eq!(w.children_of(p), vec![c]);
    let dead = w.spawn();
    w.despawn(dead).unwrap();
    assert_eq!(w.attach_new(dead), Err(WorldError::NoSuchEntity));
}

#[test]
fn attach_refuses_cycles() {
    let mut w = World::new();
    let a = w.spawn();
    let c = w.spawn();
    let d = w.spawn();
    w.attach(c, a).unwrap();
    w.attach(d, c).unwrap();
    assert_eq!(w.attach(a, d), Err(WorldError::WouldCycle));
    assert_eq!(w.attach(a, a), Err(WorldError::WouldCycle));
}

#[test]
fn attach_refuses_double_attachment() {
    let mut w = World::new();
    let a = w.spawn();
    let p1 = w.spawn();
    let p2 = w.spawn();
    w.attach(a, p1).unwrap();
    assert_eq!(w.attach(a, p2), Err(WorldError::AlreadyAttached));
}

#[test]
fn operations_refuse_dead_handles() {
    let mut w = World::new();
    let a = w.spawn();
    let ghost = w.spawn();
    w.despawn(ghost).unwrap();
    assert_eq!(w.attach(a, ghost), Err(WorldError::NoSuchEntity));
    assert_eq!(w.attach(ghost, a), Err(WorldError::NoSuchEntity));
    assert_eq!(w.detach(ghost), Err(WorldError::NoSuchEntity));
    assert_eq!(w.despawn(ghost), Err(WorldError::NoSuchEntity));
    assert_eq!(
        w.insert_position(ghost, Position::new(0, 0, 0)),
        Err(WorldError::NoSuchEntity)
    );
}

#[test]
fn detach_refuses_unattached() {
    let mut w = World::new();
    let a = w.spawn();
    assert_eq!(w.detach(a), Err(WorldError::NotAttached));
}

#[test]
fn despawn_refuses_linked_entities() {
    let mut w = World::new();
    let p = w.spawn();
    let c = w.spawn();
    w.attach(c, p).unwrap();
    assert_eq!(w.despawn(p), Err(WorldError::StillLinked));
    assert_eq!(w.despawn(c), Err(WorldError::StillLinked));
    w.detach(c).unwrap();
    w.despawn(c).unwrap();
    assert!(!w.contains(c));
    w.despawn(p).unwrap();
    assert!(!w.contains(p));
}
