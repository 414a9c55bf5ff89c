//! The consistency pass and the two-phase propagation engine.
//!
//! The consistency pass completes the spatial data of every entity that
//! carries part of it. Phase one then writes each fully equipped entity's
//! world transform from its own local data alone. Phase two walks every
//! hierarchy root's descendants, overwriting each reached entity's transform
//! with its parent's finalized transform composed with its own local matrix.
//!
//! The value every transform slot holds afterwards is pinned down by
//! [`result_gt`]. An entity below a gap — an ancestor that is missing part
//! of its transform data — is left with its phase-one value, its local
//! matrix taken as world space; that is this engine's documented policy for
//! under-specified chains.

use rayon::iter::{IntoParallelIterator, ParallelIterator};
use vstd::prelude::*;

use crate::hierarchy::{
    in_chain, lemma_chain_depth_bound, lemma_chain_step,
    lemma_in_chain_depth_le, lemma_in_chain_fuel_mono, lemma_sibling_subtrees_disjoint,
};
use crate::math::{mat_product, mat4_mul, Mat4};
use crate::transform::{local_matrix, GlobalTransform};
use crate::world::{chain_depth, World};
use crate::Entity;

verus! {

/// Whether the entity carries the full spatial set: position, rotation,
/// scale and a world transform slot.
pub open spec fn spatial_full(v: World, i: int) -> bool {
    v.has_pos(i) && v.has_rot(i) && v.has_scl(i) && v.has_gt(i)
}

/// The entity's local matrix: scale, then rotate, then translate.
pub open spec fn own_matrix(v: World, i: int) -> Seq<u32> {
    local_matrix(v.posv()[i]->0, v.rotv()[i]->0, v.sclv()[i]->0)
}

/// The bits the entity's transform slot holds after the flat pass: its own
/// local matrix when it is fully equipped, its previous value otherwise.
pub open spec fn phase1_gt(v: World, i: int) -> Seq<u32> {
    if spatial_full(v, i) {
        own_matrix(v, i)
    } else {
        v.gtv()[i]->0
    }
}

/// Whether the entity starts a hierarchy walk: it has a transform slot and
/// children, and no parent of its own.
pub open spec fn is_basis_root(v: World, i: int) -> bool {
    &&& 0 <= i < v.n()
    &&& v.has_gt(i)
    &&& v.pv()[i] is None
    &&& v.cv()[i].len() > 0
}

/// Whether the descent writes the entity: it is fully equipped and hangs,
/// through fully equipped written ancestors, below a walk root.
pub open spec fn written2(v: World, i: int, fuel: nat) -> bool
    decreases fuel,
{
    &&& 0 <= i < v.n()
    &&& spatial_full(v, i)
    &&& match v.pv()[i] {
        None => false,
        Some(p) => is_basis_root(v, p.id as int) || (fuel > 0 && written2(
            v,
            p.id as int,
            (fuel - 1) as nat,
        )),
    }
}

/// The bits the entity's transform slot holds once propagation is done:
/// its parent's finalized transform composed with its own local matrix when
/// the descent reaches it, its flat-pass value otherwise.
pub open spec fn result_gt(v: World, i: int, fuel: nat) -> Seq<u32>
    decreases fuel,
{
    if written2(v, i, fuel) {
        let p = v.pv()[i]->0;
        if fuel > 0 {
            mat_product(result_gt(v, p.id as int, (fuel - 1) as nat), own_matrix(v, i))
        } else {
            // Only a walk root's direct child is written with no fuel, and a
            // walk root keeps its flat-pass value.
            mat_product(phase1_gt(v, p.id as int), own_matrix(v, i))
        }
    } else {
        phase1_gt(v, i)
    }
}

/// Any fuel covering the entity's chain depth gives the canonical answer.
pub proof fn lemma_fuel_suff(v: World, i: int, f: nat)
    requires
        v.wf(),
        0 <= i < v.n(),
        f >= chain_depth(v.pv(), i, v.n() as nat)->0,
    ensures
        written2(v, i, f) == written2(v, i, v.n() as nat),
        result_gt(v, i, f) == result_gt(v, i, v.n() as nat),
    decreases chain_depth(v.pv(), i, v.n() as nat)->0,
{
    let n = v.n() as nat;
    match v.pv()[i] {
        None => {},
        Some(p) => {
            lemma_chain_step(v.pv(), i, n);
            lemma_chain_depth_bound(v.pv(), p.id as int, n);
            lemma_fuel_suff(v, p.id as int, (f - 1) as nat);
            lemma_fuel_suff(v, p.id as int, (n - 1) as nat);
        },
    }
}

/// A written entity hangs below exactly one walk root, which lies on its
/// own ancestor chain.
pub proof fn lemma_written2_has_root(v: World, i: int)
    requires
        v.wf(),
        written2(v, i, v.n() as nat),
    ensures
        exists|r: int|
            #![trigger is_basis_root(v, r)]
            is_basis_root(v, r) && i != r && in_chain(v.pv(), i, r, v.n() as nat),
    decreases chain_depth(v.pv(), i, v.n() as nat)->0,
{
    let n = v.n() as nat;
    let p = v.pv()[i]->0;
    let pi = p.id as int;
    lemma_chain_step(v.pv(), i, n);
    if is_basis_root(v, pi) {
        assert(in_chain(v.pv(), pi, pi, (n - 1) as nat));
        assert(in_chain(v.pv(), i, pi, n));
        assert(is_basis_root(v, pi) && i != pi && in_chain(v.pv(), i, pi, n));
    } else {
        lemma_chain_depth_bound(v.pv(), pi, n);
        lemma_fuel_suff(v, pi, (n - 1) as nat);
        lemma_written2_has_root(v, pi);
        let r = choose|r: int|
            #![trigger is_basis_root(v, r)]
            is_basis_root(v, r) && pi != r && in_chain(v.pv(), pi, r, n);
        assert(in_chain(v.pv(), pi, r, (n - 1) as nat)) by {
            crate::hierarchy::lemma_in_chain_depth_fuel(v.pv(), pi, r, n, n);
            let dp = chain_depth(v.pv(), pi, n)->0;
            lemma_in_chain_fuel_mono(v.pv(), pi, r, dp, (n - 1) as nat);
        }
        assert(in_chain(v.pv(), i, r, n));
        if i == r {
            assert(v.pv()[r] is Some);
            assert(false);
        }
        assert(is_basis_root(v, r) && i != r && in_chain(v.pv(), i, r, n));
    }
}

/// Everything the descent writes below a non-root entity forces that entity
/// to be written as well: a skipped entity's whole subtree is skipped.
pub proof fn lemma_written2_descends(v: World, e: int, c: int, f: nat)
    requires
        v.wf(),
        written2(v, e, v.n() as nat),
        in_chain(v.pv(), e, c, f),
        e != c,
        v.pv()[c] is Some,
    ensures
        written2(v, c, v.n() as nat),
    decreases f,
{
    let n = v.n() as nat;
    let q = v.pv()[e]->0;
    let qi = q.id as int;
    lemma_chain_step(v.pv(), e, n);
    lemma_chain_depth_bound(v.pv(), qi, n);
    if qi == c {
        assert(!is_basis_root(v, qi));
        lemma_fuel_suff(v, qi, (n - 1) as nat);
    } else {
        if is_basis_root(v, qi) {
            assert(in_chain(v.pv(), qi, c, (f - 1) as nat));
            assert(false);
        }
        lemma_fuel_suff(v, qi, (n - 1) as nat);
        lemma_written2_descends(v, qi, c, (f - 1) as nat);
    }
}

/// Whether the slot's ids sequence mentions slot `i`.
pub open spec fn contains_id(s: Seq<Entity>, i: int) -> bool {
    exists|k: int| 0 <= k < s.len() && s[k].id == i
}

/// The entity lacks a position but carries other local transform data.
pub open spec fn needs_pos(v: World, i: int) -> bool {
    !v.has_pos(i) && (v.has_rot(i) || v.has_scl(i))
}

/// The entity lacks a rotation but carries other local transform data.
pub open spec fn needs_rot(v: World, i: int) -> bool {
    !v.has_rot(i) && (v.has_pos(i) || v.has_scl(i))
}

/// The entity lacks a scale but carries other local transform data.
pub open spec fn needs_scl(v: World, i: int) -> bool {
    !v.has_scl(i) && (v.has_pos(i) || v.has_rot(i))
}

/// The entity carries local transform data but no world transform slot.
pub open spec fn needs_gt(v: World, i: int) -> bool {
    !v.has_gt(i) && (v.has_pos(i) || v.has_rot(i) || v.has_scl(i))
}

/// The consistency pass: every entity carrying at least one of position,
/// rotation and scale ends up carrying all three plus a world transform
/// slot, the missing pieces filled with identity defaults; entities carrying
/// none of the three gain nothing, and nothing already present changes.
///
/// The insertions are first queued in a read-only scan and then applied, so
/// no read of the scan observes a partial insertion.
#[verifier::loop_isolation(false)]
#[verifier::rlimit(30)]
pub fn insert_transforms(w: &mut World)
    requires
        old(w).wf(),
    ensures
        final(w).wf(),
        final(w).n() == old(w).n(),
        World::same_hierarchy(*old(w), *final(w)),
        World::same_aux(*old(w), *final(w)),
        forall|i: int|
            #![trigger old(w).posv()[i]]
            0 <= i < final(w).n() ==> {
                &&& final(w).posv()[i] == if old(w).has_pos(i) {
                    old(w).posv()[i]
                } else if needs_pos(*old(w), i) {
                    Some(crate::math::Vec3::zero_spec())
                } else {
                    None::<Seq<u32>>
                }
                &&& final(w).rotv()[i] == if old(w).has_rot(i) {
                    old(w).rotv()[i]
                } else if needs_rot(*old(w), i) {
                    Some(crate::math::Quat::identity_spec())
                } else {
                    None::<Seq<u32>>
                }
                &&& final(w).sclv()[i] == if old(w).has_scl(i) {
                    old(w).sclv()[i]
                } else if needs_scl(*old(w), i) {
                    Some(crate::math::Vec3::one_spec())
                } else {
                    None::<Seq<u32>>
                }
                &&& final(w).gtv()[i] == if old(w).has_gt(i) {
                    old(w).gtv()[i]
                } else if needs_gt(*old(w), i) {
                    Some(Mat4::identity_spec())
                } else {
                    None::<Seq<u32>>
                }
            },
{
    let ghost v0 = *old(w);
    let total = w.len();
    let mut need_pos: Vec<Entity> = Vec::new();
    let mut need_rot: Vec<Entity> = Vec::new();
    let mut need_scl: Vec<Entity> = Vec::new();
    let mut need_gt: Vec<Entity> = Vec::new();
    let mut i: usize = 0;
    while i < total
        invariant
            i <= total,
            *w == v0,
            forall|k: int|
                0 <= k < need_pos@.len() ==> needs_pos(v0, (#[trigger] need_pos@[k]).id as int)
                    && need_pos@[k].id < i,
            forall|i2: int| 0 <= i2 < i && needs_pos(v0, i2) ==> contains_id(need_pos@, i2),
            forall|k: int|
                0 <= k < need_rot@.len() ==> needs_rot(v0, (#[trigger] need_rot@[k]).id as int)
                    && need_rot@[k].id < i,
            forall|i2: int| 0 <= i2 < i && needs_rot(v0, i2) ==> contains_id(need_rot@, i2),
            forall|k: int|
                0 <= k < need_scl@.len() ==> needs_scl(v0, (#[trigger] need_scl@[k]).id as int)
                    && need_scl@[k].id < i,
            forall|i2: int| 0 <= i2 < i && needs_scl(v0, i2) ==> contains_id(need_scl@, i2),
            forall|k: int|
                0 <= k < need_gt@.len() ==> needs_gt(v0, (#[trigger] need_gt@[k]).id as int)
                    && need_gt@[k].id < i,
            forall|i2: int| 0 <= i2 < i && needs_gt(v0, i2) ==> contains_id(need_gt@, i2),
        decreases total - i,
    {
        let e = Entity { id: i };
        let ghost qp0 = need_pos@;
        let ghost qr0 = need_rot@;
        let ghost qs0 = need_scl@;
        let ghost qg0 = need_gt@;
        let hp = w.position(e).is_some();
        let hr = w.rotation(e).is_some();
        let hs = w.scale(e).is_some();
        let hg = w.global_transform(e).is_some();
        proof {
            if w.is_alive(e) {
            } else {
                assert(!v0.has_pos(i as int) && !v0.has_rot(i as int) && !v0.has_scl(i as int)
                    && !v0.has_gt(i as int));
            }
        }
        if !hp && (hr || hs) {
            need_pos.push(e);
        }
        if !hr && (hp || hs) {
            need_rot.push(e);
        }
        if !hs && (hp || hr) {
            need_scl.push(e);
        }
        if !hg && (hp || hr || hs) {
            need_gt.push(e);
        }
        proof {
            assert forall|i2: int|
                0 <= i2 < i + 1 && needs_pos(v0, i2) implies contains_id(need_pos@, i2) by {
                if i2 < i {
                    let k = choose|k: int| 0 <= k < qp0.len() && qp0[k].id == i2;
                    assert(need_pos@[k].id == i2);
                } else {
                    assert(need_pos@[need_pos@.len() - 1].id == i2);
                }
            }
            assert forall|i2: int|
                0 <= i2 < i + 1 && needs_rot(v0, i2) implies contains_id(need_rot@, i2) by {
                if i2 < i {
                    let k = choose|k: int| 0 <= k < qr0.len() && qr0[k].id == i2;
                    assert(need_rot@[k].id == i2);
                } else {
                    assert(need_rot@[need_rot@.len() - 1].id == i2);
                }
            }
            assert forall|i2: int|
                0 <= i2 < i + 1 && needs_scl(v0, i2) implies contains_id(need_scl@, i2) by {
                if i2 < i {
                    let k = choose|k: int| 0 <= k < qs0.len() && qs0[k].id == i2;
                    assert(need_scl@[k].id == i2);
                } else {
                    assert(need_scl@[need_scl@.len() - 1].id == i2);
                }
            }
            assert forall|i2: int|
                0 <= i2 < i + 1 && needs_gt(v0, i2) implies contains_id(need_gt@, i2) by {
                if i2 < i {
                    let k = choose|k: int| 0 <= k < qg0.len() && qg0[k].id == i2;
                    assert(need_gt@[k].id == i2);
                } else {
                    assert(need_gt@[need_gt@.len() - 1].id == i2);
                }
            }
        }
        i = i + 1;
    }
    let mut k: usize = 0;
    while k < need_pos.len()
        invariant
            k <= need_pos@.len(),
            w.wf(),
            w.n() == v0.n(),
            World::same_hierarchy(v0, *w),
            World::same_aux(v0, *w),
            w.rotv() == v0.rotv(),
            w.sclv() == v0.sclv(),
            w.gtv() == v0.gtv(),
            forall|i2: int|
                #![trigger w.posv()[i2]]
                0 <= i2 < w.n() ==> w.posv()[i2] == if contains_id(
                    need_pos@.take(k as int),
                    i2,
                ) {
                    Some(crate::math::Vec3::zero_spec())
                } else {
                    v0.posv()[i2]
                },
        decreases need_pos@.len() - k,
    {
        let e = need_pos[k];
        let r = w.insert_position(e, crate::transform::Position::origin());
        proof {
            assert(needs_pos(v0, e.id as int));
            assert(v0.av()[e.id as int]);
            if r is Err {
                assert(false);
            }
            assert(need_pos@.take(k + 1) =~= need_pos@.take(k as int).push(e));
            assert forall|i2: int| 0 <= i2 < w.n() implies w.posv()[i2] == (if contains_id(
                need_pos@.take(k + 1),
                i2,
            ) {
                Some(crate::math::Vec3::zero_spec())
            } else {
                v0.posv()[i2]
            }) by {
                if i2 == e.id as int {
                    assert(need_pos@.take(k + 1)[k as int].id == i2);
                }
                if contains_id(need_pos@.take(k as int), i2) {
                    let k3 = choose|k3: int|
                        #![trigger need_pos@.take(k as int)[k3]]
                        0 <= k3 < need_pos@.take(k as int).len() && need_pos@.take(k as int)[k3].id
                            == i2;
                    assert(need_pos@.take(k + 1)[k3].id == i2);
                }
                if contains_id(need_pos@.take(k + 1), i2) && i2 != e.id as int {
                    let k2 = choose|k2: int|
                        #![trigger need_pos@.take(k + 1)[k2]]
                        0 <= k2 < need_pos@.take(k + 1).len() && need_pos@.take(k + 1)[k2].id == i2;
                    assert(need_pos@.take(k as int)[k2].id == i2);
                }
            }
        }
        k = k + 1;
    }
    proof {
        assert(need_pos@.take(need_pos@.len() as int) =~= need_pos@);
    }
    let mut k: usize = 0;
    while k < need_rot.len()
        invariant
            k <= need_rot@.len(),
            w.wf(),
            w.n() == v0.n(),
            World::same_hierarchy(v0, *w),
            World::same_aux(v0, *w),
            w.sclv() == v0.sclv(),
            w.gtv() == v0.gtv(),
            forall|i2: int|
                #![trigger w.posv()[i2]]
                0 <= i2 < w.n() ==> w.posv()[i2] == if contains_id(need_pos@, i2) {
                    Some(crate::math::Vec3::zero_spec())
                } else {
                    v0.posv()[i2]
                },
            forall|i2: int|
                #![trigger w.rotv()[i2]]
                0 <= i2 < w.n() ==> w.rotv()[i2] == if contains_id(
                    need_rot@.take(k as int),
                    i2,
                ) {
                    Some(crate::math::Quat::identity_spec())
                } else {
                    v0.rotv()[i2]
                },
        decreases need_rot@.len() - k,
    {
        let e = need_rot[k];
        let r = w.insert_rotation(e, crate::transform::Rotation::identity());
        proof {
            assert(needs_rot(v0, e.id as int));
            assert(v0.av()[e.id as int]);
            if r is Err {
                assert(false);
            }
            assert(need_rot@.take(k + 1) =~= need_rot@.take(k as int).push(e));
            assert forall|i2: int| 0 <= i2 < w.n() implies w.rotv()[i2] == (if contains_id(
                need_rot@.take(k + 1),
                i2,
            ) {
                Some(crate::math::Quat::identity_spec())
            } else {
                v0.rotv()[i2]
            }) by {
                if i2 == e.id as int {
                    assert(need_rot@.take(k + 1)[k as int].id == i2);
                }
                if contains_id(need_rot@.take(k as int), i2) {
                    let k3 = choose|k3: int|
                        #![trigger need_rot@.take(k as int)[k3]]
                        0 <= k3 < need_rot@.take(k as int).len() && need_rot@.take(k as int)[k3].id
                            == i2;
                    assert(need_rot@.take(k + 1)[k3].id == i2);
                }
                if contains_id(need_rot@.take(k + 1), i2) && i2 != e.id as int {
                    let k2 = choose|k2: int|
                        #![trigger need_rot@.take(k + 1)[k2]]
                        0 <= k2 < need_rot@.take(k + 1).len() && need_rot@.take(k + 1)[k2].id == i2;
                    assert(need_rot@.take(k as int)[k2].id == i2);
                }
            }
        }
        k = k + 1;
    }
    proof {
        assert(need_rot@.take(need_rot@.len() as int) =~= need_rot@);
    }
    let mut k: usize = 0;
    while k < need_scl.len()
        invariant
            k <= need_scl@.len(),
            w.wf(),
            w.n() == v0.n(),
            World::same_hierarchy(v0, *w),
            World::same_aux(v0, *w),
            w.gtv() == v0.gtv(),
            forall|i2: int|
                #![trigger w.posv()[i2]]
                0 <= i2 < w.n() ==> w.posv()[i2] == if contains_id(need_pos@, i2) {
                    Some(crate::math::Vec3::zero_spec())
                } else {
                    v0.posv()[i2]
                },
            forall|i2: int|
                #![trigger w.rotv()[i2]]
                0 <= i2 < w.n() ==> w.rotv()[i2] == if contains_id(need_rot@, i2) {
                    Some(crate::math::Quat::identity_spec())
                } else {
                    v0.rotv()[i2]
                },
            forall|i2: int|
                #![trigger w.sclv()[i2]]
                0 <= i2 < w.n() ==> w.sclv()[i2] == if contains_id(
                    need_scl@.take(k as int),
                    i2,
                ) {
                    Some(crate::math::Vec3::one_spec())
                } else {
                    v0.sclv()[i2]
                },
        decreases need_scl@.len() - k,
    {
        let e = need_scl[k];
        let r = w.insert_scale(e, crate::transform::Scale::unit());
        proof {
            assert(needs_scl(v0, e.id as int));
            assert(v0.av()[e.id as int]);
            if r is Err {
                assert(false);
            }
            assert(need_scl@.take(k + 1) =~= need_scl@.take(k as int).push(e));
            assert forall|i2: int| 0 <= i2 < w.n() implies w.sclv()[i2] == (if contains_id(
                need_scl@.take(k + 1),
                i2,
            ) {
                Some(crate::math::Vec3::one_spec())
            } else {
                v0.sclv()[i2]
            }) by {
                if i2 == e.id as int {
                    assert(need_scl@.take(k + 1)[k as int].id == i2);
                }
                if contains_id(need_scl@.take(k as int), i2) {
                    let k3 = choose|k3: int|
                        #![trigger need_scl@.take(k as int)[k3]]
                        0 <= k3 < need_scl@.take(k as int).len() && need_scl@.take(k as int)[k3].id
                            == i2;
                    assert(need_scl@.take(k + 1)[k3].id == i2);
                }
                if contains_id(need_scl@.take(k + 1), i2) && i2 != e.id as int {
                    let k2 = choose|k2: int|
                        #![trigger need_scl@.take(k + 1)[k2]]
                        0 <= k2 < need_scl@.take(k + 1).len() && need_scl@.take(k + 1)[k2].id == i2;
                    assert(need_scl@.take(k as int)[k2].id == i2);
                }
            }
        }
        k = k + 1;
    }
    proof {
        assert(need_scl@.take(need_scl@.len() as int) =~= need_scl@);
    }
    let mut k: usize = 0;
    while k < need_gt.len()
        invariant
            k <= need_gt@.len(),
            w.wf(),
            w.n() == v0.n(),
            World::same_hierarchy(v0, *w),
            World::same_aux(v0, *w),
            forall|i2: int|
                #![trigger w.posv()[i2]]
                0 <= i2 < w.n() ==> w.posv()[i2] == if contains_id(need_pos@, i2) {
                    Some(crate::math::Vec3::zero_spec())
                } else {
                    v0.posv()[i2]
                },
            forall|i2: int|
                #![trigger w.rotv()[i2]]
                0 <= i2 < w.n() ==> w.rotv()[i2] == if contains_id(need_rot@, i2) {
                    Some(crate::math::Quat::identity_spec())
                } else {
                    v0.rotv()[i2]
                },
            forall|i2: int|
                #![trigger w.sclv()[i2]]
                0 <= i2 < w.n() ==> w.sclv()[i2] == if contains_id(need_scl@, i2) {
                    Some(crate::math::Vec3::one_spec())
                } else {
                    v0.sclv()[i2]
                },
            forall|i2: int|
                #![trigger w.gtv()[i2]]
                0 <= i2 < w.n() ==> w.gtv()[i2] == if contains_id(
                    need_gt@.take(k as int),
                    i2,
                ) {
                    Some(Mat4::identity_spec())
                } else {
                    v0.gtv()[i2]
                },
        decreases need_gt@.len() - k,
    {
        let e = need_gt[k];
        let r = w.insert_global_transform(e, GlobalTransform::identity());
        proof {
            assert(needs_gt(v0, e.id as int));
            assert(v0.av()[e.id as int]);
            if r is Err {
                assert(false);
            }
            assert(need_gt@.take(k + 1) =~= need_gt@.take(k as int).push(e));
            assert forall|i2: int| 0 <= i2 < w.n() implies w.gtv()[i2] == (if contains_id(
                need_gt@.take(k + 1),
                i2,
            ) {
                Some(Mat4::identity_spec())
            } else {
                v0.gtv()[i2]
            }) by {
                if i2 == e.id as int {
                    assert(need_gt@.take(k + 1)[k as int].id == i2);
                }
                if contains_id(need_gt@.take(k as int), i2) {
                    let k3 = choose|k3: int|
                        #![trigger need_gt@.take(k as int)[k3]]
                        0 <= k3 < need_gt@.take(k as int).len() && need_gt@.take(k as int)[k3].id
                            == i2;
                    assert(need_gt@.take(k + 1)[k3].id == i2);
                }
                if contains_id(need_gt@.take(k + 1), i2) && i2 != e.id as int {
                    let k2 = choose|k2: int|
                        #![trigger need_gt@.take(k + 1)[k2]]
                        0 <= k2 < need_gt@.take(k + 1).len() && need_gt@.take(k + 1)[k2].id == i2;
                    assert(need_gt@.take(k as int)[k2].id == i2);
                }
            }
        }
        k = k + 1;
    }
    proof {
        assert(need_pos@.take(need_pos@.len() as int) =~= need_pos@);
        assert(need_rot@.take(need_rot@.len() as int) =~= need_rot@);
        assert(need_scl@.take(need_scl@.len() as int) =~= need_scl@);
        assert(need_gt@.take(need_gt@.len() as int) =~= need_gt@);
        assert forall|i2: int| 0 <= i2 < w.n() implies contains_id(need_pos@, i2) == needs_pos(
            v0,
            i2,
        ) by {
            if contains_id(need_pos@, i2) {
                let k2 = choose|k2: int| 0 <= k2 < need_pos@.len() && need_pos@[k2].id == i2;
            }
        }
        assert forall|i2: int| 0 <= i2 < w.n() implies contains_id(need_rot@, i2) == needs_rot(
            v0,
            i2,
        ) by {
            if contains_id(need_rot@, i2) {
                let k2 = choose|k2: int| 0 <= k2 < need_rot@.len() && need_rot@[k2].id == i2;
            }
        }
        assert forall|i2: int| 0 <= i2 < w.n() implies contains_id(need_scl@, i2) == needs_scl(
            v0,
            i2,
        ) by {
            if contains_id(need_scl@, i2) {
                let k2 = choose|k2: int| 0 <= k2 < need_scl@.len() && need_scl@[k2].id == i2;
            }
        }
        assert forall|i2: int| 0 <= i2 < w.n() implies contains_id(need_gt@, i2) == needs_gt(
            v0,
            i2,
        ) by {
            if contains_id(need_gt@, i2) {
                let k2 = choose|k2: int| 0 <= k2 < need_gt@.len() && need_gt@[k2].id == i2;
            }
        }
    }
}

/// Whether the descent rooted at `c` writes entity `e`: `e` is written and
/// `c` lies on its ancestor chain.
pub open spec fn covered_by(v: World, e: int, c: int) -> bool {
    written2(v, e, v.n() as nat) && in_chain(v.pv(), e, c, v.n() as nat)
}

/// An entity with a walk ancestor entered that ancestor's subtree through
/// one of its direct children.
proof fn lemma_chain_entry(v: World, i: int, a: int)
    requires
        v.wf(),
        0 <= a < v.n(),
        in_chain(v.pv(), i, a, v.n() as nat),
        i != a,
    ensures
        exists|j: int|
            #![trigger v.cv()[a][j]]
            0 <= j < v.cv()[a].len() && in_chain(
                v.pv(),
                i,
                v.cv()[a][j].id as int,
                v.n() as nat,
            ),
    decreases chain_depth(v.pv(), i, v.n() as nat)->0,
{
    let n = v.n() as nat;
    let q = v.pv()[i]->0;
    let qi = q.id as int;
    lemma_chain_step(v.pv(), i, n);
    if qi == a {
        vstd::std_specs::vec::axiom_spec_len(&v.alive);
        assert(0 <= i < v.n());
        let ent = Entity { id: i as usize };
        assert(v.cv()[a].contains(ent));
        let j = choose|j: int| 0 <= j < v.cv()[a].len() && v.cv()[a][j] == ent;
        assert(v.cv()[a][j].id as int == i);
        assert(in_chain(v.pv(), i, v.cv()[a][j].id as int, n));
    } else {
        assert(in_chain(v.pv(), qi, a, (n - 1) as nat));
        crate::hierarchy::lemma_in_chain_to_n(v.pv(), qi, a, (n - 1) as nat);
        lemma_chain_entry(v, qi, a);
        let j = choose|j: int|
            #![trigger v.cv()[a][j]]
            0 <= j < v.cv()[a].len() && in_chain(v.pv(), qi, v.cv()[a][j].id as int, n);
        let b = v.cv()[a][j].id as int;
        crate::hierarchy::lemma_in_chain_depth_fuel(v.pv(), qi, b, n, n);
        lemma_chain_depth_bound(v.pv(), qi, n);
        lemma_in_chain_fuel_mono(
            v.pv(),
            qi,
            b,
            chain_depth(v.pv(), qi, n)->0,
            (n - 1) as nat,
        );
        assert(in_chain(v.pv(), i, b, n));
    }
}

/// The flat pass: every fully equipped entity's transform slot receives its
/// own local matrix; every other slot keeps its value.
#[verifier::loop_isolation(false)]
#[verifier::rlimit(30)]
fn flat_pass(w: &mut World)
    requires
        old(w).wf(),
    ensures
        final(w).wf(),
        final(w).n() == old(w).n(),
        World::same_hierarchy(*old(w), *final(w)),
        World::same_aux(*old(w), *final(w)),
        final(w).posv() == old(w).posv(),
        final(w).rotv() == old(w).rotv(),
        final(w).sclv() == old(w).sclv(),
        forall|i: int|
            #![trigger final(w).gtv()[i]]
            0 <= i < old(w).n() ==> final(w).gtv()[i] == if old(w).has_gt(i) {
                Some(phase1_gt(*old(w), i))
            } else {
                None::<Seq<u32>>
            },
{
    let ghost v0 = *old(w);
    let total = w.len();
    let mut i: usize = 0;
    while i < total
        invariant
            i <= total,
            w.wf(),
            w.n() == v0.n(),
            World::same_hierarchy(v0, *w),
            World::same_aux(v0, *w),
            w.posv() == v0.posv(),
            w.rotv() == v0.rotv(),
            w.sclv() == v0.sclv(),
            forall|j: int|
                #![trigger w.gtv()[j]]
                0 <= j < i ==> w.gtv()[j] == if v0.has_gt(j) {
                    Some(phase1_gt(v0, j))
                } else {
                    None::<Seq<u32>>
                },
            forall|j: int| #![trigger w.gtv()[j]] i <= j < v0.n() ==> w.gtv()[j] == v0.gtv()[j],
        decreases total - i,
    {
        let e = Entity { id: i };
        let po = w.position(e);
        let ro = w.rotation(e);
        let so = w.scale(e);
        let go = w.global_transform(e);
        if po.is_some() && ro.is_some() && so.is_some() && go.is_some() {
            let m = GlobalTransform::from_position_rotation_scale(
                po.unwrap(),
                ro.unwrap(),
                so.unwrap(),
            );
            let r = w.insert_global_transform(e, m);
            proof {
                if r is Err {
                    assert(false);
                }
                assert(spatial_full(v0, i as int));
                assert(m@ == own_matrix(v0, i as int));
            }
        } else {
            proof {
                if v0.has_gt(i as int) {
                    assert(!spatial_full(v0, i as int));
                    assert(v0.gtv()[i as int] == Some(phase1_gt(v0, i as int)));
                }
            }
        }
        i = i + 1;
    }
}

/// Collects every walk root: the entities with a transform slot and
/// children but no parent, in increasing slot order.
#[verifier::loop_isolation(false)]
fn collect_roots(w: &World) -> (roots: Vec<Entity>)
    requires
        w.wf(),
    ensures
        forall|k: int|
            0 <= k < roots@.len() ==> is_basis_root(*w, (#[trigger] roots@[k]).id as int),
        forall|i: int| 0 <= i < w.n() && is_basis_root(*w, i) ==> contains_id(roots@, i),
    {
    let total = w.len();
    let mut roots: Vec<Entity> = Vec::new();
    let mut i: usize = 0;
    while i < total
        invariant
            i <= total,
            forall|k: int|
                0 <= k < roots@.len() ==> is_basis_root(*w, (#[trigger] roots@[k]).id as int)
                    && roots@[k].id < i,
            forall|i2: int| 0 <= i2 < i && is_basis_root(*w, i2) ==> contains_id(roots@, i2),
        decreases total - i,
    {
        let e = Entity { id: i };
        let ghost r0 = roots@;
        if w.global_transform(e).is_some() && !w.has_parent(e) && w.has_children(e) {
            roots.push(e);
        }
        proof {
            assert forall|i2: int|
                0 <= i2 < i + 1 && is_basis_root(*w, i2) implies contains_id(roots@, i2) by {
                if i2 < i {
                    let k = choose|k: int| 0 <= k < r0.len() && r0[k].id == i2;
                    assert(roots@[k].id == i2);
                } else {
                    assert(roots@[roots@.len() - 1].id == i2);
                }
            }
        }
        i = i + 1;
    }
    roots
}

/// The descent below one reached entity: every child carrying the full
/// spatial set receives the basis composed with its own local matrix and is
/// descended into in turn; everything outside the subtree keeps its value.
#[verifier::loop_isolation(false)]
#[verifier::rlimit(60)]
fn walk_children(w: &mut World, p: Entity, basis: &GlobalTransform, Ghost(v): Ghost<World>)
    requires
        old(w).wf(),
        v.wf(),
        old(w).n() == v.n(),
        World::same_hierarchy(v, *old(w)),
        World::same_aux(v, *old(w)),
        old(w).posv() == v.posv(),
        old(w).rotv() == v.rotv(),
        old(w).sclv() == v.sclv(),
        forall|i: int|
            0 <= i < v.n() ==> ((#[trigger] old(w).gtv()[i]) is Some) == v.has_gt(i),
        p.id < v.n(),
        is_basis_root(v, p.id as int) || written2(v, p.id as int, v.n() as nat),
        basis@ == result_gt(v, p.id as int, v.n() as nat),
    ensures
        final(w).wf(),
        final(w).n() == v.n(),
        World::same_hierarchy(v, *final(w)),
        World::same_aux(v, *final(w)),
        final(w).posv() == v.posv(),
        final(w).rotv() == v.rotv(),
        final(w).sclv() == v.sclv(),
        forall|i: int|
            #![trigger final(w).gtv()[i]]
            0 <= i < v.n() ==> final(w).gtv()[i] == if covered_by(v, i, p.id as int) && i
                != p.id as int {
                Some(result_gt(v, i, v.n() as nat))
            } else {
                old(w).gtv()[i]
            },
    decreases v.n() - chain_depth(v.pv(), p.id as int, v.n() as nat)->0,
{
    let ghost n = v.n() as nat;
    let ghost pi = p.id as int;
    let mut cur = w.last_child(p);
    let ghost mut idx: int = v.cv()[pi].len() - 1;
    while cur.is_some()
        invariant
            w.wf(),
            w.n() == v.n(),
            World::same_hierarchy(v, *w),
            World::same_aux(v, *w),
            w.posv() == v.posv(),
            w.rotv() == v.rotv(),
            w.sclv() == v.sclv(),
            forall|i: int| 0 <= i < v.n() ==> ((#[trigger] w.gtv()[i]) is Some) == v.has_gt(i),
            -1 <= idx < v.cv()[pi].len(),
            cur == if idx >= 0 {
                Some(v.cv()[pi][idx])
            } else {
                None::<Entity>
            },
            forall|i: int|
                #![trigger w.gtv()[i]]
                0 <= i < v.n() ==> w.gtv()[i] == if written2(v, i, n) && i != pi && (exists|j: int|
                    idx < j < v.cv()[pi].len() && in_chain(
                        v.pv(),
                        i,
                        (#[trigger] v.cv()[pi][j]).id as int,
                        n,
                    )) {
                    Some(result_gt(v, i, n))
                } else {
                    old(w).gtv()[i]
                },
        decreases idx + 1,
    {
        let c = cur.unwrap();
        let ghost ci = c.id as int;
        let ghost wpre = *w;
        proof {
            assert(v.cv()[pi][idx] == c);
            assert(v.pv()[ci] == Some(Entity { id: pi as usize }));
            assert(Entity { id: pi as usize } == p);
            lemma_chain_step(v.pv(), ci, n);
            lemma_chain_depth_bound(v.pv(), pi, n);
            lemma_fuel_suff(v, pi, (n - 1) as nat);
        }
        let po = w.position(c);
        let ro = w.rotation(c);
        let so = w.scale(c);
        let go = w.global_transform(c);
        if po.is_some() && ro.is_some() && so.is_some() && go.is_some() {
            let own = GlobalTransform::from_position_rotation_scale(
                po.unwrap(),
                ro.unwrap(),
                so.unwrap(),
            );
            let m = mat4_mul(&basis.0, &own.0);
            let r = w.insert_global_transform(c, GlobalTransform::new(m));
            proof {
                if r is Err {
                    assert(false);
                }
                assert(spatial_full(v, ci));
                assert(written2(v, ci, n));
                assert(own@ == own_matrix(v, ci));
                assert(m@ == result_gt(v, ci, n));
            }
            let ghost wmid = *w;
            if w.has_children(c) {
                let cb = GlobalTransform::new(m);
                walk_children(w, c, &cb, Ghost(v));
                proof {
                    assert forall|i: int| 0 <= i < v.n() implies w.gtv()[i] == (if covered_by(
                        v,
                        i,
                        ci,
                    ) {
                        Some(result_gt(v, i, n))
                    } else {
                        wpre.gtv()[i]
                    }) by {
                        if i == ci {
                            assert(in_chain(v.pv(), ci, ci, n));
                            assert(covered_by(v, i, ci));
                            assert(w.gtv()[ci] == wmid.gtv()[ci]);
                        }
                    }
                }
            } else {
                proof {
                    assert(v.cv()[ci].len() == 0);
                    assert forall|i: int| 0 <= i < v.n() implies w.gtv()[i] == (if covered_by(
                        v,
                        i,
                        ci,
                    ) {
                        Some(result_gt(v, i, n))
                    } else {
                        wpre.gtv()[i]
                    }) by {
                        if covered_by(v, i, ci) && i != ci {
                            lemma_chain_entry(v, i, ci);
                            assert(false);
                        }
                        if i == ci {
                            assert(in_chain(v.pv(), ci, ci, n));
                            assert(covered_by(v, i, ci));
                        }
                    }
                }
            }
            proof {
                lemma_restore_walk_invariant(v, wpre, *w, *old(w), p, c, idx, true);
            }
        } else {
            proof {
                assert(!spatial_full(v, ci));
                assert(!written2(v, ci, n));
                lemma_restore_walk_invariant(v, wpre, *w, *old(w), p, c, idx, false);
            }
        }
        cur = w.prev_sibling(c);
        proof {
            assert forall|k: int| 0 <= k < idx implies v.cv()[pi][k] != c by {
                if v.cv()[pi][k] == c {
                    assert(v.cv()[pi][k] == v.cv()[pi][idx]);
                }
            }
            v.lemma_child_slot(p, c, idx);
            idx = idx - 1;
        }
    }
    proof {
        assert forall|i: int| 0 <= i < v.n() implies w.gtv()[i] == (if covered_by(v, i, pi) && i
            != pi {
            Some(result_gt(v, i, n))
        } else {
            old(w).gtv()[i]
        }) by {
            if covered_by(v, i, pi) && i != pi {
                lemma_chain_entry(v, i, pi);
            }
            if written2(v, i, n) && i != pi && (exists|j: int|
                -1 < j < v.cv()[pi].len() && in_chain(
                    v.pv(),
                    i,
                    (#[trigger] v.cv()[pi][j]).id as int,
                    n,
                )) {
                let j = choose|j: int|
                    -1 < j < v.cv()[pi].len() && in_chain(
                        v.pv(),
                        i,
                        (#[trigger] v.cv()[pi][j]).id as int,
                        n,
                    );
                let b = v.cv()[pi][j].id as int;
                assert(v.pv()[b] == Some(p));
                assert(in_chain(v.pv(), b, pi, n)) by {
                    assert(in_chain(v.pv(), pi, pi, (n - 1) as nat));
                }
                crate::hierarchy::lemma_in_chain_trans(v.pv(), i, b, pi, n, n);
                crate::hierarchy::lemma_in_chain_to_n(v.pv(), i, pi, (n + n) as nat);
            }
        }
    }
}

/// One processed sibling extends the walked range by its own subtree.
#[verifier::rlimit(60)]
proof fn lemma_restore_walk_invariant(
    v: World,
    wpre: World,
    wpost: World,
    wstart: World,
    p: Entity,
    c: Entity,
    idx: int,
    wrote: bool,
)
    requires
        v.wf(),
        p.id < v.n(),
        0 <= idx < v.cv()[p.id as int].len(),
        v.cv()[p.id as int][idx] == c,
        v.pv()[c.id as int] == Some(p),
        // the walked-range description held before this sibling
        forall|i: int|
            #![trigger wpre.gtv()[i]]
            0 <= i < v.n() ==> wpre.gtv()[i] == if written2(v, i, v.n() as nat) && i
                != p.id as int && (exists|j: int|
                idx < j < v.cv()[p.id as int].len() && in_chain(
                    v.pv(),
                    i,
                    (#[trigger] v.cv()[p.id as int][j]).id as int,
                    v.n() as nat,
                )) {
                Some(result_gt(v, i, v.n() as nat))
            } else {
                wstart.gtv()[i]
            },
        // what processing the sibling did to the transforms
        if wrote {
            forall|i: int|
                #![trigger wpost.gtv()[i]]
                0 <= i < v.n() ==> wpost.gtv()[i] == if covered_by(v, i, c.id as int) {
                    Some(result_gt(v, i, v.n() as nat))
                } else {
                    wpre.gtv()[i]
                }
        } else {
            wpost.gtv() == wpre.gtv() && !written2(v, c.id as int, v.n() as nat)
        },
    ensures
        forall|i: int|
            #![trigger wpost.gtv()[i]]
            0 <= i < v.n() ==> wpost.gtv()[i] == if written2(v, i, v.n() as nat) && i
                != p.id as int && (exists|j: int|
                idx - 1 < j < v.cv()[p.id as int].len() && in_chain(
                    v.pv(),
                    i,
                    (#[trigger] v.cv()[p.id as int][j]).id as int,
                    v.n() as nat,
                )) {
                Some(result_gt(v, i, v.n() as nat))
            } else {
                wstart.gtv()[i]
            },
{
    let n = v.n() as nat;
    let pi = p.id as int;
    let ci = c.id as int;
    assert forall|i: int| 0 <= i < v.n() implies wpost.gtv()[i] == (if written2(v, i, n) && i != pi
        && (exists|j: int|
        idx - 1 < j < v.cv()[pi].len() && in_chain(
            v.pv(),
            i,
            (#[trigger] v.cv()[pi][j]).id as int,
            n,
        )) {
        Some(result_gt(v, i, n))
    } else {
        wstart.gtv()[i]
    }) by {
        let old_range = written2(v, i, n) && i != pi && (exists|j: int|
            idx < j < v.cv()[pi].len() && in_chain(
                v.pv(),
                i,
                (#[trigger] v.cv()[pi][j]).id as int,
                n,
            ));
        let new_range = written2(v, i, n) && i != pi && (exists|j: int|
            idx - 1 < j < v.cv()[pi].len() && in_chain(
                v.pv(),
                i,
                (#[trigger] v.cv()[pi][j]).id as int,
                n,
            ));
        let sub_c = covered_by(v, i, ci);
        // A slot in the subtree of c is in no other sibling's subtree, and c
        // itself is not the parent.
        if in_chain(v.pv(), i, ci, n) {
            assert forall|j: int|
                idx < j < v.cv()[pi].len() implies !in_chain(
                v.pv(),
                i,
                (#[trigger] v.cv()[pi][j]).id as int,
                n,
            ) by {
                let b = v.cv()[pi][j].id as int;
                assert(v.pv()[b] == Some(p));
                if b != ci {
                    lemma_sibling_subtrees_disjoint(v.pv(), ci, b, i, n, n);
                } else {
                    assert(v.cv()[pi][j] == v.cv()[pi][idx]);
                    assert(false);
                }
            }
        }
        if sub_c {
            // newly covered by this sibling
            assert(in_chain(v.pv(), i, ci, n));
            assert(!old_range);
            assert(new_range) by {
                assert(in_chain(v.pv(), i, (v.cv()[pi][idx]).id as int, n));
                if i == pi {
                    lemma_in_chain_depth_le(v.pv(), i, ci, n, n);
                    lemma_chain_step(v.pv(), ci, n);
                    assert(false);
                }
            }
            if wrote {
                assert(wpost.gtv()[i] == Some(result_gt(v, i, n)));
            } else {
                // a skipped sibling has no written descendants
                if i != ci {
                    lemma_written2_descends(v, i, ci, n);
                }
                assert(false);
            }
        } else {
            if wrote {
                assert(wpost.gtv()[i] == wpre.gtv()[i]);
            }
            assert(old_range == new_range) by {
                if new_range && !old_range {
                    let j = choose|j: int|
                        idx - 1 < j < v.cv()[pi].len() && in_chain(
                            v.pv(),
                            i,
                            (#[trigger] v.cv()[pi][j]).id as int,
                            n,
                        );
                    assert(j == idx);
                    assert(in_chain(v.pv(), i, ci, n));
                    assert(written2(v, i, n));
                    assert(sub_c);
                    assert(false);
                }
                if old_range {
                    let j = choose|j: int|
                        idx < j < v.cv()[pi].len() && in_chain(
                            v.pv(),
                            i,
                            (#[trigger] v.cv()[pi][j]).id as int,
                            n,
                        );
                    assert(idx - 1 < j < v.cv()[pi].len());
                }
            }
        }
    }
}

/// One entity's flat-pass value: its own local matrix, when it carries the
/// full spatial set. Reads nothing but the one entity's components, so
/// arbitrary partitions of the entity set can be computed concurrently.
pub fn local_transform_of(w: &World, e: Entity) -> (r: Option<GlobalTransform>)
    requires
        w.wf(),
    ensures
        match r {
            Some(g) => e.id < w.n() && spatial_full(*w, e.id as int) && g@ == own_matrix(
                *w,
                e.id as int,
            ),
            None => e.id >= w.n() || !spatial_full(*w, e.id as int),
        },
{
    let po = w.position(e);
    let ro = w.rotation(e);
    let so = w.scale(e);
    let go = w.global_transform(e);
    if po.is_some() && ro.is_some() && so.is_some() && go.is_some() {
        Some(GlobalTransform::from_position_rotation_scale(po.unwrap(), ro.unwrap(), so.unwrap()))
    } else {
        None
    }
}

/// Relies on rayon's parallel iterator over an index range, with `map` and
/// `collect`: the collected vector holds, at each index, exactly what the
/// mapped function returns there, in index order, whatever the worker pool
/// does; the function itself is [`local_transform_of`], verified above.
#[verifier::external_body]
fn par_local_transforms(w: &World, total: usize) -> (r: Vec<Option<GlobalTransform>>)
    requires
        w.wf(),
        total == w.n(),
    ensures
        r@.len() == w.n(),
        forall|i: int|
            0 <= i < w.n() ==> match #[trigger] r@[i] {
                Some(g) => spatial_full(*w, i) && g@ == own_matrix(*w, i),
                None => !spatial_full(*w, i),
            },
{
    (0..total).into_par_iter().map(|i| local_transform_of(w, Entity { id: i })).collect()
}

/// The flat pass fanned out across a worker pool: the per-entity values are
/// computed in parallel over disjoint entities, then written back. Leaves
/// exactly the state the sequential flat pass leaves.
#[verifier::loop_isolation(false)]
#[verifier::rlimit(30)]
fn par_flat_pass(w: &mut World)
    requires
        old(w).wf(),
    ensures
        final(w).wf(),
        final(w).n() == old(w).n(),
        World::same_hierarchy(*old(w), *final(w)),
        World::same_aux(*old(w), *final(w)),
        final(w).posv() == old(w).posv(),
        final(w).rotv() == old(w).rotv(),
        final(w).sclv() == old(w).sclv(),
        forall|i: int|
            #![trigger final(w).gtv()[i]]
            0 <= i < old(w).n() ==> final(w).gtv()[i] == if old(w).has_gt(i) {
                Some(phase1_gt(*old(w), i))
            } else {
                None::<Seq<u32>>
            },
{
    let ghost v0 = *old(w);
    let total = w.len();
    let vals = par_local_transforms(w, total);
    let mut i: usize = 0;
    while i < total
        invariant
            i <= total,
            w.wf(),
            w.n() == v0.n(),
            vals@.len() == v0.n(),
            World::same_hierarchy(v0, *w),
            World::same_aux(v0, *w),
            w.posv() == v0.posv(),
            w.rotv() == v0.rotv(),
            w.sclv() == v0.sclv(),
            forall|i2: int|
                0 <= i2 < v0.n() ==> match #[trigger] vals@[i2] {
                    Some(g) => spatial_full(v0, i2) && g@ == own_matrix(v0, i2),
                    None => !spatial_full(v0, i2),
                },
            forall|j: int|
                #![trigger w.gtv()[j]]
                0 <= j < i ==> w.gtv()[j] == if v0.has_gt(j) {
                    Some(phase1_gt(v0, j))
                } else {
                    None::<Seq<u32>>
                },
            forall|j: int| #![trigger w.gtv()[j]] i <= j < v0.n() ==> w.gtv()[j] == v0.gtv()[j],
        decreases total - i,
    {
        let e = Entity { id: i };
        match vals[i] {
            Some(g) => {
                let r = w.insert_global_transform(e, g);
                proof {
                    if r is Err {
                        assert(false);
                    }
                }
            },
            None => {
                proof {
                    if v0.has_gt(i as int) {
                        assert(v0.gtv()[i as int] == Some(phase1_gt(v0, i as int)));
                    }
                }
            },
        }
        i = i + 1;
    }
}

/// The propagation engine with its flat pass fanned out across a worker
/// pool. Entities are disjoint, so the parallel pass leaves exactly the
/// state the sequential one leaves, and the final transforms are
/// bit-identical to [`propagate_transforms`]'s: both pin every slot to
/// [`result_gt`] of the starting world.
pub fn propagate_transforms_par(w: &mut World)
    requires
        old(w).wf(),
    ensures
        final(w).wf(),
        final(w).n() == old(w).n(),
        World::same_hierarchy(*old(w), *final(w)),
        World::same_aux(*old(w), *final(w)),
        final(w).posv() == old(w).posv(),
        final(w).rotv() == old(w).rotv(),
        final(w).sclv() == old(w).sclv(),
        forall|i: int|
            #![trigger final(w).gtv()[i]]
            0 <= i < old(w).n() ==> final(w).gtv()[i] == if old(w).has_gt(i) {
                Some(result_gt(*old(w), i, old(w).n() as nat))
            } else {
                None::<Seq<u32>>
            },
{
    let ghost v = *old(w);
    par_flat_pass(w);
    descend_pass(w, Ghost(v));
}

/// The descent pass: every walk root's descendants are rewritten top-down,
/// each from its parent's finalized transform. `v` is the world the engine
/// started from; the flat pass has already run.
#[verifier::loop_isolation(false)]
#[verifier::rlimit(60)]
fn descend_pass(w: &mut World, Ghost(v): Ghost<World>)
    requires
        old(w).wf(),
        v.wf(),
        old(w).n() == v.n(),
        World::same_hierarchy(v, *old(w)),
        World::same_aux(v, *old(w)),
        old(w).posv() == v.posv(),
        old(w).rotv() == v.rotv(),
        old(w).sclv() == v.sclv(),
        forall|i: int|
            #![trigger old(w).gtv()[i]]
            0 <= i < v.n() ==> old(w).gtv()[i] == if v.has_gt(i) {
                Some(phase1_gt(v, i))
            } else {
                None::<Seq<u32>>
            },
    ensures
        final(w).wf(),
        final(w).n() == v.n(),
        World::same_hierarchy(v, *final(w)),
        World::same_aux(v, *final(w)),
        final(w).posv() == v.posv(),
        final(w).rotv() == v.rotv(),
        final(w).sclv() == v.sclv(),
        forall|i: int|
            #![trigger final(w).gtv()[i]]
            0 <= i < v.n() ==> final(w).gtv()[i] == if v.has_gt(i) {
                Some(result_gt(v, i, v.n() as nat))
            } else {
                None::<Seq<u32>>
            },
{
    let ghost n = v.n() as nat;
    let ghost wp1 = *old(w);
    let roots = collect_roots(w);
    proof {
        assert forall|k: int|
            0 <= k < roots@.len() implies is_basis_root(v, (#[trigger] roots@[k]).id as int) by {
            assert(is_basis_root(*w, roots@[k].id as int));
        }
        assert forall|i: int| 0 <= i < v.n() && is_basis_root(v, i) implies contains_id(
            roots@,
            i,
        ) by {
            assert(is_basis_root(*w, i));
        }
    }
    let total = roots.len();
    let mut k: usize = 0;
    while k < total
        invariant
            k <= total,
            total == roots@.len(),
            w.wf(),
            w.n() == v.n(),
            World::same_hierarchy(v, *w),
            World::same_aux(v, *w),
            w.posv() == v.posv(),
            w.rotv() == v.rotv(),
            w.sclv() == v.sclv(),
            forall|i: int| 0 <= i < v.n() ==> ((#[trigger] w.gtv()[i]) is Some) == v.has_gt(i),
            forall|i: int|
                #![trigger w.gtv()[i]]
                0 <= i < v.n() ==> w.gtv()[i] == if written2(v, i, n) && (exists|j: int|
                    0 <= j < k && in_chain(v.pv(), i, (#[trigger] roots@[j]).id as int, n)) {
                    Some(result_gt(v, i, n))
                } else {
                    wp1.gtv()[i]
                },
        decreases total - k,
    {
        let r = roots[k];
        let ghost ri = r.id as int;
        proof {
            assert(is_basis_root(v, ri));
            assert(!written2(v, ri, n));
            if exists|j: int|
                0 <= j < k && in_chain(v.pv(), ri, (#[trigger] roots@[j]).id as int, n) {
                let j = choose|j: int|
                    0 <= j < k && in_chain(v.pv(), ri, (#[trigger] roots@[j]).id as int, n);
                assert(in_chain(v.pv(), ri, roots@[j].id as int, n));
            }
            assert(w.gtv()[ri] == wp1.gtv()[ri]);
            assert(wp1.gtv()[ri] == Some(phase1_gt(v, ri)));
            assert(result_gt(v, ri, n) == phase1_gt(v, ri));
        }
        let basis = w.global_transform(r).unwrap();
        let ghost wpre = *w;
        walk_children(w, r, &basis, Ghost(v));
        proof {
            assert forall|i: int| 0 <= i < v.n() implies w.gtv()[i] == (if written2(v, i, n) && (
            exists|j: int|
                0 <= j < k + 1 && in_chain(v.pv(), i, (#[trigger] roots@[j]).id as int, n)) {
                Some(result_gt(v, i, n))
            } else {
                wp1.gtv()[i]
            }) by {
                if covered_by(v, i, ri) && i != ri {
                    assert(in_chain(v.pv(), i, roots@[k as int].id as int, n));
                    assert(w.gtv()[i] == Some(result_gt(v, i, n)));
                } else {
                    assert(w.gtv()[i] == wpre.gtv()[i]);
                    if written2(v, i, n) && (exists|j: int|
                        0 <= j < k + 1 && in_chain(
                            v.pv(),
                            i,
                            (#[trigger] roots@[j]).id as int,
                            n,
                        )) {
                        let j = choose|j: int|
                            0 <= j < k + 1 && in_chain(
                                v.pv(),
                                i,
                                (#[trigger] roots@[j]).id as int,
                                n,
                            );
                        if j == k {
                            assert(in_chain(v.pv(), i, ri, n));
                            if i == ri {
                                assert(!written2(v, i, n));
                                assert(false);
                            }
                            assert(covered_by(v, i, ri));
                            assert(false);
                        }
                        assert(exists|j2: int|
                            0 <= j2 < k && in_chain(
                                v.pv(),
                                i,
                                (#[trigger] roots@[j2]).id as int,
                                n,
                            ));
                    } else {
                        if exists|j: int|
                            0 <= j < k && in_chain(
                                v.pv(),
                                i,
                                (#[trigger] roots@[j]).id as int,
                                n,
                            ) {
                            let j = choose|j: int|
                                0 <= j < k && in_chain(
                                    v.pv(),
                                    i,
                                    (#[trigger] roots@[j]).id as int,
                                    n,
                                );
                            assert(in_chain(v.pv(), i, roots@[j].id as int, n));
                        }
                    }
                }
            }
        }
        k = k + 1;
    }
    proof {
        assert forall|i: int| 0 <= i < v.n() implies w.gtv()[i] == (if v.has_gt(i) {
            Some(result_gt(v, i, n))
        } else {
            None::<Seq<u32>>
        }) by {
            if written2(v, i, n) {
                lemma_written2_has_root(v, i);
                let r = choose|r: int|
                    #![trigger is_basis_root(v, r)]
                    is_basis_root(v, r) && i != r && in_chain(v.pv(), i, r, n);
                assert(contains_id(roots@, r));
                let j = choose|j: int| 0 <= j < roots@.len() && roots@[j].id == r;
                assert(in_chain(v.pv(), i, (roots@[j]).id as int, n));
                assert(w.gtv()[i] == Some(result_gt(v, i, n)));
            } else {
                if v.has_gt(i) {
                    assert(w.gtv()[i] == Some(phase1_gt(v, i)));
                } else {
                    assert(w.gtv()[i] == wp1.gtv()[i]);
                }
            }
        }
    }
}

/// The propagation engine: the flat pass writes every fully equipped
/// entity's local matrix into its transform slot, then the descent pass
/// rewrites every walk root's descendants top-down, each from its parent's
/// finalized transform. Afterwards every transform slot holds exactly
/// [`result_gt`] of the world the engine started from; entities without a
/// transform slot are untouched.
pub fn propagate_transforms(w: &mut World)
    requires
        old(w).wf(),
    ensures
        final(w).wf(),
        final(w).n() == old(w).n(),
        World::same_hierarchy(*old(w), *final(w)),
        World::same_aux(*old(w), *final(w)),
        final(w).posv() == old(w).posv(),
        final(w).rotv() == old(w).rotv(),
        final(w).sclv() == old(w).sclv(),
        forall|i: int|
            #![trigger final(w).gtv()[i]]
            0 <= i < old(w).n() ==> final(w).gtv()[i] == if old(w).has_gt(i) {
                Some(result_gt(*old(w), i, old(w).n() as nat))
            } else {
                None::<Seq<u32>>
            },
{
    let ghost v = *old(w);
    flat_pass(w);
    descend_pass(w, Ghost(v));
}


} // verus!
