//! The guarantees the propagation engine gives, stated over the result
//! specification that [`crate::propagate::propagate_transforms`] establishes.

use vstd::prelude::*;

use crate::math::mat_product;
use crate::propagate::{lemma_fuel_suff, own_matrix, phase1_gt, result_gt, spatial_full, written2};
use crate::transform::local_matrix;
use crate::world::World;
use crate::Entity;

verus! {

/// A parentless entity carrying position, rotation and scale ends up with
/// exactly the composition of its own local data: scale, then rotate, then
/// translate, bit for bit.
pub proof fn lemma_root_transform(v: World, i: int)
    requires
        v.wf(),
        0 <= i < v.n(),
        v.pv()[i] is None,
        spatial_full(v, i),
    ensures
        result_gt(v, i, v.n() as nat) == local_matrix(
            v.posv()[i]->0,
            v.rotv()[i]->0,
            v.sclv()[i]->0,
        ),
{
    assert(!written2(v, i, v.n() as nat));
}

/// Every entity the descent reaches ends up with its parent's finalized
/// transform composed with its own local matrix; applied along a chain this
/// is the iterated product of the ancestors' local matrices, in
/// parent-to-child order, whatever the chain's depth.
pub proof fn lemma_child_transform(v: World, i: int)
    requires
        v.wf(),
        0 <= i < v.n(),
        written2(v, i, v.n() as nat),
    ensures
        v.pv()[i] is Some,
        result_gt(v, i, v.n() as nat) == mat_product(
            result_gt(v, v.pv()[i]->0.id as int, v.n() as nat),
            own_matrix(v, i),
        ),
{
    let n = v.n() as nat;
    let p = v.pv()[i]->0;
    crate::hierarchy::lemma_chain_step(v.pv(), i, n);
    crate::hierarchy::lemma_chain_depth_bound(v.pv(), p.id as int, n);
    lemma_fuel_suff(v, p.id as int, (n - 1) as nat);
}

/// Every strict ancestor of a written entity, up to and excluding the walk
/// root, is itself written: the chain equation of
/// [`lemma_child_transform`] therefore applies at every level, so a written
/// entity's transform is the iterated product of its ancestors' local
/// matrices in parent-to-child order, for chains of any depth.
pub proof fn lemma_written2_parent(v: World, i: int)
    requires
        v.wf(),
        0 <= i < v.n(),
        written2(v, i, v.n() as nat),
    ensures
        v.pv()[i] is Some,
        crate::propagate::is_basis_root(v, v.pv()[i]->0.id as int) || written2(
            v,
            v.pv()[i]->0.id as int,
            v.n() as nat,
        ),
{
    let n = v.n() as nat;
    let p = v.pv()[i]->0;
    crate::hierarchy::lemma_chain_step(v.pv(), i, n);
    crate::hierarchy::lemma_chain_depth_bound(v.pv(), p.id as int, n);
    lemma_fuel_suff(v, p.id as int, (n - 1) as nat);
}

/// The transform values two worlds are left with agree wherever the worlds
/// agree on hierarchy, local data and slot presence, and every slot that is
/// not fully equipped holds the same bits: propagation reads nothing else.
proof fn lemma_result_congruent(v: World, v2: World, i: int, fuel: nat)
    requires
        v2.n() == v.n(),
        v2.pv() == v.pv(),
        v2.cv() == v.cv(),
        v2.posv() == v.posv(),
        v2.rotv() == v.rotv(),
        v2.sclv() == v.sclv(),
        forall|j: int|
            0 <= j < v.n() ==> ((#[trigger] v2.gtv()[j]) is Some) == v.has_gt(j),
        forall|j: int|
            0 <= j < v.n() && !spatial_full(v, j) ==> (#[trigger] v2.gtv()[j]) == v.gtv()[j],
    ensures
        written2(v2, i, fuel) == written2(v, i, fuel),
        0 <= i < v.n() ==> result_gt(v2, i, fuel) == result_gt(v, i, fuel),
    decreases fuel,
{
    if 0 <= i < v.n() {
        match v.pv()[i] {
            None => {},
            Some(p) => {
                if fuel > 0 {
                    lemma_result_congruent(v, v2, p.id as int, (fuel - 1) as nat);
                } else if 0 <= p.id < v.n() {
                    assert(phase1_gt(v2, p.id as int) == phase1_gt(v, p.id as int));
                }
            },
        }
    }
}

/// Idempotence: running propagation on the world it has just produced leaves
/// every transform value exactly as it was. `v2` is described by the
/// engine's own contract: the world `v` with every transform slot rewritten
/// to its propagated value.
pub proof fn lemma_propagation_idempotent(v: World, v2: World)
    requires
        v.wf(),
        v2.n() == v.n(),
        v2.pv() == v.pv(),
        v2.cv() == v.cv(),
        v2.posv() == v.posv(),
        v2.rotv() == v.rotv(),
        v2.sclv() == v.sclv(),
        forall|j: int|
            #![trigger v2.gtv()[j]]
            0 <= j < v.n() ==> v2.gtv()[j] == if v.has_gt(j) {
                Some(result_gt(v, j, v.n() as nat))
            } else {
                None::<Seq<u32>>
            },
    ensures
        forall|i: int|
            0 <= i < v.n() ==> #[trigger] result_gt(v2, i, v.n() as nat) == result_gt(
                v,
                i,
                v.n() as nat,
            ),
{
    let n = v.n() as nat;
    assert forall|j: int|
        0 <= j < v.n() && !spatial_full(v, j) implies (#[trigger] v2.gtv()[j]) == v.gtv()[j] by {
        if v.has_gt(j) {
            assert(!written2(v, j, n));
            assert(result_gt(v, j, n) == phase1_gt(v, j));
            assert(v.gtv()[j] == Some(v.gtv()[j]->0));
        }
    }
    assert forall|i: int|
        0 <= i < v.n() implies #[trigger] result_gt(v2, i, n) == result_gt(v, i, n) by {
        lemma_result_congruent(v, v2, i, n);
    }
}

/// Concurrency: two propagation runs over the same starting world — one
/// fanned out across a worker pool, one sequential — leave bit-identical
/// transforms, because each pins every slot to the same result value.
/// `w1` and `w2` are described by the two engines' shared contract.
pub proof fn lemma_parallel_matches_sequential(v: World, w1: World, w2: World)
    requires
        forall|i: int|
            #![trigger w1.gtv()[i]]
            0 <= i < v.n() ==> w1.gtv()[i] == if v.has_gt(i) {
                Some(result_gt(v, i, v.n() as nat))
            } else {
                None::<Seq<u32>>
            },
        forall|i: int|
            #![trigger w2.gtv()[i]]
            0 <= i < v.n() ==> w2.gtv()[i] == if v.has_gt(i) {
                Some(result_gt(v, i, v.n() as nat))
            } else {
                None::<Seq<u32>>
            },
    ensures
        forall|i: int| 0 <= i < v.n() ==> #[trigger] w1.gtv()[i] == w2.gtv()[i],
{
}

/// Reparenting: once an entity is detached from one parent and attached
/// under another, propagation computes its transform from the new parent's
/// finalized transform and its own unchanged local data; the former parent
/// contributes nothing, because the result is a function of the current
/// hierarchy alone.
pub proof fn lemma_reparent(v0: World, v1: World, v2: World, c: Entity, b: Entity)
    requires
        v0.wf(),
        v2.wf(),
        c.id < v0.n(),
        // v1 is v0 with c detached: same components, c parentless
        v1.pv().len() == v0.n(),
        v1.posv() == v0.posv(),
        v1.rotv() == v0.rotv(),
        v1.sclv() == v0.sclv(),
        // v2 is v1 with c attached under b: same components, c below b
        v2.posv() == v1.posv(),
        v2.rotv() == v1.rotv(),
        v2.sclv() == v1.sclv(),
        v2.n() == v0.n(),
        v2.pv() == v1.pv().update(c.id as int, Some(b)),
        written2(v2, c.id as int, v2.n() as nat),
    ensures
        own_matrix(v2, c.id as int) == own_matrix(v0, c.id as int),
        v2.pv()[c.id as int] == Some(b),
        result_gt(v2, c.id as int, v2.n() as nat) == mat_product(
            result_gt(v2, b.id as int, v2.n() as nat),
            own_matrix(v0, c.id as int),
        ),
{
    lemma_child_transform(v2, c.id as int);
}

} // verus!
