//! Attach and detach operations on the world's tree relation, the sibling
//! accessors the propagation engine walks, and the proofs that every
//! operation keeps the hierarchy acyclic.

use vstd::prelude::*;

use crate::world::{chain_depth, World, WorldError};
use crate::Entity;

verus! {

/// Whether `a` lies on the parent chain of `i` (including `i` itself),
/// reachable within `fuel` steps.
pub open spec fn in_chain(par: Seq<Option<Entity>>, i: int, a: int, fuel: nat) -> bool
    decreases fuel,
{
    if 0 <= i < par.len() {
        if i == a {
            true
        } else {
            match par[i] {
                None => false,
                Some(p) => fuel > 0 && in_chain(par, p.id as int, a, (fuel - 1) as nat),
            }
        }
    } else {
        false
    }
}

/// The set of slots on the parent chain of `i`, including `i` itself,
/// within `fuel` steps.
pub open spec fn chain_set(par: Seq<Option<Entity>>, i: int, fuel: nat) -> Set<int>
    decreases fuel,
{
    if 0 <= i < par.len() {
        match par[i] {
            None => set![i],
            Some(p) => {
                if fuel == 0 {
                    set![i]
                } else {
                    chain_set(par, p.id as int, (fuel - 1) as nat).insert(i)
                }
            },
        }
    } else {
        Set::empty()
    }
}

/// Two successful depth computations agree, whatever their fuel.
pub proof fn lemma_chain_depth_agree(par: Seq<Option<Entity>>, i: int, f1: nat, f2: nat)
    requires
        chain_depth(par, i, f1) is Some,
        chain_depth(par, i, f2) is Some,
    ensures
        chain_depth(par, i, f1) == chain_depth(par, i, f2),
{
    if f1 <= f2 {
        crate::world::lemma_chain_depth_fuel_mono(par, i, f1, f2);
    } else {
        crate::world::lemma_chain_depth_fuel_mono(par, i, f2, f1);
    }
}

/// A found depth needs no more fuel than its own value.
pub proof fn lemma_chain_depth_min_fuel(par: Seq<Option<Entity>>, i: int, f: nat, f2: nat)
    requires
        chain_depth(par, i, f) is Some,
        f2 >= chain_depth(par, i, f)->0,
    ensures
        chain_depth(par, i, f2) == chain_depth(par, i, f),
    decreases f,
{
    if 0 <= i < par.len() {
        match par[i] {
            None => {},
            Some(p) => {
                lemma_chain_depth_min_fuel(par, p.id as int, (f - 1) as nat, (f2 - 1) as nat);
            },
        }
    }
}

/// One step up the chain lowers the depth by exactly one.
pub proof fn lemma_chain_step(par: Seq<Option<Entity>>, i: int, fuel: nat)
    requires
        0 <= i < par.len(),
        par[i] is Some,
        chain_depth(par, i, fuel) is Some,
    ensures
        fuel > 0,
        chain_depth(par, par[i]->0.id as int, fuel) is Some,
        chain_depth(par, par[i]->0.id as int, fuel)->0 == chain_depth(par, i, fuel)->0 - 1,
{
    let p = par[i]->0;
    crate::world::lemma_chain_depth_fuel_mono(par, p.id as int, (fuel - 1) as nat, fuel);
}

/// Any member of a chain, other than its start, has a strictly smaller
/// depth than the start.
proof fn lemma_chain_member_depth(par: Seq<Option<Entity>>, i: int, j: int, fuel: nat)
    requires
        chain_depth(par, i, fuel) is Some,
        chain_set(par, i, fuel).contains(j),
        j != i,
    ensures
        chain_depth(par, j, fuel) is Some,
        chain_depth(par, j, fuel)->0 < chain_depth(par, i, fuel)->0,
    decreases fuel,
{
    let p = par[i]->0;
    lemma_chain_step(par, i, fuel);
    if j == p.id as int {
        lemma_chain_depth_agree(par, p.id as int, (fuel - 1) as nat, fuel);
    } else {
        lemma_chain_member_depth(par, p.id as int, j, (fuel - 1) as nat);
        crate::world::lemma_chain_depth_fuel_mono(par, j, (fuel - 1) as nat, fuel);
        lemma_chain_depth_agree(par, p.id as int, (fuel - 1) as nat, fuel);
    }
}

/// A chain with a depth visits depth + 1 distinct slots.
proof fn lemma_chain_set_card(par: Seq<Option<Entity>>, i: int, fuel: nat)
    requires
        chain_depth(par, i, fuel) is Some,
    ensures
        chain_set(par, i, fuel).finite(),
        chain_set(par, i, fuel).len() == chain_depth(par, i, fuel)->0 + 1,
        chain_set(par, i, fuel).subset_of(vstd::set_lib::set_int_range(0, par.len() as int)),
    decreases fuel,
{
    vstd::set_lib::lemma_int_range(0, par.len() as int);
    if 0 <= i < par.len() {
        match par[i] {
            None => {},
            Some(p) => {
                lemma_chain_step(par, i, fuel);
                lemma_chain_set_card(par, p.id as int, (fuel - 1) as nat);
                if chain_set(par, p.id as int, (fuel - 1) as nat).contains(i) {
                    if i == p.id as int {
                        lemma_chain_depth_agree(par, i, (fuel - 1) as nat, fuel);
                        assert(false);
                    } else {
                        lemma_chain_member_depth(par, p.id as int, i, (fuel - 1) as nat);
                        lemma_chain_depth_agree(par, p.id as int, (fuel - 1) as nat, fuel);
                        lemma_chain_depth_agree(par, i, (fuel - 1) as nat, fuel);
                        assert(false);
                    }
                }
            },
        }
    }
}

/// A depth the fuel could compute is strictly below the slot count.
pub proof fn lemma_chain_depth_bound(par: Seq<Option<Entity>>, i: int, fuel: nat)
    requires
        chain_depth(par, i, fuel) is Some,
    ensures
        chain_depth(par, i, fuel)->0 < par.len(),
{
    lemma_chain_set_card(par, i, fuel);
    vstd::set_lib::lemma_int_range(0, par.len() as int);
    vstd::set_lib::lemma_len_subset(
        chain_set(par, i, fuel),
        vstd::set_lib::set_int_range(0, par.len() as int),
    );
}

/// Changing the parent reference of a slot that is not on a chain leaves
/// that chain's depth unchanged.
proof fn lemma_chain_depth_update_avoid(
    par: Seq<Option<Entity>>,
    par2: Seq<Option<Entity>>,
    c: int,
    i: int,
    fuel: nat,
)
    requires
        par2.len() == par.len(),
        forall|j: int| 0 <= j < par.len() && j != c ==> par2[j] == par[j],
        !in_chain(par, i, c, fuel),
        0 <= i < par.len(),
    ensures
        chain_depth(par2, i, fuel) == chain_depth(par, i, fuel),
    decreases fuel,
{
    match par[i] {
        None => {},
        Some(p) => {
            if fuel > 0 && 0 <= p.id < par.len() {
                lemma_chain_depth_update_avoid(par, par2, c, p.id as int, (fuel - 1) as nat);
            }
        },
    }
}

/// Fuel for `in_chain` only helps.
pub proof fn lemma_in_chain_fuel_mono(par: Seq<Option<Entity>>, i: int, a: int, f1: nat, f2: nat)
    requires
        f1 <= f2,
        in_chain(par, i, a, f1),
    ensures
        in_chain(par, i, a, f2),
    decreases f1,
{
    if 0 <= i < par.len() && i != a {
        match par[i] {
            None => {},
            Some(p) => {
                lemma_in_chain_fuel_mono(par, p.id as int, a, (f1 - 1) as nat, (f2 - 1) as nat);
            },
        }
    }
}

/// A chain membership fact needs no more fuel than the chain's depth.
pub proof fn lemma_in_chain_depth_fuel(par: Seq<Option<Entity>>, i: int, a: int, f: nat, fd: nat)
    requires
        in_chain(par, i, a, f),
        chain_depth(par, i, fd) is Some,
    ensures
        in_chain(par, i, a, chain_depth(par, i, fd)->0),
    decreases f,
{
    if 0 <= i < par.len() && i != a {
        match par[i] {
            None => {},
            Some(p) => {
                lemma_chain_step(par, i, fd);
                lemma_in_chain_depth_fuel(par, p.id as int, a, (f - 1) as nat, fd);
                let dp = chain_depth(par, p.id as int, fd)->0;
                lemma_in_chain_fuel_mono(par, p.id as int, a, dp, (chain_depth(par, i, fd)->0 - 1) as nat);
            },
        }
    }
}

/// A slot on a chain has a depth no larger than the chain's start; strictly
/// smaller unless it is the start.
pub proof fn lemma_in_chain_depth_le(par: Seq<Option<Entity>>, i: int, a: int, f: nat, n: nat)
    requires
        chain_depth(par, i, n) is Some,
        in_chain(par, i, a, f),
    ensures
        chain_depth(par, a, n) is Some,
        chain_depth(par, a, n)->0 <= chain_depth(par, i, n)->0,
        a != i ==> chain_depth(par, a, n)->0 < chain_depth(par, i, n)->0,
    decreases f,
{
    if i != a {
        let q = par[i]->0;
        lemma_chain_step(par, i, n);
        lemma_in_chain_depth_le(par, q.id as int, a, (f - 1) as nat, n);
    }
}

/// Two slots on one chain lie on a common line: one is on the chain of the
/// other.
pub proof fn lemma_chain_linear(par: Seq<Option<Entity>>, e: int, a: int, b: int, f: nat)
    requires
        in_chain(par, e, a, f),
        in_chain(par, e, b, f),
    ensures
        in_chain(par, a, b, f) || in_chain(par, b, a, f),
    decreases f,
{
    if e == a || e == b {
    } else {
        let q = par[e]->0;
        lemma_chain_linear(par, q.id as int, a, b, (f - 1) as nat);
        if in_chain(par, a, b, (f - 1) as nat) {
            lemma_in_chain_fuel_mono(par, a, b, (f - 1) as nat, f);
        } else {
            lemma_in_chain_fuel_mono(par, b, a, (f - 1) as nat, f);
        }
    }
}

/// Subtrees hanging off two different children of one parent share no slot.
pub proof fn lemma_sibling_subtrees_disjoint(
    par: Seq<Option<Entity>>,
    c1: int,
    c2: int,
    e: int,
    f: nat,
    n: nat,
)
    requires
        0 <= c1 < par.len(),
        0 <= c2 < par.len(),
        c1 != c2,
        par[c1] == par[c2],
        par[c1] is Some,
        chain_depth(par, c1, n) is Some,
        chain_depth(par, c2, n) is Some,
        in_chain(par, e, c1, f),
    ensures
        !in_chain(par, e, c2, f),
{
    if in_chain(par, e, c2, f) {
        let p = par[c1]->0;
        lemma_chain_linear(par, e, c1, c2, f);
        if in_chain(par, c1, c2, f) {
            lemma_chain_step(par, c1, n);
            lemma_chain_step(par, c2, n);
            assert(in_chain(par, p.id as int, c2, (f - 1) as nat));
            lemma_in_chain_depth_le(par, p.id as int, c2, (f - 1) as nat, n);
            assert(false);
        } else {
            lemma_chain_step(par, c1, n);
            lemma_chain_step(par, c2, n);
            assert(in_chain(par, p.id as int, c1, (f - 1) as nat));
            lemma_in_chain_depth_le(par, p.id as int, c1, (f - 1) as nat, n);
            assert(false);
        }
    }
}

/// A chain that reaches a slot other than its start does so through some
/// parent reference naming that slot.
proof fn lemma_chain_members_linked(par: Seq<Option<Entity>>, i: int, a: int, f: nat)
    requires
        in_chain(par, i, a, f),
        a != i,
    ensures
        exists|x: int|
            0 <= x < par.len() && (#[trigger] par[x]) is Some && par[x]->0.id as int == a,
    decreases f,
{
    let q = par[i]->0;
    if q.id as int == a {
        assert(par[i] is Some && par[i]->0.id as int == a);
    } else {
        lemma_chain_members_linked(par, q.id as int, a, (f - 1) as nat);
    }
}

/// Chain membership composes: a slot on the chain of a slot on my chain is
/// on my chain.
pub proof fn lemma_in_chain_trans(
    par: Seq<Option<Entity>>,
    i: int,
    b: int,
    a: int,
    f1: nat,
    f2: nat,
)
    requires
        in_chain(par, i, b, f1),
        in_chain(par, b, a, f2),
    ensures
        in_chain(par, i, a, (f1 + f2) as nat),
    decreases f1,
{
    if i == b {
        lemma_in_chain_fuel_mono(par, b, a, f2, (f1 + f2) as nat);
    } else {
        let q = par[i]->0;
        lemma_in_chain_trans(par, q.id as int, b, a, (f1 - 1) as nat, f2);
    }
}

/// With the slot count as fuel, chain membership at any fuel is available.
pub proof fn lemma_in_chain_to_n(par: Seq<Option<Entity>>, i: int, a: int, f: nat)
    requires
        chain_depth(par, i, par.len() as nat) is Some,
        in_chain(par, i, a, f),
    ensures
        in_chain(par, i, a, par.len() as nat),
{
    let n = par.len() as nat;
    lemma_in_chain_depth_fuel(par, i, a, f, n);
    lemma_chain_depth_bound(par, i, n);
    lemma_in_chain_fuel_mono(par, i, a, chain_depth(par, i, n)->0, n);
}

/// After linking a root `c` below `p`, every slot that used to reach `c`
/// still reaches a root, with generous fuel.
proof fn lemma_chain_depth_relink(
    par: Seq<Option<Entity>>,
    par2: Seq<Option<Entity>>,
    c: int,
    pe: Entity,
    e: int,
    fuel: nat,
)
    requires
        par2 == par.update(c, Some(pe)),
        0 <= c < par.len(),
        pe.id < par.len(),
        par[c] is None,
        !in_chain(par, pe.id as int, c, par.len() as nat),
        chain_depth(par, pe.id as int, par.len() as nat) is Some,
        in_chain(par, e, c, fuel),
    ensures
        chain_depth(
            par2,
            e,
            (fuel + 1 + chain_depth(par, pe.id as int, par.len() as nat)->0) as nat,
        ) is Some,
    decreases fuel,
{
    let n = par.len() as nat;
    let d = chain_depth(par, pe.id as int, n)->0;
    if e == c {
        lemma_chain_depth_update_avoid(par, par2, c, pe.id as int, n);
        lemma_chain_depth_min_fuel(par2, pe.id as int, n, d);
        lemma_chain_depth_min_fuel(par2, pe.id as int, d, (fuel + d) as nat);
    } else {
        let q = par[e]->0;
        lemma_chain_depth_relink(par, par2, c, pe, q.id as int, (fuel - 1) as nat);
    }
}

/// Removing a parent link never loses a chain: every depth that was defined
/// stays defined.
proof fn lemma_chain_depth_unlink(
    par: Seq<Option<Entity>>,
    par2: Seq<Option<Entity>>,
    c: int,
    i: int,
    fuel: nat,
)
    requires
        par2 == par.update(c, None::<Entity>),
        0 <= c < par.len(),
        chain_depth(par, i, fuel) is Some,
    ensures
        chain_depth(par2, i, fuel) is Some,
    decreases fuel,
{
    if 0 <= i < par.len() {
        if i == c {
        } else {
            match par[i] {
                None => {},
                Some(p) => {
                    lemma_chain_depth_unlink(par, par2, c, p.id as int, (fuel - 1) as nat);
                },
            }
        }
    }
}

impl World {
    /// Whether `target` lies on the parent chain that starts at `start`,
    /// `start` itself included.
    #[verifier::loop_isolation(false)]
    pub fn chain_contains(&self, start: Entity, target: Entity) -> (r: bool)
        requires
            self.wf(),
            self.is_alive(start),
        ensures
            r == in_chain(self.pv(), start.id as int, target.id as int, self.n() as nat),
    {
        let ghost n = self.n() as nat;
        let ghost pvv = self.pv();
        let ghost ti = target.id as int;
        let mut cur = start;
        loop
            invariant
                self.is_alive(cur),
                chain_depth(pvv, cur.id as int, n) is Some,
                in_chain(pvv, start.id as int, ti, n) == in_chain(pvv, cur.id as int, ti, n),
            decreases chain_depth(pvv, cur.id as int, n)->0,
        {
            if cur.id == target.id {
                return true;
            }
            match self.parent[cur.id] {
                None => {
                    return false;
                },
                Some(q) => {
                    proof {
                        let ci = cur.id as int;
                        let qi = q.id as int;
                        lemma_chain_step(pvv, ci, n);
                        if in_chain(pvv, ci, ti, n) {
                            lemma_in_chain_fuel_mono(pvv, qi, ti, (n - 1) as nat, n);
                        }
                        if in_chain(pvv, qi, ti, n) {
                            lemma_in_chain_depth_fuel(pvv, qi, ti, n, n);
                            let dq = chain_depth(pvv, qi, n)->0;
                            lemma_chain_depth_bound(pvv, qi, n);
                            lemma_in_chain_fuel_mono(pvv, qi, ti, dq, (n - 1) as nat);
                            assert(in_chain(pvv, ci, ti, n));
                        }
                    }
                    cur = q;
                },
            }
        }
    }

    /// The position of `c` in the child list of `p`; the first position, and
    /// with a well-formed world the only one.
    #[verifier::loop_isolation(false)]
    fn child_index(&self, p: Entity, c: Entity) -> (idx: usize)
        requires
            self.wf(),
            p.id < self.n(),
            self.cv()[p.id as int].contains(c),
        ensures
            idx < self.cv()[p.id as int].len(),
            self.cv()[p.id as int][idx as int] == c,
            forall|k: int| 0 <= k < idx ==> self.cv()[p.id as int][k] != c,
    {
        let list = &self.children[p.id];
        proof {
            assert(list@ == self.cv()[p.id as int]);
        }
        let total = list.len();
        let mut i: usize = 0;
        loop
            invariant
                total == list@.len(),
                i <= list@.len(),
                exists|j: int| i <= j < list@.len() && list@[j] == c,
                forall|k: int| 0 <= k < i ==> list@[k] != c,
            decreases list@.len() - i,
        {
            if list[i].id == c.id {
                return i;
            }
            i = i + 1;
        }
    }

    /// Attaches `child` under `parent`; the new child becomes the parent's
    /// last child. Fails with [`WorldError::NoSuchEntity`] when either
    /// handle is dead, with [`WorldError::AlreadyAttached`] when the child
    /// already has a parent, and with [`WorldError::WouldCycle`] when the
    /// child lies on the parent's own ancestor chain.
    pub fn attach(&mut self, child: Entity, parent: Entity) -> (r: Result<(), WorldError>)
        requires
            old(self).wf(),
        ensures
            final(self).wf(),
            final(self).n() == old(self).n(),
            match r {
                Ok(()) => {
                    &&& old(self).is_alive(child)
                    &&& old(self).is_alive(parent)
                    &&& old(self).pv()[child.id as int] is None
                    &&& !in_chain(
                        old(self).pv(),
                        parent.id as int,
                        child.id as int,
                        old(self).n() as nat,
                    )
                    &&& final(self).av() == old(self).av()
                    &&& final(self).pv() == old(self).pv().update(child.id as int, Some(parent))
                    &&& final(self).cv() == old(self).cv().update(
                        parent.id as int,
                        old(self).cv()[parent.id as int].push(child),
                    )
                    &&& World::same_spatial(*old(self), *final(self))
                    &&& World::same_aux(*old(self), *final(self))
                },
                Err(WorldError::NoSuchEntity) => (!old(self).is_alive(child) || !old(
                    self,
                ).is_alive(parent)) && *final(self) == *old(self),
                Err(WorldError::AlreadyAttached) => old(self).is_alive(child) && old(
                    self,
                ).is_alive(parent) && old(self).pv()[child.id as int] is Some && *final(self)
                    == *old(self),
                Err(WorldError::WouldCycle) => old(self).is_alive(child) && old(self).is_alive(
                    parent,
                ) && old(self).pv()[child.id as int] is None && in_chain(
                    old(self).pv(),
                    parent.id as int,
                    child.id as int,
                    old(self).n() as nat,
                ) && *final(self) == *old(self),
                Err(_) => false,
            },
    {
        if !self.contains(child) || !self.contains(parent) {
            return Err(WorldError::NoSuchEntity);
        }
        if self.parent[child.id].is_some() {
            return Err(WorldError::AlreadyAttached);
        }
        if self.chain_contains(parent, child) {
            return Err(WorldError::WouldCycle);
        }
        self.parent[child.id] = Some(parent);
        self.children[parent.id].push(child);
        proof {
            let ov = *old(self);
            let nv = *self;
            assert(nv.cv() =~= ov.cv().update(
                parent.id as int,
                ov.cv()[parent.id as int].push(child),
            ));
            assert(nv.posv() =~= ov.posv());
            assert(nv.rotv() =~= ov.rotv());
            assert(nv.sclv() =~= ov.sclv());
            assert(nv.gtv() =~= ov.gtv());
            lemma_attach_wf(ov, nv, child, parent);
        }
        Ok(())
    }
    /// Detaches `child` from its parent; the child's own children move with
    /// it. Fails with [`WorldError::NoSuchEntity`] on a dead handle and with
    /// [`WorldError::NotAttached`] when the child has no parent.
    pub fn detach(&mut self, child: Entity) -> (r: Result<(), WorldError>)
        requires
            old(self).wf(),
        ensures
            final(self).wf(),
            final(self).n() == old(self).n(),
            match r {
                Ok(()) => {
                    &&& old(self).is_alive(child)
                    &&& old(self).pv()[child.id as int] is Some
                    &&& final(self).av() == old(self).av()
                    &&& final(self).pv() == old(self).pv().update(
                        child.id as int,
                        None::<Entity>,
                    )
                    &&& final(self).cv() == old(self).cv().update(
                        old(self).pv()[child.id as int]->0.id as int,
                        old(self).cv()[old(self).pv()[child.id as int]->0.id as int].remove_value(
                            child,
                        ),
                    )
                    &&& World::same_spatial(*old(self), *final(self))
                    &&& World::same_aux(*old(self), *final(self))
                },
                Err(WorldError::NoSuchEntity) => !old(self).is_alive(child) && *final(self)
                    == *old(self),
                Err(WorldError::NotAttached) => old(self).is_alive(child) && old(
                    self,
                ).pv()[child.id as int] is None && *final(self) == *old(self),
                Err(_) => false,
            },
    {
        if !self.contains(child) {
            return Err(WorldError::NoSuchEntity);
        }
        let p = match self.parent[child.id] {
            Some(q) => q,
            None => {
                return Err(WorldError::NotAttached);
            },
        };
        let idx = self.child_index(p, child);
        let _removed = self.children[p.id].remove(idx);
        self.parent[child.id] = None;
        proof {
            let ov = *old(self);
            let nv = *self;
            let pi = p.id as int;
            ov.cv()[pi].index_of_first_ensures(child);
            let fi = ov.cv()[pi].index_of_first(child)->0;
            if fi < idx {
                assert(ov.cv()[pi][fi] != child);
                assert(false);
            }
            if idx < fi {
                assert(ov.cv()[pi][idx as int] != child);
                assert(false);
            }
            assert(ov.cv()[pi].remove_value(child) == ov.cv()[pi].remove(idx as int));
            assert(nv.cv() =~= ov.cv().update(pi, ov.cv()[pi].remove(idx as int)));
            assert(nv.posv() =~= ov.posv());
            assert(nv.rotv() =~= ov.rotv());
            assert(nv.sclv() =~= ov.sclv());
            assert(nv.gtv() =~= ov.gtv());
            lemma_detach_wf(ov, nv, child, p, idx as int);
        }
        Ok(())
    }

    /// Whether the entity has at least one child.
    pub fn has_children(&self, e: Entity) -> (r: bool)
        requires
            self.wf(),
        ensures
            r == (e.id < self.n() && self.cv()[e.id as int].len() > 0),
    {
        e.id < self.children.len() && self.children[e.id].len() > 0
    }

    /// Whether the entity is attached to a parent.
    pub fn has_parent(&self, e: Entity) -> (r: bool)
        requires
            self.wf(),
        ensures
            r == (e.id < self.n() && self.pv()[e.id as int] is Some),
    {
        e.id < self.parent.len() && self.parent[e.id].is_some()
    }

    /// The entity's parent, if it is attached to one.
    pub fn parent_of(&self, e: Entity) -> (r: Option<Entity>)
        requires
            self.wf(),
        ensures
            r == if e.id < self.n() {
                self.pv()[e.id as int]
            } else {
                None::<Entity>
            },
    {
        if e.id < self.parent.len() {
            self.parent[e.id]
        } else {
            None
        }
    }

    /// How many children the entity has.
    pub fn num_children(&self, e: Entity) -> (r: usize)
        requires
            self.wf(),
        ensures
            r == if e.id < self.n() {
                self.cv()[e.id as int].len() as int
            } else {
                0
            },
    {
        if e.id < self.children.len() {
            self.children[e.id].len()
        } else {
            0
        }
    }

    /// The entity's children in attach order.
    #[verifier::loop_isolation(false)]
    pub fn children_of(&self, e: Entity) -> (r: Vec<Entity>)
        requires
            self.wf(),
        ensures
            r@ == if e.id < self.n() {
                self.cv()[e.id as int]
            } else {
                Seq::<Entity>::empty()
            },
    {
        let mut r: Vec<Entity> = Vec::new();
        if e.id >= self.children.len() {
            proof {
                assert(r@ =~= Seq::<Entity>::empty());
            }
            return r;
        }
        let list = &self.children[e.id];
        let total = list.len();
        let mut i: usize = 0;
        while i < total
            invariant
                total == list@.len(),
                i <= total,
                r@ == list@.take(i as int),
            decreases total - i,
        {
            r.push(list[i]);
            proof {
                assert(r@ =~= list@.take(i + 1));
            }
            i = i + 1;
        }
        proof {
            assert(list@.take(total as int) =~= list@);
        }
        r
    }

    /// The parent's most recently attached child, the head of the backward
    /// sibling walk.
    pub fn last_child(&self, e: Entity) -> (r: Option<Entity>)
        requires
            self.wf(),
        ensures
            r == if e.id < self.n() && self.cv()[e.id as int].len() > 0 {
                Some(self.cv()[e.id as int].last())
            } else {
                None::<Entity>
            },
    {
        if e.id < self.children.len() && self.children[e.id].len() > 0 {
            Some(self.children[e.id][self.children[e.id].len() - 1])
        } else {
            None
        }
    }

    /// The position of an attached entity in its parent's child list.
    pub open spec fn child_slot(self, c: Entity) -> int
        recommends
            0 <= c.id < self.n(),
            self.pv()[c.id as int] is Some,
    {
        self.cv()[self.pv()[c.id as int]->0.id as int].index_of_first(c)->0
    }

    /// The sibling attached just before `c`, or `None` for the first child
    /// and for entities without a parent.
    pub fn prev_sibling(&self, c: Entity) -> (r: Option<Entity>)
        requires
            self.wf(),
        ensures
            r == if c.id < self.n() && self.pv()[c.id as int] is Some && self.child_slot(c) > 0 {
                Some(
                    self.cv()[self.pv()[c.id as int]->0.id as int][self.child_slot(c) - 1],
                )
            } else {
                None::<Entity>
            },
    {
        if c.id >= self.parent.len() {
            return None;
        }
        let p = match self.parent[c.id] {
            Some(q) => q,
            None => {
                return None;
            },
        };
        let idx = self.child_index(p, c);
        proof {
            self.lemma_child_slot(p, c, idx as int);
        }
        if idx > 0 {
            Some(self.children[p.id][idx - 1])
        } else {
            None
        }
    }

    /// The sibling attached just after `c`, or `None` for the last child and
    /// for entities without a parent.
    pub fn next_sibling(&self, c: Entity) -> (r: Option<Entity>)
        requires
            self.wf(),
        ensures
            r == if c.id < self.n() && self.pv()[c.id as int] is Some && self.child_slot(c) + 1
                < self.cv()[self.pv()[c.id as int]->0.id as int].len() {
                Some(
                    self.cv()[self.pv()[c.id as int]->0.id as int][self.child_slot(c) + 1],
                )
            } else {
                None::<Entity>
            },
    {
        if c.id >= self.parent.len() {
            return None;
        }
        let p = match self.parent[c.id] {
            Some(q) => q,
            None => {
                return None;
            },
        };
        let idx = self.child_index(p, c);
        proof {
            self.lemma_child_slot(p, c, idx as int);
        }
        let len = self.children[p.id].len();
        if idx + 1 < len {
            Some(self.children[p.id][idx + 1])
        } else {
            None
        }
    }

    /// Spawns a fresh entity and attaches it under `parent`; a fresh entity
    /// can never close a cycle, so only a dead parent handle is refused,
    /// with [`WorldError::NoSuchEntity`] and no entity spawned.
    pub fn attach_new(&mut self, parent: Entity) -> (r: Result<Entity, WorldError>)
        requires
            old(self).wf(),
            old(self).n() < usize::MAX,
        ensures
            final(self).wf(),
            match r {
                Ok(e) => {
                    &&& old(self).is_alive(parent)
                    &&& e.id == old(self).n()
                    &&& final(self).n() == old(self).n() + 1
                    &&& final(self).av() == old(self).av().push(true)
                    &&& final(self).pv() == old(self).pv().push(None).update(
                        e.id as int,
                        Some(parent),
                    )
                    &&& final(self).cv() == old(self).cv().push(Seq::<Entity>::empty()).update(
                        parent.id as int,
                        old(self).cv()[parent.id as int].push(e),
                    )
                    &&& final(self).posv() == old(self).posv().push(None)
                    &&& final(self).rotv() == old(self).rotv().push(None)
                    &&& final(self).sclv() == old(self).sclv().push(None)
                    &&& final(self).gtv() == old(self).gtv().push(None)
                    &&& final(self).evv() == old(self).evv().push(None)
                    &&& final(self).tmv() == old(self).tmv().push(None)
                },
                Err(err) => err == WorldError::NoSuchEntity && !old(self).is_alive(parent)
                    && *final(self) == *old(self),
            },
    {
        if !self.contains(parent) {
            return Err(WorldError::NoSuchEntity);
        }
        let ghost v0 = *old(self);
        let e = self.spawn();
        let ghost v1 = *self;
        let res = self.attach(e, parent);
        proof {
            match res {
                Ok(()) => {},
                Err(WorldError::WouldCycle) => {
                    // a fresh entity lies on nobody's chain: every parent
                    // reference in the extended world names an old slot
                    assert(in_chain(v1.pv(), parent.id as int, e.id as int, v1.n() as nat));
                    lemma_chain_members_linked(
                        v1.pv(),
                        parent.id as int,
                        e.id as int,
                        v1.n() as nat,
                    );
                    let x = choose|x: int|
                        0 <= x < v1.pv().len() && (#[trigger] v1.pv()[x]) is Some
                            && v1.pv()[x]->0.id as int == e.id as int;
                    if x == v0.n() {
                        assert(v1.pv()[x] is None);
                    } else {
                        assert(v1.pv()[x] == v0.pv()[x]);
                        assert(v0.pv()[x]->0.id < v0.n());
                    }
                    assert(false);
                },
                Err(_) => {
                    assert(false);
                },
            }
        }
        Ok(e)
    }

    /// Detaches every child of `parent`, last child first, and returns them
    /// in the order they were detached. The children keep their own
    /// subtrees. Fails with [`WorldError::NoSuchEntity`] on a dead handle.
    #[verifier::loop_isolation(false)]
    #[verifier::rlimit(30)]
    pub fn detach_children(&mut self, parent: Entity) -> (r: Result<Vec<Entity>, WorldError>)
        requires
            old(self).wf(),
        ensures
            final(self).wf(),
            final(self).n() == old(self).n(),
            match r {
                Ok(children) => {
                    &&& old(self).is_alive(parent)
                    &&& children@ == old(self).cv()[parent.id as int].reverse()
                    &&& final(self).av() == old(self).av()
                    &&& final(self).cv() == old(self).cv().update(
                        parent.id as int,
                        Seq::<Entity>::empty(),
                    )
                    &&& forall|i: int|
                        0 <= i < old(self).n() ==> final(self).pv()[i] == (if old(
                            self,
                        ).cv()[parent.id as int].contains(Entity { id: i as usize }) {
                            None::<Entity>
                        } else {
                            old(self).pv()[i]
                        })
                    &&& World::same_spatial(*old(self), *final(self))
                    &&& World::same_aux(*old(self), *final(self))
                },
                Err(WorldError::NoSuchEntity) => !old(self).is_alive(parent) && *final(self)
                    == *old(self),
                Err(_) => false,
            },
    {
        if !self.contains(parent) {
            return Err(WorldError::NoSuchEntity);
        }
        let ghost v0 = *old(self);
        let ghost pi = parent.id as int;
        let ghost list = v0.cv()[pi];
        proof {
            vstd::std_specs::vec::axiom_spec_len(&self.alive);
            assert(v0.n() <= usize::MAX as int);
            assert(list.take(list.len() as int) =~= list);
            assert(v0.cv().update(pi, list) =~= v0.cv());
        }
        let mut r: Vec<Entity> = Vec::new();
        let ghost mut m: int = list.len() as int;
        while self.has_children(parent)
            invariant
                self.wf(),
                self.n() == v0.n(),
                0 <= m <= list.len(),
                parent.id < v0.n(),
                self.av() == v0.av(),
                self.cv() == v0.cv().update(pi, list.take(m)),
                r@.len() == list.len() - m,
                forall|k: int| 0 <= k < r@.len() ==> r@[k] == list[list.len() - 1 - k],
                forall|i: int|
                    0 <= i < v0.n() ==> self.pv()[i] == (if (exists|k: int|
                        m <= k < list.len() && list[k] == Entity { id: i as usize }) {
                        None::<Entity>
                    } else {
                        v0.pv()[i]
                    }),
                World::same_spatial(v0, *self),
                World::same_aux(v0, *self),
            decreases m,
        {
            proof {
                assert(self.cv()[pi] == list.take(m));
            }
            let c = self.last_child(parent).unwrap();
            proof {
                assert(m > 0);
                assert(c == list[m - 1]);
            }
            let ghost wpre = *self;
            let res = self.detach(c);
            proof {
                if res is Err {
                    assert(false);
                }
                // the removed child sat at the end of the remaining list
                let sub = list.take(m);
                sub.index_of_first_ensures(c);
                let fi = sub.index_of_first(c)->0;
                assert(sub[m - 1] == c);
                assert(sub.contains(c));
                if fi < m - 1 {
                    assert(sub[fi] == list[fi] && sub[m - 1] == list[m - 1]);
                    assert(v0.cv()[pi][fi] == v0.cv()[pi][m - 1]);
                    assert(false);
                }
                assert(fi == m - 1);
                assert(sub.remove_value(c) == sub.remove(m - 1));
                assert(sub.remove(m - 1) =~= list.take(m - 1));
                assert(self.cv() =~= v0.cv().update(pi, list.take(m - 1)));
                assert forall|i: int|
                    0 <= i < v0.n() implies self.pv()[i] == (if (exists|k: int|
                    m - 1 <= k < list.len() && list[k] == Entity { id: i as usize }) {
                    None::<Entity>
                } else {
                    v0.pv()[i]
                }) by {
                    if i == c.id as int {
                        assert(list[m - 1] == Entity { id: i as usize });
                    } else {
                        if exists|k: int|
                            m - 1 <= k < list.len() && list[k] == (Entity { id: i as usize }) {
                            let k = choose|k: int|
                                m - 1 <= k < list.len() && list[k] == Entity { id: i as usize };
                            assert(k != m - 1);
                            assert(exists|k2: int|
                                m <= k2 < list.len() && list[k2] == Entity { id: i as usize });
                        }
                    }
                }
                m = m - 1;
            }
            r.push(c);
        }
        proof {
            assert(self.cv()[pi] == list.take(m));
            assert(m == 0);
            assert(list.take(0) =~= Seq::<Entity>::empty());
            assert(r@ =~= list.reverse());
            assert forall|i: int|
                0 <= i < v0.n() implies self.pv()[i] == (if v0.cv()[pi].contains(
                Entity { id: i as usize },
            ) {
                None::<Entity>
            } else {
                v0.pv()[i]
            }) by {
                if v0.cv()[pi].contains(Entity { id: i as usize }) {
                    let k = choose|k: int|
                        0 <= k < list.len() && list[k] == Entity { id: i as usize };
                    assert(exists|k2: int|
                        0 <= k2 < list.len() && list[k2] == Entity { id: i as usize });
                }
            }
        }
        Ok(r)
    }

    /// Detaches the entity's children and then the entity itself from its
    /// own parent, leaving it fully unlinked; this is the step before
    /// destroying it. Fails with [`WorldError::NoSuchEntity`] on a dead
    /// handle.
    pub fn detach_all(&mut self, entity: Entity) -> (r: Result<(), WorldError>)
        requires
            old(self).wf(),
        ensures
            final(self).wf(),
            final(self).n() == old(self).n(),
            match r {
                Ok(()) => {
                    &&& old(self).is_alive(entity)
                    &&& final(self).pv()[entity.id as int] is None
                    &&& final(self).cv()[entity.id as int].len() == 0
                    &&& final(self).av() == old(self).av()
                    &&& World::same_spatial(*old(self), *final(self))
                    &&& World::same_aux(*old(self), *final(self))
                },
                Err(WorldError::NoSuchEntity) => !old(self).is_alive(entity) && *final(self)
                    == *old(self),
                Err(_) => false,
            },
    {
        match self.detach_children(entity) {
            Ok(_) => {},
            Err(e) => {
                return Err(e);
            },
        }
        match self.detach(entity) {
            Ok(()) => Ok(()),
            Err(WorldError::NotAttached) => Ok(()),
            Err(_) => Ok(()),
        }
    }

    /// Walks the sibling chain backward, from the parent's last child along
    /// each child's previous sibling: the walk terminates and visits every
    /// child exactly once, in reverse attach order.
    #[verifier::loop_isolation(false)]
    pub fn collect_children_backward(&self, p: Entity) -> (r: Vec<Entity>)
        requires
            self.wf(),
        ensures
            r@ == if p.id < self.n() {
                self.cv()[p.id as int].reverse()
            } else {
                Seq::<Entity>::empty()
            },
    {
        let mut r: Vec<Entity> = Vec::new();
        if p.id >= self.children.len() {
            proof {
                assert(r@ =~= Seq::<Entity>::empty());
            }
            return r;
        }
        let ghost pi = p.id as int;
        let ghost list = self.cv()[pi];
        let mut cur = self.last_child(p);
        let ghost mut idx: int = list.len() - 1;
        while cur.is_some()
            invariant
                -1 <= idx < list.len(),
                cur == if idx >= 0 {
                    Some(list[idx])
                } else {
                    None::<Entity>
                },
                r@.len() == list.len() - 1 - idx,
                forall|k: int| 0 <= k < r@.len() ==> r@[k] == list[list.len() - 1 - k],
            decreases idx + 1,
        {
            let c = cur.unwrap();
            r.push(c);
            proof {
                assert(list[idx] == c);
                assert(self.pv()[c.id as int] == Some(Entity { id: pi as usize }));
                assert(Entity { id: pi as usize } == p);
                assert forall|k: int| 0 <= k < idx implies list[k] != c by {
                    if list[k] == c {
                        assert(self.cv()[pi][k] == self.cv()[pi][idx]);
                    }
                }
                self.lemma_child_slot(p, c, idx);
            }
            cur = self.prev_sibling(c);
            proof {
                idx = idx - 1;
            }
        }
        proof {
            assert(r@ =~= list.reverse());
        }
        r
    }

    /// A found first index is the child's slot.
    pub proof fn lemma_child_slot(self, p: Entity, c: Entity, idx: int)
        requires
            self.wf(),
            0 <= c.id < self.n(),
            self.pv()[c.id as int] == Some(p),
            0 <= idx < self.cv()[p.id as int].len(),
            self.cv()[p.id as int][idx] == c,
            forall|k: int| 0 <= k < idx ==> self.cv()[p.id as int][k] != c,
        ensures
            self.child_slot(c) == idx,
    {
        let pi = p.id as int;
        self.cv()[pi].index_of_first_ensures(c);
        assert(self.cv()[pi].contains(c));
        let fi = self.cv()[pi].index_of_first(c)->0;
        if fi < idx {
            assert(self.cv()[pi][fi] != c);
            assert(false);
        }
        if idx < fi {
            assert(self.cv()[pi][idx] != c);
            assert(false);
        }
    }
}

/// Splicing an entity out of its parent's child list keeps the world
/// well-formed.
proof fn lemma_detach_wf(ov: World, nv: World, child: Entity, p: Entity, idx: int)
    requires
        ov.wf(),
        ov.is_alive(child),
        ov.pv()[child.id as int] == Some(p),
        0 <= idx < ov.cv()[p.id as int].len(),
        ov.cv()[p.id as int][idx] == child,
        nv.n() == ov.n(),
        nv.storage_ok(),
        nv.av() == ov.av(),
        nv.pv() == ov.pv().update(child.id as int, None::<Entity>),
        nv.cv() == ov.cv().update(p.id as int, ov.cv()[p.id as int].remove(idx)),
        nv.posv() == ov.posv(),
        nv.rotv() == ov.rotv(),
        nv.sclv() == ov.sclv(),
        nv.gtv() == ov.gtv(),
        nv.evv() == ov.evv(),
        nv.tmv() == ov.tmv(),
    ensures
        nv.wf(),
{
    let n = ov.n() as nat;
    let ci = child.id as int;
    let pi = p.id as int;
    vstd::std_specs::vec::axiom_spec_len(&ov.alive);
    assert(ov.n() <= usize::MAX as int);
    ov.cv()[pi].remove_ensures(idx);
    // The child sits in exactly one list, at exactly one position.
    assert forall|i: int, j: int|
        0 <= i < ov.n() && 0 <= j < ov.cv()[i].len() && (#[trigger] ov.cv()[i][j])
            == child implies i == pi && j == idx by {
        assert(ov.pv()[ci] == Some(Entity { id: i as usize }));
        assert(Entity { id: i as usize } == p);
        assert(i == pi);
        assert(ov.cv()[pi][j] == ov.cv()[pi][idx]);
    }
    assert forall|i: int, j: int|
        0 <= i < nv.n() && 0 <= j < nv.cv()[i].len() implies {
        &&& (#[trigger] nv.cv()[i][j]).id < nv.n()
        &&& nv.av()[nv.cv()[i][j].id as int]
        &&& nv.pv()[nv.cv()[i][j].id as int] == Some(Entity { id: i as usize })
    } by {
        if i == pi {
            let x = nv.cv()[i][j];
            if j < idx {
                assert(x == ov.cv()[pi][j]);
                assert(x != child);
            } else {
                assert(x == ov.cv()[pi][j + 1]);
                assert(x != child);
            }
        } else {
            assert(nv.cv()[i][j] == ov.cv()[i][j]);
            assert(ov.cv()[i][j] != child);
        }
    }
    assert forall|i: int, j1: int, j2: int|
        0 <= i < nv.n() && 0 <= j1 < nv.cv()[i].len() && 0 <= j2 < nv.cv()[i].len() && (
        #[trigger] nv.cv()[i][j1]) == (#[trigger] nv.cv()[i][j2]) implies j1 == j2 by {
        if i == pi {
            let o1 = if j1 < idx {
                j1
            } else {
                j1 + 1
            };
            let o2 = if j2 < idx {
                j2
            } else {
                j2 + 1
            };
            assert(nv.cv()[i][j1] == ov.cv()[pi][o1]);
            assert(nv.cv()[i][j2] == ov.cv()[pi][o2]);
        }
    }
    assert forall|i: int|
        0 <= i < nv.n() && (#[trigger] nv.pv()[i]) is Some implies {
        &&& nv.pv()[i]->0.id < nv.n()
        &&& nv.av()[i]
        &&& nv.av()[nv.pv()[i]->0.id as int]
        &&& nv.cv()[nv.pv()[i]->0.id as int].contains(Entity { id: i as usize })
    } by {
        assert(i != ci);
        assert(nv.pv()[i] == ov.pv()[i]);
        let r = ov.pv()[i]->0;
        let ent = Entity { id: i as usize };
        assert(ov.cv()[r.id as int].contains(ent));
        let k = choose|k: int| 0 <= k < ov.cv()[r.id as int].len() && ov.cv()[r.id as int][k] == ent;
        if r.id as int == pi {
            assert(ent.id == i as usize && child.id == ci as usize);
            assert(ent != child);
            assert(k != idx);
            if k < idx {
                assert(nv.cv()[pi][k] == ent);
            } else {
                assert(nv.cv()[pi][k - 1] == ent);
            }
            assert(nv.cv()[pi].contains(ent));
        } else {
            assert(nv.cv()[r.id as int][k] == ent);
            assert(nv.cv()[r.id as int].contains(ent));
        }
    }
    assert forall|i: int|
        0 <= i < nv.n() implies (#[trigger] chain_depth(nv.pv(), i, nv.n() as nat)) is Some by {
        lemma_chain_depth_unlink(ov.pv(), nv.pv(), ci, i, n);
    }
}

/// Linking a detached entity below a parent outside its own subtree keeps
/// the world well-formed.
proof fn lemma_attach_wf(ov: World, nv: World, child: Entity, parent: Entity)
    requires
        ov.wf(),
        ov.is_alive(child),
        ov.is_alive(parent),
        ov.pv()[child.id as int] is None,
        !in_chain(ov.pv(), parent.id as int, child.id as int, ov.n() as nat),
        nv.n() == ov.n(),
        nv.storage_ok(),
        nv.av() == ov.av(),
        nv.pv() == ov.pv().update(child.id as int, Some(parent)),
        nv.cv() == ov.cv().update(parent.id as int, ov.cv()[parent.id as int].push(child)),
        nv.posv() == ov.posv(),
        nv.rotv() == ov.rotv(),
        nv.sclv() == ov.sclv(),
        nv.gtv() == ov.gtv(),
        nv.evv() == ov.evv(),
        nv.tmv() == ov.tmv(),
    ensures
        nv.wf(),
{
    let n = ov.n() as nat;
    let ci = child.id as int;
    let pi = parent.id as int;
    // The child was nobody's list entry: an entry's parent reference points
    // at its list owner, and the child had none.
    assert forall|i: int, j: int|
        0 <= i < ov.n() && 0 <= j < ov.cv()[i].len() implies (#[trigger] ov.cv()[i][j]) != child by {
        if ov.cv()[i][j] == child {
            assert(ov.pv()[ci] == Some(Entity { id: i as usize }));
        }
    }
    assert forall|i: int, j: int|
        0 <= i < nv.n() && 0 <= j < nv.cv()[i].len() implies {
        &&& (#[trigger] nv.cv()[i][j]).id < nv.n()
        &&& nv.av()[nv.cv()[i][j].id as int]
        &&& nv.pv()[nv.cv()[i][j].id as int] == Some(Entity { id: i as usize })
    } by {
        if i == pi && j == ov.cv()[pi].len() {
            assert(nv.cv()[i][j] == child);
            assert(parent == Entity { id: pi as usize });
        } else {
            assert(nv.cv()[i][j] == ov.cv()[i][j]);
            assert(ov.cv()[i][j] != child);
        }
    }
    assert forall|i: int|
        0 <= i < nv.n() && (#[trigger] nv.pv()[i]) is Some implies {
        &&& nv.pv()[i]->0.id < nv.n()
        &&& nv.av()[i]
        &&& nv.av()[nv.pv()[i]->0.id as int]
        &&& nv.cv()[nv.pv()[i]->0.id as int].contains(Entity { id: i as usize })
    } by {
        if i == ci {
            assert(nv.cv()[pi][ov.cv()[pi].len() as int] == child);
            assert(nv.cv()[pi].contains(child));
        } else {
            assert(nv.pv()[i] == ov.pv()[i]);
            let r = ov.pv()[i]->0;
            assert(ov.cv()[r.id as int].contains(Entity { id: i as usize }));
            let k = choose|k: int|
                0 <= k < ov.cv()[r.id as int].len() && ov.cv()[r.id as int][k] == Entity {
                    id: i as usize,
                };
            assert(nv.cv()[r.id as int][k] == Entity { id: i as usize });
            assert(nv.cv()[r.id as int].contains(Entity { id: i as usize }));
        }
    }
    assert forall|i: int|
        0 <= i < nv.n() implies (#[trigger] chain_depth(nv.pv(), i, nv.n() as nat)) is Some by {
        if in_chain(ov.pv(), i, ci, n) {
            lemma_chain_depth_relink(ov.pv(), nv.pv(), ci, parent, i, n);
            let big = (n + 1 + chain_depth(ov.pv(), pi, n)->0) as nat;
            lemma_chain_depth_bound(nv.pv(), i, big);
            lemma_chain_depth_min_fuel(nv.pv(), i, big, n);
        } else {
            lemma_chain_depth_update_avoid(ov.pv(), nv.pv(), ci, i, n);
        }
    }
}

} // verus!
