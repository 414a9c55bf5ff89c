//! The entity store: one slot per spawned entity, each slot carrying the
//! optional spatial components, an optional event, an optional time tracker,
//! and its place in the parent-child hierarchy.
//!
//! The hierarchy is kept as a parent reference per entity plus an ordered
//! child list per parent; the sibling accessors (last child, previous and
//! next sibling) read that order. Well-formedness ties the two directions
//! together, keeps child lists duplicate-free, and keeps every parent chain
//! finite, so walks over the hierarchy terminate.

use vstd::prelude::*;

use crate::event::Event;
use crate::time::Time;
use crate::transform::{GlobalTransform, Position, Rotation, Scale};
use crate::Entity;

verus! {

/// Why a world operation was refused.
#[derive(Clone, Copy, PartialEq, Eq, Structural, Debug)]
pub enum WorldError {
    /// The entity does not exist or was despawned.
    NoSuchEntity,
    /// The entity is already attached under the relation.
    AlreadyAttached,
    /// The entity is not attached under the relation.
    NotAttached,
    /// Attaching would make the entity an ancestor of itself.
    WouldCycle,
    /// The entity is still attached or still has children.
    StillLinked,
}

/// The number of steps from an entity to the root of its parent chain:
/// `Some(0)` for an entity without a parent, one more than its parent's
/// depth otherwise, and `None` when `fuel` steps do not reach a root.
pub open spec fn chain_depth(par: Seq<Option<Entity>>, i: int, fuel: nat) -> Option<nat>
    decreases fuel,
{
    if 0 <= i < par.len() {
        match par[i] {
            None => Some(0nat),
            Some(p) => {
                if fuel == 0 {
                    None
                } else {
                    match chain_depth(par, p.id as int, (fuel - 1) as nat) {
                        Some(d) => Some((d + 1) as nat),
                        None => None,
                    }
                }
            },
        }
    } else {
        None
    }
}

/// The entity store.
pub struct World {
    /// Whether each slot currently holds a live entity.
    pub alive: Vec<bool>,
    /// Each entity's local translation, if attached.
    pub position: Vec<Option<Position>>,
    /// Each entity's local orientation, if attached.
    pub rotation: Vec<Option<Rotation>>,
    /// Each entity's local scale, if attached.
    pub scale: Vec<Option<Scale>>,
    /// Each entity's world-space transform, if attached.
    pub global: Vec<Option<GlobalTransform>>,
    /// Each entity's event component, if attached.
    pub event: Vec<Option<Event>>,
    /// Each entity's time tracker, if attached.
    pub time: Vec<Option<Time>>,
    /// Each entity's parent under the tree relation, if attached to one.
    pub parent: Vec<Option<Entity>>,
    /// Each entity's children under the tree relation, in attach order.
    pub children: Vec<Vec<Entity>>,
}

impl World {
    /// The number of slots, live or not.
    pub open spec fn n(self) -> int {
        self.alive@.len() as int
    }

    /// The liveness flags.
    pub open spec fn av(self) -> Seq<bool> {
        self.alive@
    }

    /// The parent references.
    pub open spec fn pv(self) -> Seq<Option<Entity>> {
        self.parent@
    }

    /// The child lists.
    pub open spec fn cv(self) -> Seq<Seq<Entity>> {
        Seq::new(self.children@.len() as nat, |i: int| self.children@[i]@)
    }

    /// The position bits per slot.
    pub open spec fn posv(self) -> Seq<Option<Seq<u32>>> {
        Seq::new(
            self.position@.len() as nat,
            |i: int| match self.position@[i] {
                Some(p) => Some(p@),
                None => None,
            },
        )
    }

    /// The rotation bits per slot.
    pub open spec fn rotv(self) -> Seq<Option<Seq<u32>>> {
        Seq::new(
            self.rotation@.len() as nat,
            |i: int| match self.rotation@[i] {
                Some(r) => Some(r@),
                None => None,
            },
        )
    }

    /// The scale bits per slot.
    pub open spec fn sclv(self) -> Seq<Option<Seq<u32>>> {
        Seq::new(
            self.scale@.len() as nat,
            |i: int| match self.scale@[i] {
                Some(s) => Some(s@),
                None => None,
            },
        )
    }

    /// The world-transform bits per slot.
    pub open spec fn gtv(self) -> Seq<Option<Seq<u32>>> {
        Seq::new(
            self.global@.len() as nat,
            |i: int| match self.global@[i] {
                Some(g) => Some(g@),
                None => None,
            },
        )
    }

    /// The event component per slot.
    pub open spec fn evv(self) -> Seq<Option<Event>> {
        self.event@
    }

    /// The time component per slot.
    pub open spec fn tmv(self) -> Seq<Option<Time>> {
        self.time@
    }

    /// Whether the handle addresses a live entity.
    pub open spec fn is_alive(self, e: Entity) -> bool {
        e.id < self.n() && self.av()[e.id as int]
    }

    /// All component and hierarchy stores cover the same slots.
    pub open spec fn storage_ok(self) -> bool {
        &&& self.position@.len() == self.n()
        &&& self.rotation@.len() == self.n()
        &&& self.scale@.len() == self.n()
        &&& self.global@.len() == self.n()
        &&& self.event@.len() == self.n()
        &&& self.time@.len() == self.n()
        &&& self.parent@.len() == self.n()
        &&& self.children@.len() == self.n()
    }

    /// A despawned slot carries nothing.
    pub open spec fn dead_clear(self) -> bool {
        forall|i: int|
            0 <= i < self.n() && !(#[trigger] self.av()[i]) ==> {
                &&& self.posv()[i] is None
                &&& self.rotv()[i] is None
                &&& self.sclv()[i] is None
                &&& self.gtv()[i] is None
                &&& self.evv()[i] is None
                &&& self.tmv()[i] is None
                &&& self.pv()[i] is None
                &&& self.cv()[i].len() == 0
            }
    }

    /// Every child-list entry is a live entity whose parent reference points
    /// back at the list's owner.
    pub open spec fn child_links_ok(self) -> bool {
        forall|i: int, j: int|
            0 <= i < self.n() && 0 <= j < self.cv()[i].len() ==> {
                &&& (#[trigger] self.cv()[i][j]).id < self.n()
                &&& self.av()[self.cv()[i][j].id as int]
                &&& self.pv()[self.cv()[i][j].id as int] == Some(Entity { id: i as usize })
            }
    }

    /// No child list mentions an entity twice.
    pub open spec fn children_unique(self) -> bool {
        forall|i: int, j1: int, j2: int|
            #![trigger self.cv()[i][j1], self.cv()[i][j2]]
            0 <= i < self.n() && 0 <= j1 < self.cv()[i].len() && 0 <= j2 < self.cv()[i].len()
                && self.cv()[i][j1] == self.cv()[i][j2] ==> j1 == j2
    }

    /// Every parent reference points at a live entity whose child list
    /// mentions the referrer, and only live entities refer to parents.
    pub open spec fn parent_links_ok(self) -> bool {
        forall|i: int|
            0 <= i < self.n() && (#[trigger] self.pv()[i]) is Some ==> {
                &&& self.pv()[i]->0.id < self.n()
                &&& self.av()[i]
                &&& self.av()[self.pv()[i]->0.id as int]
                &&& self.cv()[self.pv()[i]->0.id as int].contains(Entity { id: i as usize })
            }
    }

    /// Every parent chain reaches a root: the hierarchy is acyclic.
    pub open spec fn acyclic(self) -> bool {
        forall|i: int|
            0 <= i < self.n() ==> (#[trigger] chain_depth(self.pv(), i, self.n() as nat)) is Some
    }

    /// The well-formedness every operation preserves.
    pub open spec fn wf(self) -> bool {
        &&& self.storage_ok()
        &&& self.dead_clear()
        &&& self.child_links_ok()
        &&& self.children_unique()
        &&& self.parent_links_ok()
        &&& self.acyclic()
    }

    /// The hierarchy (liveness, parent references, child lists) of two
    /// worlds is the same.
    pub open spec fn same_hierarchy(a: World, b: World) -> bool {
        &&& a.av() == b.av()
        &&& a.pv() == b.pv()
        &&& a.cv() == b.cv()
    }

    /// The spatial components of two worlds are the same.
    pub open spec fn same_spatial(a: World, b: World) -> bool {
        &&& a.posv() == b.posv()
        &&& a.rotv() == b.rotv()
        &&& a.sclv() == b.sclv()
        &&& a.gtv() == b.gtv()
    }

    /// The event and time components of two worlds are the same.
    pub open spec fn same_aux(a: World, b: World) -> bool {
        &&& a.evv() == b.evv()
        &&& a.tmv() == b.tmv()
    }

    /// Creates an empty world.
    pub fn new() -> (w: World)
        ensures
            w.wf(),
            w.n() == 0,
    {
        World {
            alive: Vec::new(),
            position: Vec::new(),
            rotation: Vec::new(),
            scale: Vec::new(),
            global: Vec::new(),
            event: Vec::new(),
            time: Vec::new(),
            parent: Vec::new(),
            children: Vec::new(),
        }
    }

    /// The number of slots, live or not.
    pub fn len(&self) -> (r: usize)
        ensures
            r == self.n(),
    {
        self.alive.len()
    }

    /// Whether the handle addresses a live entity.
    pub fn contains(&self, e: Entity) -> (r: bool)
        ensures
            r == self.is_alive(e),
    {
        e.id < self.alive.len() && self.alive[e.id]
    }

    /// Creates a fresh entity with no components and no place in the
    /// hierarchy.
    pub fn spawn(&mut self) -> (e: Entity)
        requires
            old(self).wf(),
            old(self).n() < usize::MAX,
        ensures
            final(self).wf(),
            e.id == old(self).n(),
            final(self).n() == old(self).n() + 1,
            final(self).av() == old(self).av().push(true),
            final(self).pv() == old(self).pv().push(None),
            final(self).cv() == old(self).cv().push(Seq::<Entity>::empty()),
            final(self).posv() == old(self).posv().push(None),
            final(self).rotv() == old(self).rotv().push(None),
            final(self).sclv() == old(self).sclv().push(None),
            final(self).gtv() == old(self).gtv().push(None),
            final(self).evv() == old(self).evv().push(None),
            final(self).tmv() == old(self).tmv().push(None),
    {
        let id = self.alive.len();
        self.alive.push(true);
        self.position.push(None);
        self.rotation.push(None);
        self.scale.push(None);
        self.global.push(None);
        self.event.push(None);
        self.time.push(None);
        self.parent.push(None);
        self.children.push(Vec::new());
        proof {
            let ov = *old(self);
            let nv = *self;
            assert(nv.cv() =~= ov.cv().push(Seq::<Entity>::empty()));
            assert(nv.posv() =~= ov.posv().push(None));
            assert(nv.rotv() =~= ov.rotv().push(None));
            assert(nv.sclv() =~= ov.sclv().push(None));
            assert(nv.gtv() =~= ov.gtv().push(None));
            lemma_spawn_wf(ov, nv);
        }
        Entity { id }
    }

    /// Destroys a detached, childless entity; its components are dropped.
    /// Fails with [`WorldError::NoSuchEntity`] on a dead handle and with
    /// [`WorldError::StillLinked`] while the entity is attached to a parent
    /// or still has children.
    pub fn despawn(&mut self, e: Entity) -> (r: Result<(), WorldError>)
        requires
            old(self).wf(),
        ensures
            final(self).wf(),
            final(self).n() == old(self).n(),
            match r {
                Ok(()) => {
                    &&& old(self).is_alive(e)
                    &&& old(self).pv()[e.id as int] is None
                    &&& old(self).cv()[e.id as int].len() == 0
                    &&& final(self).av() == old(self).av().update(e.id as int, false)
                    &&& final(self).pv() == old(self).pv()
                    &&& final(self).cv() == old(self).cv()
                    &&& final(self).posv() == old(self).posv().update(e.id as int, None)
                    &&& final(self).rotv() == old(self).rotv().update(e.id as int, None)
                    &&& final(self).sclv() == old(self).sclv().update(e.id as int, None)
                    &&& final(self).gtv() == old(self).gtv().update(e.id as int, None)
                    &&& final(self).evv() == old(self).evv().update(e.id as int, None)
                    &&& final(self).tmv() == old(self).tmv().update(e.id as int, None)
                },
                Err(WorldError::NoSuchEntity) => !old(self).is_alive(e) && *final(self)
                    == *old(self),
                Err(WorldError::StillLinked) => {
                    &&& old(self).is_alive(e)
                    &&& (old(self).pv()[e.id as int] is Some || old(self).cv()[e.id as int].len()
                        > 0)
                    &&& *final(self) == *old(self)
                },
                Err(_) => false,
            },
    {
        if !self.contains(e) {
            return Err(WorldError::NoSuchEntity);
        }
        if self.parent[e.id].is_some() || self.children[e.id].len() > 0 {
            return Err(WorldError::StillLinked);
        }
        self.alive[e.id] = false;
        self.position[e.id] = None;
        self.rotation[e.id] = None;
        self.scale[e.id] = None;
        self.global[e.id] = None;
        self.event[e.id] = None;
        self.time[e.id] = None;
        proof {
            let ov = *old(self);
            let nv = *self;
            assert(nv.cv() =~= ov.cv());
            assert(nv.posv() =~= ov.posv().update(e.id as int, None));
            assert(nv.rotv() =~= ov.rotv().update(e.id as int, None));
            assert(nv.sclv() =~= ov.sclv().update(e.id as int, None));
            assert(nv.gtv() =~= ov.gtv().update(e.id as int, None));
            lemma_despawn_wf(ov, nv, e);
        }
        Ok(())
    }
    /// Whether the entity carries a position.
    pub open spec fn has_pos(self, i: int) -> bool {
        self.posv()[i] is Some
    }

    /// Whether the entity carries a rotation.
    pub open spec fn has_rot(self, i: int) -> bool {
        self.rotv()[i] is Some
    }

    /// Whether the entity carries a scale.
    pub open spec fn has_scl(self, i: int) -> bool {
        self.sclv()[i] is Some
    }

    /// Whether the entity carries a world transform.
    pub open spec fn has_gt(self, i: int) -> bool {
        self.gtv()[i] is Some
    }

    /// Attaches or replaces the entity's position.
    /// Fails with [`WorldError::NoSuchEntity`] on a dead handle.
    pub fn insert_position(&mut self, e: Entity, p: Position) -> (r: Result<(), WorldError>)
        requires
            old(self).wf(),
        ensures
            final(self).wf(),
            match r {
                Ok(()) => {
                    &&& old(self).is_alive(e)
                    &&& World::same_hierarchy(*old(self), *final(self))
                    &&& World::same_aux(*old(self), *final(self))
                    &&& final(self).posv() == old(self).posv().update(e.id as int, Some(p@))
                    &&& final(self).rotv() == old(self).rotv()
                    &&& final(self).sclv() == old(self).sclv()
                    &&& final(self).gtv() == old(self).gtv()
                },
                Err(err) => err == WorldError::NoSuchEntity && !old(self).is_alive(e) && *final(self) == *old(self),
            },
    {
        if !self.contains(e) {
            return Err(WorldError::NoSuchEntity);
        }
        self.position[e.id] = Some(p);
        proof {
            let ov = *old(self);
            let nv = *self;
            assert(nv.posv() =~= ov.posv().update(e.id as int, Some(p@)));
            assert(nv.rotv() =~= ov.rotv());
            assert(nv.sclv() =~= ov.sclv());
            assert(nv.gtv() =~= ov.gtv());
            assert(nv.cv() =~= ov.cv());
        }
        Ok(())
    }

    /// Attaches or replaces the entity's rotation.
    /// Fails with [`WorldError::NoSuchEntity`] on a dead handle.
    pub fn insert_rotation(&mut self, e: Entity, rot: Rotation) -> (r: Result<(), WorldError>)
        requires
            old(self).wf(),
        ensures
            final(self).wf(),
            match r {
                Ok(()) => {
                    &&& old(self).is_alive(e)
                    &&& World::same_hierarchy(*old(self), *final(self))
                    &&& World::same_aux(*old(self), *final(self))
                    &&& final(self).rotv() == old(self).rotv().update(e.id as int, Some(rot@))
                    &&& final(self).posv() == old(self).posv()
                    &&& final(self).sclv() == old(self).sclv()
                    &&& final(self).gtv() == old(self).gtv()
                },
                Err(err) => err == WorldError::NoSuchEntity && !old(self).is_alive(e) && *final(self) == *old(self),
            },
    {
        if !self.contains(e) {
            return Err(WorldError::NoSuchEntity);
        }
        self.rotation[e.id] = Some(rot);
        proof {
            let ov = *old(self);
            let nv = *self;
            assert(nv.rotv() =~= ov.rotv().update(e.id as int, Some(rot@)));
            assert(nv.posv() =~= ov.posv());
            assert(nv.sclv() =~= ov.sclv());
            assert(nv.gtv() =~= ov.gtv());
            assert(nv.cv() =~= ov.cv());
        }
        Ok(())
    }

    /// Attaches or replaces the entity's scale.
    /// Fails with [`WorldError::NoSuchEntity`] on a dead handle.
    pub fn insert_scale(&mut self, e: Entity, s: Scale) -> (r: Result<(), WorldError>)
        requires
            old(self).wf(),
        ensures
            final(self).wf(),
            match r {
                Ok(()) => {
                    &&& old(self).is_alive(e)
                    &&& World::same_hierarchy(*old(self), *final(self))
                    &&& World::same_aux(*old(self), *final(self))
                    &&& final(self).sclv() == old(self).sclv().update(e.id as int, Some(s@))
                    &&& final(self).posv() == old(self).posv()
                    &&& final(self).rotv() == old(self).rotv()
                    &&& final(self).gtv() == old(self).gtv()
                },
                Err(err) => err == WorldError::NoSuchEntity && !old(self).is_alive(e) && *final(self) == *old(self),
            },
    {
        if !self.contains(e) {
            return Err(WorldError::NoSuchEntity);
        }
        self.scale[e.id] = Some(s);
        proof {
            let ov = *old(self);
            let nv = *self;
            assert(nv.sclv() =~= ov.sclv().update(e.id as int, Some(s@)));
            assert(nv.posv() =~= ov.posv());
            assert(nv.rotv() =~= ov.rotv());
            assert(nv.gtv() =~= ov.gtv());
            assert(nv.cv() =~= ov.cv());
        }
        Ok(())
    }

    /// Attaches or replaces the entity's world transform.
    /// Fails with [`WorldError::NoSuchEntity`] on a dead handle.
    pub fn insert_global_transform(&mut self, e: Entity, g: GlobalTransform) -> (r: Result<
        (),
        WorldError,
    >)
        requires
            old(self).wf(),
        ensures
            final(self).wf(),
            match r {
                Ok(()) => {
                    &&& old(self).is_alive(e)
                    &&& World::same_hierarchy(*old(self), *final(self))
                    &&& World::same_aux(*old(self), *final(self))
                    &&& final(self).gtv() == old(self).gtv().update(e.id as int, Some(g@))
                    &&& final(self).posv() == old(self).posv()
                    &&& final(self).rotv() == old(self).rotv()
                    &&& final(self).sclv() == old(self).sclv()
                },
                Err(err) => err == WorldError::NoSuchEntity && !old(self).is_alive(e) && *final(self) == *old(self),
            },
    {
        if !self.contains(e) {
            return Err(WorldError::NoSuchEntity);
        }
        self.global[e.id] = Some(g);
        proof {
            let ov = *old(self);
            let nv = *self;
            assert(nv.gtv() =~= ov.gtv().update(e.id as int, Some(g@)));
            assert(nv.posv() =~= ov.posv());
            assert(nv.rotv() =~= ov.rotv());
            assert(nv.sclv() =~= ov.sclv());
            assert(nv.cv() =~= ov.cv());
        }
        Ok(())
    }

    /// Attaches or replaces the entity's event.
    /// Fails with [`WorldError::NoSuchEntity`] on a dead handle.
    pub fn insert_event(&mut self, e: Entity, ev: Event) -> (r: Result<(), WorldError>)
        requires
            old(self).wf(),
        ensures
            final(self).wf(),
            match r {
                Ok(()) => {
                    &&& old(self).is_alive(e)
                    &&& World::same_hierarchy(*old(self), *final(self))
                    &&& World::same_spatial(*old(self), *final(self))
                    &&& final(self).evv() == old(self).evv().update(e.id as int, Some(ev))
                    &&& final(self).tmv() == old(self).tmv()
                },
                Err(err) => err == WorldError::NoSuchEntity && !old(self).is_alive(e) && *final(self) == *old(self),
            },
    {
        if !self.contains(e) {
            return Err(WorldError::NoSuchEntity);
        }
        self.event[e.id] = Some(ev);
        proof {
            let ov = *old(self);
            let nv = *self;
            assert(nv.posv() =~= ov.posv());
            assert(nv.rotv() =~= ov.rotv());
            assert(nv.sclv() =~= ov.sclv());
            assert(nv.gtv() =~= ov.gtv());
            assert(nv.cv() =~= ov.cv());
        }
        Ok(())
    }

    /// Attaches or replaces the entity's time tracker.
    /// Fails with [`WorldError::NoSuchEntity`] on a dead handle.
    pub fn insert_time(&mut self, e: Entity, t: Time) -> (r: Result<(), WorldError>)
        requires
            old(self).wf(),
        ensures
            final(self).wf(),
            match r {
                Ok(()) => {
                    &&& old(self).is_alive(e)
                    &&& World::same_hierarchy(*old(self), *final(self))
                    &&& World::same_spatial(*old(self), *final(self))
                    &&& final(self).tmv() == old(self).tmv().update(e.id as int, Some(t))
                    &&& final(self).evv() == old(self).evv()
                },
                Err(err) => err == WorldError::NoSuchEntity && !old(self).is_alive(e) && *final(self) == *old(self),
            },
    {
        if !self.contains(e) {
            return Err(WorldError::NoSuchEntity);
        }
        self.time[e.id] = Some(t);
        proof {
            let ov = *old(self);
            let nv = *self;
            assert(nv.posv() =~= ov.posv());
            assert(nv.rotv() =~= ov.rotv());
            assert(nv.sclv() =~= ov.sclv());
            assert(nv.gtv() =~= ov.gtv());
            assert(nv.cv() =~= ov.cv());
        }
        Ok(())
    }

    /// Reads the entity's position; `None` for dead handles and entities
    /// without one.
    pub fn position(&self, e: Entity) -> (r: Option<Position>)
        requires
            self.wf(),
        ensures
            match r {
                Some(p) => self.is_alive(e) && self.posv()[e.id as int] == Some(p@),
                None => !self.is_alive(e) || self.posv()[e.id as int] is None,
            },
    {
        if self.contains(e) {
            self.position[e.id]
        } else {
            None
        }
    }

    /// Reads the entity's rotation; `None` for dead handles and entities
    /// without one.
    pub fn rotation(&self, e: Entity) -> (r: Option<Rotation>)
        requires
            self.wf(),
        ensures
            match r {
                Some(rot) => self.is_alive(e) && self.rotv()[e.id as int] == Some(rot@),
                None => !self.is_alive(e) || self.rotv()[e.id as int] is None,
            },
    {
        if self.contains(e) {
            self.rotation[e.id]
        } else {
            None
        }
    }

    /// Reads the entity's scale; `None` for dead handles and entities
    /// without one.
    pub fn scale(&self, e: Entity) -> (r: Option<Scale>)
        requires
            self.wf(),
        ensures
            match r {
                Some(s) => self.is_alive(e) && self.sclv()[e.id as int] == Some(s@),
                None => !self.is_alive(e) || self.sclv()[e.id as int] is None,
            },
    {
        if self.contains(e) {
            self.scale[e.id]
        } else {
            None
        }
    }

    /// Reads the entity's world transform; `None` for dead handles and
    /// entities without one.
    pub fn global_transform(&self, e: Entity) -> (r: Option<GlobalTransform>)
        requires
            self.wf(),
        ensures
            match r {
                Some(g) => self.is_alive(e) && self.gtv()[e.id as int] == Some(g@),
                None => !self.is_alive(e) || self.gtv()[e.id as int] is None,
            },
    {
        if self.contains(e) {
            self.global[e.id]
        } else {
            None
        }
    }

    /// Reads the entity's event; `None` for dead handles and entities
    /// without one.
    pub fn event(&self, e: Entity) -> (r: Option<Event>)
        requires
            self.wf(),
        ensures
            match r {
                Some(ev) => self.is_alive(e) && self.evv()[e.id as int] == Some(ev),
                None => !self.is_alive(e) || self.evv()[e.id as int] is None,
            },
    {
        if self.contains(e) {
            self.event[e.id]
        } else {
            None
        }
    }

    /// Reads the entity's time tracker; `None` for dead handles and entities
    /// without one.
    pub fn time(&self, e: Entity) -> (r: Option<Time>)
        requires
            self.wf(),
        ensures
            match r {
                Some(t) => self.is_alive(e) && self.tmv()[e.id as int] == Some(t),
                None => !self.is_alive(e) || self.tmv()[e.id as int] is None,
            },
    {
        if self.contains(e) {
            self.time[e.id]
        } else {
            None
        }
    }
}

/// A freshly pushed slot keeps every old chain and adds a root: the world
/// stays well-formed.
proof fn lemma_spawn_wf(ov: World, nv: World)
    requires
        ov.wf(),
        nv.n() == ov.n() + 1,
        nv.av() == ov.av().push(true),
        nv.pv() == ov.pv().push(None),
        nv.cv() == ov.cv().push(Seq::<Entity>::empty()),
        nv.posv() == ov.posv().push(None),
        nv.rotv() == ov.rotv().push(None),
        nv.sclv() == ov.sclv().push(None),
        nv.gtv() == ov.gtv().push(None),
        nv.evv() == ov.evv().push(None),
        nv.tmv() == ov.tmv().push(None),
        nv.storage_ok(),
    ensures
        nv.wf(),
{
    assert forall|i: int|
        0 <= i < nv.n() implies (#[trigger] chain_depth(nv.pv(), i, nv.n() as nat)) is Some by {
        if i < ov.n() {
            lemma_chain_depth_extend(ov.pv(), None, i, ov.n() as nat);
            assert(chain_depth(nv.pv(), i, ov.n() as nat) == chain_depth(
                ov.pv(),
                i,
                ov.n() as nat,
            ));
            lemma_chain_depth_fuel_mono(nv.pv(), i, ov.n() as nat, nv.n() as nat);
        } else {
            assert(nv.pv()[i] is None);
        }
    }
}

/// Clearing the components of a detached, childless entity touches no chain:
/// the world stays well-formed.
proof fn lemma_despawn_wf(ov: World, nv: World, e: Entity)
    requires
        ov.wf(),
        ov.is_alive(e),
        ov.pv()[e.id as int] is None,
        ov.cv()[e.id as int].len() == 0,
        nv.n() == ov.n(),
        nv.av() == ov.av().update(e.id as int, false),
        nv.pv() == ov.pv(),
        nv.cv() == ov.cv(),
        nv.posv() == ov.posv().update(e.id as int, None),
        nv.rotv() == ov.rotv().update(e.id as int, None),
        nv.sclv() == ov.sclv().update(e.id as int, None),
        nv.gtv() == ov.gtv().update(e.id as int, None),
        nv.evv() == ov.evv().update(e.id as int, None),
        nv.tmv() == ov.tmv().update(e.id as int, None),
        nv.storage_ok(),
    ensures
        nv.wf(),
{
    // No child list mentions e: its members' parent references would have to
    // point at e, but e has no children, so nothing refers to it.
    assert forall|i: int, j: int|
        0 <= i < nv.n() && 0 <= j < nv.cv()[i].len() implies {
        &&& (#[trigger] nv.cv()[i][j]).id < nv.n()
        &&& nv.av()[nv.cv()[i][j].id as int]
        &&& nv.pv()[nv.cv()[i][j].id as int] == Some(Entity { id: i as usize })
    } by {
        assert(ov.cv()[i][j].id < ov.n());
        if ov.cv()[i][j].id == e.id {
            assert(ov.pv()[e.id as int] == Some(Entity { id: i as usize }));
            assert(false);
        }
    }
    assert forall|i: int|
        0 <= i < nv.n() && (#[trigger] nv.pv()[i]) is Some implies {
        &&& nv.pv()[i]->0.id < nv.n()
        &&& nv.av()[i]
        &&& nv.av()[nv.pv()[i]->0.id as int]
        &&& nv.cv()[nv.pv()[i]->0.id as int].contains(Entity { id: i as usize })
    } by {
        assert(ov.pv()[i] is Some);
        if i == e.id {
            assert(false);
        }
        if ov.pv()[i]->0.id == e.id {
            let p = ov.pv()[i]->0;
            assert(ov.cv()[p.id as int].contains(Entity { id: i as usize }));
            assert(false);
        }
    }
}

/// More fuel never changes a chain depth that was already found.
pub proof fn lemma_chain_depth_fuel_mono(par: Seq<Option<Entity>>, i: int, f1: nat, f2: nat)
    requires
        f1 <= f2,
        chain_depth(par, i, f1) is Some,
    ensures
        chain_depth(par, i, f2) == chain_depth(par, i, f1),
    decreases f1,
{
    if 0 <= i < par.len() {
        match par[i] {
            None => {},
            Some(p) => {
                lemma_chain_depth_fuel_mono(par, p.id as int, (f1 - 1) as nat, (f2 - 1) as nat);
            },
        }
    }
}

/// Appending a slot does not change the chains of the old slots, provided
/// every old parent reference stays inside the old slots.
proof fn lemma_chain_depth_extend(par: Seq<Option<Entity>>, x: Option<Entity>, i: int, fuel: nat)
    requires
        forall|j: int|
            0 <= j < par.len() && (#[trigger] par[j]) is Some ==> par[j]->0.id < par.len(),
        0 <= i < par.len(),
    ensures
        chain_depth(par.push(x), i, fuel) == chain_depth(par, i, fuel),
    decreases fuel,
{
    assert(par.push(x)[i] == par[i]);
    match par[i] {
        None => {},
        Some(p) => {
            if fuel > 0 {
                lemma_chain_depth_extend(par, x, p.id as int, (fuel - 1) as nat);
            }
        },
    }
}

} // verus!
