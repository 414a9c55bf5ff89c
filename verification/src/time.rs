//! Wall-clock tracking: the moment the world started and the moment of the
//! last update.
//!
//! An instant read from the clock depends on when it is read, so nothing is
//! stated about the values; every operation's structure is still verified.

use vstd::prelude::*;

verus! {

/// Declares the standard library's monotonic clock instant, an opaque value.
#[verifier::external_type_specification]
#[verifier::external_body]
pub struct ExInstant(std::time::Instant);

/// Relies on `std::time::Instant::now`: reads the monotonic clock. The result
/// depends on the moment of the call, so nothing is stated about it.
#[verifier::external_body]
fn instant_now() -> std::time::Instant {
    std::time::Instant::now()
}

/// A tracker for the time the world started and the time of the last update.
#[derive(Clone, Copy, Debug)]
pub struct Time {
    /// The moment the tracker was created.
    pub startup: std::time::Instant,
    /// The moment of the most recent update.
    pub last_update: std::time::Instant,
}

impl Time {
    /// Creates a tracker whose startup and last-update moments are both the
    /// moment of the call.
    pub fn new() -> Time {
        let now = instant_now();
        Time { startup: now, last_update: now }
    }

    /// Moves the last-update moment to the moment of the call; the startup
    /// moment is kept.
    pub fn update(&mut self)
        ensures
            final(self).startup == old(self).startup,
    {
        self.last_update = instant_now();
    }
}

/// Spawns the entity that carries the world's time tracker. When the store
/// is already at its capacity limit nothing changes.
pub fn time_spawn_system(w: &mut crate::world::World)
    requires
        old(w).wf(),
    ensures
        final(w).wf(),
        old(w).n() < usize::MAX ==> final(w).n() == old(w).n() + 1 && final(w).tmv()[old(
            w,
        ).n()] is Some,
        old(w).n() == usize::MAX ==> *final(w) == *old(w),
{
    if w.len() == usize::MAX {
        return;
    }
    let e = w.spawn();
    let r = w.insert_time(e, Time::new());
    proof {
        if r is Err {
            assert(false);
        }
    }
}

/// Moves every time tracker's last-update moment to now; nothing else in
/// the world changes, and every tracker's startup moment is kept.
#[verifier::loop_isolation(false)]
pub fn time_update_system(w: &mut crate::world::World)
    requires
        old(w).wf(),
    ensures
        final(w).wf(),
        final(w).n() == old(w).n(),
        crate::world::World::same_hierarchy(*old(w), *final(w)),
        crate::world::World::same_spatial(*old(w), *final(w)),
        final(w).evv() == old(w).evv(),
        forall|i: int|
            #![trigger final(w).tmv()[i]]
            0 <= i < old(w).n() ==> {
                &&& (final(w).tmv()[i] is Some) == (old(w).tmv()[i] is Some)
                &&& (old(w).tmv()[i] is Some ==> final(w).tmv()[i]->0.startup == old(
                    w,
                ).tmv()[i]->0.startup)
            },
{
    let ghost v0 = *old(w);
    let total = w.len();
    let mut i: usize = 0;
    while i < total
        invariant
            i <= total,
            w.wf(),
            w.n() == v0.n(),
            crate::world::World::same_hierarchy(v0, *w),
            crate::world::World::same_spatial(v0, *w),
            w.evv() == v0.evv(),
            forall|j: int|
                #![trigger w.tmv()[j]]
                0 <= j < v0.n() ==> {
                    &&& (w.tmv()[j] is Some) == (v0.tmv()[j] is Some)
                    &&& (v0.tmv()[j] is Some ==> w.tmv()[j]->0.startup == v0.tmv()[j]->0.startup)
                },
        decreases total - i,
    {
        let e = crate::Entity { id: i };
        match w.time(e) {
            None => {},
            Some(t) => {
                let mut t2 = t;
                t2.update();
                let r = w.insert_time(e, t2);
                proof {
                    if r is Err {
                        assert(false);
                    }
                }
            },
        }
        i = i + 1;
    }
}

} // verus!
