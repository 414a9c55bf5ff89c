//! Events carried by entities, and the cleanup pass that ages them out.

use vstd::prelude::*;

use crate::Entity;

verus! {

/// The lifecycle state of an [`Event`].
#[derive(Clone, Copy, PartialEq, Eq, Structural, Debug)]
pub enum EventStatus {
    /// The event was not handled yet.
    NotHandled,
    /// The event was handled.
    Handled,
    /// The event was consumed and awaits deletion.
    Consumed,
}

impl EventStatus {
    /// The state a fresh event starts in.
    pub fn fresh() -> (s: EventStatus)
        ensures
            s == EventStatus::NotHandled,
    {
        EventStatus::NotHandled
    }

    /// The state the cleanup pass ages this state into.
    pub open spec fn aged_spec(self) -> EventStatus {
        match self {
            EventStatus::NotHandled => EventStatus::Handled,
            EventStatus::Handled => EventStatus::Consumed,
            EventStatus::Consumed => EventStatus::Consumed,
        }
    }
}

/// A component marking an entity as an event.
#[derive(Clone, Copy, PartialEq, Eq, Structural, Debug)]
pub struct Event {
    /// The lifecycle state of the event.
    pub status: EventStatus,
}

impl Event {
    /// A fresh, unhandled event.
    pub fn fresh() -> (ev: Event)
        ensures
            ev.status == EventStatus::NotHandled,
    {
        Event { status: EventStatus::NotHandled }
    }
}

/// Ages every event one step: unhandled events become handled, handled ones
/// become consumed, and consumed events' entities are destroyed, provided
/// they are detached and childless; a consumed event still linked into the
/// hierarchy stays consumed until it is detached.
#[verifier::loop_isolation(false)]
#[verifier::rlimit(30)]
pub fn event_cleanup(w: &mut crate::world::World)
    requires
        old(w).wf(),
    ensures
        final(w).wf(),
        final(w).n() == old(w).n(),
        final(w).pv() == old(w).pv(),
        final(w).cv() == old(w).cv(),
        forall|i: int|
            #![trigger final(w).evv()[i]]
            0 <= i < old(w).n() ==> match old(w).evv()[i] {
                None => {
                    &&& final(w).evv()[i] is None
                    &&& final(w).av()[i] == old(w).av()[i]
                    &&& final(w).posv()[i] == old(w).posv()[i]
                    &&& final(w).rotv()[i] == old(w).rotv()[i]
                    &&& final(w).sclv()[i] == old(w).sclv()[i]
                    &&& final(w).gtv()[i] == old(w).gtv()[i]
                    &&& final(w).tmv()[i] == old(w).tmv()[i]
                },
                Some(ev) => {
                    if ev.status == EventStatus::Consumed && old(w).pv()[i] is None && old(
                        w,
                    ).cv()[i].len() == 0 {
                        &&& !final(w).av()[i]
                        &&& final(w).evv()[i] is None
                    } else {
                        &&& final(w).evv()[i] == Some(Event { status: ev.status.aged_spec() })
                        &&& final(w).av()[i] == old(w).av()[i]
                        &&& final(w).posv()[i] == old(w).posv()[i]
                        &&& final(w).rotv()[i] == old(w).rotv()[i]
                        &&& final(w).sclv()[i] == old(w).sclv()[i]
                        &&& final(w).gtv()[i] == old(w).gtv()[i]
                        &&& final(w).tmv()[i] == old(w).tmv()[i]
                    }
                },
            },
{
    let ghost v0 = *old(w);
    let total = w.len();
    let mut i: usize = 0;
    while i < total
        invariant
            i <= total,
            w.wf(),
            w.n() == v0.n(),
            w.pv() == v0.pv(),
            w.cv() == v0.cv(),
            forall|j: int|
                #![trigger w.evv()[j]]
                0 <= j < i ==> match v0.evv()[j] {
                    None => {
                        &&& w.evv()[j] is None
                        &&& w.av()[j] == v0.av()[j]
                        &&& w.posv()[j] == v0.posv()[j]
                        &&& w.rotv()[j] == v0.rotv()[j]
                        &&& w.sclv()[j] == v0.sclv()[j]
                        &&& w.gtv()[j] == v0.gtv()[j]
                        &&& w.tmv()[j] == v0.tmv()[j]
                    },
                    Some(ev) => {
                        if ev.status == EventStatus::Consumed && v0.pv()[j] is None
                            && v0.cv()[j].len() == 0 {
                            &&& !w.av()[j]
                            &&& w.evv()[j] is None
                        } else {
                            &&& w.evv()[j] == Some(Event { status: ev.status.aged_spec() })
                            &&& w.av()[j] == v0.av()[j]
                            &&& w.posv()[j] == v0.posv()[j]
                            &&& w.rotv()[j] == v0.rotv()[j]
                            &&& w.sclv()[j] == v0.sclv()[j]
                            &&& w.gtv()[j] == v0.gtv()[j]
                            &&& w.tmv()[j] == v0.tmv()[j]
                        }
                    },
                },
            forall|j: int|
                #![trigger w.evv()[j]]
                i <= j < v0.n() ==> {
                    &&& w.evv()[j] == v0.evv()[j]
                    &&& w.av()[j] == v0.av()[j]
                    &&& w.posv()[j] == v0.posv()[j]
                    &&& w.rotv()[j] == v0.rotv()[j]
                    &&& w.sclv()[j] == v0.sclv()[j]
                    &&& w.gtv()[j] == v0.gtv()[j]
                    &&& w.tmv()[j] == v0.tmv()[j]
                },
        decreases total - i,
    {
        let e = Entity { id: i };
        match w.event(e) {
            None => {},
            Some(ev) => {
                match ev.status {
                    EventStatus::NotHandled => {
                        let r = w.insert_event(e, Event { status: EventStatus::Handled });
                        proof {
                            if r is Err {
                                assert(false);
                            }
                        }
                    },
                    EventStatus::Handled => {
                        let r = w.insert_event(e, Event { status: EventStatus::Consumed });
                        proof {
                            if r is Err {
                                assert(false);
                            }
                        }
                    },
                    EventStatus::Consumed => {
                        if !w.has_parent(e) && !w.has_children(e) {
                            let r = w.despawn(e);
                            proof {
                                if r is Err {
                                    assert(false);
                                }
                            }
                        }
                    },
                }
            },
        }
        i = i + 1;
    }
}

/// An event together with its payload, spawned onto one entity.
#[derive(Clone, Copy, PartialEq, Debug)]
pub struct EventBundle<T> {
    /// The event.
    pub event: Event,
    /// The payload.
    pub payload: T,
}

} // verus!
