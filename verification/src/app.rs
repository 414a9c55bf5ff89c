//! The application shell: a world, schedules of systems, plugins that
//! register them, and a runner that drives the frame loop.
//!
//! A system is named by [`SystemId`] and dispatched by [`run_system`]; a
//! plugin is named by [`PluginId`]. The schedules hold names rather than
//! boxed closures so that every dispatch is a call the verifier can follow.

use vstd::prelude::*;

use crate::event::event_cleanup;
use crate::propagate::{insert_transforms, propagate_transforms, result_gt, spatial_full};
use crate::time::{time_spawn_system, time_update_system};
use crate::world::World;

verus! {

/// The systems the library ships.
#[derive(Clone, Copy, PartialEq, Eq, Structural, Debug)]
pub enum SystemId {
    /// The consistency pass completing partial spatial data.
    TransformConsistency,
    /// The two-phase transform propagation.
    TransformPropagation,
    /// The event aging and cleanup pass.
    EventCleanup,
    /// Spawning the time tracker entity.
    TimeSpawn,
    /// Refreshing every time tracker.
    TimeUpdate,
}

/// Runs one system against the world.
pub fn run_system(id: SystemId, w: &mut World)
    requires
        old(w).wf(),
    ensures
        final(w).wf(),
        match id {
            SystemId::TransformConsistency => {
                &&& final(w).n() == old(w).n()
                &&& World::same_hierarchy(*old(w), *final(w))
                &&& World::same_aux(*old(w), *final(w))
                &&& forall|i: int|
                    0 <= i < old(w).n() ==> (#[trigger] spatial_full(*final(w), i)) == (old(
                        w,
                    ).has_pos(i) || old(w).has_rot(i) || old(w).has_scl(i))
            },
            SystemId::TransformPropagation => {
                &&& final(w).n() == old(w).n()
                &&& World::same_hierarchy(*old(w), *final(w))
                &&& World::same_aux(*old(w), *final(w))
                &&& final(w).posv() == old(w).posv()
                &&& final(w).rotv() == old(w).rotv()
                &&& final(w).sclv() == old(w).sclv()
                &&& forall|i: int|
                    #![trigger final(w).gtv()[i]]
                    0 <= i < old(w).n() ==> final(w).gtv()[i] == if old(w).has_gt(i) {
                        Some(result_gt(*old(w), i, old(w).n() as nat))
                    } else {
                        None::<Seq<u32>>
                    }
            },
            SystemId::EventCleanup => {
                &&& final(w).n() == old(w).n()
                &&& final(w).pv() == old(w).pv()
                &&& final(w).cv() == old(w).cv()
                &&& forall|i: int|
                    #![trigger final(w).evv()[i]]
                    0 <= i < old(w).n() ==> match old(w).evv()[i] {
                        None => final(w).evv()[i] is None,
                        Some(ev) => {
                            if ev.status == crate::event::EventStatus::Consumed && old(
                                w,
                            ).pv()[i] is None && old(w).cv()[i].len() == 0 {
                                final(w).evv()[i] is None && !final(w).av()[i]
                            } else {
                                final(w).evv()[i] == Some(
                                    crate::event::Event { status: ev.status.aged_spec() },
                                )
                            }
                        },
                    }
            },
            SystemId::TimeSpawn => {
                &&& final(w).n() >= old(w).n()
                &&& (old(w).n() < usize::MAX ==> final(w).n() == old(w).n() + 1
                    && final(w).tmv()[old(w).n()] is Some)
            },
            SystemId::TimeUpdate => {
                &&& final(w).n() == old(w).n()
                &&& World::same_hierarchy(*old(w), *final(w))
                &&& World::same_spatial(*old(w), *final(w))
            },
        },
{
    match id {
        SystemId::TransformConsistency => {
            insert_transforms(w);
            proof {
                assert forall|i: int|
                    0 <= i < old(w).n() implies (#[trigger] spatial_full(*w, i)) == (old(
                    w,
                ).has_pos(i) || old(w).has_rot(i) || old(w).has_scl(i)) by {
                    assert(w.posv()[i] == if old(w).has_pos(i) {
                        old(w).posv()[i]
                    } else if crate::propagate::needs_pos(*old(w), i) {
                        Some(crate::math::Vec3::zero_spec())
                    } else {
                        None::<Seq<u32>>
                    });
                    assert(w.rotv()[i] == if old(w).has_rot(i) {
                        old(w).rotv()[i]
                    } else if crate::propagate::needs_rot(*old(w), i) {
                        Some(crate::math::Quat::identity_spec())
                    } else {
                        None::<Seq<u32>>
                    });
                    assert(w.sclv()[i] == if old(w).has_scl(i) {
                        old(w).sclv()[i]
                    } else if crate::propagate::needs_scl(*old(w), i) {
                        Some(crate::math::Vec3::one_spec())
                    } else {
                        None::<Seq<u32>>
                    });
                    assert(w.gtv()[i] == if old(w).has_gt(i) {
                        old(w).gtv()[i]
                    } else if crate::propagate::needs_gt(*old(w), i) {
                        Some(crate::math::Mat4::identity_spec())
                    } else {
                        None::<Seq<u32>>
                    });
                }
            }
        },
        SystemId::TransformPropagation => propagate_transforms(w),
        SystemId::EventCleanup => event_cleanup(w),
        SystemId::TimeSpawn => {
            proof {
                vstd::std_specs::vec::axiom_spec_len(&old(w).alive);
            }
            time_spawn_system(w);
        },
        SystemId::TimeUpdate => time_update_system(w),
    }
}

/// The plugins the library ships.
#[derive(Clone, Copy, PartialEq, Eq, Structural, Debug)]
pub enum PluginId {
    /// Registers the consistency pass and the propagation engine.
    Transform,
    /// Registers the event cleanup pass.
    EventCleanup,
    /// Registers the time systems.
    Time,
}

/// A plugin adds functionality to the application.
pub trait Plugin {
    /// Builds the plugin and adds it to the application.
    fn build(&self, app: &mut App)
        requires
            old(app).world.wf(),
        ensures
            final(app).world.wf(),
            final(app).plugins@ == old(app).plugins@,
    ;
}

/// A runner drives the application's schedules.
pub trait ScheduleRunner {
    /// Runs the application.
    fn run_app(&mut self, app: &mut App)
        requires
            old(app).world.wf(),
        ensures
            final(app).world.wf(),
    ;
}

/// The runner used when no other runner is set: it runs the startup
/// schedule once and then a bounded number of frames. An interactive front
/// end supplies its own unbounded runner instead.
#[derive(Clone, Copy, Debug)]
pub struct DefaultRunner {
    /// How many frames to run after startup.
    pub frames: u64,
}

impl Default for DefaultRunner {
    /// A runner that runs the startup schedule and a single frame.
    fn default() -> (r: DefaultRunner)
        ensures
            r.frames == 1,
    {
        DefaultRunner { frames: 1 }
    }
}

/// The main application: the world, the schedules, the plugins and the
/// runner.
pub struct App {
    /// The entity store.
    pub world: World,
    /// Systems run once at startup.
    pub startup: Vec<SystemId>,
    /// Systems run once at startup, before the startup schedule.
    pub direct_startup: Vec<SystemId>,
    /// Systems run before every update.
    pub pre_update: Vec<SystemId>,
    /// Systems run directly before the pre-update schedule.
    pub direct_pre_update: Vec<SystemId>,
    /// Systems run every frame.
    pub update: Vec<SystemId>,
    /// Systems run directly before the update schedule.
    pub direct_update: Vec<SystemId>,
    /// Systems run after every update.
    pub post_update: Vec<SystemId>,
    /// Systems run directly before the post-update schedule.
    pub direct_post_update: Vec<SystemId>,
    /// The runner, if one was set.
    pub runner: Option<DefaultRunner>,
    /// The registered plugins.
    pub plugins: Vec<PluginId>,
}

/// Runs every system of one schedule, in order.
#[verifier::loop_isolation(false)]
pub fn run_schedule(systems: &Vec<SystemId>, w: &mut World)
    requires
        old(w).wf(),
    ensures
        final(w).wf(),
{
    let total = systems.len();
    let mut i: usize = 0;
    while i < total
        invariant
            w.wf(),
        decreases total - i,
    {
        run_system(systems[i], w);
        i = i + 1;
    }
}

impl ScheduleRunner for DefaultRunner {
    /// Runs the startup schedules once, then `frames` frames of the
    /// pre-update, update and post-update schedules.
    fn run_app(&mut self, app: &mut App) {
        run_schedule(&app.direct_startup, &mut app.world);
        run_schedule(&app.startup, &mut app.world);
        let total = self.frames;
        let mut f: u64 = 0;
        while f < total
            invariant
                app.world.wf(),
            decreases total - f,
        {
            run_schedule(&app.direct_pre_update, &mut app.world);
            run_schedule(&app.pre_update, &mut app.world);
            run_schedule(&app.direct_update, &mut app.world);
            run_schedule(&app.update, &mut app.world);
            run_schedule(&app.direct_post_update, &mut app.world);
            run_schedule(&app.post_update, &mut app.world);
            f = f + 1;
        }
    }
}

/// Builds one of the library's plugins into the application.
pub fn build_plugin(id: PluginId, app: &mut App)
    requires
        old(app).world.wf(),
    ensures
        final(app).world.wf(),
        final(app).plugins@ == old(app).plugins@,
{
    match id {
        PluginId::Transform => TransformPlugin.build(app),
        PluginId::EventCleanup => EventCleanupPlugin.build(app),
        PluginId::Time => TimePlugin.build(app),
    }
}

impl App {
    /// Creates an application with an empty world, empty schedules, no
    /// plugins and no runner.
    pub fn new() -> (app: App)
        ensures
            app.world.wf(),
            app.world.n() == 0,
            app.startup@.len() == 0,
            app.direct_startup@.len() == 0,
            app.pre_update@.len() == 0,
            app.direct_pre_update@.len() == 0,
            app.update@.len() == 0,
            app.direct_update@.len() == 0,
            app.post_update@.len() == 0,
            app.direct_post_update@.len() == 0,
            app.runner is None,
            app.plugins@.len() == 0,
    {
        App {
            world: World::new(),
            startup: Vec::new(),
            direct_startup: Vec::new(),
            pre_update: Vec::new(),
            direct_pre_update: Vec::new(),
            update: Vec::new(),
            direct_update: Vec::new(),
            post_update: Vec::new(),
            direct_post_update: Vec::new(),
            runner: None,
            plugins: Vec::new(),
        }
    }

    /// Registers a plugin; it is built when the application runs.
    pub fn add_plugin(&mut self, plugin: PluginId)
        ensures
            final(self).plugins@ == old(self).plugins@.push(plugin),
            final(self).world == old(self).world,
    {
        self.plugins.push(plugin);
    }

    /// Adds a system to the startup schedule.
    pub fn add_startup_system(&mut self, system: SystemId)
        ensures
            final(self).startup@ == old(self).startup@.push(system),
            final(self).world == old(self).world,
            final(self).plugins == old(self).plugins,
    {
        self.startup.push(system);
    }

    /// Adds a system to the pre-update schedule.
    pub fn add_pre_update_system(&mut self, system: SystemId)
        ensures
            final(self).pre_update@ == old(self).pre_update@.push(system),
            final(self).world == old(self).world,
            final(self).plugins == old(self).plugins,
    {
        self.pre_update.push(system);
    }

    /// Adds a system to the update schedule.
    pub fn add_update_system(&mut self, system: SystemId)
        ensures
            final(self).update@ == old(self).update@.push(system),
            final(self).world == old(self).world,
            final(self).plugins == old(self).plugins,
    {
        self.update.push(system);
    }

    /// Adds a system to the post-update schedule.
    pub fn add_post_update_system(&mut self, system: SystemId)
        ensures
            final(self).post_update@ == old(self).post_update@.push(system),
            final(self).world == old(self).world,
            final(self).plugins == old(self).plugins,
    {
        self.post_update.push(system);
    }

    /// Adds a system run directly before the startup schedule.
    pub fn add_direct_startup_system(&mut self, system: SystemId)
        ensures
            final(self).direct_startup@ == old(self).direct_startup@.push(system),
            final(self).world == old(self).world,
            final(self).plugins == old(self).plugins,
    {
        self.direct_startup.push(system);
    }

    /// Adds a system run directly before the pre-update schedule.
    pub fn add_direct_pre_update_system(&mut self, system: SystemId)
        ensures
            final(self).direct_pre_update@ == old(self).direct_pre_update@.push(system),
            final(self).world == old(self).world,
            final(self).plugins == old(self).plugins,
    {
        self.direct_pre_update.push(system);
    }

    /// Adds a system run directly before the update schedule.
    pub fn add_direct_update_system(&mut self, system: SystemId)
        ensures
            final(self).direct_update@ == old(self).direct_update@.push(system),
            final(self).world == old(self).world,
            final(self).plugins == old(self).plugins,
    {
        self.direct_update.push(system);
    }

    /// Adds a system run directly before the post-update schedule.
    pub fn add_direct_post_update_system(&mut self, system: SystemId)
        ensures
            final(self).direct_post_update@ == old(self).direct_post_update@.push(system),
            final(self).world == old(self).world,
            final(self).plugins == old(self).plugins,
    {
        self.direct_post_update.push(system);
    }

    /// Sets the runner that will drive the application.
    pub fn set_runner(&mut self, runner: DefaultRunner)
        ensures
            final(self).runner == Some(runner),
            final(self).world == old(self).world,
            final(self).plugins == old(self).plugins,
    {
        self.runner = Some(runner);
    }

    /// Builds every registered plugin, then hands the application to its
    /// runner; without one, to a default runner.
    #[verifier::loop_isolation(false)]
    pub fn run(&mut self)
        requires
            old(self).world.wf(),
        ensures
            final(self).world.wf(),
    {
        let total = self.plugins.len();
        let mut list: Vec<PluginId> = Vec::new();
        let mut i: usize = 0;
        while i < total
            invariant
                total == self.plugins@.len(),
                i <= total,
                list@ == self.plugins@.take(i as int),
            decreases total - i,
        {
            list.push(self.plugins[i]);
            proof {
                assert(list@ =~= self.plugins@.take(i + 1));
            }
            i = i + 1;
        }
        let mut i: usize = 0;
        while i < total
            invariant
                i <= total,
                total == list@.len(),
                self.world.wf(),
            decreases total - i,
        {
            build_plugin(list[i], self);
            i = i + 1;
        }
        let mut runner = match self.runner.take() {
            Some(r) => r,
            None => DefaultRunner::default(),
        };
        runner.run_app(self);
    }
}

/// Keeps every entity's spatial data complete and its world transform up to
/// date: the consistency pass runs each update, the propagation engine each
/// post-update.
#[derive(Clone, Copy, PartialEq, Eq, Structural, Debug, Default)]
pub struct TransformPlugin;

impl Plugin for TransformPlugin {
    fn build(&self, app: &mut App) {
        app.add_update_system(SystemId::TransformConsistency);
        app.add_post_update_system(SystemId::TransformPropagation);
    }
}

/// Ages events at the end of every frame: unhandled events become handled,
/// handled ones consumed, and consumed ones are deleted.
#[derive(Clone, Copy, PartialEq, Eq, Structural, Debug, Default)]
pub struct EventCleanupPlugin;

impl Plugin for EventCleanupPlugin {
    fn build(&self, app: &mut App) {
        app.add_post_update_system(SystemId::EventCleanup);
    }
}

/// Keeps the time tracker spawned and up to date.
#[derive(Clone, Copy, PartialEq, Eq, Structural, Debug, Default)]
pub struct TimePlugin;

impl Plugin for TimePlugin {
    fn build(&self, app: &mut App) {
        app.add_startup_system(SystemId::TimeSpawn);
        app.add_update_system(SystemId::TimeUpdate);
    }
}

} // verus!
