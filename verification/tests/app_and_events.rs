//! The application shell, the event lifecycle and the time tracker.

use thndr::app::{
    App, DefaultRunner, Plugin, PluginId, SystemId, TimePlugin, TransformPlugin,
};
use thndr::event::{event_cleanup, Event, EventBundle, EventStatus};
use thndr::time::Time;
use thndr::transform::Position;
use thndr::world::World;

fn b(x: f32) -> u32 {
    x.to_bits()
}

#[test]
fn app_runs_registered_plugins() {
    let mut app = App::new();
    app.add_plugin(PluginId::Transform);
    app.add_plugin(PluginId::Time);
    app.add_plugin(PluginId::EventCleanup);
    let e = app.world.spawn();
    app.world.insert_position(e, Position::new(b(2.0), b(4.0), b(6.0))).unwrap();
    app.set_runner(DefaultRunner { frames: 1 });
    app.run();
    // the consistency pass and the propagation ran
    assert!(app.world.scale(e).is_some());
    let m = app.world.global_transform(e).unwrap().0.bits;
    assert_eq!([m[12], m[13], m[14]], [b(2.0), b(4.0), b(6.0)]);
    // the time plugin spawned its tracker
    let mut timers = 0;
    for i in 0..app.world.len() {
        if app.world.time(thndr::Entity { id: i }).is_some() {
            timers += 1;
        }
    }
    assert_eq!(timers, 1);
}

#[test]
fn plugin_build_registers_systems() {
    let mut app = App::new();
    TransformPlugin.build(&mut app);
    assert_eq!(app.update, vec![SystemId::TransformConsistency]);
    assert_eq!(app.post_update, vec![SystemId::TransformPropagation]);
    TimePlugin.build(&mut app);
    assert_eq!(app.startup, vec![SystemId::TimeSpawn]);
}

#[test]
fn schedule_registration_appends() {
    let mut app = App::new();
    app.add_startup_system(SystemId::TimeSpawn);
    app.add_pre_update_system(SystemId::TimeUpdate);
    app.add_update_system(SystemId::TransformConsistency);
    app.add_post_update_system(SystemId::TransformPropagation);
    app.add_direct_startup_system(SystemId::TimeSpawn);
    app.add_direct_pre_update_system(SystemId::TimeUpdate);
    app.add_direct_update_system(SystemId::EventCleanup);
    app.add_direct_post_update_system(SystemId::EventCleanup);
    assert_eq!(app.startup.len(), 1);
    assert_eq!(app.pre_update.len(), 1);
    assert_eq!(app.update.len(), 1);
    assert_eq!(app.post_update.len(), 1);
    assert_eq!(app.direct_startup.len(), 1);
    assert_eq!(app.direct_pre_update.len(), 1);
    assert_eq!(app.direct_update.len(), 1);
    assert_eq!(app.direct_post_update.len(), 1);
}

#[test]
fn events_age_and_are_deleted() {
    let mut w = World::new();
    let e = w.spawn();
    w.insert_event(e, Event::fresh()).unwrap();
    assert_eq!(w.event(e).unwrap().status, EventStatus::NotHandled);
    event_cleanup(&mut w);
    assert_eq!(w.event(e).unwrap().status, EventStatus::Handled);
    event_cleanup(&mut w);
    assert_eq!(w.event(e).unwrap().status, EventStatus::Consumed);
    event_cleanup(&mut w);
    assert!(!w.contains(e), "a consumed event's entity is deleted");
}

#[test]
fn attached_consumed_event_waits() {
    let mut w = World::new();
    let p = w.spawn();
    let e = w.spawn();
    w.attach(e, p).unwrap();
    w.insert_event(e, Event { status: EventStatus::Consumed }).unwrap();
    event_cleanup(&mut w);
    assert!(w.contains(e), "a linked event entity is not deleted");
    assert_eq!(w.event(e).unwrap().status, EventStatus::Consumed);
}

#[test]
fn event_bundle_carries_payload() {
    let bundle = EventBundle { event: Event::fresh(), payload: 42u32 };
    assert_eq!(bundle.payload, 42);
    assert_eq!(bundle.event.status, EventStatus::NotHandled);
}

#[test]
fn window_config_defaults() {
    let cfg = thndr::window::WindowConfig::default();
    assert_eq!(cfg.title, "App");
    assert_eq!(cfg.width, 1280);
    assert_eq!(cfg.height, 720);
    let ev = thndr::window::WindowResizeEvent { width: 640, height: 480 };
    assert_eq!((ev.width, ev.height), (640, 480));
}

#[test]
fn time_tracker_keeps_startup() {
    let mut t = Time::new();
    let startup = t.startup;
    t.update();
    assert_eq!(t.startup, startup);
    assert!(t.last_update >= startup);
}
