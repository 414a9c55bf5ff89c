//! The commonly used pieces of the engine, re-exported in one place.

pub use crate::app::{
    App, DefaultRunner, EventCleanupPlugin, Plugin, PluginId, ScheduleRunner, SystemId,
    TimePlugin, TransformPlugin,
};
pub use crate::event::{event_cleanup, Event, EventBundle, EventStatus};
pub use crate::propagate::{insert_transforms, propagate_transforms, propagate_transforms_par};
pub use crate::time::Time;
pub use crate::transform::{GlobalTransform, Position, Rotation, Scale};
pub use crate::window::{PrimaryWindow, WindowConfig, WindowResizeEvent};
pub use crate::world::{World, WorldError};
pub use crate::Entity;
