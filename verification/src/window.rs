//! The data the windowing layer is configured and reported with. The event
//! loop and the operating-system window live outside this library; these
//! types carry the decisions to them and the resize notifications back.

use vstd::prelude::*;

verus! {

/// The configuration the primary window is created from.
#[derive(Clone, PartialEq, Debug)]
pub struct WindowConfig {
    /// The title of the window.
    pub title: String,
    /// The width of the window, in pixels.
    pub width: u32,
    /// The height of the window, in pixels.
    pub height: u32,
}

impl Default for WindowConfig {
    /// An untitled window of 1280 by 720 pixels.
    fn default() -> (r: WindowConfig)
        ensures
            r.title@ == "App"@,
            r.width == 1280,
            r.height == 720,
    {
        WindowConfig { title: "App".to_string(), width: 1280, height: 720 }
    }
}

/// An event reporting the window's new size.
#[derive(Clone, Copy, PartialEq, Eq, Structural, Debug, Default)]
pub struct WindowResizeEvent {
    /// The new width of the window, in pixels.
    pub width: u32,
    /// The new height of the window, in pixels.
    pub height: u32,
}

/// A marker for the entity carrying the primary window.
#[derive(Clone, Copy, PartialEq, Eq, Structural, Debug, Default)]
pub struct PrimaryWindow;

} // verus!
