//! The plain-data model of a window's configuration.

use vstd::prelude::*;

verus! {

/// How the window is displayed on screen.
#[derive(Clone, Copy, Debug, PartialEq, Eq, Structural)]
pub enum WindowMode {
    /// An ordinary, movable window.
    Windowed,
    /// A borderless window covering the whole monitor.
    BorderlessFullscreen,
    /// Exclusive fullscreen at the nearest supported video mode.
    SizedFullscreen,
    /// Exclusive fullscreen at the monitor's native video mode.
    Fullscreen,
}

/// Which monitor a centered window is placed on.
#[derive(Clone, Copy, Debug, PartialEq, Eq, Structural)]
pub enum MonitorSelection {
    /// The monitor the window is currently on.
    Current,
    /// The primary monitor.
    Primary,
    /// The monitor with the given index.
    Index(u32),
}

/// Where the window stands on the desktop.
#[derive(Clone, Copy, Debug, PartialEq, Eq, Structural)]
pub enum WindowPosition {
    /// The windowing system picks a position.
    Automatic,
    /// Centered on the selected monitor.
    Centered(MonitorSelection),
    /// The top-left corner stands at the given desktop coordinates.
    At(i32, i32),
}

/// The window's size in pixels.
#[derive(Clone, Copy, Debug, PartialEq, Eq, Structural)]
pub struct WindowResolution {
    pub width: u32,
    pub height: u32,
}

/// Everything about a window that is persisted across runs.
#[derive(Clone, Copy, Debug, PartialEq, Eq, Structural)]
pub struct WindowSettings {
    pub mode: WindowMode,
    pub position: WindowPosition,
    pub resolution: WindowResolution,
}

/// The configuration used when nothing was persisted: an ordinary window,
/// placed by the windowing system, at 1280 by 720 pixels.
pub open spec fn default_settings() -> WindowSettings {
    WindowSettings {
        mode: WindowMode::Windowed,
        position: WindowPosition::Automatic,
        resolution: WindowResolution { width: 1280, height: 720 },
    }
}

impl Default for WindowSettings {
    fn default() -> (s: WindowSettings)
        ensures
            s == default_settings(),
    {
        WindowSettings {
            mode: WindowMode::Windowed,
            position: WindowPosition::Automatic,
            resolution: WindowResolution { width: 1280, height: 720 },
        }
    }
}

} // verus!
