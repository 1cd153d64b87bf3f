//! Deciding when a window's configuration must be written back to disk, and
//! rebuilding a configuration from what a previous run left there.

use vstd::prelude::*;
use crate::codec::decode_settings;
use crate::codec::encode_settings;
use crate::codec::settings_json;
use crate::settings::WindowMode;
use crate::settings::WindowSettings;
use crate::settings::default_settings;

verus! {

/// Watches the window's configuration and filters redundant writes: a write
/// is due only when the mode changed since the last look, or when the window
/// was moved or resized.
pub struct WindowWatcher {
    /// The mode the window had when it was last looked at.
    pub last_mode: WindowMode,
}

impl WindowWatcher {
    /// A fresh watcher, assuming an ordinary window so far.
    pub fn new() -> (w: WindowWatcher)
        ensures
            w.last_mode == WindowMode::Windowed,
    {
        WindowWatcher { last_mode: WindowMode::Windowed }
    }

    /// Takes one look at the current configuration. Hands back the document
    /// to persist exactly when something changed: the mode differs from the
    /// last look, or a move or resize was reported. Otherwise nothing is
    /// written, and the watcher is unchanged.
    pub fn observe(&mut self, current: &WindowSettings, moved: bool, resized: bool) -> (r: Option<
        Vec<u8>,
    >)
        ensures
            (r is Some) == (old(self).last_mode != current.mode || moved || resized),
            match r {
                Some(doc) => doc@ == settings_json(*current) && final(self).last_mode
                    == current.mode,
                None => *final(self) == *old(self),
            },
    {
        if self.last_mode == current.mode && !moved && !resized {
            return None;
        }
        self.last_mode = current.mode;
        Some(encode_settings(current))
    }
}

impl Default for WindowWatcher {
    fn default() -> (w: WindowWatcher)
        ensures
            w.last_mode == WindowMode::Windowed,
    {
        WindowWatcher { last_mode: WindowMode::Windowed }
    }
}

/// Rebuilds the configuration that a previous run persisted: the settings
/// whose document the sidecar file holds, or the default configuration when
/// there is no file or its bytes encode no settings value.
pub fn restore_settings(contents: Option<&[u8]>) -> (s: WindowSettings)
    ensures
        match contents {
            Some(doc) => {
                &&& forall|v: WindowSettings| doc@ == settings_json(v) ==> s == v
                &&& (forall|v: WindowSettings| doc@ != settings_json(v)) ==> s
                    == default_settings()
            },
            None => s == default_settings(),
        },
{
    match contents {
        Some(doc) => match decode_settings(doc) {
            Some(s) => s,
            None => WindowSettings::default(),
        },
        None => WindowSettings::default(),
    }
}

} // verus!
