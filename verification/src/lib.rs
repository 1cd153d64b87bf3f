//! Persistence of a window's configuration across runs of a program.
//!
//! The library models a window's mode, position and resolution as plain
//! values, encodes them in a canonical JSON document, decodes such documents,
//! and decides when a changed configuration must be written back to disk.
//! Reading and writing the sidecar file itself is left to the caller.

pub mod codec;
pub mod decimal;
pub mod settings;
pub mod watch;
