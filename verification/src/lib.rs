//! Core of a cross-domain StatusNotifierItem proxy.
//!
//! A guest-side agent observes tray icons on the guest session bus and
//! forwards their state over a length-prefixed byte stream; a host-side
//! daemon republishes each forwarded icon on the host session bus and
//! reflects user interaction back.  This crate holds the verified core:
//! the wire codec and framing, the app-id sanitizer, the agent's
//! observation and coalescing engine, the watcher state, and the daemon's
//! republishing state machine.  Bus connections and stream I/O live in the
//! surrounding executables.

pub mod agent;
pub mod codec;
pub mod daemon;
pub mod names;
pub mod observe;
pub mod sanitize;
pub mod watcher;
pub mod wire;
