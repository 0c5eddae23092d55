//! A room-based chat relay: the room registry, the text-frame grammar and the
//! per-session routing step, all verified. Transport and task plumbing live
//! outside this library and drive it through plain values.

pub mod client;
pub mod frame;
pub mod membership;
pub mod registry;
pub mod router;
