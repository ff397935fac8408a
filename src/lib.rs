//! Coding-session tracking: heartbeats for named projects are stitched into
//! sessions with a start, a last heartbeat and, once stale, an end.

pub mod config;
pub mod heartbeat;
pub mod laws;
pub mod session;
