//! Core engine of a local task-queue daemon: the authoritative in-memory
//! state, the group-based scheduler with dependency and scheduled-start
//! gating, the request handlers that mutate that state, and the
//! crash-consistent snapshot logic.
//!
//! Everything here is pure logic over plain values. Process spawning,
//! signalling, sockets and files live outside the library; they feed the
//! engine with events (spawn succeeded, child exited) and carry out the
//! actions it decides on.

pub mod task;
pub mod state;
pub mod scheduler;
pub mod persist;
pub mod handlers;
pub mod laws;
pub mod logs;
pub mod auth;
