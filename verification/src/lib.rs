//! Capability-oriented filesystem access: every operation is parameterized by
//! an open directory handle plus a relative path, and path resolution —
//! including symlinks and parent components — can never escape the subtree
//! rooted at that handle.
//!
//! The resolution engine is an explicit state machine: it emits one
//! handle-relative OS action at a time (`open`, `stat`, `readlink`) and
//! consumes the outcome as an event, so the decision logic is verified here
//! while the host performs the raw OS calls.

pub mod checker;
pub mod laws;
pub mod model;
pub mod path;
pub mod resolver;
pub mod types;

pub use types::Permissions;
