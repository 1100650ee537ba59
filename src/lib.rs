//! A Phoenix-style channel server core: wire frames, channel / agent /
//! connection registries, presence and the per-frame protocol decisions.
//!
//! The logic here is verified. The calls into tokio, serde_json, itertools and
//! jsonwebtoken rest on the contracts stated beside them; the runtime,
//! sockets and Redis I/O live in the application crate around it.

pub mod channel;
pub mod control;
pub mod frame;
pub mod handler;
pub mod json;
pub mod mailbox;
pub mod message;
pub mod names;
pub mod presence;
pub mod token;
