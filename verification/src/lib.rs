//! Room-based publish/subscribe relay core.
//!
//! The library tracks which rooms exist, how many subscribers each room has,
//! and delivers published payloads to every live subscriber of a room through
//! per-subscriber mailboxes. It also decodes the inbound client frame
//! protocol and decides, for each client request, how the registry changes
//! and what must be forwarded to the external message bus.

pub mod dispatch;
pub mod protocol;
pub mod registry;
pub mod relay;
pub mod text;
