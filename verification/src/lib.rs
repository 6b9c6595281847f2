//! Core of a group-chat relay: a central broker that owns room membership
//! and fans chat text out to room members, and a per-connection session
//! state machine that parses the client command protocol and tracks
//! liveness. The transport that carries frames to and from clients lives
//! outside this crate; the broker and session functions here compute, for
//! each inbound event, the next state and the exact outbound messages.

pub mod server;
pub mod session;
pub mod text;
