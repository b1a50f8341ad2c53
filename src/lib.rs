//! A line-oriented notification relay: the wire codec, the per-connection
//! session state machine and the registry that fans notifications out.

pub mod text;
pub mod protocol;
pub mod notifications;
pub mod frames;
pub mod session;
pub mod server;
pub mod client;
pub mod control;
