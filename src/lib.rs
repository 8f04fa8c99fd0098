//! Control core of a fleet-management service: the presence cache that
//! authenticates agents, the per-agent mailbox of pending commands, the relay
//! that moves commands between processes, and the register/heartbeat protocol
//! that ties them together.

pub mod state;
pub mod presence;
pub mod codec;
pub mod mailbox;
pub mod relay;
pub mod session;
pub mod reconcile;
pub mod config;
