//! A host-inventory library for an SSH/SCP connection manager: a generational
//! slot store with stable integer keys, a group-aware host registry over it,
//! an ICMP Echo Request codec, and the state machine of a host-liveness
//! prober.

pub mod app;
pub mod auth;
pub mod codec;
pub mod config;
pub mod net;
pub mod process;
pub mod server;
pub mod slot;
pub mod text;
