//! A tunnel that carries TCP traffic over a reliable, UDP-based transport.
//!
//! The crate holds the tunnel's rules: the length-prefixed framing codec, the
//! pool of multiplexed sessions, address resolution with fallback, and the
//! accept loop's recovery policy. Sockets and tasks live with the caller.

pub mod config;
pub mod dns_resolver;
pub mod error;
pub mod local;
pub mod memory;
pub mod opt;
pub mod plugin;
pub mod pool;
pub mod protocol;
pub mod relay;
pub mod server;
pub mod transport;
pub mod whole;
pub mod wire;
