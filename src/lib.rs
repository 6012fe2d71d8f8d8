//! A fan-out relay: authenticated monitors publish messages that every
//! connected client receives.
//!
//! The library holds the relay's decisions: the authentication challenge,
//! the per-peer throttle gate, the write queues of connections, line framing,
//! the broadcast bus and the client and monitor tables. Sockets, TLS and the
//! event loop stay with the program that drives it.

pub mod auth;
pub mod broadcast;
pub mod buffer;
pub mod clients;
pub mod codecs;
pub mod config;
pub mod connections2;
pub mod connections;
pub mod messages;
pub mod monitors;
pub mod table;
pub mod throttle;
pub mod worker;
