//! Decision core of an on-demand game server proxy.
//!
//! The proxy owns one public UDP port, starts a backend when a QUIC client knocks, relays
//! raw datagrams while somebody is playing, and stops the backend once it is empty.

pub mod address;
pub mod clients;
pub mod config;
pub mod crypto;
pub mod frames;
pub mod hello;
pub mod infra;
pub mod knock;
pub mod phase;
pub mod reader;
pub mod relay;
pub mod retry;
pub mod routes;
pub mod sni;
pub mod state;
pub mod text;
pub mod time;
pub mod writing;
