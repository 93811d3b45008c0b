//! A protocol-aware reverse proxy core for the Minecraft Java Edition wire
//! protocol: the byte codec, the routing table and the per-connection
//! decision logic that reads a client's handshake and picks a backend.

pub mod config;
pub mod handler;
pub mod io;
