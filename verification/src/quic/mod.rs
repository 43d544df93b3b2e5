//! QUIC packets, connections and the router for them.

pub mod config;
pub mod connection;
pub mod error;
pub mod frames;
pub mod initial;
pub mod keys;
pub mod laws;
pub mod model;
pub mod packet;
pub mod pending;
pub mod reassembly;
pub mod route;
pub mod router;
pub mod varint;
