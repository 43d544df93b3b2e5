//! Routing of TLS over TCP.

pub mod config;
pub mod connect;
pub mod handshake;
pub mod hello_reader;
pub mod proxy;
pub mod route;
