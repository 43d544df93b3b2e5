//! Routing of TLS and QUIC clients by the server name they ask for.
//!
//! The library holds the decisions of two routers: one for TLS over TCP and
//! one for QUIC over UDP. It parses ClientHello messages and QUIC packets,
//! matches server names and client addresses against the configured rules and
//! keeps the state of the QUIC connections. Sockets, files and timers belong
//! to the program around it.

pub mod acl;
pub mod addr;
pub mod bytes;
pub mod client_hello;
pub mod config;
pub mod fd_io;
pub mod pattern;
pub mod privs;
pub mod quic;
pub mod rules;
pub mod schema;
pub mod table;
pub mod tcp;
pub mod text;
