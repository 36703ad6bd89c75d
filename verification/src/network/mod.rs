//! The network protocols: the PostgreSQL wire protocol and the framing of the server.
pub mod pgwire;
pub mod server;
