//! The `butteryfly` networking: stream chunks, datagrams, and the server's
//! and client's per-tick decisions.
pub mod client;
pub mod common;
pub mod net_nodes;
pub mod networker;
pub mod server;
