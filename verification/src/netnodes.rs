//! The `netnodes` networking: stream reassembly, internal messages,
//! datagrams, and the connection handler's decisions.
pub mod client;
pub mod common;
pub mod internal;
pub mod networker;
pub mod stream;
