//! The reliability layer that sits between the socket and the wire protocol.

pub mod client;
pub mod reliability;
pub mod types;
