//! The relay's side of the datagram transport: sessions by remote address
//! and the events that a datagram gives rise to.

pub mod common;
pub mod paper_interface;
pub mod sessions;
