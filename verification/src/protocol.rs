//! The binary wire protocol: typed packets and their byte encoding.

pub mod error;
pub mod ids;
pub mod packet;
pub mod serialize;
