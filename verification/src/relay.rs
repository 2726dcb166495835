//! The tenant, room and peer directory, and the router that drives it.

pub mod action;
pub mod apps;
pub mod clients;
pub mod directory;
pub mod handlers;
pub mod rooms;
pub mod server;
