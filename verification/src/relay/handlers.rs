//! What the router does for each kind of packet.

pub mod auth;
pub mod disconnect;
pub mod game_data;
pub mod room;
pub mod shutdown;
