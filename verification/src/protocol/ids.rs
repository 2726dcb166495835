//! The opcode that opens each kind of packet on the wire. The numbers are
//! part of the protocol and stay as they are.

use vstd::prelude::*;

verus! {

pub const CREATE_ROOM: u8 = 0;
pub const JOIN_ROOM: u8 = 1;
pub const CONNECTED_TO_ROOM: u8 = 2;
pub const GAME_DATA: u8 = 3;
pub const PEER_JOINED: u8 = 4;
pub const PEER_LEFT: u8 = 5;
pub const FORCE_DISCONNECT: u8 = 6;
pub const AUTHENTICATE: u8 = 7;
pub const CLIENT_AUTHENTICATED: u8 = 8;
pub const ERROR_PACKET: u8 = 9;
pub const REQ_ROOMS: u8 = 10;
pub const GET_ROOMS: u8 = 11;
pub const UPDATE_ROOM: u8 = 12;
pub const JOIN_RES: u8 = 13;
pub const PEER_JOIN_ATTEMPT: u8 = 14;

} // verus!
