//! A session relay for multiplayer game clients that cannot reach one
//! another. A host makes a room, others join it by a short code, and the
//! relay passes game data between the peers of a room.
//!
//! The library holds the relay's rules and none of its I/O:
//!
//! * [`protocol`]: the packets and their big-endian byte encoding;
//! * [`transport`]: sequence numbers, retransmission and reordering, the
//!   framing of datagrams, and the client's end of a connection;
//! * [`udp`]: sessions by remote address, their timeouts, and the events
//!   that datagrams give rise to;
//! * [`relay`]: applications, rooms and peers, and the router that takes
//!   events and answers with the actions to carry out;
//! * [`config`]: the settings.
//!
//! Time is a count of milliseconds on a monotonic clock, handed in by the
//! caller, who also owns the socket.

pub mod config;
pub mod protocol;
pub mod relay;
pub mod text;
pub mod transport;
pub mod udp;
