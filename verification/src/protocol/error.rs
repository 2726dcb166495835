use vstd::prelude::*;

verus! {

/// What a primitive reader was decoding when the buffer ran out.
#[derive(Debug, Clone, Copy, PartialEq, Eq, Structural)]
pub enum ReadContext {
    I32,
    U64,
    Str,
}

/// Why a byte string is not a packet.
#[derive(Debug, Clone, Copy, PartialEq, Eq, Structural)]
pub enum ProtocolError {
    /// The frame holds no byte at all.
    EmptyPacket,
    /// The first byte is no known opcode.
    UnknownPacketType(u8),
    /// A field needs `need` bytes and only `have` are left.
    NotEnoughBytes { context: ReadContext, need: usize, have: usize },
    /// A string field does not hold UTF-8.
    InvalidUtf8String,
    /// A length prefix is below zero.
    NegativeLength,
}

} // verus!
