use vstd::prelude::*;
use vstd::slice::{slice_subrange, slice_to_vec};
use crate::protocol::error::ProtocolError;
use crate::protocol::ids::{
    AUTHENTICATE, CLIENT_AUTHENTICATED, CONNECTED_TO_ROOM, CREATE_ROOM, ERROR_PACKET, FORCE_DISCONNECT,
    GAME_DATA, GET_ROOMS, JOIN_RES, JOIN_ROOM, PEER_JOINED, PEER_JOIN_ATTEMPT, PEER_LEFT, REQ_ROOMS,
    UPDATE_ROOM,
};
use crate::protocol::serialize::{
    lemma_read_push_bool, lemma_read_push_i32, lemma_read_push_string, lemma_read_push_u64,
    lemma_read_push_vec_room_info, push_bool, push_i32, push_string, push_u64, push_vec_room_info,
    read_bool, read_i32, read_string, read_u64, read_vec_room_info, room_infos_fit, spec_push_bool,
    spec_push_i32, spec_push_string, spec_push_u64, spec_push_vec_room_info, spec_read_bool,
    spec_read_i32, spec_read_string, spec_read_u64, spec_read_vec_room_info, string_fits,
};

verus! {

/// One entry of a room listing.
#[derive(Debug, Clone, PartialEq, Eq)]
pub struct RoomInfo {
    pub join_code: String,
    pub metadata: String,
}

/// A `RoomInfo` as mathematics sees it.
pub struct RoomInfoView {
    pub join_code: Seq<char>,
    pub metadata: Seq<char>,
}

impl View for RoomInfo {
    type V = RoomInfoView;

    open spec fn view(&self) -> RoomInfoView {
        RoomInfoView { join_code: self.join_code@, metadata: self.metadata@ }
    }
}

/// Every message that travels between a client and the relay.
#[derive(Debug, Clone, PartialEq, Eq)]
pub enum Packet {
    Authenticate { app_id: String, version: String },
    ClientAuthenticated,
    CreateRoom { is_public: bool, metadata: String },
    ReqRooms,
    GetRooms { rooms: Vec<RoomInfo> },
    UpdateRoom { room_id: String, metadata: String },
    ReqJoin { room_id: String, metadata: String },
    JoinRes { target_id: u64, room_id: String, allowed: bool },
    ConnectedToRoom { room_id: String, peer_id: i32 },
    PeerJoinAttempt { target_id: u64, metadata: String },
    PeerJoinedRoom { peer_id: i32 },
    PeerLeftRoom { peer_id: i32 },
    GameData { from_peer: i32, data: Vec<u8> },
    ForceDisconnect,
    Error { error_code: i32, error_message: String },
}

/// A `Packet` as mathematics sees it: strings are sequences of characters,
/// the payload a sequence of bytes.
pub enum PacketView {
    Authenticate { app_id: Seq<char>, version: Seq<char> },
    ClientAuthenticated,
    CreateRoom { is_public: bool, metadata: Seq<char> },
    ReqRooms,
    GetRooms { rooms: Seq<RoomInfoView> },
    UpdateRoom { room_id: Seq<char>, metadata: Seq<char> },
    ReqJoin { room_id: Seq<char>, metadata: Seq<char> },
    JoinRes { target_id: u64, room_id: Seq<char>, allowed: bool },
    ConnectedToRoom { room_id: Seq<char>, peer_id: i32 },
    PeerJoinAttempt { target_id: u64, metadata: Seq<char> },
    PeerJoinedRoom { peer_id: i32 },
    PeerLeftRoom { peer_id: i32 },
    GameData { from_peer: i32, data: Seq<u8> },
    ForceDisconnect,
    Error { error_code: i32, error_message: Seq<char> },
}

impl View for Packet {
    type V = PacketView;

    open spec fn view(&self) -> PacketView {
        match self {
            Packet::Authenticate { app_id, version } => PacketView::Authenticate {
                app_id: app_id@,
                version: version@,
            },
            Packet::ClientAuthenticated => PacketView::ClientAuthenticated,
            Packet::CreateRoom { is_public, metadata } => PacketView::CreateRoom {
                is_public: *is_public,
                metadata: metadata@,
            },
            Packet::ReqRooms => PacketView::ReqRooms,
            Packet::GetRooms { rooms } => PacketView::GetRooms {
                rooms: rooms@.map_values(|r: RoomInfo| r@),
            },
            Packet::UpdateRoom { room_id, metadata } => PacketView::UpdateRoom {
                room_id: room_id@,
                metadata: metadata@,
            },
            Packet::ReqJoin { room_id, metadata } => PacketView::ReqJoin {
                room_id: room_id@,
                metadata: metadata@,
            },
            Packet::JoinRes { target_id, room_id, allowed } => PacketView::JoinRes {
                target_id: *target_id,
                room_id: room_id@,
                allowed: *allowed,
            },
            Packet::ConnectedToRoom { room_id, peer_id } => PacketView::ConnectedToRoom {
                room_id: room_id@,
                peer_id: *peer_id,
            },
            Packet::PeerJoinAttempt { target_id, metadata } => PacketView::PeerJoinAttempt {
                target_id: *target_id,
                metadata: metadata@,
            },
            Packet::PeerJoinedRoom { peer_id } => PacketView::PeerJoinedRoom { peer_id: *peer_id },
            Packet::PeerLeftRoom { peer_id } => PacketView::PeerLeftRoom { peer_id: *peer_id },
            Packet::GameData { from_peer, data } => PacketView::GameData {
                from_peer: *from_peer,
                data: data@,
            },
            Packet::ForceDisconnect => PacketView::ForceDisconnect,
            Packet::Error { error_code, error_message } => PacketView::Error {
                error_code: *error_code,
                error_message: error_message@,
            },
        }
    }
}

/// The opcode that opens the frame of `p`.
pub open spec fn spec_opcode(p: PacketView) -> u8 {
    match p {
        PacketView::Authenticate { .. } => AUTHENTICATE,
        PacketView::ClientAuthenticated => CLIENT_AUTHENTICATED,
        PacketView::CreateRoom { .. } => CREATE_ROOM,
        PacketView::ReqRooms => REQ_ROOMS,
        PacketView::GetRooms { .. } => GET_ROOMS,
        PacketView::UpdateRoom { .. } => UPDATE_ROOM,
        PacketView::ReqJoin { .. } => JOIN_ROOM,
        PacketView::JoinRes { .. } => JOIN_RES,
        PacketView::ConnectedToRoom { .. } => CONNECTED_TO_ROOM,
        PacketView::PeerJoinAttempt { .. } => PEER_JOIN_ATTEMPT,
        PacketView::PeerJoinedRoom { .. } => PEER_JOINED,
        PacketView::PeerLeftRoom { .. } => PEER_LEFT,
        PacketView::GameData { .. } => GAME_DATA,
        PacketView::ForceDisconnect => FORCE_DISCONNECT,
        PacketView::Error { .. } => ERROR_PACKET,
    }
}

/// The fields of `p` as they follow the opcode.
pub open spec fn spec_encode_fields(p: PacketView) -> Seq<u8> {
    match p {
        PacketView::Authenticate { app_id, version } => spec_push_string(app_id) + spec_push_string(
            version,
        ),
        PacketView::ClientAuthenticated => Seq::empty(),
        PacketView::CreateRoom { is_public, metadata } => spec_push_bool(is_public) + spec_push_string(
            metadata,
        ),
        PacketView::ReqRooms => Seq::empty(),
        PacketView::GetRooms { rooms } => spec_push_vec_room_info(rooms),
        PacketView::UpdateRoom { room_id, metadata } => spec_push_string(room_id) + spec_push_string(
            metadata,
        ),
        PacketView::ReqJoin { room_id, metadata } => spec_push_string(room_id) + spec_push_string(
            metadata,
        ),
        PacketView::JoinRes { target_id, room_id, allowed } => spec_push_u64(target_id)
            + spec_push_string(room_id) + spec_push_bool(allowed),
        PacketView::ConnectedToRoom { room_id, peer_id } => spec_push_string(room_id) + spec_push_i32(
            peer_id,
        ),
        PacketView::PeerJoinAttempt { target_id, metadata } => spec_push_u64(target_id)
            + spec_push_string(metadata),
        PacketView::PeerJoinedRoom { peer_id } => spec_push_i32(peer_id),
        PacketView::PeerLeftRoom { peer_id } => spec_push_i32(peer_id),
        PacketView::GameData { from_peer, data } => spec_push_i32(from_peer) + data,
        PacketView::ForceDisconnect => Seq::empty(),
        PacketView::Error { error_code, error_message } => spec_push_i32(error_code) + spec_push_string(
            error_message,
        ),
    }
}

/// The frame of `p`: its opcode, then its fields.
pub open spec fn spec_encode(p: PacketView) -> Seq<u8> {
    seq![spec_opcode(p)] + spec_encode_fields(p)
}

/// Two strings, one after the other; what follows them is left aside.
pub open spec fn spec_read_two_strings(b: Seq<u8>) -> Result<(Seq<char>, Seq<char>), ProtocolError> {
    match spec_read_string(b) {
        Err(e) => Err(e),
        Ok((first, rest)) => match spec_read_string(rest) {
            Err(e) => Err(e),
            Ok((second, _)) => Ok((first, second)),
        },
    }
}

/// The packet that the fields `rest` spell under the opcode `op`. Bytes that
/// follow the last field are left aside.
pub open spec fn spec_decode_fields(op: u8, rest: Seq<u8>) -> Result<PacketView, ProtocolError> {
    if op == AUTHENTICATE {
        match spec_read_two_strings(rest) {
            Err(e) => Err(e),
            Ok((app_id, version)) => Ok(PacketView::Authenticate { app_id, version }),
        }
    } else if op == CLIENT_AUTHENTICATED {
        Ok(PacketView::ClientAuthenticated)
    } else if op == CREATE_ROOM {
        match spec_read_bool(rest) {
            Err(e) => Err(e),
            Ok((is_public, r)) => match spec_read_string(r) {
                Err(e) => Err(e),
                Ok((metadata, _)) => Ok(PacketView::CreateRoom { is_public, metadata }),
            },
        }
    } else if op == JOIN_ROOM {
        match spec_read_two_strings(rest) {
            Err(e) => Err(e),
            Ok((room_id, metadata)) => Ok(PacketView::ReqJoin { room_id, metadata }),
        }
    } else if op == CONNECTED_TO_ROOM {
        match spec_read_string(rest) {
            Err(e) => Err(e),
            Ok((room_id, r)) => match spec_read_i32(r) {
                Err(e) => Err(e),
                Ok((peer_id, _)) => Ok(PacketView::ConnectedToRoom { room_id, peer_id }),
            },
        }
    } else if op == PEER_JOIN_ATTEMPT {
        match spec_read_u64(rest) {
            Err(e) => Err(e),
            Ok((target_id, r)) => match spec_read_string(r) {
                Err(e) => Err(e),
                Ok((metadata, _)) => Ok(PacketView::PeerJoinAttempt { target_id, metadata }),
            },
        }
    } else if op == PEER_JOINED {
        match spec_read_i32(rest) {
            Err(e) => Err(e),
            Ok((peer_id, _)) => Ok(PacketView::PeerJoinedRoom { peer_id }),
        }
    } else if op == PEER_LEFT {
        match spec_read_i32(rest) {
            Err(e) => Err(e),
            Ok((peer_id, _)) => Ok(PacketView::PeerLeftRoom { peer_id }),
        }
    } else if op == GAME_DATA {
        match spec_read_i32(rest) {
            Err(e) => Err(e),
            Ok((from_peer, data)) => Ok(PacketView::GameData { from_peer, data }),
        }
    } else if op == FORCE_DISCONNECT {
        Ok(PacketView::ForceDisconnect)
    } else if op == ERROR_PACKET {
        match spec_read_i32(rest) {
            Err(e) => Err(e),
            Ok((error_code, r)) => match spec_read_string(r) {
                Err(e) => Err(e),
                Ok((error_message, _)) => Ok(PacketView::Error { error_code, error_message }),
            },
        }
    } else if op == REQ_ROOMS {
        Ok(PacketView::ReqRooms)
    } else if op == GET_ROOMS {
        match spec_read_vec_room_info(rest) {
            Err(e) => Err(e),
            Ok((rooms, _)) => Ok(PacketView::GetRooms { rooms }),
        }
    } else if op == UPDATE_ROOM {
        match spec_read_two_strings(rest) {
            Err(e) => Err(e),
            Ok((room_id, metadata)) => Ok(PacketView::UpdateRoom { room_id, metadata }),
        }
    } else if op == JOIN_RES {
        match spec_read_u64(rest) {
            Err(e) => Err(e),
            Ok((target_id, r)) => match spec_read_string(r) {
                Err(e) => Err(e),
                Ok((room_id, r2)) => match spec_read_bool(r2) {
                    Err(e) => Err(e),
                    Ok((allowed, _)) => Ok(PacketView::JoinRes { target_id, room_id, allowed }),
                },
            },
        }
    } else {
        Err(ProtocolError::UnknownPacketType(op))
    }
}

/// The packet that the frame `b` spells, or why it spells none.
pub open spec fn spec_decode(b: Seq<u8>) -> Result<PacketView, ProtocolError> {
    if b.len() == 0 {
        Err(ProtocolError::EmptyPacket)
    } else {
        spec_decode_fields(b[0], b.subrange(1, b.len() as int))
    }
}

/// Whether every length prefix of `p` can hold the count it stands for: each
/// string has at most `i32::MAX` bytes, a room list at most `i32::MAX` entries.
pub open spec fn packet_fits(p: PacketView) -> bool {
    match p {
        PacketView::Authenticate { app_id, version } => string_fits(app_id) && string_fits(version),
        PacketView::CreateRoom { metadata, .. } => string_fits(metadata),
        PacketView::GetRooms { rooms } => room_infos_fit(rooms),
        PacketView::UpdateRoom { room_id, metadata } => string_fits(room_id) && string_fits(metadata),
        PacketView::ReqJoin { room_id, metadata } => string_fits(room_id) && string_fits(metadata),
        PacketView::JoinRes { room_id, .. } => string_fits(room_id),
        PacketView::ConnectedToRoom { room_id, .. } => string_fits(room_id),
        PacketView::PeerJoinAttempt { metadata, .. } => string_fits(metadata),
        PacketView::Error { error_message, .. } => string_fits(error_message),
        _ => true,
    }
}

proof fn lemma_two_strings(first: Seq<char>, second: Seq<char>)
    requires
        string_fits(first),
        string_fits(second),
    ensures
        spec_read_two_strings(spec_push_string(first) + spec_push_string(second))
            == Ok::<(Seq<char>, Seq<char>), ProtocolError>((first, second)),
{
    lemma_read_push_string(first, spec_push_string(second));
    lemma_read_push_string(second, Seq::empty());
    assert(spec_push_string(second) + Seq::<u8>::empty() =~= spec_push_string(second));
}

/// Decoding undoes encoding: a packet whose lengths fit their prefixes reads
/// back from its own frame as itself.
pub proof fn lemma_decode_encode(p: PacketView)
    requires
        packet_fits(p),
    ensures
        spec_decode(spec_encode(p)) == Ok::<PacketView, ProtocolError>(p),
{
    let b = spec_encode(p);
    let fields = spec_encode_fields(p);
    let none = Seq::<u8>::empty();
    assert(b.subrange(1, b.len() as int) =~= fields);
    assert(b[0] == spec_opcode(p));
    match p {
        PacketView::Authenticate { app_id, version } => {
            lemma_two_strings(app_id, version);
        },
        PacketView::UpdateRoom { room_id, metadata } => {
            lemma_two_strings(room_id, metadata);
        },
        PacketView::ReqJoin { room_id, metadata } => {
            lemma_two_strings(room_id, metadata);
        },
        PacketView::CreateRoom { is_public, metadata } => {
            lemma_read_push_bool(is_public, spec_push_string(metadata));
            lemma_read_push_string(metadata, none);
            assert(spec_push_string(metadata) + none =~= spec_push_string(metadata));
        },
        PacketView::GetRooms { rooms } => {
            lemma_read_push_vec_room_info(rooms, none);
            assert(spec_push_vec_room_info(rooms) + none =~= spec_push_vec_room_info(rooms));
        },
        PacketView::JoinRes { target_id, room_id, allowed } => {
            assert(fields =~= spec_push_u64(target_id) + (spec_push_string(room_id) + spec_push_bool(
                allowed,
            )));
            lemma_read_push_u64(target_id, spec_push_string(room_id) + spec_push_bool(allowed));
            lemma_read_push_string(room_id, spec_push_bool(allowed));
            lemma_read_push_bool(allowed, none);
            assert(spec_push_bool(allowed) + none =~= spec_push_bool(allowed));
        },
        PacketView::ConnectedToRoom { room_id, peer_id } => {
            lemma_read_push_string(room_id, spec_push_i32(peer_id));
            lemma_read_push_i32(peer_id, none);
            assert(spec_push_i32(peer_id) + none =~= spec_push_i32(peer_id));
        },
        PacketView::PeerJoinAttempt { target_id, metadata } => {
            lemma_read_push_u64(target_id, spec_push_string(metadata));
            lemma_read_push_string(metadata, none);
            assert(spec_push_string(metadata) + none =~= spec_push_string(metadata));
        },
        PacketView::PeerJoinedRoom { peer_id } => {
            lemma_read_push_i32(peer_id, none);
            assert(spec_push_i32(peer_id) + none =~= spec_push_i32(peer_id));
        },
        PacketView::PeerLeftRoom { peer_id } => {
            lemma_read_push_i32(peer_id, none);
            assert(spec_push_i32(peer_id) + none =~= spec_push_i32(peer_id));
        },
        PacketView::GameData { from_peer, data } => {
            lemma_read_push_i32(from_peer, data);
        },
        PacketView::Error { error_code, error_message } => {
            lemma_read_push_i32(error_code, spec_push_string(error_message));
            lemma_read_push_string(error_message, none);
            assert(spec_push_string(error_message) + none =~= spec_push_string(error_message));
        },
        PacketView::ClientAuthenticated => {},
        PacketView::ReqRooms => {},
        PacketView::ForceDisconnect => {},
    }
}

impl Packet {
    /// Decodes one frame: the opcode, then the fields that the opcode asks
    /// for. Bytes after the last field are ignored.
    pub fn from_bytes(bytes: &[u8]) -> (r: Result<Self, ProtocolError>)
        ensures
            match r {
                Ok(p) => spec_decode(bytes@) == Ok::<PacketView, ProtocolError>(p@),
                Err(e) => spec_decode(bytes@) == Err::<PacketView, ProtocolError>(e),
            },
    {
        if bytes.len() == 0 {
            return Err(ProtocolError::EmptyPacket);
        }
        let packet_id = bytes[0];
        let rest = slice_subrange(bytes, 1, bytes.len());

        if packet_id == AUTHENTICATE {
            let (app_id, r) = read_string(rest)?;
            let (version, _) = read_string(r)?;
            Ok(Packet::Authenticate { app_id, version })
        } else if packet_id == CLIENT_AUTHENTICATED {
            Ok(Packet::ClientAuthenticated)
        } else if packet_id == CREATE_ROOM {
            let (is_public, r) = read_bool(rest)?;
            let (metadata, _) = read_string(r)?;
            Ok(Packet::CreateRoom { is_public, metadata })
        } else if packet_id == JOIN_ROOM {
            let (room_id, r) = read_string(rest)?;
            let (metadata, _) = read_string(r)?;
            Ok(Packet::ReqJoin { room_id, metadata })
        } else if packet_id == CONNECTED_TO_ROOM {
            let (room_id, r) = read_string(rest)?;
            let (peer_id, _) = read_i32(r)?;
            Ok(Packet::ConnectedToRoom { room_id, peer_id })
        } else if packet_id == PEER_JOIN_ATTEMPT {
            let (target_id, r) = read_u64(rest)?;
            let (metadata, _) = read_string(r)?;
            Ok(Packet::PeerJoinAttempt { target_id, metadata })
        } else if packet_id == PEER_JOINED {
            let (peer_id, _) = read_i32(rest)?;
            Ok(Packet::PeerJoinedRoom { peer_id })
        } else if packet_id == PEER_LEFT {
            let (peer_id, _) = read_i32(rest)?;
            Ok(Packet::PeerLeftRoom { peer_id })
        } else if packet_id == GAME_DATA {
            let (peer_id, r) = read_i32(rest)?;
            Ok(Packet::GameData { from_peer: peer_id, data: slice_to_vec(r) })
        } else if packet_id == FORCE_DISCONNECT {
            Ok(Packet::ForceDisconnect)
        } else if packet_id == ERROR_PACKET {
            let (error_code, r) = read_i32(rest)?;
            let (error_message, _) = read_string(r)?;
            Ok(Packet::Error { error_code, error_message })
        } else if packet_id == REQ_ROOMS {
            Ok(Packet::ReqRooms)
        } else if packet_id == GET_ROOMS {
            let (rooms, _) = read_vec_room_info(rest)?;
            Ok(Packet::GetRooms { rooms })
        } else if packet_id == UPDATE_ROOM {
            let (room_id, r) = read_string(rest)?;
            let (metadata, _) = read_string(r)?;
            Ok(Packet::UpdateRoom { room_id, metadata })
        } else if packet_id == JOIN_RES {
            let (target_id, r) = read_u64(rest)?;
            let (room_id, r) = read_string(r)?;
            let (allowed, _) = read_bool(r)?;
            Ok(Packet::JoinRes { target_id, room_id, allowed })
        } else {
            Err(ProtocolError::UnknownPacketType(packet_id))
        }
    }

    /// Encodes the packet as one frame. Never fails.
    pub fn to_bytes(&self) -> (buf: Vec<u8>)
        ensures
            buf@ == spec_encode(self@),
    {
        let mut buf: Vec<u8> = Vec::new();

        match self {
            Packet::Authenticate { app_id, version } => {
                buf.push(AUTHENTICATE);
                push_string(&mut buf, app_id.as_str());
                push_string(&mut buf, version.as_str());
            },
            Packet::ClientAuthenticated => {
                buf.push(CLIENT_AUTHENTICATED);
            },
            Packet::CreateRoom { is_public, metadata } => {
                buf.push(CREATE_ROOM);
                push_bool(&mut buf, *is_public);
                push_string(&mut buf, metadata.as_str());
            },
            Packet::ReqRooms => {
                buf.push(REQ_ROOMS);
            },
            Packet::GetRooms { rooms } => {
                buf.push(GET_ROOMS);
                push_vec_room_info(&mut buf, rooms.as_slice());
            },
            Packet::UpdateRoom { room_id, metadata } => {
                buf.push(UPDATE_ROOM);
                push_string(&mut buf, room_id.as_str());
                push_string(&mut buf, metadata.as_str());
            },
            Packet::ReqJoin { room_id, metadata } => {
                buf.push(JOIN_ROOM);
                push_string(&mut buf, room_id.as_str());
                push_string(&mut buf, metadata.as_str());
            },
            Packet::JoinRes { target_id, room_id, allowed } => {
                buf.push(JOIN_RES);
                push_u64(&mut buf, *target_id);
                push_string(&mut buf, room_id.as_str());
                push_bool(&mut buf, *allowed);
            },
            Packet::ConnectedToRoom { room_id, peer_id } => {
                buf.push(CONNECTED_TO_ROOM);
                push_string(&mut buf, room_id.as_str());
                push_i32(&mut buf, *peer_id);
            },
            Packet::PeerJoinAttempt { target_id, metadata } => {
                buf.push(PEER_JOIN_ATTEMPT);
                push_u64(&mut buf, *target_id);
                push_string(&mut buf, metadata.as_str());
            },
            Packet::PeerJoinedRoom { peer_id } => {
                buf.push(PEER_JOINED);
                push_i32(&mut buf, *peer_id);
            },
            Packet::PeerLeftRoom { peer_id } => {
                buf.push(PEER_LEFT);
                push_i32(&mut buf, *peer_id);
            },
            Packet::GameData { from_peer: peer_id, data } => {
                buf.push(GAME_DATA);
                push_i32(&mut buf, *peer_id);
                buf.extend_from_slice(data.as_slice());
            },
            Packet::ForceDisconnect => {
                buf.push(FORCE_DISCONNECT);
            },
            Packet::Error { error_code, error_message } => {
                buf.push(ERROR_PACKET);
                push_i32(&mut buf, *error_code);
                push_string(&mut buf, error_message.as_str());
            },
        }
        assert(buf@ =~= spec_encode(self@));
        buf
    }
}

} // verus!
