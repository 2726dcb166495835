use relay_server::protocol::error::{ProtocolError, ReadContext};
use relay_server::protocol::packet::{Packet, RoomInfo};
use relay_server::protocol::serialize::{
    push_bool, push_i32, push_string, push_u64, push_vec_room_info, read_bool, read_i32,
    read_room_info, read_string, read_u64, read_vec_room_info,
};

fn round_trip(p: Packet) {
    let bytes: Vec<u8> = p.to_bytes();
    let back = Packet::from_bytes(&bytes);
    assert_eq!(back, Ok(p));
}

#[test]
fn round_trip_every_variant() {
    round_trip(Packet::Authenticate { app_id: "tok".to_string(), version: "1.0".to_string() });
    round_trip(Packet::ClientAuthenticated);
    round_trip(Packet::CreateRoom { is_public: true, metadata: "room".to_string() });
    round_trip(Packet::CreateRoom { is_public: false, metadata: String::new() });
    round_trip(Packet::ReqRooms);
    round_trip(Packet::GetRooms {
        rooms: vec![
            RoomInfo { join_code: "ABCDE".to_string(), metadata: "first".to_string() },
            RoomInfo { join_code: "12345".to_string(), metadata: String::new() },
        ],
    });
    round_trip(Packet::GetRooms { rooms: Vec::new() });
    round_trip(Packet::UpdateRoom { room_id: "ABCDE".to_string(), metadata: "new".to_string() });
    round_trip(Packet::ReqJoin { room_id: "ABCDE".to_string(), metadata: String::new() });
    round_trip(Packet::JoinRes { target_id: u64::MAX, room_id: "ABCDE".to_string(), allowed: true });
    round_trip(Packet::JoinRes { target_id: 0, room_id: String::new(), allowed: false });
    round_trip(Packet::ConnectedToRoom { room_id: "ABCDE".to_string(), peer_id: 1 });
    round_trip(Packet::ConnectedToRoom { room_id: "ABCDE".to_string(), peer_id: i32::MIN });
    round_trip(Packet::PeerJoinAttempt { target_id: 0x0102_0304_0506_0708, metadata: "hi".to_string() });
    round_trip(Packet::PeerJoinedRoom { peer_id: 2 });
    round_trip(Packet::PeerLeftRoom { peer_id: -1 });
    round_trip(Packet::GameData { from_peer: 2, data: vec![0xDE, 0xAD] });
    round_trip(Packet::GameData { from_peer: 0, data: Vec::new() });
    round_trip(Packet::ForceDisconnect);
    round_trip(Packet::Error { error_code: 401, error_message: "Room host denied entry".to_string() });
}

#[test]
fn round_trip_keeps_text_beyond_ascii() {
    round_trip(Packet::CreateRoom { is_public: true, metadata: "salle \u{e9}t\u{e9} \u{1F600}".to_string() });
}

#[test]
fn round_trip_of_a_long_field() {
    let long: String = "x".repeat(100_000);
    round_trip(Packet::UpdateRoom { room_id: "ABCDE".to_string(), metadata: long });
    let blob: Vec<u8> = vec![0xAB; 70_000];
    round_trip(Packet::GameData { from_peer: 7, data: blob });
}

#[test]
fn frames_are_bit_exact() {
    assert_eq!(Packet::CreateRoom { is_public: true, metadata: "r".to_string() }.to_bytes(),
        vec![0u8, 0, 0, 0, 1, 0, 0, 0, 1, b'r']);
    assert_eq!(Packet::ReqJoin { room_id: "AB".to_string(), metadata: String::new() }.to_bytes(),
        vec![1u8, 0, 0, 0, 2, b'A', b'B', 0, 0, 0, 0]);
    assert_eq!(Packet::ConnectedToRoom { room_id: "JC".to_string(), peer_id: 1 }.to_bytes(),
        vec![2u8, 0, 0, 0, 2, b'J', b'C', 0, 0, 0, 1]);
    assert_eq!(Packet::GameData { from_peer: 2, data: vec![0xDE, 0xAD] }.to_bytes(),
        vec![3u8, 0, 0, 0, 2, 0xDE, 0xAD]);
    assert_eq!(Packet::PeerJoinedRoom { peer_id: 2 }.to_bytes(), vec![4u8, 0, 0, 0, 2]);
    assert_eq!(Packet::PeerLeftRoom { peer_id: -2 }.to_bytes(), vec![5u8, 0xFF, 0xFF, 0xFF, 0xFE]);
    assert_eq!(Packet::ForceDisconnect.to_bytes(), vec![6u8]);
    assert_eq!(Packet::Authenticate { app_id: "t".to_string(), version: "1".to_string() }.to_bytes(),
        vec![7u8, 0, 0, 0, 1, b't', 0, 0, 0, 1, b'1']);
    assert_eq!(Packet::ClientAuthenticated.to_bytes(), vec![8u8]);
    assert_eq!(Packet::Error { error_code: 401, error_message: "no".to_string() }.to_bytes(),
        vec![9u8, 0, 0, 1, 0x91, 0, 0, 0, 2, b'n', b'o']);
    assert_eq!(Packet::ReqRooms.to_bytes(), vec![10u8]);
    assert_eq!(Packet::GetRooms { rooms: vec![RoomInfo { join_code: "A".to_string(), metadata: "m".to_string() }] }.to_bytes(),
        vec![11u8, 0, 0, 0, 1, 0, 0, 0, 1, b'A', 0, 0, 0, 1, b'm']);
    assert_eq!(Packet::UpdateRoom { room_id: String::new(), metadata: "m".to_string() }.to_bytes(),
        vec![12u8, 0, 0, 0, 0, 0, 0, 0, 1, b'm']);
    assert_eq!(Packet::JoinRes { target_id: 258, room_id: "A".to_string(), allowed: true }.to_bytes(),
        vec![13u8, 0, 0, 0, 0, 0, 0, 1, 2, 0, 0, 0, 1, b'A', 0, 0, 0, 1]);
    assert_eq!(Packet::PeerJoinAttempt { target_id: 1, metadata: String::new() }.to_bytes(),
        vec![14u8, 0, 0, 0, 0, 0, 0, 0, 1, 0, 0, 0, 0]);
}

#[test]
fn empty_frame_is_rejected() {
    assert_eq!(Packet::from_bytes(&[]), Err(ProtocolError::EmptyPacket));
}

#[test]
fn unknown_opcode_is_rejected() {
    assert_eq!(Packet::from_bytes(&[15u8]), Err(ProtocolError::UnknownPacketType(15)));
    assert_eq!(Packet::from_bytes(&[255u8, 1, 2]), Err(ProtocolError::UnknownPacketType(255)));
}

#[test]
fn short_frames_are_rejected() {
    assert_eq!(
        Packet::from_bytes(&[4u8, 0, 0]),
        Err(ProtocolError::NotEnoughBytes { context: ReadContext::I32, need: 4, have: 2 })
    );
    assert_eq!(
        Packet::from_bytes(&[14u8, 0, 0, 0, 0, 0, 0, 0]),
        Err(ProtocolError::NotEnoughBytes { context: ReadContext::U64, need: 8, have: 7 })
    );
    assert_eq!(
        Packet::from_bytes(&[7u8, 0, 0, 0, 5, b'a', b'b']),
        Err(ProtocolError::NotEnoughBytes { context: ReadContext::Str, need: 5, have: 2 })
    );
    // the metadata of a new room is asked for like any other field
    assert_eq!(
        Packet::from_bytes(&[0u8, 0, 0, 0, 1]),
        Err(ProtocolError::NotEnoughBytes { context: ReadContext::I32, need: 4, have: 0 })
    );
    // the single byte of a heartbeat is no game data packet
    assert_eq!(
        Packet::from_bytes(&[3u8]),
        Err(ProtocolError::NotEnoughBytes { context: ReadContext::I32, need: 4, have: 0 })
    );
}

#[test]
fn negative_lengths_are_rejected() {
    assert_eq!(Packet::from_bytes(&[7u8, 0xFF, 0xFF, 0xFF, 0xFF]), Err(ProtocolError::NegativeLength));
    assert_eq!(Packet::from_bytes(&[11u8, 0x80, 0, 0, 0]), Err(ProtocolError::NegativeLength));
}

#[test]
fn bad_utf8_is_rejected() {
    assert_eq!(Packet::from_bytes(&[7u8, 0, 0, 0, 2, 0xC3, 0x28, 0, 0, 0, 0]), Err(ProtocolError::InvalidUtf8String));
    assert_eq!(Packet::from_bytes(&[7u8, 0, 0, 0, 1, 0xFF, 0, 0, 0, 0]), Err(ProtocolError::InvalidUtf8String));
}

#[test]
fn trailing_bytes_are_ignored() {
    assert_eq!(Packet::from_bytes(&[4u8, 0, 0, 0, 9, 1, 2, 3]), Ok(Packet::PeerJoinedRoom { peer_id: 9 }));
    assert_eq!(Packet::from_bytes(&[6u8, 9, 9]), Ok(Packet::ForceDisconnect));
}

#[test]
fn a_room_list_that_ends_early_is_rejected() {
    assert_eq!(
        Packet::from_bytes(&[11u8, 0, 0, 0, 2, 0, 0, 0, 1, b'A', 0, 0, 0, 0]),
        Err(ProtocolError::NotEnoughBytes { context: ReadContext::I32, need: 4, have: 0 })
    );
}

#[test]
fn i32_is_four_bytes_big_endian() {
    let mut buf: Vec<u8> = vec![9];
    push_i32(&mut buf, 0x0102_0304);
    push_i32(&mut buf, -1);
    push_i32(&mut buf, i32::MIN);
    push_i32(&mut buf, i32::MAX);
    assert_eq!(buf, vec![9u8, 1, 2, 3, 4, 0xFF, 0xFF, 0xFF, 0xFF, 0x80, 0, 0, 0, 0x7F, 0xFF, 0xFF, 0xFF]);
    let (a, rest) = read_i32(&buf[1..]).unwrap();
    assert_eq!(a, 0x0102_0304);
    let (b, rest) = read_i32(rest).unwrap();
    assert_eq!(b, -1);
    let (c, rest) = read_i32(rest).unwrap();
    assert_eq!(c, i32::MIN);
    let (d, rest) = read_i32(rest).unwrap();
    assert_eq!(d, i32::MAX);
    assert!(rest.is_empty());
    assert_eq!(read_i32(rest), Err(ProtocolError::NotEnoughBytes { context: ReadContext::I32, need: 4, have: 0 }));
}

#[test]
fn i32_agrees_with_the_standard_library() {
    let values: [i32; 7] = [0, 1, -1, 255, 256, -65536, 123_456_789];
    for v in values {
        let mut buf: Vec<u8> = Vec::new();
        push_i32(&mut buf, v);
        assert_eq!(buf, v.to_be_bytes().to_vec());
    }
}

#[test]
fn u64_is_eight_bytes_big_endian() {
    let mut buf: Vec<u8> = Vec::new();
    push_u64(&mut buf, 0x0102_0304_0506_0708);
    push_u64(&mut buf, u64::MAX);
    assert_eq!(buf, vec![1u8, 2, 3, 4, 5, 6, 7, 8, 255, 255, 255, 255, 255, 255, 255, 255]);
    let (a, rest) = read_u64(&buf).unwrap();
    assert_eq!(a, 0x0102_0304_0506_0708);
    let (b, rest) = read_u64(rest).unwrap();
    assert_eq!(b, u64::MAX);
    assert!(rest.is_empty());
}

#[test]
fn bool_travels_as_i32() {
    let mut buf: Vec<u8> = Vec::new();
    push_bool(&mut buf, true);
    push_bool(&mut buf, false);
    assert_eq!(buf, vec![0u8, 0, 0, 1, 0, 0, 0, 0]);
    assert_eq!(read_bool(&buf).unwrap().0, true);
    assert_eq!(read_bool(&buf[4..]).unwrap().0, false);
    // anything but zero is true
    assert_eq!(read_bool(&[0u8, 0, 1, 0]).unwrap().0, true);
    assert_eq!(read_bool(&[0xFFu8, 0xFF, 0xFF, 0xFF]).unwrap().0, true);
}

#[test]
fn string_is_length_then_bytes() {
    let mut buf: Vec<u8> = Vec::new();
    push_string(&mut buf, "h\u{e9}");
    assert_eq!(buf, vec![0u8, 0, 0, 3, b'h', 0xC3, 0xA9]);
    buf.push(42);
    let (s, rest) = read_string(&buf).unwrap();
    assert_eq!(s, "h\u{e9}");
    assert_eq!(rest, &[42u8]);
    let mut empty: Vec<u8> = Vec::new();
    push_string(&mut empty, "");
    assert_eq!(empty, vec![0u8, 0, 0, 0]);
    assert_eq!(read_string(&empty).unwrap().0, "");
}

#[test]
fn room_infos_read_back() {
    let rooms: Vec<RoomInfo> = vec![
        RoomInfo { join_code: "AAAAA".to_string(), metadata: "a".to_string() },
        RoomInfo { join_code: "BBBBB".to_string(), metadata: "b".to_string() },
        RoomInfo { join_code: "CCCCC".to_string(), metadata: String::new() },
    ];
    let mut buf: Vec<u8> = Vec::new();
    push_vec_room_info(&mut buf, &rooms);
    buf.push(1);
    let (back, rest) = read_vec_room_info(&buf).unwrap();
    assert_eq!(back, rooms);
    assert_eq!(rest, &[1u8]);
    let (first, _) = read_room_info(&buf[4..]).unwrap();
    assert_eq!(first, rooms[0]);
}
