use relay_server::udp::common::{ServerEvent, TransferChannel};
use relay_server::udp::paper_interface::{DecodeResult, PaperInterface};
use relay_server::udp::sessions::{ClientSession, ConnectionManager, RemoteAddr};

fn addr(n: u16) -> RemoteAddr {
    RemoteAddr { ip: 0x7F00_0001, port: n }
}

#[test]
fn sessions_are_numbered_from_one() {
    let mut m = ConnectionManager::new();
    assert_eq!(m.get_or_create(addr(1), 100), Some((1, true)));
    assert_eq!(m.get_or_create(addr(2), 110), Some((2, true)));
    assert_eq!(m.get_or_create(addr(1), 120), Some((1, false)));
    assert_eq!(m.get_by_id(1), Some(&ClientSession { id: 1, addr: addr(1), last_heard_from: 100 }));
    assert_eq!(m.get_by_id(2).unwrap().addr, addr(2));
    assert!(m.get_by_id(3).is_none());
    assert_eq!(m.create_session(addr(3), 130), 3);
    assert_eq!(m.as_slice().len(), 3);
}

#[test]
fn a_session_id_is_never_reused() {
    let mut m = ConnectionManager::new();
    assert_eq!(m.get_or_create(addr(1), 0), Some((1, true)));
    m.remove_session(1);
    assert!(m.get_by_id(1).is_none());
    // removing twice is fine
    m.remove_session(1);
    assert_eq!(m.get_or_create(addr(1), 0), Some((2, true)));
    assert_eq!(m.get_or_create(addr(1), 0), Some((2, false)));
}

#[test]
fn addresses_and_ids_correspond() {
    let mut m = ConnectionManager::new();
    for port in 1u16..20 {
        m.get_or_create(addr(port), 0);
    }
    m.remove_session(5);
    m.remove_session(11);
    let sessions: Vec<ClientSession> = m.as_slice().to_vec();
    assert_eq!(sessions.len(), 17);
    for s in &sessions {
        assert_eq!(m.get_by_id(s.id).unwrap().addr, s.addr);
        assert_eq!(m.get_or_create(s.addr, 9), Some((s.id, false)));
    }
    for a in &sessions {
        for b in &sessions {
            assert_eq!(a.id == b.id, a.addr == b.addr);
        }
    }
}

#[test]
fn silent_sessions_are_cleaned_up() {
    let mut m = ConnectionManager::new();
    m.get_or_create(addr(1), 1000);
    m.get_or_create(addr(2), 2000);
    m.get_or_create(addr(3), 3000);
    assert!(m.touch(1, 4000));
    assert!(!m.touch(9, 4000));
    // exactly at the limit a session stays
    assert_eq!(m.cleanup_sessions(5000, 7000), Vec::<u64>::new());
    assert_eq!(m.cleanup_sessions(5000, 7001), vec![2u64]);
    assert!(m.get_by_id(2).is_none());
    assert_eq!(m.cleanup_sessions(5000, 9500), vec![1u64, 3]);
    assert!(m.as_slice().is_empty());
    assert_eq!(m.cleanup_sessions(5000, 99999), Vec::<u64>::new());
}

#[test]
fn interface_reports_new_clients() {
    let mut i = PaperInterface::new();
    assert_eq!(i.accept(addr(1), 10), Some(1));
    assert_eq!(i.accept(addr(1), 20), Some(1));
    assert_eq!(i.accept(addr(2), 30), Some(2));
    assert_eq!(
        i.recv_events(),
        vec![ServerEvent::ClientConnected { client_id: 1 }, ServerEvent::ClientConnected { client_id: 2 }]
    );
    assert_eq!(i.recv_events(), Vec::new());
    assert_eq!(i.sessions()[0].last_heard_from, 20);
    assert_eq!(i.send(1), Some(addr(1)));
    assert_eq!(i.send(2), Some(addr(2)));
    assert_eq!(i.send(3), None);
}

#[test]
fn interface_turns_payloads_into_events() {
    let mut i = PaperInterface::new();
    let id: u64 = i.accept(addr(1), 0).unwrap();
    i.recv_events();
    let ack = i.handle_decoded(
        id,
        DecodeResult::Reliable { payload: vec![vec![1], vec![3]], ack_packet: Some(vec![2, 0, 0, 0, 0]) },
    );
    assert_eq!(ack, Some(vec![2u8, 0, 0, 0, 0]));
    assert_eq!(i.handle_decoded(id, DecodeResult::Reliable { payload: Vec::new(), ack_packet: None }), None);
    assert_eq!(i.handle_decoded(id, DecodeResult::Unreliable { payload: vec![vec![5, 6]] }), None);
    assert_eq!(i.handle_decoded(id, DecodeResult::Ack), None);
    assert_eq!(
        i.recv_events(),
        vec![
            ServerEvent::PacketReceived { client_id: id, data: vec![1], channel: TransferChannel::Reliable },
            // on the reliable channel a single byte 3 is a payload like any other
            ServerEvent::PacketReceived { client_id: id, data: vec![3], channel: TransferChannel::Reliable },
            ServerEvent::PacketReceived { client_id: id, data: vec![5, 6], channel: TransferChannel::Unreliable },
        ]
    );
}

#[test]
fn heartbeats_are_dropped_in_silence() {
    let mut i = PaperInterface::new();
    let id: u64 = i.accept(addr(1), 0).unwrap();
    i.recv_events();
    i.handle_decoded(id, DecodeResult::Unreliable { payload: vec![vec![3], vec![3, 3], vec![4], vec![3], Vec::new()] });
    assert_eq!(
        i.recv_events(),
        vec![
            ServerEvent::PacketReceived { client_id: id, data: vec![3, 3], channel: TransferChannel::Unreliable },
            ServerEvent::PacketReceived { client_id: id, data: vec![4], channel: TransferChannel::Unreliable },
            ServerEvent::PacketReceived { client_id: id, data: Vec::new(), channel: TransferChannel::Unreliable },
        ]
    );
}

#[test]
fn an_unknown_frame_ends_the_session() {
    let mut i = PaperInterface::new();
    let a: u64 = i.accept(addr(1), 0).unwrap();
    let b: u64 = i.accept(addr(2), 0).unwrap();
    i.recv_events();
    assert_eq!(i.handle_decoded(a, DecodeResult::Unknown), None);
    assert_eq!(i.recv_events(), vec![ServerEvent::ClientDisconnected { client_id: a }]);
    assert_eq!(i.send(a), None);
    assert_eq!(i.send(b), Some(addr(2)));
    // the endpoint may come back, under a new id
    assert_eq!(i.accept(addr(1), 5), Some(3));
}

#[test]
fn interface_times_sessions_out() {
    let mut i = PaperInterface::new();
    i.accept(addr(1), 0);
    i.accept(addr(2), 3000);
    i.recv_events();
    i.cleanup_sessions(5000, 5001);
    assert_eq!(i.recv_events(), vec![ServerEvent::ClientDisconnected { client_id: 1 }]);
    i.cleanup_sessions(5000, 5002);
    assert_eq!(i.recv_events(), Vec::new());
    i.remove_client(2);
    assert_eq!(i.send(2), None);
    assert_eq!(i.recv_events(), Vec::new());
}

#[test]
fn tick_keeps_both_timers() {
    let mut i = PaperInterface::new();
    i.accept(addr(1), 0);
    i.recv_events();
    // resends are due every 50 ms
    assert_eq!(i.tick(49), false);
    assert_eq!(i.tick(50), true);
    assert_eq!(i.tick(60), false);
    assert_eq!(i.tick(100), true);
    // the cleanup runs once a second; a session is ended after more than 5 s of silence
    assert_eq!(i.tick(1000), true);
    assert_eq!(i.recv_events(), Vec::new());
    assert_eq!(i.tick(5000), true);
    assert_eq!(i.recv_events(), Vec::new());
    assert_eq!(i.tick(5500), true);
    // silent for 5.5 s, but the next cleanup is due at 6 s only
    assert_eq!(i.send(1), Some(addr(1)));
    assert_eq!(i.tick(6000), true);
    assert_eq!(i.recv_events(), vec![ServerEvent::ClientDisconnected { client_id: 1 }]);
    assert_eq!(i.send(1), None);
}
