use relay_server::config::defaults::{allowed_versions, app_whitelist, relay_id, udp_bind_address};
use relay_server::config::Config;
use relay_server::protocol::packet::{Packet, RoomInfo};
use relay_server::relay::action::Action;
use relay_server::relay::clients::ClientState;
use relay_server::relay::handlers::auth::{
    check_local_whitelist, is_app_allowed, is_version_allowed, uses_remote_whitelist,
};
use relay_server::relay::server::RelayServer;
use relay_server::udp::common::{ServerEvent, TransferChannel};

fn send(target: u64, packet: Packet) -> Action {
    Action::Send { target, packet, channel: TransferChannel::Reliable }
}

fn connect(server: &mut RelayServer, id: u64) {
    assert_eq!(server.handle_event(ServerEvent::ClientConnected { client_id: id }), Vec::new());
}

fn packet(server: &mut RelayServer, from: u64, p: Packet) -> Vec<Action> {
    server.handle_event(ServerEvent::PacketReceived {
        client_id: from,
        data: p.to_bytes(),
        channel: TransferChannel::Reliable,
    })
}

fn authenticate(server: &mut RelayServer, id: u64, token: &str) {
    connect(server, id);
    let out = packet(server, id, Packet::Authenticate { app_id: token.to_string(), version: "1.0".to_string() });
    assert_eq!(out, vec![send(id, Packet::ClientAuthenticated)]);
}

/// Brings up a room with host 1 and, if `with_peer`, peer 2; returns the join code.
fn room_with(server: &mut RelayServer, with_peer: bool) -> String {
    authenticate(server, 1, "tok");
    let out = packet(server, 1, Packet::CreateRoom { is_public: true, metadata: "room".to_string() });
    assert_eq!(out.len(), 2);
    let jc: String = match &out[0] {
        Action::Send { target: 1, packet: Packet::ConnectedToRoom { room_id, peer_id: 1 }, channel: TransferChannel::Reliable } => room_id.clone(),
        other => panic!("unexpected answer {:?}", other),
    };
    assert_eq!(out[1], Action::RoomUp { join_code: jc.clone(), app_token: "tok".to_string() });
    if with_peer {
        authenticate(server, 2, "tok");
        let out = packet(server, 2, Packet::ReqJoin { room_id: jc.clone(), metadata: String::new() });
        assert_eq!(out, vec![send(1, Packet::PeerJoinAttempt { target_id: 2, metadata: String::new() })]);
        let out = packet(server, 1, Packet::JoinRes { target_id: 2, room_id: jc.clone(), allowed: true });
        assert_eq!(
            out,
            vec![
                send(2, Packet::ConnectedToRoom { room_id: jc.clone(), peer_id: 2 }),
                send(1, Packet::PeerJoinedRoom { peer_id: 2 }),
            ]
        );
    }
    jc
}

#[test]
fn happy_path_join() {
    let mut server = RelayServer::new(Config::default());
    let jc: String = room_with(&mut server, true);
    assert_eq!(jc.len(), 5);
    assert_eq!(server.client_state(1), Some(ClientState::InRoom { app_id: 0, room_id: 0 }));
    assert_eq!(server.client_state(2), Some(ClientState::InRoom { app_id: 0, room_id: 0 }));
    // B sends game data to peer 1; A receives it marked with B's peer id
    let out = packet(&mut server, 2, Packet::GameData { from_peer: 1, data: vec![0xDE, 0xAD] });
    assert_eq!(out, vec![send(1, Packet::GameData { from_peer: 2, data: vec![0xDE, 0xAD] })]);
}

#[test]
fn game_data_keeps_its_channel() {
    let mut server = RelayServer::new(Config::default());
    room_with(&mut server, true);
    let out = server.handle_packet(
        1,
        Packet::GameData { from_peer: 2, data: vec![1, 2, 3] }.to_bytes(),
        TransferChannel::Unreliable,
    );
    assert_eq!(
        out,
        vec![Action::Send {
            target: 2,
            packet: Packet::GameData { from_peer: 1, data: vec![1, 2, 3] },
            channel: TransferChannel::Unreliable,
        }]
    );
    // a peer that is not there: dropped in silence
    assert_eq!(packet(&mut server, 1, Packet::GameData { from_peer: 3, data: vec![1] }), Vec::new());
    assert_eq!(packet(&mut server, 1, Packet::GameData { from_peer: 0, data: vec![1] }), Vec::new());
    // a peer may write to itself
    assert_eq!(
        packet(&mut server, 1, Packet::GameData { from_peer: 1, data: Vec::new() }),
        vec![send(1, Packet::GameData { from_peer: 1, data: Vec::new() })]
    );
}

#[test]
fn host_leaves() {
    let mut server = RelayServer::new(Config::default());
    let jc: String = room_with(&mut server, true);
    let out = server.handle_event(ServerEvent::ClientDisconnected { client_id: 1 });
    assert_eq!(
        out,
        vec![send(2, Packet::ForceDisconnect), Action::Disconnect { client_id: 2 }, Action::RoomDown { join_code: jc.clone() }]
    );
    assert_eq!(server.client_state(1), None);
    assert_eq!(server.client_state(2), None);
    assert_eq!(server.apps().get(0).unwrap().rooms.len(), 0);
    // another client of the same application sees no room, and the code leads nowhere
    authenticate(&mut server, 3, "tok");
    assert_eq!(packet(&mut server, 3, Packet::ReqRooms), vec![send(3, Packet::GetRooms { rooms: Vec::new() })]);
    assert_eq!(
        packet(&mut server, 3, Packet::ReqJoin { room_id: jc, metadata: String::new() }),
        vec![send(3, Packet::Error { error_code: 404, error_message: "Room not found".to_string() })]
    );
    // the transport's report for the peer that was kicked changes nothing any more
    assert_eq!(server.handle_event(ServerEvent::ClientDisconnected { client_id: 2 }), Vec::new());
}

#[test]
fn non_host_leaves() {
    let mut server = RelayServer::new(Config::default());
    let jc: String = room_with(&mut server, true);
    let out = server.handle_event(ServerEvent::ClientDisconnected { client_id: 2 });
    assert_eq!(out, vec![send(1, Packet::PeerLeftRoom { peer_id: 2 })]);
    assert_eq!(server.client_state(2), None);
    assert_eq!(server.client_state(1), Some(ClientState::InRoom { app_id: 0, room_id: 0 }));
    authenticate(&mut server, 3, "tok");
    assert_eq!(
        packet(&mut server, 3, Packet::ReqRooms),
        vec![send(3, Packet::GetRooms { rooms: vec![RoomInfo { join_code: jc.clone(), metadata: "room".to_string() }] })]
    );
    // the next peer gets a new id: 2 is not handed out again
    packet(&mut server, 3, Packet::ReqJoin { room_id: jc.clone(), metadata: String::new() });
    let out = packet(&mut server, 1, Packet::JoinRes { target_id: 3, room_id: jc.clone(), allowed: true });
    assert_eq!(
        out,
        vec![send(3, Packet::ConnectedToRoom { room_id: jc, peer_id: 3 }), send(1, Packet::PeerJoinedRoom { peer_id: 3 })]
    );
}

#[test]
fn several_peers_hear_that_one_left() {
    let mut server = RelayServer::new(Config::default());
    let jc: String = room_with(&mut server, true);
    authenticate(&mut server, 3, "tok");
    packet(&mut server, 1, Packet::JoinRes { target_id: 3, room_id: jc.clone(), allowed: true });
    authenticate(&mut server, 4, "tok");
    packet(&mut server, 1, Packet::JoinRes { target_id: 4, room_id: jc, allowed: true });
    let out = server.handle_event(ServerEvent::ClientDisconnected { client_id: 3 });
    assert_eq!(
        out,
        vec![
            send(1, Packet::PeerLeftRoom { peer_id: 3 }),
            send(2, Packet::PeerLeftRoom { peer_id: 3 }),
            send(4, Packet::PeerLeftRoom { peer_id: 3 }),
        ]
    );
    let out = server.handle_event(ServerEvent::ClientDisconnected { client_id: 1 });
    assert_eq!(out.len(), 5);
    assert_eq!(out[0], send(2, Packet::ForceDisconnect));
    assert_eq!(out[1], Action::Disconnect { client_id: 2 });
    assert_eq!(out[2], send(4, Packet::ForceDisconnect));
    assert_eq!(out[3], Action::Disconnect { client_id: 4 });
    assert_eq!(server.client_state(4), None);
}

#[test]
fn version_gate() {
    let mut config = Config::default();
    config.allowed_versions = vec!["1.0".to_string()];
    let mut server = RelayServer::new(config);
    connect(&mut server, 1);
    let out = packet(&mut server, 1, Packet::Authenticate { app_id: "tok".to_string(), version: "0.9".to_string() });
    assert_eq!(
        out,
        vec![
            send(1, Packet::Error { error_code: 401, error_message: "Version 0.9 is not allowed".to_string() }),
            send(1, Packet::ForceDisconnect),
            Action::Disconnect { client_id: 1 },
        ]
    );
    assert_eq!(server.client_state(1), None);
    assert_eq!(server.apps().len(), 0);
    connect(&mut server, 2);
    let out = packet(&mut server, 2, Packet::Authenticate { app_id: "tok".to_string(), version: "1.0".to_string() });
    assert_eq!(out, vec![send(2, Packet::ClientAuthenticated)]);
    assert_eq!(server.client_state(2), Some(ClientState::Authenticated { app_id: 0 }));
}

#[test]
fn local_whitelist_gate() {
    let mut config = Config::default();
    config.whitelist = vec!["good".to_string(), "fine".to_string()];
    let mut server = RelayServer::new(config);
    connect(&mut server, 1);
    let out = packet(&mut server, 1, Packet::Authenticate { app_id: "bad".to_string(), version: "x".to_string() });
    assert_eq!(
        out,
        vec![
            send(1, Packet::Error { error_code: 401, error_message: "Unauthorized".to_string() }),
            send(1, Packet::ForceDisconnect),
            Action::Disconnect { client_id: 1 },
        ]
    );
    assert_eq!(server.client_state(1), None);
    authenticate(&mut server, 2, "fine");
    assert_eq!(server.client_state(2), Some(ClientState::Authenticated { app_id: 0 }));
    assert_eq!(server.apps().get(0).unwrap().token, "fine");
}

#[test]
fn remote_whitelist_gate() {
    let mut config = Config::default();
    config.whitelist = vec!["local".to_string()];
    config.remote_whitelist_endpoint = "http://registry".to_string();
    config.remote_whitelist_token = "SECRET-REDACTED".to_string();
    let mut server = RelayServer::new(config);
    for id in 1u64..6 {
        connect(&mut server, id);
        let out = packet(&mut server, id, Packet::Authenticate { app_id: "tok".to_string(), version: "1".to_string() });
        assert_eq!(out, vec![Action::CheckWhitelist { client_id: id, app_token: "tok".to_string() }]);
        assert_eq!(server.client_state(id), Some(ClientState::Connected));
    }
    // 200 admits
    assert_eq!(server.complete_authentication(1, "tok", Some(200)), vec![send(1, Packet::ClientAuthenticated)]);
    assert_eq!(server.client_state(1), Some(ClientState::Authenticated { app_id: 0 }));
    // 404 turns down
    let denied = vec![
        send(2, Packet::Error { error_code: 401, error_message: "Unauthorized".to_string() }),
        send(2, Packet::ForceDisconnect),
        Action::Disconnect { client_id: 2 },
    ];
    assert_eq!(server.complete_authentication(2, "tok", Some(404)), denied);
    assert_eq!(server.client_state(2), None);
    // anything else falls back to the local list, which does not hold the token
    assert_eq!(server.complete_authentication(3, "tok", Some(500)).len(), 3);
    assert_eq!(server.client_state(3), None);
    assert_eq!(server.complete_authentication(4, "tok", None).len(), 3);
    // ... and which does hold this one
    assert_eq!(server.complete_authentication(5, "local", Some(503)), vec![send(5, Packet::ClientAuthenticated)]);
    assert_eq!(server.client_state(5), Some(ClientState::Authenticated { app_id: 1 }));
    // an answer for a client that is gone, or that has authenticated, changes nothing
    assert_eq!(server.complete_authentication(2, "tok", Some(200)), Vec::new());
    assert_eq!(server.complete_authentication(1, "other", Some(200)), Vec::new());
    assert_eq!(server.client_state(1), Some(ClientState::Authenticated { app_id: 0 }));
}

#[test]
fn admission_rules() {
    let mut config = Config::default();
    assert!(is_version_allowed(&config, "anything"));
    assert!(check_local_whitelist(&config, "anything"));
    assert!(!uses_remote_whitelist(&config));
    config.allowed_versions = vec!["1.0".to_string(), "1.1".to_string()];
    config.whitelist = vec!["tok".to_string()];
    assert!(is_version_allowed(&config, "1.1"));
    assert!(!is_version_allowed(&config, "1.10"));
    assert!(!is_version_allowed(&config, ""));
    assert!(check_local_whitelist(&config, "tok"));
    assert!(!check_local_whitelist(&config, "Tok"));
    config.remote_whitelist_endpoint = "http://x".to_string();
    assert!(!uses_remote_whitelist(&config));
    config.remote_whitelist_token = "t".to_string();
    assert!(uses_remote_whitelist(&config));
    assert!(is_app_allowed(&config, "nope", Some(200)));
    assert!(!is_app_allowed(&config, "tok", Some(404)));
    assert!(is_app_allowed(&config, "tok", Some(500)));
    assert!(!is_app_allowed(&config, "nope", Some(302)));
    assert!(is_app_allowed(&config, "tok", None));
    assert!(!is_app_allowed(&config, "nope", None));
}

#[test]
fn tenants_do_not_see_each_other() {
    let mut server = RelayServer::new(Config::default());
    let jc: String = room_with(&mut server, false);
    authenticate(&mut server, 5, "other");
    assert_eq!(server.client_state(5), Some(ClientState::Authenticated { app_id: 1 }));
    assert_eq!(packet(&mut server, 5, Packet::ReqRooms), vec![send(5, Packet::GetRooms { rooms: Vec::new() })]);
    assert_eq!(
        packet(&mut server, 5, Packet::ReqJoin { room_id: jc.clone(), metadata: String::new() }),
        vec![send(5, Packet::Error { error_code: 404, error_message: "Room not found".to_string() })]
    );
    // the host cannot pull in a client of another application
    assert_eq!(packet(&mut server, 1, Packet::JoinRes { target_id: 5, room_id: jc, allowed: true }), Vec::new());
    assert_eq!(server.client_state(5), Some(ClientState::Authenticated { app_id: 1 }));
}

#[test]
fn the_host_may_deny_entry() {
    let mut server = RelayServer::new(Config::default());
    let jc: String = room_with(&mut server, false);
    authenticate(&mut server, 2, "tok");
    let out = packet(&mut server, 1, Packet::JoinRes { target_id: 2, room_id: jc, allowed: false });
    assert_eq!(out, vec![send(2, Packet::Error { error_code: 401, error_message: "Room host denied entry".to_string() })]);
    assert_eq!(server.client_state(2), Some(ClientState::Authenticated { app_id: 0 }));
}

#[test]
fn join_res_for_who_is_not_waiting_changes_nothing() {
    let mut server = RelayServer::new(Config::default());
    let jc: String = room_with(&mut server, true);
    // unknown, already in the room, not authenticated
    connect(&mut server, 9);
    for target in [77u64, 2, 1, 9] {
        let out = packet(&mut server, 1, Packet::JoinRes { target_id: target, room_id: jc.clone(), allowed: true });
        assert_eq!(out, Vec::new());
    }
    assert_eq!(server.apps().get(0).unwrap().rooms.get(0).unwrap().get_clients(), vec![1u64, 2]);
    assert_eq!(server.client_state(9), Some(ClientState::Connected));
}

#[test]
fn update_room_changes_the_listing() {
    let mut server = RelayServer::new(Config::default());
    let jc: String = room_with(&mut server, true);
    assert_eq!(packet(&mut server, 1, Packet::UpdateRoom { room_id: String::new(), metadata: "new".to_string() }), Vec::new());
    authenticate(&mut server, 3, "tok");
    assert_eq!(
        packet(&mut server, 3, Packet::ReqRooms),
        vec![send(3, Packet::GetRooms { rooms: vec![RoomInfo { join_code: jc, metadata: "new".to_string() }] })]
    );
}

#[test]
fn private_rooms_are_not_listed() {
    let mut server = RelayServer::new(Config::default());
    authenticate(&mut server, 1, "tok");
    let out = packet(&mut server, 1, Packet::CreateRoom { is_public: false, metadata: "hidden".to_string() });
    assert_eq!(out.len(), 2);
    authenticate(&mut server, 2, "tok");
    assert_eq!(packet(&mut server, 2, Packet::ReqRooms), vec![send(2, Packet::GetRooms { rooms: Vec::new() })]);
}

fn snapshot(server: &RelayServer) -> (Vec<Option<ClientState>>, usize, Vec<(u64, String, Vec<u64>)>) {
    let states: Vec<Option<ClientState>> = (0u64..8).map(|id| server.client_state(id)).collect();
    let mut rooms: Vec<(u64, String, Vec<u64>)> = Vec::new();
    for app in server.apps().as_slice() {
        for room in app.rooms.as_slice() {
            rooms.push((room.id(), room.metadata().clone(), room.get_clients()));
        }
    }
    (states, server.apps().len(), rooms)
}

#[test]
fn forbidden_packets_change_nothing() {
    let mut server = RelayServer::new(Config::default());
    let jc: String = room_with(&mut server, true);
    authenticate(&mut server, 3, "tok");
    connect(&mut server, 4);
    let all: Vec<Packet> = vec![
        Packet::Authenticate { app_id: "x".to_string(), version: "1.0".to_string() },
        Packet::ClientAuthenticated,
        Packet::CreateRoom { is_public: true, metadata: "m".to_string() },
        Packet::ReqRooms,
        Packet::GetRooms { rooms: Vec::new() },
        Packet::UpdateRoom { room_id: jc.clone(), metadata: "m".to_string() },
        Packet::ReqJoin { room_id: jc.clone(), metadata: "m".to_string() },
        Packet::JoinRes { target_id: 3, room_id: jc.clone(), allowed: true },
        Packet::ConnectedToRoom { room_id: jc.clone(), peer_id: 9 },
        Packet::PeerJoinAttempt { target_id: 3, metadata: String::new() },
        Packet::PeerJoinedRoom { peer_id: 9 },
        Packet::PeerLeftRoom { peer_id: 1 },
        Packet::GameData { from_peer: 1, data: vec![1] },
        Packet::ForceDisconnect,
        Packet::Error { error_code: 1, error_message: String::new() },
    ];
    let before = snapshot(&server);
    for p in &all {
        // connected: all but Authenticate
        if !matches!(p, Packet::Authenticate { .. }) {
            assert_eq!(packet(&mut server, 4, p.clone()), Vec::new());
        }
        // authenticated: all but CreateRoom, ReqRooms, ReqJoin
        if !matches!(p, Packet::CreateRoom { .. } | Packet::ReqRooms | Packet::ReqJoin { .. }) {
            assert_eq!(packet(&mut server, 3, p.clone()), Vec::new());
        }
        // in a room: all but UpdateRoom, JoinRes, GameData
        if !matches!(p, Packet::UpdateRoom { .. } | Packet::JoinRes { .. } | Packet::GameData { .. }) {
            assert_eq!(packet(&mut server, 2, p.clone()), Vec::new());
        }
        // unknown client: everything
        assert_eq!(packet(&mut server, 7, p.clone()), Vec::new());
        assert_eq!(snapshot(&server), before);
    }
}

#[test]
fn malformed_payloads_change_nothing() {
    let mut server = RelayServer::new(Config::default());
    room_with(&mut server, true);
    let before = snapshot(&server);
    for data in [Vec::new(), vec![3u8], vec![200u8, 1], vec![12u8, 0, 0, 0, 9], vec![13u8, 0xFF]] {
        assert_eq!(server.handle_packet(1, data, TransferChannel::Reliable), Vec::new());
    }
    assert_eq!(snapshot(&server), before);
}

#[test]
fn a_client_that_connects_twice_keeps_its_state() {
    let mut server = RelayServer::new(Config::default());
    room_with(&mut server, false);
    connect(&mut server, 1);
    assert_eq!(server.client_state(1), Some(ClientState::InRoom { app_id: 0, room_id: 0 }));
    assert_eq!(server.handle_event(ServerEvent::ClientDisconnected { client_id: 42 }), Vec::new());
}

#[test]
fn invariants_hold_along_a_busy_run() {
    let mut server = RelayServer::new(Config::default());
    let mut rng: u64 = 99;
    let mut codes: Vec<String> = Vec::new();
    for step in 0u64..600 {
        rng = rng.wrapping_mul(6364136223846793005).wrapping_add(1442695040888963407);
        let who: u64 = (rng >> 40) % 12 + 1;
        let what: u64 = (rng >> 20) % 6;
        let out: Vec<Action> = match what {
            0 => server.handle_event(ServerEvent::ClientConnected { client_id: who }),
            1 => packet(&mut server, who, Packet::Authenticate { app_id: format!("t{}", who % 2), version: "1".to_string() }),
            2 => packet(&mut server, who, Packet::CreateRoom { is_public: step % 2 == 0, metadata: String::new() }),
            3 => {
                let target: u64 = (rng >> 8) % 12 + 1;
                packet(&mut server, who, Packet::JoinRes { target_id: target, room_id: String::new(), allowed: true })
            }
            4 => server.handle_event(ServerEvent::ClientDisconnected { client_id: who }),
            _ => packet(&mut server, who, Packet::ReqRooms),
        };
        for a in &out {
            if let Action::RoomUp { join_code, .. } = a {
                codes.push(join_code.clone());
            }
        }
        // every room: inverse peer maps, ids from 1, distinct, host inside; codes unique per application
        let mut members: Vec<u64> = Vec::new();
        for app in server.apps().as_slice() {
            let mut live: Vec<String> = Vec::new();
            for room in app.rooms.as_slice() {
                let clients: Vec<u64> = room.get_clients();
                assert!(clients.contains(&room.get_host()));
                let mut peers: Vec<i32> = Vec::new();
                for c in &clients {
                    let p: i32 = room.client_to_gd(*c).unwrap();
                    assert!(p >= 1);
                    assert_eq!(room.gd_to_client(p), Some(*c));
                    assert!(!peers.contains(&p));
                    peers.push(p);
                    // a client is in one room only, and its state says which
                    assert!(!members.contains(c));
                    members.push(*c);
                    assert_eq!(server.client_state(*c), Some(ClientState::InRoom { app_id: app.id, room_id: room.id() }));
                }
                assert!(!live.contains(room.join_code()));
                live.push(room.join_code().clone());
            }
        }
        for id in 1u64..13 {
            match server.client_state(id) {
                Some(ClientState::InRoom { app_id, room_id }) => {
                    let room = server.apps().get(app_id).unwrap().rooms.get(room_id).unwrap();
                    assert!(room.get_clients().contains(&id));
                }
                Some(ClientState::Authenticated { app_id }) => assert!(server.apps().get(app_id).is_some()),
                _ => {}
            }
        }
    }
    assert!(codes.len() > 10);
}

#[test]
fn shutdown_tells_every_peer() {
    let mut server = RelayServer::new(Config::default());
    room_with(&mut server, true);
    authenticate(&mut server, 3, "tok");
    packet(&mut server, 3, Packet::CreateRoom { is_public: true, metadata: String::new() });
    authenticate(&mut server, 4, "other");
    packet(&mut server, 4, Packet::CreateRoom { is_public: true, metadata: String::new() });
    authenticate(&mut server, 5, "tok");
    let out = server.cleanup();
    assert_eq!(
        out,
        vec![
            send(1, Packet::ForceDisconnect),
            send(2, Packet::ForceDisconnect),
            send(3, Packet::ForceDisconnect),
            send(4, Packet::ForceDisconnect),
        ]
    );
    for id in 1u64..5 {
        assert_eq!(server.client_state(id), None);
    }
    assert_eq!(server.client_state(5), Some(ClientState::Authenticated { app_id: 0 }));
    assert_eq!(server.apps().len(), 2);
    assert_eq!(server.apps().get(0).unwrap().rooms.len(), 0);
    assert_eq!(server.apps().get(1).unwrap().rooms.len(), 0);
    assert_eq!(server.cleanup(), Vec::new());
}

#[test]
fn settings_have_defaults() {
    assert_eq!(udp_bind_address(), "0.0.0.0:8080");
    assert_eq!(app_whitelist(), Vec::<String>::new());
    assert_eq!(allowed_versions(), Vec::<String>::new());
    assert_eq!(relay_id(), "");
    let config = Config::default();
    assert_eq!(config.udp_bind_address, "0.0.0.0:8080");
    assert_eq!(config.http_bind_address, "");
    assert!(config.allowed_versions.is_empty());
    assert!(config.whitelist.is_empty());
    assert_eq!(config.remote_whitelist_endpoint, "");
    assert_eq!(config.remote_whitelist_token, "");
    assert_eq!(config.relay_id, "");
    let server = RelayServer::new(config.clone());
    assert_eq!(server.config(), &config);
}

#[test]
fn join_codes_are_unique_across_applications() {
    let mut server = RelayServer::new(Config::default());
    let mut codes: Vec<String> = Vec::new();
    for id in 1u64..201 {
        authenticate(&mut server, id, if id % 2 == 0 { "even" } else { "odd" });
        let out = packet(&mut server, id, Packet::CreateRoom { is_public: true, metadata: String::new() });
        match &out[0] {
            Action::Send { packet: Packet::ConnectedToRoom { room_id, peer_id: 1 }, .. } => {
                assert!(!codes.contains(room_id));
                codes.push(room_id.clone());
            }
            other => panic!("unexpected answer {:?}", other),
        }
    }
    assert_eq!(server.apps().len(), 2);
    assert_eq!(server.apps().get(0).unwrap().rooms.len(), 100);
    for code in &codes {
        let here: usize = server.apps().as_slice().iter().filter(|app| app.rooms.has_code(code)).count();
        assert_eq!(here, 1);
    }
    // a host leaves: its code is free again, the others stay taken
    server.handle_event(ServerEvent::ClientDisconnected { client_id: 7 });
    assert!(!server.apps().code_in_use(&codes[6]));
    assert!(server.apps().code_in_use(&codes[5]));
}
