use relay_server::protocol::packet::RoomInfo;
use relay_server::relay::apps::{App, Apps};
use relay_server::relay::clients::{Client, ClientState, Clients};
use relay_server::relay::rooms::{code_from_rolls, Room, RoomIds, Rooms};

const ALPHABET: &str = "ABCDEFGHJKLMNPQRSTUVWXYZ123456789";

#[test]
fn room_hands_out_peer_ids_from_one() {
    let mut room = Room::new(3, "ABCDE".to_string(), 10, true, "meta".to_string());
    assert_eq!(room.id(), 3);
    assert_eq!(room.join_code(), "ABCDE");
    assert_eq!(room.is_public(), true);
    assert_eq!(room.metadata(), "meta");
    assert_eq!(room.get_host(), 10);
    assert!(room.is_empty());
    assert_eq!(room.add_peer(10), 1);
    assert_eq!(room.add_peer(20), 2);
    assert_eq!(room.add_peer(30), 3);
    assert!(!room.is_empty());
    assert_eq!(room.get_clients(), vec![10u64, 20, 30]);
    assert_eq!(room.client_to_gd(20), Some(2));
    assert_eq!(room.client_to_gd(99), None);
    assert_eq!(room.gd_to_client(3), Some(30));
    assert_eq!(room.gd_to_client(0), None);
    assert_eq!(room.gd_to_client(4), None);
}

#[test]
fn room_peer_maps_are_inverse() {
    let mut room = Room::new(0, "ABCDE".to_string(), 1, false, String::new());
    for c in [1u64, 5, 9, 13] {
        room.add_peer(c);
    }
    room.remove_peer(5);
    for c in room.get_clients() {
        let p: i32 = room.client_to_gd(c).unwrap();
        assert!(p >= 1);
        assert_eq!(room.gd_to_client(p), Some(c));
    }
    for p in 0i32..6 {
        if let Some(c) = room.gd_to_client(p) {
            assert_eq!(room.client_to_gd(c), Some(p));
        }
    }
}

#[test]
fn room_never_reuses_a_peer_id() {
    let mut room = Room::new(0, "ABCDE".to_string(), 1, false, String::new());
    assert_eq!(room.add_peer(1), 1);
    assert_eq!(room.add_peer(2), 2);
    room.remove_peer(2);
    assert_eq!(room.client_to_gd(2), None);
    assert_eq!(room.gd_to_client(2), None);
    assert_eq!(room.add_peer(3), 3);
    assert!(room.can_add(2));
    assert_eq!(room.add_peer(2), 4);
    assert!(!room.can_add(2));
    assert_eq!(room.get_clients(), vec![1u64, 3, 2]);
    // removing who is not there changes nothing
    room.remove_peer(77);
    assert_eq!(room.get_clients(), vec![1u64, 3, 2]);
}

#[test]
fn room_lists_itself() {
    let mut room = Room::new(0, "ABCDE".to_string(), 1, true, "old".to_string());
    assert_eq!(room.to_info(), RoomInfo { join_code: "ABCDE".to_string(), metadata: "old".to_string() });
    room.set_metadata("new".to_string());
    assert_eq!(room.to_info(), RoomInfo { join_code: "ABCDE".to_string(), metadata: "new".to_string() });
}

#[test]
fn join_codes_have_five_symbols_of_the_alphabet() {
    let mut ids = RoomIds::new();
    for _ in 0..200 {
        let code: String = ids.generate().expect("the code space is all but empty");
        assert_eq!(code.len(), 5);
        for ch in code.chars() {
            assert!(ALPHABET.contains(ch), "{} is not in the alphabet", ch);
        }
    }
}

#[test]
fn join_codes_are_not_handed_out_twice() {
    let mut ids = RoomIds::new();
    let mut seen: Vec<String> = Vec::new();
    for _ in 0..500 {
        let code: String = ids.generate().unwrap();
        assert!(!seen.contains(&code));
        assert!(ids.is_used(&code));
        seen.push(code);
    }
}

#[test]
fn join_codes_vary() {
    // a generator that handed its input back, or a constant, would not get here
    let mut ids = RoomIds::new();
    let a: String = ids.generate().unwrap();
    let b: String = ids.generate().unwrap();
    let c: String = ids.generate().unwrap();
    assert!(a != b && b != c && a != c);
}

#[test]
fn a_code_is_claimed_once_until_freed() {
    let mut ids = RoomIds::new();
    assert!(!ids.is_used("ABCDE"));
    assert!(ids.claim("ABCDE".to_string()));
    assert!(ids.is_used("ABCDE"));
    assert!(!ids.claim("ABCDE".to_string()));
    assert!(ids.claim("ABCDF".to_string()));
    ids.free("ABCDE");
    assert!(!ids.is_used("ABCDE"));
    assert!(ids.is_used("ABCDF"));
    ids.free("ABCDE");
    assert!(ids.claim("ABCDE".to_string()));
}

#[test]
fn rooms_are_found_by_id_and_by_code() {
    let mut rooms = Rooms::new();
    assert_eq!(rooms.len(), 0);
    let a: u64 = rooms.create(10, true, "a".to_string()).unwrap();
    let b: u64 = rooms.create(20, false, "b".to_string()).unwrap();
    assert_eq!(a, 0);
    assert_eq!(b, 1);
    assert_eq!(rooms.len(), 2);
    let code_a: String = rooms.get(a).unwrap().join_code().clone();
    let code_b: String = rooms.get(b).unwrap().join_code().clone();
    assert_ne!(code_a, code_b);
    assert_eq!(rooms.get_by_jc(&code_a).unwrap().id(), a);
    assert_eq!(rooms.get_by_jc(&code_b).unwrap().id(), b);
    assert!(rooms.get(2).is_none());
    assert!(rooms.get_by_jc("nope").is_none());
    // the host is in its room from the start, as peer 1
    let room = rooms.get(a).unwrap();
    assert_eq!(room.get_host(), 10);
    assert_eq!(room.get_clients(), vec![10u64]);
    assert_eq!(room.client_to_gd(10), Some(1));
    assert_eq!(rooms.as_slice().len(), 2);
}

#[test]
fn a_removed_room_frees_its_code_at_once() {
    let mut rooms = Rooms::new();
    assert_eq!(rooms.create_with_code("ABCDE".to_string(), 1, true, String::new()), Some(0));
    // the code is taken while the room lives
    assert_eq!(rooms.create_with_code("ABCDE".to_string(), 2, true, String::new()), None);
    assert_eq!(rooms.len(), 1);
    let gone = rooms.remove(0).unwrap();
    assert_eq!(gone.join_code(), "ABCDE");
    assert!(rooms.get_by_jc("ABCDE").is_none());
    assert!(rooms.remove(0).is_none());
    // free for the very next room; room ids move on
    assert_eq!(rooms.create_with_code("ABCDE".to_string(), 2, true, String::new()), Some(1));
    assert_eq!(rooms.get_by_jc("ABCDE").unwrap().get_host(), 2);
}

#[test]
fn live_rooms_never_share_a_code() {
    let mut rooms = Rooms::new();
    let mut ids: Vec<u64> = Vec::new();
    for host in 0u64..300 {
        ids.push(rooms.create(host, true, String::new()).unwrap());
        if host % 3 == 0 {
            let victim: u64 = ids.remove(0);
            assert!(rooms.remove(victim).is_some());
        }
        let mut codes: Vec<String> = rooms.as_slice().iter().map(|r| r.join_code().clone()).collect();
        let before: usize = codes.len();
        codes.sort();
        codes.dedup();
        assert_eq!(codes.len(), before);
    }
}

#[test]
fn rooms_change_their_rooms_in_place() {
    let mut rooms = Rooms::new();
    let id: u64 = rooms.create(1, true, "m".to_string()).unwrap();
    assert_eq!(rooms.add_peer(id, 2), Some(2));
    assert_eq!(rooms.add_peer(id, 2), None);
    assert_eq!(rooms.add_peer(99, 3), None);
    assert_eq!(rooms.get(id).unwrap().get_clients(), vec![1u64, 2]);
    // the host stays for as long as the room stands
    assert!(!rooms.remove_peer(id, 1));
    assert!(rooms.remove_peer(id, 2));
    assert!(!rooms.remove_peer(id, 2));
    assert!(!rooms.remove_peer(99, 1));
    assert_eq!(rooms.get(id).unwrap().get_clients(), vec![1u64]);
    assert!(rooms.set_metadata(id, "n".to_string()));
    assert!(!rooms.set_metadata(99, "n".to_string()));
    assert_eq!(rooms.get(id).unwrap().metadata(), "n");
    rooms.get_mut(id).unwrap().set_metadata("o".to_string());
    assert_eq!(rooms.get(id).unwrap().metadata(), "o");
    let code: String = rooms.get(id).unwrap().join_code().clone();
    rooms.get_by_jc_mut(&code).unwrap().set_metadata("p".to_string());
    assert_eq!(rooms.get(id).unwrap().metadata(), "p");
    assert!(rooms.get_mut(99).is_none());
    assert!(rooms.get_by_jc_mut("nope").is_none());
}

#[test]
fn rooms_list_only_public_rooms() {
    let mut rooms = Rooms::new();
    rooms.create_with_code("AAAAA".to_string(), 1, true, "one".to_string());
    rooms.create_with_code("BBBBB".to_string(), 2, false, "two".to_string());
    rooms.create_with_code("CCCCC".to_string(), 3, true, "three".to_string());
    assert_eq!(
        rooms.public_rooms(),
        vec![
            RoomInfo { join_code: "AAAAA".to_string(), metadata: "one".to_string() },
            RoomInfo { join_code: "CCCCC".to_string(), metadata: "three".to_string() },
        ]
    );
    rooms.add_peer(0, 9);
    assert_eq!(rooms.all_clients(), vec![1u64, 9, 2, 3]);
    rooms.clear();
    assert_eq!(rooms.len(), 0);
    assert!(rooms.public_rooms().is_empty());
    assert_eq!(rooms.create_with_code("AAAAA".to_string(), 1, true, String::new()), Some(3));
}

#[test]
fn apps_are_numbered_from_zero() {
    let mut apps = Apps::new();
    assert_eq!(apps.len(), 0);
    assert!(apps.get(0).is_none());
    assert!(apps.get_by_token("tok").is_none());
    assert_eq!(apps.create("tok".to_string()), 0);
    assert_eq!(apps.create("other".to_string()), 1);
    assert_eq!(apps.len(), 2);
    assert_eq!(apps.get(1).unwrap().token, "other");
    assert_eq!(apps.get_by_token("tok").unwrap().id, 0);
    assert_eq!(apps.get_by_token("other").unwrap().id, 1);
    assert!(apps.get_by_token("to").is_none());
    assert!(apps.get(2).is_none());
    // the latest application made with a token is the one that is found
    assert_eq!(apps.create("tok".to_string()), 2);
    assert_eq!(apps.get_by_token("tok").unwrap().id, 2);
    assert_eq!(apps.as_slice().len(), 3);
}

#[test]
fn apps_hand_out_their_rooms_for_change() {
    let mut apps = Apps::new();
    apps.create("tok".to_string());
    let room: u64 = apps.get_mut(0).unwrap().rooms.create(7, true, String::new()).unwrap();
    assert_eq!(apps.get(0).unwrap().rooms.get(room).unwrap().get_host(), 7);
    apps.get_by_token_mut("tok").unwrap().rooms.add_peer(room, 8);
    assert_eq!(apps.get(0).unwrap().rooms.get(room).unwrap().get_clients(), vec![7u64, 8]);
    assert!(apps.get_mut(5).is_none());
    assert!(apps.get_by_token_mut("none").is_none());
    let fresh = App::new(9, "t".to_string());
    assert_eq!(fresh.id, 9);
    assert_eq!(fresh.token, "t");
    assert_eq!(fresh.rooms.len(), 0);
}

#[test]
fn clients_start_connected() {
    assert_eq!(Client::new().state, ClientState::Connected);
    assert_eq!(Client::default().state, ClientState::Connected);
    assert_eq!(ClientState::default(), ClientState::Connected);
    let mut clients = Clients::new();
    assert!(clients.get(1).is_none());
    clients.create(1);
    assert_eq!(clients.get(1).unwrap().state, ClientState::Connected);
    assert!(clients.set_state(1, ClientState::Authenticated { app_id: 4 }));
    assert_eq!(clients.get(1).unwrap().state, ClientState::Authenticated { app_id: 4 });
    assert!(!clients.set_state(2, ClientState::Connected));
    assert!(clients.get(2).is_none());
    assert_eq!(clients.remove(1), Some(Client { state: ClientState::Authenticated { app_id: 4 } }));
    assert_eq!(clients.remove(1), None);
    assert!(Clients::default().get(0).is_none());
}

#[test]
fn rolls_spell_codes() {
    assert_eq!(code_from_rolls(&vec![0, 0, 0, 0, 0]), "AAAAA");
    assert_eq!(code_from_rolls(&vec![32, 32, 32, 32, 32]), "99999");
    assert_eq!(code_from_rolls(&vec![0, 7, 8, 12, 13]), "AHJNP");
    assert_eq!(code_from_rolls(&vec![23, 24, 31, 32, 1]), "Z189B");
    // every symbol of the alphabet, in its place
    let mut all = String::new();
    for start in [0usize, 5, 10, 15, 20, 25, 28] {
        let rolls: Vec<usize> = (start..start + 5).collect();
        let code: String = code_from_rolls(&rolls);
        if start == 28 {
            all.push_str(&code[2..]);
        } else {
            all.push_str(&code);
        }
    }
    assert_eq!(all, ALPHABET);
}

#[test]
fn apps_know_the_codes_in_use_anywhere() {
    let mut apps = Apps::new();
    apps.create("a".to_string());
    apps.create("b".to_string());
    assert!(!apps.code_in_use("ABCDE"));
    apps.get_mut(1).unwrap().rooms.create_with_code("ABCDE".to_string(), 1, true, String::new());
    assert!(apps.code_in_use("ABCDE"));
    assert!(!apps.code_in_use("ABCDF"));
    assert!(apps.get(1).unwrap().rooms.has_code("ABCDE"));
    assert!(!apps.get(0).unwrap().rooms.has_code("ABCDE"));
    for _ in 0..100 {
        let code: String = apps.fresh_code().unwrap();
        assert_eq!(code.len(), 5);
        assert!(code.chars().all(|ch| ALPHABET.contains(ch)));
        assert!(!apps.code_in_use(&code));
    }
    apps.get_mut(1).unwrap().rooms.remove(0);
    assert!(!apps.code_in_use("ABCDE"));
}

#[test]
fn rooms_and_apps_can_be_gone_through() {
    let mut apps = Apps::new();
    apps.create("a".to_string());
    apps.create("b".to_string());
    let tokens: Vec<String> = apps.iter().map(|app| app.token.clone()).collect();
    assert_eq!(tokens, vec!["a".to_string(), "b".to_string()]);
    let rooms = &mut apps.get_mut(0).unwrap().rooms;
    rooms.create(5, true, String::new());
    rooms.create(6, true, String::new());
    rooms.create(7, true, String::new());
    rooms.remove(1);
    let hosts: Vec<u64> = rooms.iter().map(|room| room.get_host()).collect();
    assert_eq!(hosts, vec![5u64, 7]);
    let ids: Vec<u64> = rooms.iter().map(|room| room.id()).collect();
    assert_eq!(ids, vec![0u64, 2]);
}
