//! Rooms are made, listed, updated and joined.

use vstd::prelude::*;
use crate::protocol::packet::{Packet, PacketView};
use crate::relay::action::{spec_actions, spec_error, spec_reliable, Action, ActionView};
use crate::relay::apps::{spec_apps_wf, AppView, Apps};
use crate::relay::clients::{Client, ClientState, Clients};
use crate::relay::apps::{spec_all_codes_in_use, spec_code_in_use};
use crate::relay::directory::{lemma_codes_disjoint_step, spec_client_ok, spec_directory_wf, spec_in_room};
use crate::relay::rooms::{spec_fresh_room, spec_is_join_code, spec_public_infos, RoomView, RoomsView};
use crate::udp::common::TransferChannel;

verus! {

/// The error code for what the sender may not do.
pub const ERROR_DENIED: i32 = 401;

/// The error code for what is not there.
pub const ERROR_NOT_FOUND: i32 = 404;

/// The error code for what the relay could not do.
pub const ERROR_UNAVAILABLE: i32 = 500;

pub(crate) fn send_reliable(actions: &mut Vec<Action>, target: u64, packet: Packet)
    ensures
        spec_actions(final(actions)@) == spec_actions(old(actions)@).push(spec_reliable(target, packet@)),
{
    actions.push(Action::Send { target, packet, channel: TransferChannel::Reliable });
    assert(spec_actions(actions@) =~= spec_actions(old(actions)@).push(spec_reliable(target, packet@)));
}

pub(crate) fn send_err(actions: &mut Vec<Action>, target: u64, code: i32, msg: &str)
    ensures
        spec_actions(final(actions)@) == spec_actions(old(actions)@).push(spec_error(target, code, msg@)),
{
    send_reliable(actions, target, Packet::Error { error_code: code, error_message: msg.to_owned() });
}

/// What is to be sent when `target` asks for the rooms of application
/// `app_id`: the listing of its public rooms, in the order of their making.
pub open spec fn spec_send_rooms(apps: Seq<AppView>, target: u64, app_id: u64) -> Seq<ActionView> {
    if app_id < apps.len() {
        seq![
            spec_reliable(
                target,
                PacketView::GetRooms { rooms: spec_public_infos(apps[app_id as int].rooms.rooms) },
            ),
        ]
    } else {
        Seq::empty()
    }
}

/// Lists the public rooms of an application. The directory is only read.
pub fn send_rooms(apps: &Apps, target: u64, app_id: u64) -> (actions: Vec<Action>)
    ensures
        spec_actions(actions@) == spec_send_rooms(apps@, target, app_id),
{
    let mut actions: Vec<Action> = Vec::new();
    assert(spec_actions(actions@) =~= Seq::empty());
    let Some(app) = apps.get(app_id) else {
        return actions;
    };
    let public_rooms = app.rooms.public_rooms();
    send_reliable(&mut actions, target, Packet::GetRooms { rooms: public_rooms });
    actions
}

/// What is to be sent when `sender_id` asks to join the room with the join
/// code `room_id` in application `app_id`: the request goes on to the room's
/// host, who decides. If there is no such room, the sender is told so.
pub open spec fn spec_recv_join_req(
    apps: Seq<AppView>,
    sender_id: u64,
    app_id: u64,
    room_id: Seq<char>,
    metadata: Seq<char>,
) -> Seq<ActionView> {
    if app_id < apps.len() {
        let rooms = apps[app_id as int].rooms;
        if rooms.has_code(room_id) {
            seq![
                spec_reliable(
                    rooms.by_code(room_id).host,
                    PacketView::PeerJoinAttempt { target_id: sender_id, metadata },
                ),
            ]
        } else {
            seq![spec_error(sender_id, ERROR_NOT_FOUND, "Room not found"@)]
        }
    } else {
        Seq::empty()
    }
}

/// Passes a request to join on to the host of the room. The directory is
/// only read: the sender joins when the host says so.
pub fn recv_join_req(apps: &Apps, sender_id: u64, app_id: u64, room_id: &str, metadata: &str) -> (actions: Vec<
    Action,
>)
    requires
        apps.wf(),
    ensures
        spec_actions(actions@) == spec_recv_join_req(apps@, sender_id, app_id, room_id@, metadata@),
{
    let mut actions: Vec<Action> = Vec::new();
    assert(spec_actions(actions@) =~= Seq::empty());
    let Some(app) = apps.get(app_id) else {
        return actions;
    };
    match app.rooms.get_by_jc(room_id) {
        None => {
            send_err(&mut actions, sender_id, ERROR_NOT_FOUND, "Room not found");
        },
        Some(room) => {
            let host_id = room.get_host();
            send_reliable(
                &mut actions,
                host_id,
                Packet::PeerJoinAttempt { target_id: sender_id, metadata: metadata.to_owned() },
            );
        },
    }
    actions
}

/// What making a room comes to. `sender_id` must be an authenticated
/// client of application `app_id`; otherwise nothing happens. The room gets
/// the application's next room id and a join code that no room of any
/// application has; the sender is its host and its first peer, and is told
/// the join code and its peer id 1. If the application has no room id
/// left, or every join code is in use, the sender is told so and nothing
/// changes.
pub open spec fn spec_create_room(
    apps: Seq<AppView>,
    clients: Map<u64, Client>,
    apps2: Seq<AppView>,
    clients2: Map<u64, Client>,
    actions: Seq<ActionView>,
    sender_id: u64,
    app_id: u64,
    is_public: bool,
    metadata: Seq<char>,
) -> bool {
    if clients.contains_key(sender_id) && clients[sender_id].state == (ClientState::Authenticated { app_id })
        && app_id < apps.len() {
        let rooms = apps[app_id as int].rooms;
        let room_id = rooms.next_id;
        if room_id == u64::MAX || spec_all_codes_in_use(apps) {
            &&& apps2 == apps
            &&& clients2 == clients
            &&& actions == seq![spec_error(sender_id, ERROR_UNAVAILABLE, "Room could not be created"@)]
        } else {
            exists|code: Seq<char>|
                {
                    &&& spec_is_join_code(code)
                    &&& !spec_code_in_use(apps, code)
                    &&& apps2 == spec_with_rooms(
                        apps,
                        app_id,
                        RoomsView {
                            rooms: rooms.rooms.push(
                                spec_fresh_room(room_id, code, sender_id, is_public, metadata),
                            ),
                            next_id: (room_id + 1) as u64,
                            codes: rooms.codes.insert(code),
                        },
                    )
                    &&& clients2 == clients.insert(
                        sender_id,
                        Client { state: ClientState::InRoom { app_id, room_id } },
                    )
                    &&& actions == seq![
                        spec_reliable(sender_id, PacketView::ConnectedToRoom { room_id: code, peer_id: 1 }),
                        ActionView::RoomUp { join_code: code, app_token: apps[app_id as int].token },
                    ]
                }
        }
    } else {
        apps2 == apps && clients2 == clients && actions.len() == 0
    }
}

/// Makes a room for an authenticated client, who becomes its host.
pub fn create_room(
    apps: &mut Apps,
    clients: &mut Clients,
    sender_id: u64,
    app_id: u64,
    is_public: bool,
    metadata: &str,
) -> (actions: Vec<Action>)
    requires
        spec_directory_wf(old(apps)@, old(clients)@),
    ensures
        spec_directory_wf(final(apps)@, final(clients)@),
        spec_create_room(
            old(apps)@,
            old(clients)@,
            final(apps)@,
            final(clients)@,
            spec_actions(actions@),
            sender_id,
            app_id,
            is_public,
            metadata@,
        ),
{
    let mut actions: Vec<Action> = Vec::new();
    assert(spec_actions(actions@) =~= Seq::empty());
    let authenticated = match clients.get(sender_id) {
        Some(client) => match client.state {
            ClientState::Authenticated { app_id: a } => a == app_id,
            _ => false,
        },
        None => false,
    };
    if !authenticated {
        return actions;
    }
    assert(spec_client_ok(apps@, sender_id, clients@[sender_id].state));
    let ghost apps0 = apps@;
    let ghost clients0 = clients@;
    let code = apps.fresh_code();
    let Some(app) = apps.get_mut(app_id) else {
        return actions;
    };
    let token = app.token.clone();
    let ghost rooms0 = app.rooms@;
    let made = match code {
        Some(join_code) => {
            let copy = join_code.clone();
            match app.rooms.create_with_code(join_code, sender_id, is_public, metadata.to_owned()) {
                Some(room_id) => Some((room_id, copy)),
                None => None,
            }
        },
        None => None,
    };
    match made {
        None => {
            assert(apps@ =~= apps0);
            send_err(&mut actions, sender_id, ERROR_UNAVAILABLE, "Room could not be created");
        },
        Some((room_id, join_code)) => {
            assert(!spec_code_in_use(apps0, join_code@));
            assert(!rooms0.codes.contains(join_code@)) by {
                if rooms0.codes.contains(join_code@) {
                    assert(apps0[app_id as int].rooms.codes.contains(join_code@));
                }
            }
            let ghost rooms1 = app.rooms@;
            clients.set_state(sender_id, ClientState::InRoom { app_id, room_id });
            send_reliable(
                &mut actions,
                sender_id,
                Packet::ConnectedToRoom { room_id: join_code.clone(), peer_id: 1 },
            );
            let ghost sent = spec_actions(actions@);
            actions.push(Action::RoomUp { join_code, app_token: token });
            proof {
                let apps1 = apps@;
                let clients1 = clients@;
                let code = join_code@;
                assert(apps1 =~= spec_with_rooms(apps0, app_id, rooms1));
                assert(spec_actions(actions@) =~= sent.push(
                    ActionView::RoomUp { join_code: code, app_token: apps0[app_id as int].token },
                ));
                assert(spec_actions(actions@) =~= seq![
                    spec_reliable(sender_id, PacketView::ConnectedToRoom { room_id: code, peer_id: 1 }),
                    ActionView::RoomUp { join_code: code, app_token: apps0[app_id as int].token },
                ]);
                lemma_member_added(apps0, clients0, apps1, app_id, room_id, sender_id);
            }
        },
    }
    actions
}

/// The applications with the rooms of application `app_id` replaced.
pub open spec fn spec_with_rooms(apps: Seq<AppView>, app_id: u64, rooms: RoomsView) -> Seq<AppView> {
    apps.update(app_id as int, AppView { rooms, ..apps[app_id as int] })
}

/// What an update of a room's free-form text comes to: the room numbered
/// `room_id` of application `app_id` gets the text; if there is no such
/// room, the sender is told so.
pub open spec fn spec_update_room(
    apps: Seq<AppView>,
    apps2: Seq<AppView>,
    actions: Seq<ActionView>,
    sender_id: u64,
    app_id: u64,
    room_id: u64,
    metadata: Seq<char>,
) -> bool {
    if app_id < apps.len() && apps[app_id as int].rooms.has_id(room_id) {
        let rooms = apps[app_id as int].rooms;
        &&& apps2 == spec_with_rooms(
            apps,
            app_id,
            rooms.with_room(RoomView { metadata, ..rooms.by_id(room_id) }),
        )
        &&& actions.len() == 0
    } else {
        apps2 == apps && actions == seq![spec_error(sender_id, ERROR_NOT_FOUND, "Room not found"@)]
    }
}

/// Replaces the free-form text of a room. The clients are only read.
pub fn update_room(
    apps: &mut Apps,
    clients: &Clients,
    sender_id: u64,
    app_id: u64,
    room_id: u64,
    metadata: &str,
) -> (actions: Vec<Action>)
    requires
        spec_directory_wf(old(apps)@, clients@),
    ensures
        spec_directory_wf(final(apps)@, clients@),
        spec_update_room(old(apps)@, final(apps)@, spec_actions(actions@), sender_id, app_id, room_id, metadata@),
{
    let mut actions: Vec<Action> = Vec::new();
    assert(spec_actions(actions@) =~= Seq::empty());
    let ghost apps0 = apps@;
    let updated = match apps.get_mut(app_id) {
        Some(app) => app.rooms.set_metadata(room_id, metadata.to_owned()),
        None => false,
    };
    if !updated {
        assert(apps@ =~= apps0);
        send_err(&mut actions, sender_id, ERROR_NOT_FOUND, "Room not found");
    } else {
        proof {
            let apps1 = apps@;
            let rooms0 = apps0[app_id as int].rooms;
            let rooms1 = apps1[app_id as int].rooms;
            assert(apps1 =~= spec_with_rooms(apps0, app_id, rooms1));
            lemma_same_membership(apps0, clients@, apps1, app_id);
        }
    }
    actions
}

/// A change to the rooms of one application that leaves every room's
/// members as they were keeps the directory together.
pub proof fn lemma_same_membership(apps: Seq<AppView>, clients: Map<u64, Client>, apps2: Seq<AppView>, app_id: u64)
    requires
        spec_directory_wf(apps, clients),
        app_id < apps.len(),
        apps2 == spec_with_rooms(apps, app_id, apps2[app_id as int].rooms),
        apps2[app_id as int].rooms.wf(),
        forall|code: Seq<char>| #[trigger]
            apps2[app_id as int].rooms.codes.contains(code) ==> apps[app_id as int].rooms.codes.contains(code)
                || !spec_code_in_use(apps, code),
        forall|room: u64, c: u64|
            #![trigger apps2[app_id as int].rooms.in_room(room, c)]
            #![trigger apps[app_id as int].rooms.in_room(room, c)]
            apps2[app_id as int].rooms.in_room(room, c) <==> apps[app_id as int].rooms.in_room(room, c),
    ensures
        spec_directory_wf(apps2, clients),
{
    lemma_codes_disjoint_step(apps, apps2, app_id);
    assert forall|a: u64, r: u64, c: u64| spec_in_room(apps2, a, r, c) == #[trigger] spec_in_room(apps, a, r, c) by {
        if a < apps.len() && a != app_id {
            assert(apps2[a as int] == apps[a as int]);
        }
    }
    assert forall|c: u64| #[trigger] clients.contains_key(c) implies spec_client_ok(apps2, c, clients[c].state) by {
        match clients[c].state {
            ClientState::InRoom { app_id: a, room_id: r } => {
                assert(spec_in_room(apps, a, r, c));
            },
            _ => {},
        }
    }
    assert forall|a: u64, r: u64, c: u64| #[trigger] spec_in_room(apps2, a, r, c) implies clients.contains_key(c)
        && clients[c].state == (ClientState::InRoom { app_id: a, room_id: r }) by {
        assert(spec_in_room(apps, a, r, c));
    }
}

/// What the removal of a room comes to, as far as the applications go: the
/// room numbered `room_id` of application `app_id` is gone, and its join
/// code is free again.
pub open spec fn spec_remove_room(apps: Seq<AppView>, app_id: u64, room_id: u64) -> Seq<AppView> {
    if app_id < apps.len() && apps[app_id as int].rooms.has_id(room_id) {
        let rooms = apps[app_id as int].rooms;
        spec_with_rooms(
            apps,
            app_id,
            RoomsView {
                rooms: rooms.rooms.remove(rooms.index_of(room_id)),
                codes: rooms.codes.remove(rooms.by_id(room_id).join_code),
                ..rooms
            },
        )
    } else {
        apps
    }
}

/// Destroys a room and frees its join code. The room's members are the
/// caller's to look after.
pub fn remove_room(apps: &mut Apps, app_id: u64, room_id: u64)
    requires
        old(apps).wf(),
    ensures
        final(apps).wf(),
        final(apps)@ == spec_remove_room(old(apps)@, app_id, room_id),
{
    let ghost apps0 = apps@;
    match apps.get_mut(app_id) {
        Some(app) => {
            app.rooms.remove(room_id);
        },
        None => {},
    }
    assert(apps@ =~= spec_remove_room(apps0, app_id, room_id));
}

/// What the host's answer to a request to join comes to.
///
/// If the host says no, the client `target_id` is told so. If the host says
/// yes, `target_id` must be an authenticated client of the host's application
/// `app_id`; otherwise nothing happens. The client becomes a member of the
/// room numbered `room_id` under the room's next peer id, and is told the
/// room's join code and its peer id; the room's host is told the peer id. If
/// the room is gone, or has no peer id left, `target_id` is told so.
pub open spec fn spec_recv_join_res(
    apps: Seq<AppView>,
    clients: Map<u64, Client>,
    apps2: Seq<AppView>,
    clients2: Map<u64, Client>,
    actions: Seq<ActionView>,
    app_id: u64,
    target_id: u64,
    room_id: u64,
    allowed: bool,
) -> bool {
    if !allowed {
        &&& apps2 == apps
        &&& clients2 == clients
        &&& actions == seq![spec_error(target_id, ERROR_DENIED, "Room host denied entry"@)]
    } else if !(clients.contains_key(target_id) && clients[target_id].state == (ClientState::Authenticated {
        app_id,
    })) {
        apps2 == apps && clients2 == clients && actions.len() == 0
    } else if !(app_id < apps.len() && apps[app_id as int].rooms.has_id(room_id)) {
        &&& apps2 == apps
        &&& clients2 == clients
        &&& actions == seq![spec_error(target_id, ERROR_NOT_FOUND, "Room not found"@)]
    } else {
        let rooms = apps[app_id as int].rooms;
        let room = rooms.by_id(room_id);
        let peer_id = room.next_peer_id;
        if peer_id == i32::MAX {
            &&& apps2 == apps
            &&& clients2 == clients
            &&& actions == seq![spec_error(target_id, ERROR_UNAVAILABLE, "Room is full"@)]
        } else {
            &&& apps2 == spec_with_rooms(
                apps,
                app_id,
                rooms.with_room(
                    RoomView {
                        members: room.members.push((target_id, peer_id)),
                        next_peer_id: (peer_id + 1) as i32,
                        ..room
                    },
                ),
            )
            &&& clients2 == clients.insert(target_id, Client { state: ClientState::InRoom { app_id, room_id } })
            &&& actions == seq![
                spec_reliable(target_id, PacketView::ConnectedToRoom { room_id: room.join_code, peer_id }),
                spec_reliable(room.host, PacketView::PeerJoinedRoom { peer_id }),
            ]
        }
    }
}

/// Carries out the host's answer to a request to join.
pub fn recv_join_res(
    apps: &mut Apps,
    clients: &mut Clients,
    app_id: u64,
    target_id: u64,
    room_id: u64,
    allowed: bool,
) -> (actions: Vec<Action>)
    requires
        spec_directory_wf(old(apps)@, old(clients)@),
    ensures
        spec_directory_wf(final(apps)@, final(clients)@),
        spec_recv_join_res(
            old(apps)@,
            old(clients)@,
            final(apps)@,
            final(clients)@,
            spec_actions(actions@),
            app_id,
            target_id,
            room_id,
            allowed,
        ),
{
    let mut actions: Vec<Action> = Vec::new();
    assert(spec_actions(actions@) =~= Seq::empty());
    if !allowed {
        send_err(&mut actions, target_id, ERROR_DENIED, "Room host denied entry");
        return actions;
    }
    let pending = match clients.get(target_id) {
        Some(client) => match client.state {
            ClientState::Authenticated { app_id: a } => a == app_id,
            _ => false,
        },
        None => false,
    };
    if !pending {
        return actions;
    }
    let ghost apps0 = apps@;
    let ghost clients0 = clients@;
    assert(spec_client_ok(apps0, target_id, clients0[target_id].state));
    let Some(app) = apps.get_mut(app_id) else {
        return actions;
    };
    let ghost rooms0 = app.rooms@;
    let found = match app.rooms.get(room_id) {
        Some(room) => Some((room.get_host(), room.join_code().clone())),
        None => None,
    };
    let Some((host_id, join_code)) = found else {
        assert(apps@ =~= apps0);
        send_err(&mut actions, target_id, ERROR_NOT_FOUND, "Room not found");
        return actions;
    };
    proof {
        if rooms0.in_room(room_id, target_id) {
            assert(spec_in_room(apps0, app_id, room_id, target_id));
        }
    }
    match app.rooms.add_peer(room_id, target_id) {
        None => {
            assert(apps@ =~= apps0);
            send_err(&mut actions, target_id, ERROR_UNAVAILABLE, "Room is full");
        },
        Some(peer_id) => {
            let ghost rooms1 = app.rooms@;
            clients.set_state(target_id, ClientState::InRoom { app_id, room_id });
            send_reliable(&mut actions, target_id, Packet::ConnectedToRoom { room_id: join_code, peer_id });
            send_reliable(&mut actions, host_id, Packet::PeerJoinedRoom { peer_id });
            proof {
                let apps1 = apps@;
                let clients1 = clients@;
                assert(apps1 =~= spec_with_rooms(apps0, app_id, rooms1));
                assert(spec_actions(actions@) =~= seq![
                    spec_reliable(
                        target_id,
                        PacketView::ConnectedToRoom { room_id: rooms0.by_id(room_id).join_code, peer_id },
                    ),
                    spec_reliable(rooms0.by_id(room_id).host, PacketView::PeerJoinedRoom { peer_id }),
                ]);
                lemma_member_added(apps0, clients0, apps1, app_id, room_id, target_id);
            }
        },
    }
    actions
}

/// A client that is in no room becomes a member of one room, and its state
/// is set to name that room: the directory stays together.
pub proof fn lemma_member_added(
    apps: Seq<AppView>,
    clients: Map<u64, Client>,
    apps2: Seq<AppView>,
    app_id: u64,
    room_id: u64,
    client: u64,
)
    requires
        spec_directory_wf(apps, clients),
        app_id < apps.len(),
        clients.contains_key(client),
        !(clients[client].state is InRoom),
        apps2.len() == apps.len(),
        forall|a: int| 0 <= a < apps.len() && a != app_id ==> #[trigger] apps2[a] == apps[a],
        apps2[app_id as int].id == app_id,
        apps2[app_id as int].rooms.wf(),
        forall|code: Seq<char>| #[trigger]
            apps2[app_id as int].rooms.codes.contains(code) ==> apps[app_id as int].rooms.codes.contains(code)
                || !spec_code_in_use(apps, code),
        forall|room: u64, c: u64|
            #![trigger apps2[app_id as int].rooms.in_room(room, c)]
            #![trigger apps[app_id as int].rooms.in_room(room, c)]
            apps2[app_id as int].rooms.in_room(room, c) <==> apps[app_id as int].rooms.in_room(room, c) || (room
                == room_id && c == client),
    ensures
        spec_directory_wf(
            apps2,
            clients.insert(client, Client { state: ClientState::InRoom { app_id, room_id } }),
        ),
{
    lemma_codes_disjoint_step(apps, apps2, app_id);
    let clients2 = clients.insert(client, Client { state: ClientState::InRoom { app_id, room_id } });
    let rooms0 = apps[app_id as int].rooms;
    let rooms1 = apps2[app_id as int].rooms;
    assert forall|a: u64, r: u64, c: u64| a != app_id implies spec_in_room(apps2, a, r, c) == #[trigger] spec_in_room(
        apps,
        a,
        r,
        c,
    ) by {
        if a < apps.len() {
            assert(apps2[a as int] == apps[a as int]);
        }
    }
    assert(spec_apps_wf(apps2)) by {
        assert forall|i: int| 0 <= i < apps2.len() implies (#[trigger] apps2[i]).id == i && apps2[i].rooms.wf() by {
            if i != app_id {
                assert(apps2[i] == apps[i]);
            }
        }
    }
    assert forall|c: u64| #[trigger] clients2.contains_key(c) implies spec_client_ok(apps2, c, clients2[c].state) by {
        if c == client {
            assert(rooms1.in_room(room_id, client));
        } else {
            assert(clients.contains_key(c));
            match clients[c].state {
                ClientState::InRoom { app_id: a, room_id: r } => {
                    assert(spec_in_room(apps, a, r, c));
                    if a == app_id {
                        assert(rooms0.in_room(r, c));
                        assert(rooms1.in_room(r, c));
                    }
                },
                _ => {},
            }
        }
    }
    assert forall|a: u64, r: u64, c: u64| #[trigger] spec_in_room(apps2, a, r, c) implies clients2.contains_key(c)
        && clients2[c].state == (ClientState::InRoom { app_id: a, room_id: r }) by {
        if a != app_id {
            assert(spec_in_room(apps, a, r, c));
        } else {
            assert(rooms1.in_room(r, c));
            if rooms0.in_room(r, c) {
                assert(spec_in_room(apps, a, r, c));
            }
        }
    }
}

} // verus!
