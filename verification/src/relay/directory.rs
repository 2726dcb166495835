//! What it means that applications, rooms and clients agree with one
//! another.

use vstd::prelude::*;
use crate::relay::apps::{spec_apps_wf, spec_code_in_use, AppView};
use crate::relay::clients::{Client, ClientState};
use crate::relay::rooms::lemma_room_at;

verus! {

/// Whether `client` is a member of the room `room` of application `app`.
pub open spec fn spec_in_room(apps: Seq<AppView>, app: u64, room: u64, client: u64) -> bool {
    app < apps.len() && apps[app as int].rooms.in_room(room, client)
}

/// What a client's state points to exists: the application of an
/// authenticated client, and the room of a client in a room, of which the
/// client is a member.
pub open spec fn spec_client_ok(apps: Seq<AppView>, id: u64, state: ClientState) -> bool {
    match state {
        ClientState::Connected => true,
        ClientState::Authenticated { app_id } => app_id < apps.len(),
        ClientState::InRoom { app_id, room_id } => spec_in_room(apps, app_id, room_id, id),
    }
}

/// Every member of every room is a client whose state names that room. So
/// no client is in two rooms.
pub open spec fn spec_members_ok(apps: Seq<AppView>, clients: Map<u64, Client>) -> bool {
    forall|a: u64, room: u64, c: u64| #[trigger]
        spec_in_room(apps, a, room, c) ==> clients.contains_key(c) && clients[c].state == (ClientState::InRoom {
            app_id: a,
            room_id: room,
        })
}

/// No join code is in use in two applications.
pub open spec fn spec_codes_disjoint(apps: Seq<AppView>) -> bool {
    forall|a: int, b: int, code: Seq<char>|
        0 <= a < b < apps.len() ==> !(#[trigger] apps[a].rooms.codes.contains(code) && #[trigger] apps[b].rooms.codes.contains(
            code,
        ))
}

/// The rooms of one application change; any join code that it newly uses
/// was in use nowhere. Then still no join code is in use in two
/// applications.
pub proof fn lemma_codes_disjoint_step(apps: Seq<AppView>, apps2: Seq<AppView>, app_id: u64)
    requires
        spec_codes_disjoint(apps),
        app_id < apps.len(),
        apps2.len() == apps.len(),
        forall|a: int| 0 <= a < apps.len() && a != app_id ==> #[trigger] apps2[a] == apps[a],
        forall|code: Seq<char>| #[trigger]
            apps2[app_id as int].rooms.codes.contains(code) ==> apps[app_id as int].rooms.codes.contains(code)
                || !spec_code_in_use(apps, code),
    ensures
        spec_codes_disjoint(apps2),
{
    assert forall|a: int, b: int, code: Seq<char>| 0 <= a < b < apps2.len() implies !(
    #[trigger] apps2[a].rooms.codes.contains(code) && #[trigger] apps2[b].rooms.codes.contains(code)) by {
        if apps2[a].rooms.codes.contains(code) && apps2[b].rooms.codes.contains(code) {
            if a != app_id && b != app_id {
                assert(apps[a].rooms.codes.contains(code) && apps[b].rooms.codes.contains(code));
            } else if a == app_id {
                assert(apps[b].rooms.codes.contains(code));
                assert(spec_code_in_use(apps, code));
                assert(apps[a].rooms.codes.contains(code));
            } else {
                assert(apps[a].rooms.codes.contains(code));
                assert(spec_code_in_use(apps, code));
                assert(apps[b].rooms.codes.contains(code));
            }
        }
    }
}

/// The directory holds together: applications, rooms and clients agree
/// with one another, and no join code is in use twice.
pub open spec fn spec_directory_wf(apps: Seq<AppView>, clients: Map<u64, Client>) -> bool {
    &&& spec_apps_wf(apps)
    &&& spec_codes_disjoint(apps)
    &&& forall|c: u64| #[trigger] clients.contains_key(c) ==> spec_client_ok(apps, c, clients[c].state)
    &&& spec_members_ok(apps, clients)
}

/// A client is in at most one room: if it is a member of two, they are the
/// same room of the same application.
pub proof fn lemma_one_room_per_client(
    apps: Seq<AppView>,
    clients: Map<u64, Client>,
    client: u64,
    app_a: u64,
    room_a: u64,
    app_b: u64,
    room_b: u64,
)
    requires
        spec_directory_wf(apps, clients),
        spec_in_room(apps, app_a, room_a, client),
        spec_in_room(apps, app_b, room_b, client),
    ensures
        app_a == app_b,
        room_a == room_b,
{
}

/// Join codes are unique among all rooms that are alive: two rooms with
/// the same join code are one room of one application.
pub proof fn lemma_join_codes_unique_everywhere(
    apps: Seq<AppView>,
    clients: Map<u64, Client>,
    app_a: u64,
    room_a: u64,
    app_b: u64,
    room_b: u64,
)
    requires
        spec_directory_wf(apps, clients),
        app_a < apps.len(),
        app_b < apps.len(),
        apps[app_a as int].rooms.has_id(room_a),
        apps[app_b as int].rooms.has_id(room_b),
        apps[app_a as int].rooms.by_id(room_a).join_code == apps[app_b as int].rooms.by_id(room_b).join_code,
    ensures
        app_a == app_b,
        room_a == room_b,
{
    let va = apps[app_a as int].rooms;
    let vb = apps[app_b as int].rooms;
    let code = va.by_id(room_a).join_code;
    assert(va.wf() && vb.wf());
    lemma_room_at(va, va.index_of(room_a));
    lemma_room_at(vb, vb.index_of(room_b));
    assert(va.codes.contains(code));
    assert(vb.codes.contains(code));
    if app_a < app_b {
        assert(!(apps[app_a as int].rooms.codes.contains(code) && apps[app_b as int].rooms.codes.contains(code)));
    } else if app_b < app_a {
        assert(!(apps[app_b as int].rooms.codes.contains(code) && apps[app_a as int].rooms.codes.contains(code)));
    } else {
        crate::relay::rooms::lemma_join_codes_unique(va, room_a, room_b);
    }
}

/// In every room that is alive the two directions of the peer table are
/// inverse to each other, every peer id is at least 1, no two members share
/// one, and the host is a member.
pub proof fn lemma_live_rooms(apps: Seq<AppView>, clients: Map<u64, Client>, app: u64, room: u64)
    requires
        spec_directory_wf(apps, clients),
        app < apps.len(),
        apps[app as int].rooms.has_id(room),
    ensures
        apps[app as int].rooms.by_id(room).wf(),
        apps[app as int].rooms.by_id(room).hosted(),
        forall|c: u64, p: i32|
            #![trigger apps[app as int].rooms.by_id(room).peer_of(c), apps[app as int].rooms.by_id(room).client_of(p)]
            apps[app as int].rooms.by_id(room).peer_of(c) == Some(p) <==> apps[app as int].rooms.by_id(
                room,
            ).client_of(p) == Some(c),
        forall|c: u64, p: i32| apps[app as int].rooms.by_id(room).peer_of(c) == Some(p) ==> p >= 1,
{
    let v = apps[app as int].rooms;
    let i = v.index_of(room);
    let r = v.rooms[i];
    assert(apps[app as int].rooms.wf());
    assert(r.wf() && r.hosted());
    assert forall|c: u64, p: i32| #![trigger r.peer_of(c), r.client_of(p)] r.peer_of(c) == Some(p) <==> r.client_of(p) == Some(c) by {
        crate::relay::rooms::lemma_peer_maps_inverse(r, c, p);
    }
    assert forall|c: u64, p: i32| r.peer_of(c) == Some(p) implies p >= 1 by {
        let k = choose|k: int| 0 <= k < r.members.len() && (#[trigger] r.members[k]).0 == c;
        assert(r.members[k].1 >= 1);
    }
}

} // verus!
