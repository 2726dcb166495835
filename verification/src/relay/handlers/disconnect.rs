//! A client is gone: what becomes of its room and of the peers in it.

use vstd::prelude::*;
use crate::protocol::packet::{Packet, PacketView};
use crate::relay::action::{spec_actions, spec_reliable, Action, ActionView};
use crate::relay::apps::{spec_apps_wf, AppView, Apps};
use crate::relay::clients::{Client, ClientState, Clients};
use crate::relay::apps::spec_code_in_use;
use crate::relay::directory::{lemma_codes_disjoint_step, spec_client_ok, spec_directory_wf, spec_in_room};
use crate::relay::handlers::room::{send_reliable, spec_remove_room, spec_with_rooms};
use crate::relay::rooms::{lemma_remove_room, lemma_room_at, Room, RoomView};

verus! {

/// The clients `clients` but `id`, in their order.
pub open spec fn spec_others(clients: Seq<u64>, id: u64) -> Seq<u64>
    decreases clients.len(),
{
    if clients.len() == 0 {
        Seq::empty()
    } else if clients.last() == id {
        spec_others(clients.drop_last(), id)
    } else {
        spec_others(clients.drop_last(), id).push(clients.last())
    }
}

/// `spec_others` holds exactly the clients that are not `id`.
pub proof fn lemma_others(clients: Seq<u64>, id: u64)
    ensures
        forall|x: u64| #[trigger] spec_others(clients, id).contains(x) <==> clients.contains(x) && x != id,
    decreases clients.len(),
{
    let out = spec_others(clients, id);
    if clients.len() > 0 {
        let front = clients.drop_last();
        let last = clients.last();
        lemma_others(front, id);
        let fo = spec_others(front, id);
        assert forall|x: u64| #[trigger] out.contains(x) <==> clients.contains(x) && x != id by {
            if out.contains(x) {
                let i = choose|i: int| 0 <= i < out.len() && out[i] == x;
                if i < fo.len() {
                    assert(fo[i] == x);
                    assert(fo.contains(x));
                    let k = choose|k: int| 0 <= k < front.len() && front[k] == x;
                    assert(clients[k] == x);
                } else {
                    assert(clients[clients.len() - 1] == x);
                }
            }
            if clients.contains(x) && x != id {
                let k = choose|k: int| 0 <= k < clients.len() && clients[k] == x;
                if k < front.len() {
                    assert(front[k] == x);
                    assert(fo.contains(x));
                    let i = choose|i: int| 0 <= i < fo.len() && fo[i] == x;
                    assert(out[i] == x);
                } else {
                    assert(out[out.len() - 1] == x);
                }
            }
        }
    } else {
        assert forall|x: u64| #[trigger] out.contains(x) <==> clients.contains(x) && x != id by {}
    }
}

/// The set of a sequence with one more element.
pub proof fn lemma_to_set_push(s: Seq<u64>, x: u64)
    ensures
        s.push(x).to_set() =~= s.to_set().insert(x),
{
    let t = s.push(x);
    assert forall|y: u64| t.to_set().contains(y) <==> s.to_set().insert(x).contains(y) by {
        if t.contains(y) {
            let k = choose|k: int| 0 <= k < t.len() && t[k] == y;
            if k < s.len() {
                assert(s[k] == y);
            }
        }
        if s.contains(y) {
            let k = choose|k: int| 0 <= k < s.len() && s[k] == y;
            assert(t[k] == y);
        }
        if y == x {
            assert(t[s.len() as int] == y);
        }
    }
}

/// What is done to each peer of a room whose host is gone: it is told to
/// disconnect, and its transport session is to be ended.
pub open spec fn spec_kick(peers: Seq<u64>) -> Seq<ActionView>
    decreases peers.len(),
{
    if peers.len() == 0 {
        Seq::empty()
    } else {
        spec_kick(peers.drop_last()).push(spec_reliable(peers.last(), PacketView::ForceDisconnect)).push(
            ActionView::Disconnect { client_id: peers.last() },
        )
    }
}

/// Each of `peers` is told that the peer `peer_id` has left.
pub open spec fn spec_notify_left(peers: Seq<u64>, peer_id: i32) -> Seq<ActionView> {
    peers.map_values(|peer: u64| spec_reliable(peer, PacketView::PeerLeftRoom { peer_id }))
}

/// What the loss of the client `client_id` comes to.
///
/// The client is forgotten. If it was in a room and was the room's host, the
/// room is destroyed and its join code freed; every other member is told to
/// disconnect, is forgotten too, and its transport session is to be ended;
/// the registry is to hear that the room is gone. If it was in a room and
/// was not the host, it leaves the room, and every other member is told the
/// peer id that has left.
pub open spec fn spec_handle_disconnect(
    apps: Seq<AppView>,
    clients: Map<u64, Client>,
    apps2: Seq<AppView>,
    clients2: Map<u64, Client>,
    actions: Seq<ActionView>,
    client_id: u64,
) -> bool {
    if !clients.contains_key(client_id) {
        apps2 == apps && clients2 == clients && actions.len() == 0
    } else {
        match clients[client_id].state {
            ClientState::InRoom { app_id, room_id } => {
                if spec_in_room(apps, app_id, room_id, client_id) {
                    let rooms = apps[app_id as int].rooms;
                    let room = rooms.by_id(room_id);
                    let others = spec_others(room.clients(), client_id);
                    if room.host == client_id {
                        &&& apps2 == spec_remove_room(apps, app_id, room_id)
                        &&& clients2 == clients.remove(client_id).remove_keys(others.to_set())
                        &&& actions == spec_kick(others).push(ActionView::RoomDown { join_code: room.join_code })
                    } else {
                        &&& apps2 == spec_with_rooms(
                            apps,
                            app_id,
                            rooms.with_room(RoomView { members: room.without(client_id), ..room }),
                        )
                        &&& clients2 == clients.remove(client_id)
                        &&& actions == spec_notify_left(others, room.peer_of(client_id)->0)
                    }
                } else {
                    apps2 == apps && clients2 == clients.remove(client_id) && actions.len() == 0
                }
            },
            _ => apps2 == apps && clients2 == clients.remove(client_id) && actions.len() == 0,
        }
    }
}

fn others_of(room: &Room, id: u64) -> (r: Vec<u64>)
    ensures
        r@ == spec_others(room@.clients(), id),
{
    let all = room.get_clients();
    let mut out: Vec<u64> = Vec::new();
    let mut i: usize = 0;
    while i < all.len()
        invariant
            i <= all.len(),
            out@ == spec_others(all@.take(i as int), id),
        decreases all.len() - i,
    {
        assert(all@.take(i + 1).drop_last() =~= all@.take(i as int));
        assert(all@.take(i + 1).last() == all@[i as int]);
        if all[i] != id {
            out.push(all[i]);
        }
        i += 1;
    }
    assert(all@.take(i as int) =~= all@);
    out
}

/// Tells `target_client` to disconnect and asks for its transport session
/// to be ended.
pub fn force_disconnect(actions: &mut Vec<Action>, target_client: u64)
    ensures
        spec_actions(final(actions)@) == spec_actions(old(actions)@).push(
            spec_reliable(target_client, PacketView::ForceDisconnect),
        ).push(ActionView::Disconnect { client_id: target_client }),
{
    send_reliable(actions, target_client, Packet::ForceDisconnect);
    let ghost sent = spec_actions(actions@);
    actions.push(Action::Disconnect { client_id: target_client });
    assert(spec_actions(actions@) =~= sent.push(ActionView::Disconnect { client_id: target_client }));
}

/// The transport has reported that the client `client_id` is gone.
pub fn handle_disconnect(apps: &mut Apps, clients: &mut Clients, client_id: u64) -> (actions: Vec<Action>)
    requires
        spec_directory_wf(old(apps)@, old(clients)@),
    ensures
        spec_directory_wf(final(apps)@, final(clients)@),
        spec_handle_disconnect(
            old(apps)@,
            old(clients)@,
            final(apps)@,
            final(clients)@,
            spec_actions(actions@),
            client_id,
        ),
{
    let mut actions: Vec<Action> = Vec::new();
    assert(spec_actions(actions@) =~= Seq::empty());
    let ghost apps0 = apps@;
    let ghost clients0 = clients@;
    let Some(client) = clients.remove(client_id) else {
        assert(clients@ =~= clients0);
        return actions;
    };
    assert(spec_client_ok(apps0, client_id, clients0[client_id].state));
    let ClientState::InRoom { app_id, room_id } = client.state else {
        proof {
            lemma_outsider_removed(apps0, clients0, client_id);
        }
        return actions;
    };
    assert(spec_in_room(apps0, app_id, room_id, client_id));
    let ghost rooms0 = apps0[app_id as int].rooms;
    let ghost room0 = rooms0.by_id(room_id);
    let found = match apps.get(app_id) {
        Some(app) => match app.rooms.get(room_id) {
            Some(room) => {
                proof {
                    let at = rooms0.index_of(room_id);
                    assert(rooms0.rooms[at].wf());
                }
                match room.client_to_gd(client_id) {
                    Some(godot_id) => Some(
                        (room.get_host() == client_id, godot_id, others_of(room, client_id), room.join_code().clone()),
                    ),
                    None => None,
                }
            },
            None => None,
        },
        None => None,
    };
    let Some((is_host, godot_id, other_peers, join_code)) = found else {
        assert(false);
        return actions;
    };
    let ghost others = other_peers@;
    proof {
        lemma_others(room0.clients(), client_id);
        assert forall|c: u64| room0.clients().contains(c) <==> room0.has_client(c) by {
            if room0.clients().contains(c) {
                let i = choose|i: int| 0 <= i < room0.clients().len() && room0.clients()[i] == c;
                assert(room0.members[i].0 == c);
            }
            if room0.has_client(c) {
                let i = choose|i: int| 0 <= i < room0.members.len() && (#[trigger] room0.members[i]).0 == c;
                assert(room0.clients()[i] == c);
            }
        }
    }
    if is_host {
        crate::relay::handlers::room::remove_room(apps, app_id, room_id);
        let ghost start = clients@;
        let mut i: usize = 0;
        assert(start.remove_keys(others.take(0).to_set()) =~= start);
        while i < other_peers.len()
            invariant
                i <= other_peers.len(),
                others == other_peers@,
                apps@ == spec_remove_room(apps0, app_id, room_id),
                clients@ == start.remove_keys(others.take(i as int).to_set()),
                spec_actions(actions@) == spec_kick(others.take(i as int)),
            decreases other_peers.len() - i,
        {
            let peer_id = other_peers[i];
            let ghost before = clients@;
            clients.remove(peer_id);
            force_disconnect(&mut actions, peer_id);
            proof {
                assert(others.take(i + 1).drop_last() =~= others.take(i as int));
                assert(others.take(i + 1).last() == peer_id);
                assert(others.take(i + 1) =~= others.take(i as int).push(peer_id));
                lemma_to_set_push(others.take(i as int), peer_id);
                assert(clients@ =~= start.remove_keys(others.take(i + 1).to_set()));
            }
            i += 1;
        }
        assert(others.take(i as int) =~= others);
        let ghost kicked = spec_actions(actions@);
        actions.push(Action::RoomDown { join_code });
        proof {
            assert(spec_actions(actions@) =~= kicked.push(ActionView::RoomDown { join_code: room0.join_code }));
            let apps1 = apps@;
            let clients1 = clients@;
            assert forall|c: u64| #[trigger] clients1.contains_key(c) <==> clients0.contains_key(c) && !rooms0.in_room(
                room_id,
                c,
            ) by {
                if c == client_id {
                } else if room0.has_client(c) {
                    assert(room0.clients().contains(c));
                    assert(others.contains(c));
                } else {
                    if others.contains(c) {
                        assert(room0.clients().contains(c));
                    }
                }
            }
            let at = rooms0.index_of(room_id);
            lemma_room_at(rooms0, at);
            lemma_remove_room(rooms0, apps1[app_id as int].rooms, at);
            lemma_room_removed(apps0, clients0, apps1, clients1, app_id, room_id);
        }
    } else {
        let ghost apps_at = apps@;
        let removed = match apps.get_mut(app_id) {
            Some(app) => app.rooms.remove_peer(room_id, client_id),
            None => false,
        };
        assert(removed);
        let mut i: usize = 0;
        while i < other_peers.len()
            invariant
                i <= other_peers.len(),
                others == other_peers@,
                spec_actions(actions@) == spec_notify_left(others.take(i as int), godot_id),
            decreases other_peers.len() - i,
        {
            let ghost sent = spec_actions(actions@);
            send_reliable(&mut actions, other_peers[i], Packet::PeerLeftRoom { peer_id: godot_id });
            proof {
                assert(spec_notify_left(others.take(i + 1), godot_id) =~= sent.push(
                    spec_reliable(others[i as int], PacketView::PeerLeftRoom { peer_id: godot_id }),
                ));
            }
            i += 1;
        }
        assert(others.take(i as int) =~= others);
        proof {
            let apps1 = apps@;
            let rooms1 = apps1[app_id as int].rooms;
            assert(apps1 =~= spec_with_rooms(apps0, app_id, rooms1));
            lemma_member_removed(apps0, clients0, apps1, app_id, room_id, client_id);
        }
    }
    actions
}

/// Forgetting a client that is in no room keeps the directory together.
pub proof fn lemma_outsider_removed(apps: Seq<AppView>, clients: Map<u64, Client>, client: u64)
    requires
        spec_directory_wf(apps, clients),
        clients.contains_key(client),
        !(clients[client].state is InRoom),
    ensures
        spec_directory_wf(apps, clients.remove(client)),
{
    let clients2 = clients.remove(client);
    assert forall|c: u64| #[trigger] clients2.contains_key(c) implies spec_client_ok(apps, c, clients2[c].state) by {
        assert(clients.contains_key(c));
    }
    assert forall|a: u64, r: u64, c: u64| #[trigger] spec_in_room(apps, a, r, c) implies clients2.contains_key(c)
        && clients2[c].state == (ClientState::InRoom { app_id: a, room_id: r }) by {}
}

/// A member leaves its room and is forgotten: the directory stays together.
pub proof fn lemma_member_removed(
    apps: Seq<AppView>,
    clients: Map<u64, Client>,
    apps2: Seq<AppView>,
    app_id: u64,
    room_id: u64,
    client: u64,
)
    requires
        spec_directory_wf(apps, clients),
        app_id < apps.len(),
        clients.contains_key(client),
        clients[client].state == (ClientState::InRoom { app_id, room_id }),
        apps2 == spec_with_rooms(apps, app_id, apps2[app_id as int].rooms),
        apps2[app_id as int].rooms.wf(),
        forall|code: Seq<char>| #[trigger]
            apps2[app_id as int].rooms.codes.contains(code) ==> apps[app_id as int].rooms.codes.contains(code)
                || !spec_code_in_use(apps, code),
        forall|room: u64, c: u64|
            #![trigger apps2[app_id as int].rooms.in_room(room, c)]
            #![trigger apps[app_id as int].rooms.in_room(room, c)]
            apps2[app_id as int].rooms.in_room(room, c) <==> apps[app_id as int].rooms.in_room(room, c) && !(room
                == room_id && c == client),
    ensures
        spec_directory_wf(apps2, clients.remove(client)),
{
    lemma_codes_disjoint_step(apps, apps2, app_id);
    let clients2 = clients.remove(client);
    let rooms0 = apps[app_id as int].rooms;
    let rooms1 = apps2[app_id as int].rooms;
    assert forall|a: u64, r: u64, c: u64| a != app_id implies spec_in_room(apps2, a, r, c) == #[trigger] spec_in_room(
        apps,
        a,
        r,
        c,
    ) by {
        if a < apps.len() {
            assert(apps2[a as int] == apps[a as int]);
        }
    }
    assert(spec_apps_wf(apps2)) by {
        assert forall|i: int| 0 <= i < apps2.len() implies (#[trigger] apps2[i]).id == i && apps2[i].rooms.wf() by {
            if i != app_id {
                assert(apps2[i] == apps[i]);
            }
        }
    }
    assert forall|c: u64| #[trigger] clients2.contains_key(c) implies spec_client_ok(apps2, c, clients2[c].state) by {
        assert(clients.contains_key(c));
        match clients[c].state {
            ClientState::InRoom { app_id: a, room_id: r } => {
                assert(spec_in_room(apps, a, r, c));
                if a == app_id {
                    assert(rooms0.in_room(r, c));
                    assert(rooms1.in_room(r, c));
                }
            },
            _ => {},
        }
    }
    assert forall|a: u64, r: u64, c: u64| #[trigger] spec_in_room(apps2, a, r, c) implies clients2.contains_key(c)
        && clients2[c].state == (ClientState::InRoom { app_id: a, room_id: r }) by {
        if a != app_id {
            assert(spec_in_room(apps, a, r, c));
        } else {
            assert(rooms1.in_room(r, c));
            assert(rooms0.in_room(r, c));
            assert(spec_in_room(apps, a, r, c));
        }
    }
}

/// A room is destroyed and all its members are forgotten: the directory
/// stays together.
pub proof fn lemma_room_removed(
    apps: Seq<AppView>,
    clients: Map<u64, Client>,
    apps2: Seq<AppView>,
    clients2: Map<u64, Client>,
    app_id: u64,
    room_id: u64,
)
    requires
        spec_directory_wf(apps, clients),
        app_id < apps.len(),
        apps[app_id as int].rooms.has_id(room_id),
        apps2 == spec_remove_room(apps, app_id, room_id),
        apps2[app_id as int].rooms.wf(),
        forall|room: u64, c: u64|
            #![trigger apps2[app_id as int].rooms.in_room(room, c)]
            #![trigger apps[app_id as int].rooms.in_room(room, c)]
            apps2[app_id as int].rooms.in_room(room, c) <==> apps[app_id as int].rooms.in_room(room, c) && room
                != room_id,
        forall|c: u64| #[trigger]
            clients2.contains_key(c) <==> clients.contains_key(c) && !apps[app_id as int].rooms.in_room(room_id, c),
        forall|c: u64| #[trigger] clients2.contains_key(c) ==> clients2[c] == clients[c],
    ensures
        spec_directory_wf(apps2, clients2),
{
    let rooms0 = apps[app_id as int].rooms;
    let rooms1 = apps2[app_id as int].rooms;
    assert forall|a: u64, r: u64, c: u64| a != app_id implies spec_in_room(apps2, a, r, c) == #[trigger] spec_in_room(
        apps,
        a,
        r,
        c,
    ) by {
        if a < apps.len() {
            assert(apps2[a as int] == apps[a as int]);
        }
    }
    assert(spec_apps_wf(apps2)) by {
        assert forall|i: int| 0 <= i < apps2.len() implies (#[trigger] apps2[i]).id == i && apps2[i].rooms.wf() by {
            if i != app_id {
                assert(apps2[i] == apps[i]);
            }
        }
    }
    assert forall|c: u64| #[trigger] clients2.contains_key(c) implies spec_client_ok(apps2, c, clients2[c].state) by {
        assert(clients.contains_key(c));
        match clients[c].state {
            ClientState::InRoom { app_id: a, room_id: r } => {
                assert(spec_in_room(apps, a, r, c));
                if a == app_id {
                    assert(rooms0.in_room(r, c));
                    assert(r != room_id);
                    assert(rooms1.in_room(r, c));
                }
            },
            _ => {},
        }
    }
    assert forall|a: u64, r: u64, c: u64| #[trigger] spec_in_room(apps2, a, r, c) implies clients2.contains_key(c)
        && clients2[c].state == (ClientState::InRoom { app_id: a, room_id: r }) by {
        if a != app_id {
            assert(spec_in_room(apps, a, r, c));
        } else {
            assert(rooms1.in_room(r, c));
            assert(rooms0.in_room(r, c));
            assert(spec_in_room(apps, a, r, c));
        }
        assert(clients.contains_key(c) && clients[c].state == (ClientState::InRoom { app_id: a, room_id: r }));
        if rooms0.in_room(room_id, c) {
            assert(spec_in_room(apps, app_id, room_id, c));
            assert(clients[c].state == (ClientState::InRoom { app_id, room_id }));
            assert(false);
        }
        assert(clients2.contains_key(c));
    }
}

} // verus!
