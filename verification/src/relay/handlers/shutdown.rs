//! The relay goes down: every peer of every room is told to disconnect.

use vstd::prelude::*;
use crate::protocol::packet::{Packet, PacketView};
use crate::relay::action::{spec_actions, spec_reliable, Action, ActionView};
use crate::relay::apps::{spec_apps_wf, AppView, Apps};
use crate::relay::clients::{Client, ClientState, Clients};
use crate::relay::directory::{spec_client_ok, spec_directory_wf, spec_in_room};
use crate::relay::handlers::disconnect::lemma_to_set_push;
use crate::relay::handlers::room::send_reliable;
use crate::relay::rooms::{lemma_room_members, spec_ids_distinct, spec_room_members, RoomsView};

verus! {

/// The members of all rooms of `apps`: application after application, in
/// each the rooms in the order of their making, in each room the members in
/// joining order.
pub open spec fn spec_app_members(apps: Seq<AppView>) -> Seq<u64>
    decreases apps.len(),
{
    if apps.len() == 0 {
        Seq::empty()
    } else {
        spec_app_members(apps.drop_last()) + spec_room_members(apps.last().rooms.rooms)
    }
}

/// An application with all its rooms destroyed.
pub open spec fn spec_cleared_app(app: AppView) -> AppView {
    AppView { rooms: RoomsView { rooms: Seq::empty(), codes: Set::empty(), ..app.rooms }, ..app }
}

/// The applications with all their rooms destroyed.
pub open spec fn spec_cleared(apps: Seq<AppView>) -> Seq<AppView> {
    apps.map_values(|app: AppView| spec_cleared_app(app))
}

/// Each of `members` is told to disconnect.
pub open spec fn spec_force_all(members: Seq<u64>) -> Seq<ActionView> {
    members.map_values(|c: u64| spec_reliable(c, PacketView::ForceDisconnect))
}

/// The members of the rooms of one application are among the members of
/// all.
pub proof fn lemma_app_members(apps: Seq<AppView>, app: int, c: u64)
    requires
        0 <= app < apps.len(),
        spec_room_members(apps[app].rooms.rooms).contains(c),
    ensures
        spec_app_members(apps).contains(c),
    decreases apps.len(),
{
    let all = spec_app_members(apps);
    let front = apps.drop_last();
    let fa = spec_app_members(front);
    let last = spec_room_members(apps.last().rooms.rooms);
    if app == apps.len() - 1 {
        let i = choose|i: int| 0 <= i < last.len() && last[i] == c;
        assert(all[fa.len() + i] == c);
    } else {
        assert(front[app] == apps[app]);
        lemma_app_members(front, app, c);
        let i = choose|i: int| 0 <= i < fa.len() && fa[i] == c;
        assert(all[i] == c);
    }
}

/// With all rooms destroyed and all their members forgotten, the directory
/// holds together.
pub proof fn lemma_cleared(apps: Seq<AppView>, clients: Map<u64, Client>)
    requires
        spec_directory_wf(apps, clients),
    ensures
        spec_directory_wf(spec_cleared(apps), clients.remove_keys(spec_app_members(apps).to_set())),
{
    let apps2 = spec_cleared(apps);
    let clients2 = clients.remove_keys(spec_app_members(apps).to_set());
    assert forall|a: u64, r: u64, c: u64| !#[trigger] spec_in_room(apps2, a, r, c) by {
        if a < apps2.len() {
            assert(apps2[a as int].rooms.rooms.len() == 0);
            assert(!apps2[a as int].rooms.has_id(r));
        }
    }
    assert(spec_apps_wf(apps2)) by {
        assert forall|i: int| 0 <= i < apps2.len() implies (#[trigger] apps2[i]).id == i && apps2[i].rooms.wf() by {
            assert(apps2[i] == spec_cleared_app(apps[i]));
            assert(apps[i].id == i);
            assert forall|code: Seq<char>| apps2[i].rooms.codes.contains(code) <==> apps2[i].rooms.has_code(
                code,
            ) by {}
        }
    }
    assert forall|c: u64| #[trigger] clients2.contains_key(c) implies spec_client_ok(apps2, c, clients2[c].state) by {
        assert(clients.contains_key(c));
        match clients[c].state {
            ClientState::InRoom { app_id: a, room_id: r } => {
                assert(spec_in_room(apps, a, r, c));
                let v = apps[a as int].rooms;
                assert(v.wf());
                assert(spec_ids_distinct(v.rooms));
                lemma_room_members(v);
                assert(v.in_room(r, c));
                assert(spec_room_members(v.rooms).contains(c));
                lemma_app_members(apps, a as int, c);
                assert(false);
            },
            _ => {},
        }
    }
}

/// Collects the members of all rooms.
pub fn all_members(apps: &Apps) -> (r: Vec<u64>)
    ensures
        r@ == spec_app_members(apps@),
{
    let list = apps.as_slice();
    let ghost views = apps@;
    let mut out: Vec<u64> = Vec::new();
    let mut a: usize = 0;
    while a < list.len()
        invariant
            a <= list.len(),
            views == list@.map_values(|app: crate::relay::apps::App| app@),
            out@ == spec_app_members(views.take(a as int)),
        decreases list.len() - a,
    {
        assert(views.take(a + 1).drop_last() =~= views.take(a as int));
        assert(views.take(a + 1).last() == list@[a as int]@);
        let mut members = list[a].rooms.all_clients();
        out.append(&mut members);
        a += 1;
    }
    assert(views.take(a as int) =~= views);
    out
}

/// Shuts the directory down: every member of every room is told to
/// disconnect and is forgotten, and every room is destroyed.
pub fn cleanup(apps: &mut Apps, clients: &mut Clients) -> (actions: Vec<Action>)
    requires
        spec_directory_wf(old(apps)@, old(clients)@),
    ensures
        spec_directory_wf(final(apps)@, final(clients)@),
        spec_actions(actions@) == spec_force_all(spec_app_members(old(apps)@)),
        final(apps)@ == spec_cleared(old(apps)@),
        final(clients)@ == old(clients)@.remove_keys(spec_app_members(old(apps)@).to_set()),
{
    let ghost apps0 = apps@;
    let ghost clients0 = clients@;
    let disconnects = all_members(apps);
    let ghost members = disconnects@;
    let mut actions: Vec<Action> = Vec::new();
    assert(spec_actions(actions@) =~= spec_force_all(members.take(0)));

    let mut i: usize = 0;
    while i < disconnects.len()
        invariant
            i <= disconnects.len(),
            members == disconnects@,
            spec_actions(actions@) == spec_force_all(members.take(i as int)),
        decreases disconnects.len() - i,
    {
        let ghost sent = spec_actions(actions@);
        send_reliable(&mut actions, disconnects[i], Packet::ForceDisconnect);
        assert(spec_force_all(members.take(i + 1)) =~= sent.push(
            spec_reliable(members[i as int], PacketView::ForceDisconnect),
        ));
        i += 1;
    }
    assert(members.take(i as int) =~= members);

    let count = apps.len();
    let mut a: usize = 0;
    while a < count
        invariant
            a <= count,
            count == apps0.len(),
            apps@.len() == apps0.len(),
            forall|k: int| 0 <= k < a ==> #[trigger] apps@[k] == spec_cleared_app(apps0[k]),
            forall|k: int| a <= k < apps0.len() ==> #[trigger] apps@[k] == apps0[k],
        decreases count - a,
    {
        match apps.get_mut(a as u64) {
            Some(app) => {
                app.rooms.clear();
            },
            None => {},
        }
        a += 1;
    }
    assert(apps@ =~= spec_cleared(apps0));

    let mut i: usize = 0;
    assert(clients0.remove_keys(members.take(0).to_set()) =~= clients0);
    while i < disconnects.len()
        invariant
            i <= disconnects.len(),
            members == disconnects@,
            clients@ == clients0.remove_keys(members.take(i as int).to_set()),
        decreases disconnects.len() - i,
    {
        clients.remove(disconnects[i]);
        proof {
            assert(members.take(i + 1) =~= members.take(i as int).push(members[i as int]));
            lemma_to_set_push(members.take(i as int), members[i as int]);
            assert(clients@ =~= clients0.remove_keys(members.take(i + 1).to_set()));
        }
        i += 1;
    }
    assert(members.take(i as int) =~= members);
    proof {
        lemma_cleared(apps0, clients0);
    }
    actions
}

} // verus!
