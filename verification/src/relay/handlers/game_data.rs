//! Game data goes from one peer of a room to another.

use vstd::prelude::*;
use vstd::slice::slice_to_vec;
use crate::protocol::packet::{Packet, PacketView};
use crate::relay::action::{spec_actions, Action, ActionView};
use crate::relay::apps::{AppView, Apps};
use crate::udp::common::TransferChannel;

verus! {

/// What is to be sent when the client `sender_id`, whose state names the
/// room `room_id` of application `app_id`, sends `data` to the peer
/// `target_peer`: the data, marked with the sender's peer id, for the client
/// behind `target_peer`, on the channel it came on. Nothing is sent when the
/// room is not there, the sender is not in it, or no member carries
/// `target_peer` (it may just have left).
pub open spec fn spec_route_game_data(
    apps: Seq<AppView>,
    sender_id: u64,
    app_id: u64,
    room_id: u64,
    target_peer: i32,
    data: Seq<u8>,
    channel: TransferChannel,
) -> Seq<ActionView> {
    if app_id < apps.len() && apps[app_id as int].rooms.has_id(room_id) {
        let room = apps[app_id as int].rooms.by_id(room_id);
        match (room.peer_of(sender_id), room.client_of(target_peer)) {
            (Some(from_peer), Some(target)) => seq![
                ActionView::Send { target, packet: PacketView::GameData { from_peer, data }, channel },
            ],
            _ => Seq::empty(),
        }
    } else {
        Seq::empty()
    }
}

/// Routes game data within the sender's room. The directory is only read.
pub fn route_game_data(
    apps: &Apps,
    sender_id: u64,
    client_app_id: u64,
    client_room_id: u64,
    target_peer: i32,
    data: &[u8],
    channel: TransferChannel,
) -> (actions: Vec<Action>)
    requires
        apps.wf(),
    ensures
        spec_actions(actions@) == spec_route_game_data(
            apps@,
            sender_id,
            client_app_id,
            client_room_id,
            target_peer,
            data@,
            channel,
        ),
{
    let mut actions: Vec<Action> = Vec::new();
    assert(spec_actions(actions@) =~= Seq::empty());
    let Some(app) = apps.get(client_app_id) else {
        return actions;
    };
    let Some(room) = app.rooms.get(client_room_id) else {
        return actions;
    };
    proof {
        let v = app.rooms@;
        let i = v.index_of(client_room_id);
        assert(v.rooms[i].wf());
    }
    let Some(sender_godot_id) = room.client_to_gd(sender_id) else {
        return actions;
    };
    let Some(target_renet_id) = room.gd_to_client(target_peer) else {
        return actions;
    };
    actions.push(
        Action::Send {
            target: target_renet_id,
            packet: Packet::GameData { from_peer: sender_godot_id, data: slice_to_vec(data) },
            channel,
        },
    );
    assert(spec_actions(actions@) =~= seq![
        ActionView::Send {
            target: target_renet_id,
            packet: PacketView::GameData { from_peer: sender_godot_id, data: data@ },
            channel,
        },
    ]);
    actions
}

} // verus!
