//! What the router asks its caller to do.

use vstd::prelude::*;
use crate::protocol::packet::{Packet, PacketView};
use crate::udp::common::TransferChannel;

verus! {

/// What the caller is to do for the relay.
#[derive(Debug, Clone, PartialEq, Eq)]
pub enum Action {
    /// Send `packet` to the client `target` on `channel`.
    Send { target: u64, packet: Packet, channel: TransferChannel },
    /// End the transport session of client `client_id`.
    Disconnect { client_id: u64 },
    /// Ask the remote whitelist about `app_token`, and hand its answer to
    /// `complete_authentication`.
    CheckWhitelist { client_id: u64, app_token: String },
    /// Tell the registry that a room has come up.
    RoomUp { join_code: String, app_token: String },
    /// Tell the registry that a room is gone.
    RoomDown { join_code: String },
}

/// An `Action` as mathematics sees it.
pub enum ActionView {
    Send { target: u64, packet: PacketView, channel: TransferChannel },
    Disconnect { client_id: u64 },
    CheckWhitelist { client_id: u64, app_token: Seq<char> },
    RoomUp { join_code: Seq<char>, app_token: Seq<char> },
    RoomDown { join_code: Seq<char> },
}

impl View for Action {
    type V = ActionView;

    open spec fn view(&self) -> ActionView {
        match self {
            Action::Send { target, packet, channel } => ActionView::Send {
                target: *target,
                packet: packet@,
                channel: *channel,
            },
            Action::Disconnect { client_id } => ActionView::Disconnect { client_id: *client_id },
            Action::CheckWhitelist { client_id, app_token } => ActionView::CheckWhitelist {
                client_id: *client_id,
                app_token: app_token@,
            },
            Action::RoomUp { join_code, app_token } => ActionView::RoomUp {
                join_code: join_code@,
                app_token: app_token@,
            },
            Action::RoomDown { join_code } => ActionView::RoomDown { join_code: join_code@ },
        }
    }
}

/// The actions `actions` as mathematics sees them.
pub open spec fn spec_actions(actions: Seq<Action>) -> Seq<ActionView> {
    actions.map_values(|a: Action| a@)
}

/// `packet` for `target`, on the reliable channel.
pub open spec fn spec_reliable(target: u64, packet: PacketView) -> ActionView {
    ActionView::Send { target, packet, channel: TransferChannel::Reliable }
}

/// An error packet for `target`.
pub open spec fn spec_error(target: u64, code: i32, message: Seq<char>) -> ActionView {
    spec_reliable(target, PacketView::Error { error_code: code, error_message: message })
}

} // verus!
