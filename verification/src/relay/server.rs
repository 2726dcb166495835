//! The router: what each event of the transport does to the directory, and
//! what is to be sent in answer. The caller owns the socket; it hands in
//! events and carries out the actions that come back.

use vstd::prelude::*;
use crate::config::Config;
use crate::protocol::packet::{spec_decode, Packet, PacketView};
use crate::relay::action::{spec_actions, Action, ActionView};
use crate::relay::apps::{AppView, Apps};
use crate::relay::clients::{Client, ClientState, Clients};
use crate::relay::directory::{spec_client_ok, spec_directory_wf};
use crate::relay::handlers::auth::{
    authenticate_client, complete_authentication, spec_authenticate, spec_complete_authentication,
};
use crate::relay::handlers::disconnect::{handle_disconnect, spec_handle_disconnect};
use crate::relay::handlers::game_data::{route_game_data, spec_route_game_data};
use crate::relay::handlers::room::{
    create_room, recv_join_req, recv_join_res, send_rooms, spec_create_room, spec_recv_join_req,
    spec_recv_join_res, spec_send_rooms, spec_update_room, update_room,
};
use crate::relay::handlers::shutdown::{cleanup, spec_app_members, spec_cleared, spec_force_all};
use crate::udp::common::{ServerEvent, ServerEventView, TransferChannel};

verus! {

/// The relay as mathematics sees it.
pub struct ServerView {
    pub config: Config,
    pub apps: Seq<AppView>,
    pub clients: Map<u64, Client>,
}

/// Which packets a client may send in which state. Any other packet is
/// ignored.
pub open spec fn spec_allowed(state: ClientState, packet: PacketView) -> bool {
    match state {
        ClientState::Connected => packet is Authenticate,
        ClientState::Authenticated { .. } => packet is CreateRoom || packet is ReqRooms || packet is ReqJoin,
        ClientState::InRoom { .. } => packet is UpdateRoom || packet is JoinRes || packet is GameData,
    }
}

/// Nothing has changed and nothing is to be done.
pub open spec fn spec_ignored(s: ServerView, s2: ServerView, actions: Seq<ActionView>) -> bool {
    s2 == s && actions.len() == 0
}

/// What the packet `packet`, sent on `channel` by the client `from` whose
/// state is `state`, comes to. A packet that the state does not allow is
/// ignored: it changes nothing in the directory.
pub open spec fn spec_dispatch(
    s: ServerView,
    s2: ServerView,
    actions: Seq<ActionView>,
    from: u64,
    state: ClientState,
    packet: PacketView,
    channel: TransferChannel,
) -> bool {
    if !spec_allowed(state, packet) {
        spec_ignored(s, s2, actions)
    } else {
        &&& s2.config == s.config
        &&& match (state, packet) {
            (ClientState::Connected, PacketView::Authenticate { app_id, version }) => spec_authenticate(
                s.config,
                s.apps,
                s.clients,
                s2.apps,
                s2.clients,
                actions,
                from,
                app_id,
                version,
            ),
            (ClientState::Authenticated { app_id }, PacketView::CreateRoom { is_public, metadata }) => {
                spec_create_room(s.apps, s.clients, s2.apps, s2.clients, actions, from, app_id, is_public, metadata)
            },
            (ClientState::Authenticated { app_id }, PacketView::ReqJoin { room_id, metadata }) => {
                &&& s2 == s
                &&& actions == spec_recv_join_req(s.apps, from, app_id, room_id, metadata)
            },
            (ClientState::Authenticated { app_id }, PacketView::ReqRooms) => {
                &&& s2 == s
                &&& actions == spec_send_rooms(s.apps, from, app_id)
            },
            (ClientState::InRoom { app_id, room_id }, PacketView::UpdateRoom { metadata, .. }) => {
                &&& s2.clients == s.clients
                &&& spec_update_room(s.apps, s2.apps, actions, from, app_id, room_id, metadata)
            },
            (ClientState::InRoom { app_id, room_id }, PacketView::JoinRes { target_id, allowed, .. }) => {
                spec_recv_join_res(
                    s.apps,
                    s.clients,
                    s2.apps,
                    s2.clients,
                    actions,
                    app_id,
                    target_id,
                    room_id,
                    allowed,
                )
            },
            (ClientState::InRoom { app_id, room_id }, PacketView::GameData { from_peer, data }) => {
                &&& s2 == s
                &&& actions == spec_route_game_data(s.apps, from, app_id, room_id, from_peer, data, channel)
            },
            _ => spec_ignored(s, s2, actions),
        }
    }
}

/// A packet that its sender's state does not allow leaves the directory as
/// it was, and nothing is sent for it.
pub proof fn lemma_forbidden_packet_changes_nothing(
    s: ServerView,
    s2: ServerView,
    actions: Seq<ActionView>,
    from: u64,
    data: Seq<u8>,
    channel: TransferChannel,
)
    requires
        spec_handle_packet(s, s2, actions, from, data, channel),
        s.clients.contains_key(from),
        spec_decode(data) is Ok,
        !spec_allowed(s.clients[from].state, spec_decode(data)->Ok_0),
    ensures
        s2.apps == s.apps,
        s2.clients == s.clients,
        actions.len() == 0,
{
}

/// A payload from a client that the relay does not know, or one that is no
/// packet, leaves the directory as it was.
pub proof fn lemma_stray_payload_changes_nothing(
    s: ServerView,
    s2: ServerView,
    actions: Seq<ActionView>,
    from: u64,
    data: Seq<u8>,
    channel: TransferChannel,
)
    requires
        spec_handle_packet(s, s2, actions, from, data, channel),
        !s.clients.contains_key(from) || spec_decode(data) is Err,
    ensures
        s2 == s,
        actions.len() == 0,
{
}

/// What the payload `data` from the client `from` comes to: a payload from
/// a client that is not known, or one that is no packet, is ignored; any
/// other goes by the state of its sender.
pub open spec fn spec_handle_packet(
    s: ServerView,
    s2: ServerView,
    actions: Seq<ActionView>,
    from: u64,
    data: Seq<u8>,
    channel: TransferChannel,
) -> bool {
    if !s.clients.contains_key(from) {
        spec_ignored(s, s2, actions)
    } else {
        match spec_decode(data) {
            Err(_) => spec_ignored(s, s2, actions),
            Ok(packet) => spec_dispatch(s, s2, actions, from, s.clients[from].state, packet, channel),
        }
    }
}

/// What an event of the transport comes to. A client that connects is
/// recorded in the state `Connected`, unless its id is recorded already.
pub open spec fn spec_handle_event(
    s: ServerView,
    s2: ServerView,
    actions: Seq<ActionView>,
    event: ServerEventView,
) -> bool {
    match event {
        ServerEventView::ClientConnected { client_id } => {
            &&& s2.config == s.config
            &&& s2.apps == s.apps
            &&& actions.len() == 0
            &&& s2.clients == (if s.clients.contains_key(client_id) {
                s.clients
            } else {
                s.clients.insert(client_id, Client { state: ClientState::Connected })
            })
        },
        ServerEventView::ClientDisconnected { client_id } => {
            &&& s2.config == s.config
            &&& spec_handle_disconnect(s.apps, s.clients, s2.apps, s2.clients, actions, client_id)
        },
        ServerEventView::PacketReceived { client_id, data, channel } => spec_handle_packet(
            s,
            s2,
            actions,
            client_id,
            data,
            channel,
        ),
    }
}

/// The relay's directory and the rules by which events change it.
pub struct RelayServer {
    config: Config,
    apps: Apps,
    clients: Clients,
}

impl View for RelayServer {
    type V = ServerView;

    closed spec fn view(&self) -> ServerView {
        ServerView { config: self.config, apps: self.apps@, clients: self.clients@ }
    }
}

impl RelayServer {
    /// Applications, rooms and clients agree with one another.
    pub open spec fn wf(&self) -> bool {
        spec_directory_wf(self@.apps, self@.clients)
    }

    /// A relay without applications or clients.
    pub fn new(config: Config) -> (r: Self)
        ensures
            r.wf(),
            r@.config == config,
            r@.apps.len() == 0,
            r@.clients == Map::<u64, Client>::empty(),
    {
        Self { config, apps: Apps::new(), clients: Clients::new() }
    }

    /// Takes in one event of the transport and returns what is to be done
    /// for it, in order.
    pub fn handle_event(&mut self, event: ServerEvent) -> (actions: Vec<Action>)
        requires
            old(self).wf(),
        ensures
            final(self).wf(),
            spec_handle_event(old(self)@, final(self)@, spec_actions(actions@), event@),
    {
        match event {
            ServerEvent::ClientConnected { client_id } => {
                let actions: Vec<Action> = Vec::new();
                assert(spec_actions(actions@) =~= Seq::empty());
                if self.clients.get(client_id).is_none() {
                    self.clients.create(client_id);
                    proof {
                        let apps = self@.apps;
                        let before = old(self)@.clients;
                        let after = self@.clients;
                        assert forall|c: u64| #[trigger] after.contains_key(c) implies spec_client_ok(
                            apps,
                            c,
                            after[c].state,
                        ) by {
                            if c != client_id {
                                assert(before.contains_key(c));
                            }
                        }
                    }
                }
                actions
            },
            ServerEvent::ClientDisconnected { client_id } => self.handle_disconnect(client_id),
            ServerEvent::PacketReceived { client_id, data, channel } => self.handle_packet(
                client_id,
                data,
                channel,
            ),
        }
    }

    /// Takes in one payload from the client `from_client_id`.
    pub fn handle_packet(&mut self, from_client_id: u64, data: Vec<u8>, channel: TransferChannel) -> (actions: Vec<
        Action,
    >)
        requires
            old(self).wf(),
        ensures
            final(self).wf(),
            spec_handle_packet(old(self)@, final(self)@, spec_actions(actions@), from_client_id, data@, channel),
    {
        let none: Vec<Action> = Vec::new();
        assert(spec_actions(none@) =~= Seq::empty());
        let Some(client) = self.clients.get(from_client_id) else {
            return none;
        };
        let state = client.state;
        let Ok(packet) = Packet::from_bytes(data.as_slice()) else {
            return none;
        };
        match state {
            ClientState::Connected => match packet {
                Packet::Authenticate { app_id, version } => authenticate_client(
                    &self.config,
                    &mut self.apps,
                    &mut self.clients,
                    from_client_id,
                    app_id.as_str(),
                    version.as_str(),
                ),
                _ => none,
            },
            ClientState::Authenticated { app_id } => match packet {
                Packet::CreateRoom { is_public, metadata } => create_room(
                    &mut self.apps,
                    &mut self.clients,
                    from_client_id,
                    app_id,
                    is_public,
                    metadata.as_str(),
                ),
                Packet::ReqJoin { room_id, metadata } => recv_join_req(
                    &self.apps,
                    from_client_id,
                    app_id,
                    room_id.as_str(),
                    metadata.as_str(),
                ),
                Packet::ReqRooms => send_rooms(&self.apps, from_client_id, app_id),
                _ => none,
            },
            ClientState::InRoom { app_id, room_id } => match packet {
                Packet::UpdateRoom { room_id: _, metadata } => update_room(
                    &mut self.apps,
                    &self.clients,
                    from_client_id,
                    app_id,
                    room_id,
                    metadata.as_str(),
                ),
                Packet::JoinRes { target_id, room_id: _, allowed } => recv_join_res(
                    &mut self.apps,
                    &mut self.clients,
                    app_id,
                    target_id,
                    room_id,
                    allowed,
                ),
                Packet::GameData { from_peer, data } => route_game_data(
                    &self.apps,
                    from_client_id,
                    app_id,
                    room_id,
                    from_peer,
                    data.as_slice(),
                    channel,
                ),
                _ => none,
            },
        }
    }

    /// The transport has reported that the client `client_id` is gone.
    pub fn handle_disconnect(&mut self, client_id: u64) -> (actions: Vec<Action>)
        requires
            old(self).wf(),
        ensures
            final(self).wf(),
            final(self)@.config == old(self)@.config,
            spec_handle_disconnect(
                old(self)@.apps,
                old(self)@.clients,
                final(self)@.apps,
                final(self)@.clients,
                spec_actions(actions@),
                client_id,
            ),
    {
        handle_disconnect(&mut self.apps, &mut self.clients, client_id)
    }

    /// Takes in the answer of the remote whitelist about the token with
    /// which `sender_id` asked to authenticate: `status` is what it
    /// answered, or `None` if it could not be asked.
    pub fn complete_authentication(&mut self, sender_id: u64, app_token: &str, status: Option<u16>) -> (actions: Vec<
        Action,
    >)
        requires
            old(self).wf(),
        ensures
            final(self).wf(),
            final(self)@.config == old(self)@.config,
            spec_complete_authentication(
                old(self)@.config,
                old(self)@.apps,
                old(self)@.clients,
                final(self)@.apps,
                final(self)@.clients,
                spec_actions(actions@),
                sender_id,
                app_token@,
                status,
            ),
    {
        complete_authentication(&self.config, &mut self.apps, &mut self.clients, sender_id, app_token, status)
    }

    /// Shuts the relay down: every member of every room is told to
    /// disconnect and is forgotten, and every room is destroyed.
    pub fn cleanup(&mut self) -> (actions: Vec<Action>)
        requires
            old(self).wf(),
        ensures
            final(self).wf(),
            final(self)@.config == old(self)@.config,
            spec_actions(actions@) == spec_force_all(spec_app_members(old(self)@.apps)),
            final(self)@.apps == spec_cleared(old(self)@.apps),
            final(self)@.clients == old(self)@.clients.remove_keys(spec_app_members(old(self)@.apps).to_set()),
    {
        cleanup(&mut self.apps, &mut self.clients)
    }

    /// The state of the client `id`, if it is known.
    pub fn client_state(&self, id: u64) -> (r: Option<ClientState>)
        ensures
            r == (if self@.clients.contains_key(id) {
                Some(self@.clients[id].state)
            } else {
                None
            }),
    {
        match self.clients.get(id) {
            Some(client) => Some(client.state),
            None => None,
        }
    }

    /// The applications.
    pub fn apps(&self) -> (r: &Apps)
        ensures
            r@ == self@.apps,
    {
        &self.apps
    }

    /// The settings.
    pub fn config(&self) -> (r: &Config)
        ensures
            *r == self@.config,
    {
        &self.config
    }
}

} // verus!
