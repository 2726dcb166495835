//! Who may authenticate: the version gate and the application whitelist.

use vstd::prelude::*;
use vstd::string::StringExecFns;
use crate::config::Config;
use crate::protocol::packet::{Packet, PacketView};
use crate::relay::action::{spec_actions, spec_error, spec_reliable, Action, ActionView};
use crate::relay::apps::{lemma_find_token, spec_apps_wf, spec_find_token, spec_new_app, AppView, Apps};
use crate::relay::clients::{Client, ClientState, Clients};
use crate::relay::directory::{spec_client_ok, spec_directory_wf, spec_in_room};
use crate::relay::handlers::disconnect::{force_disconnect, lemma_outsider_removed};
use crate::relay::handlers::room::{send_reliable, ERROR_DENIED};
use crate::text::str_eq;

verus! {

/// The answer of the remote whitelist that lets a token pass.
pub const STATUS_OK: u16 = 200;

/// The answer of the remote whitelist that turns a token down.
pub const STATUS_NOT_FOUND: u16 = 404;

/// Whether `list` holds the text `text`.
pub open spec fn spec_lists(list: Seq<String>, text: Seq<char>) -> bool {
    exists|i: int| 0 <= i < list.len() && (#[trigger] list[i])@ == text
}

/// An empty list lets everything pass; any other only what it holds.
pub open spec fn spec_passes(list: Seq<String>, text: Seq<char>) -> bool {
    list.len() == 0 || spec_lists(list, text)
}

/// Whether a client of version `version` may authenticate.
pub open spec fn spec_version_allowed(config: Config, version: Seq<char>) -> bool {
    spec_passes(config.allowed_versions@, version)
}

/// Whether the local whitelist lets the application token `app` pass.
pub open spec fn spec_local_whitelist(config: Config, app: Seq<char>) -> bool {
    spec_passes(config.whitelist@, app)
}

/// Whether a remote whitelist is to be asked: both its address and the
/// credential for it are set.
pub open spec fn spec_uses_remote(config: Config) -> bool {
    config.remote_whitelist_endpoint@.len() > 0 && config.remote_whitelist_token@.len() > 0
}

/// Whether the application token `app` is admitted, given what the remote
/// whitelist answered: `status` is its answer, or `None` if the request
/// failed. `STATUS_OK` admits, `STATUS_NOT_FOUND` turns down; on anything
/// else the local whitelist decides.
pub open spec fn spec_admission(config: Config, app: Seq<char>, status: Option<u16>) -> bool {
    match status {
        Some(code) => if code == STATUS_OK {
            true
        } else if code == STATUS_NOT_FOUND {
            false
        } else {
            spec_local_whitelist(config, app)
        },
        None => spec_local_whitelist(config, app),
    }
}

fn passes(list: &Vec<String>, text: &str) -> (r: bool)
    ensures
        r == spec_passes(list@, text@),
{
    if list.len() == 0 {
        return true;
    }
    let mut i: usize = 0;
    while i < list.len()
        invariant
            i <= list.len(),
            list@.len() > 0,
            forall|k: int| 0 <= k < i ==> (#[trigger] list@[k])@ != text@,
        decreases list.len() - i,
    {
        if str_eq(list[i].as_str(), text) {
            return true;
        }
        i += 1;
    }
    false
}

/// Whether a client of version `version` may authenticate.
pub fn is_version_allowed(config: &Config, version: &str) -> (r: bool)
    ensures
        r == spec_version_allowed(*config, version@),
{
    passes(&config.allowed_versions, version)
}

/// Whether the local whitelist lets the application token `app` pass.
pub fn check_local_whitelist(config: &Config, app: &str) -> (r: bool)
    ensures
        r == spec_local_whitelist(*config, app@),
{
    passes(&config.whitelist, app)
}

/// Whether a remote whitelist is to be asked.
pub fn uses_remote_whitelist(config: &Config) -> (r: bool)
    ensures
        r == spec_uses_remote(*config),
{
    !config.remote_whitelist_endpoint.as_str().is_empty() && !config.remote_whitelist_token.as_str().is_empty()
}

/// Decides on the application token `app` once the remote whitelist has
/// answered, or has failed to.
pub fn is_app_allowed(config: &Config, app: &str, status: Option<u16>) -> (r: bool)
    ensures
        r == spec_admission(*config, app@, status),
{
    match status {
        Some(code) => {
            if code == STATUS_OK {
                true
            } else if code == STATUS_NOT_FOUND {
                false
            } else {
                check_local_whitelist(config, app)
            }
        },
        None => check_local_whitelist(config, app),
    }
}

/// What a client of a version that is not allowed is told.
pub open spec fn spec_version_message(version: Seq<char>) -> Seq<char> {
    "Version "@ + version + " is not allowed"@
}

/// Turning a client away: it is told why, told to disconnect, and its
/// transport session is to be ended.
pub open spec fn spec_deny(sender_id: u64, message: Seq<char>) -> Seq<ActionView> {
    seq![
        spec_error(sender_id, ERROR_DENIED, message),
        spec_reliable(sender_id, PacketView::ForceDisconnect),
        ActionView::Disconnect { client_id: sender_id },
    ]
}

/// What the decision on an application token comes to. A client that is
/// turned down is turned away and forgotten. A client that is admitted
/// becomes an authenticated client of the application that was made last
/// with its token, or of a new one if there is none, and is told so.
pub open spec fn spec_decide(
    apps: Seq<AppView>,
    clients: Map<u64, Client>,
    apps2: Seq<AppView>,
    clients2: Map<u64, Client>,
    actions: Seq<ActionView>,
    sender_id: u64,
    app_token: Seq<char>,
    allowed: bool,
) -> bool {
    if !allowed {
        &&& apps2 == apps
        &&& clients2 == clients.remove(sender_id)
        &&& actions == spec_deny(sender_id, "Unauthorized"@)
    } else {
        let found = spec_find_token(apps, app_token);
        let app_id = if found is Some { found->0 as u64 } else { apps.len() as u64 };
        &&& apps2 == (if found is Some { apps } else { apps.push(spec_new_app(app_id, app_token)) })
        &&& clients2 == clients.insert(sender_id, Client { state: ClientState::Authenticated { app_id } })
        &&& actions == seq![spec_reliable(sender_id, PacketView::ClientAuthenticated)]
    }
}

/// What a request to authenticate comes to. `sender_id` must be a client
/// that has not authenticated yet; otherwise nothing happens. A version
/// that is not allowed has the client turned away and forgotten. Where a
/// remote whitelist is to be asked, the caller is asked to do so and nothing
/// else happens yet; else the local whitelist decides at once.
pub open spec fn spec_authenticate(
    config: Config,
    apps: Seq<AppView>,
    clients: Map<u64, Client>,
    apps2: Seq<AppView>,
    clients2: Map<u64, Client>,
    actions: Seq<ActionView>,
    sender_id: u64,
    app_token: Seq<char>,
    version: Seq<char>,
) -> bool {
    if !(clients.contains_key(sender_id) && clients[sender_id].state == ClientState::Connected) {
        apps2 == apps && clients2 == clients && actions.len() == 0
    } else if !spec_version_allowed(config, version) {
        &&& apps2 == apps
        &&& clients2 == clients.remove(sender_id)
        &&& actions == spec_deny(sender_id, spec_version_message(version))
    } else if spec_uses_remote(config) {
        &&& apps2 == apps
        &&& clients2 == clients
        &&& actions == seq![ActionView::CheckWhitelist { client_id: sender_id, app_token }]
    } else {
        spec_decide(
            apps,
            clients,
            apps2,
            clients2,
            actions,
            sender_id,
            app_token,
            spec_local_whitelist(config, app_token),
        )
    }
}

/// What the answer of the remote whitelist comes to. `sender_id` must
/// still be a client that has not authenticated; otherwise nothing happens.
pub open spec fn spec_complete_authentication(
    config: Config,
    apps: Seq<AppView>,
    clients: Map<u64, Client>,
    apps2: Seq<AppView>,
    clients2: Map<u64, Client>,
    actions: Seq<ActionView>,
    sender_id: u64,
    app_token: Seq<char>,
    status: Option<u16>,
) -> bool {
    if !(clients.contains_key(sender_id) && clients[sender_id].state == ClientState::Connected) {
        apps2 == apps && clients2 == clients && actions.len() == 0
    } else {
        spec_decide(
            apps,
            clients,
            apps2,
            clients2,
            actions,
            sender_id,
            app_token,
            spec_admission(config, app_token, status),
        )
    }
}

fn is_connected(clients: &Clients, id: u64) -> (r: bool)
    ensures
        r == (clients@.contains_key(id) && clients@[id].state == ClientState::Connected),
{
    match clients.get(id) {
        Some(client) => match client.state {
            ClientState::Connected => true,
            _ => false,
        },
        None => false,
    }
}

fn deny(clients: &mut Clients, actions: &mut Vec<Action>, sender_id: u64, message: String)
    requires
        old(actions)@.len() == 0,
    ensures
        final(clients)@ == old(clients)@.remove(sender_id),
        spec_actions(final(actions)@) == spec_deny(sender_id, message@),
{
    clients.remove(sender_id);
    assert(spec_actions(actions@) =~= Seq::empty());
    send_reliable(actions, sender_id, Packet::Error { error_code: ERROR_DENIED, error_message: message });
    force_disconnect(actions, sender_id);
    assert(spec_actions(actions@) =~= spec_deny(sender_id, message@));
}

fn decide(apps: &mut Apps, clients: &mut Clients, sender_id: u64, app_token: &str, allowed: bool) -> (actions: Vec<
    Action,
>)
    requires
        spec_directory_wf(old(apps)@, old(clients)@),
        old(clients)@.contains_key(sender_id),
        old(clients)@[sender_id].state == ClientState::Connected,
    ensures
        spec_directory_wf(final(apps)@, final(clients)@),
        spec_decide(
            old(apps)@,
            old(clients)@,
            final(apps)@,
            final(clients)@,
            spec_actions(actions@),
            sender_id,
            app_token@,
            allowed,
        ),
{
    let mut actions: Vec<Action> = Vec::new();
    let ghost apps0 = apps@;
    let ghost clients0 = clients@;
    if !allowed {
        deny(clients, &mut actions, sender_id, "Unauthorized".to_owned());
        proof {
            lemma_outsider_removed(apps0, clients0, sender_id);
        }
        return actions;
    }
    proof {
        lemma_find_token(apps0, app_token@);
    }
    let count = apps.len();
    let found = match apps.get_by_token(app_token) {
        Some(app) => Some(app.id),
        None => None,
    };
    let app_id = match found {
        Some(id) => id,
        None => apps.create(app_token.to_owned()),
    };
    clients.set_state(sender_id, ClientState::Authenticated { app_id });
    assert(spec_actions(actions@) =~= Seq::empty());
    send_reliable(&mut actions, sender_id, Packet::ClientAuthenticated);
    proof {
        assert(spec_actions(actions@) =~= seq![spec_reliable(sender_id, PacketView::ClientAuthenticated)]);
        lemma_authenticated(apps0, clients0, apps@, sender_id, app_id, app_token@);
    }
    actions
}

/// A client that is in no room becomes an authenticated client of an
/// application, which may be new: the directory stays together.
pub proof fn lemma_authenticated(
    apps: Seq<AppView>,
    clients: Map<u64, Client>,
    apps2: Seq<AppView>,
    client: u64,
    app_id: u64,
    token: Seq<char>,
)
    requires
        spec_directory_wf(apps, clients),
        clients.contains_key(client),
        !(clients[client].state is InRoom),
        app_id < apps2.len(),
        apps.len() <= u64::MAX,
        apps2 == apps || apps2 == apps.push(spec_new_app(apps.len() as u64, token)),
    ensures
        spec_directory_wf(apps2, clients.insert(client, Client { state: ClientState::Authenticated { app_id } })),
{
    let clients2 = clients.insert(client, Client { state: ClientState::Authenticated { app_id } });
    assert forall|a: u64, r: u64, c: u64| spec_in_room(apps2, a, r, c) == #[trigger] spec_in_room(apps, a, r, c) by {
        if a < apps.len() {
            assert(apps2[a as int] == apps[a as int]);
        } else if a < apps2.len() {
            assert(apps2[a as int].rooms.rooms.len() == 0);
            assert(!apps2[a as int].rooms.has_id(r));
        }
    }
    assert(spec_apps_wf(apps2)) by {
        assert forall|i: int| 0 <= i < apps2.len() implies (#[trigger] apps2[i]).id == i && apps2[i].rooms.wf() by {
            if i < apps.len() {
                assert(apps2[i] == apps[i]);
            } else {
                assert(apps2[i].rooms.rooms.len() == 0);
                assert forall|code: Seq<char>| apps2[i].rooms.codes.contains(code) <==> apps2[i].rooms.has_code(
                    code,
                ) by {}
            }
        }
    }
    assert forall|c: u64| #[trigger] clients2.contains_key(c) implies spec_client_ok(apps2, c, clients2[c].state) by {
        if c != client {
            assert(clients.contains_key(c));
            match clients[c].state {
                ClientState::InRoom { app_id: a, room_id: r } => {
                    assert(spec_in_room(apps, a, r, c));
                },
                _ => {},
            }
        }
    }
    assert forall|a: u64, r: u64, c: u64| #[trigger] spec_in_room(apps2, a, r, c) implies clients2.contains_key(c)
        && clients2[c].state == (ClientState::InRoom { app_id: a, room_id: r }) by {
        assert(spec_in_room(apps, a, r, c));
    }
}

/// Handles a request to authenticate.
pub fn authenticate_client(
    config: &Config,
    apps: &mut Apps,
    clients: &mut Clients,
    sender_id: u64,
    app_token: &str,
    version: &str,
) -> (actions: Vec<Action>)
    requires
        spec_directory_wf(old(apps)@, old(clients)@),
    ensures
        spec_directory_wf(final(apps)@, final(clients)@),
        spec_authenticate(
            *config,
            old(apps)@,
            old(clients)@,
            final(apps)@,
            final(clients)@,
            spec_actions(actions@),
            sender_id,
            app_token@,
            version@,
        ),
{
    let mut actions: Vec<Action> = Vec::new();
    assert(spec_actions(actions@) =~= Seq::empty());
    if !is_connected(clients, sender_id) {
        return actions;
    }
    if !is_version_allowed(config, version) {
        let mut msg = "Version ".to_owned();
        msg.append(version);
        msg.append(" is not allowed");
        proof {
            lemma_outsider_removed(apps@, clients@, sender_id);
        }
        deny(clients, &mut actions, sender_id, msg);
        return actions;
    }
    if uses_remote_whitelist(config) {
        actions.push(Action::CheckWhitelist { client_id: sender_id, app_token: app_token.to_owned() });
        assert(spec_actions(actions@) =~= seq![
            ActionView::CheckWhitelist { client_id: sender_id, app_token: app_token@ },
        ]);
        return actions;
    }
    let allowed = check_local_whitelist(config, app_token);
    decide(apps, clients, sender_id, app_token, allowed)
}

/// Takes in the answer of the remote whitelist about `app_token`:
/// `status` is what it answered, or `None` if it could not be asked.
pub fn complete_authentication(
    config: &Config,
    apps: &mut Apps,
    clients: &mut Clients,
    sender_id: u64,
    app_token: &str,
    status: Option<u16>,
) -> (actions: Vec<Action>)
    requires
        spec_directory_wf(old(apps)@, old(clients)@),
    ensures
        spec_directory_wf(final(apps)@, final(clients)@),
        spec_complete_authentication(
            *config,
            old(apps)@,
            old(clients)@,
            final(apps)@,
            final(clients)@,
            spec_actions(actions@),
            sender_id,
            app_token@,
            status,
        ),
{
    if !is_connected(clients, sender_id) {
        let actions: Vec<Action> = Vec::new();
        assert(spec_actions(actions@) =~= Seq::empty());
        return actions;
    }
    let allowed = is_app_allowed(config, app_token, status);
    decide(apps, clients, sender_id, app_token, allowed)
}

} // verus!
