//! The clients that the transport has reported, each with the state it has
//! reached.

use std::collections::HashMap;
use vstd::prelude::*;

verus! {

broadcast use vstd::std_specs::hash::group_hash_axioms;

/// How far a client has come. A client starts as `Connected`.
#[derive(Debug, Clone, Copy, PartialEq, Eq, Structural)]
pub enum ClientState {
    Connected,
    Authenticated { app_id: u64 },
    InRoom { app_id: u64, room_id: u64 },
}

impl Default for ClientState {
    fn default() -> (r: Self)
        ensures
            r == ClientState::Connected,
    {
        ClientState::Connected
    }
}

/// What the relay knows of one client.
#[derive(Debug, Clone, Copy, PartialEq, Eq, Structural)]
pub struct Client {
    pub state: ClientState,
}

impl Default for Client {
    fn default() -> (r: Self)
        ensures
            r.state == ClientState::Connected,
    {
        Client { state: ClientState::Connected }
    }
}

impl Client {
    /// A client that has just connected.
    pub fn new() -> (r: Self)
        ensures
            r.state == ClientState::Connected,
    {
        Client { state: ClientState::Connected }
    }
}

/// All clients that are connected to the relay, by their id.
pub struct Clients {
    by_id: HashMap<u64, Client>,
}

impl View for Clients {
    type V = Map<u64, Client>;

    closed spec fn view(&self) -> Map<u64, Client> {
        self.by_id@
    }
}

impl Default for Clients {
    fn default() -> (r: Self)
        ensures
            r@ == Map::<u64, Client>::empty(),
    {
        Clients { by_id: HashMap::new() }
    }
}

impl Clients {
    /// No client yet.
    pub fn new() -> (r: Self)
        ensures
            r@ == Map::<u64, Client>::empty(),
    {
        Clients { by_id: HashMap::new() }
    }

    /// Records a client under `id`, in the state `Connected`. A client that
    /// was recorded under `id` before is replaced.
    pub fn create(&mut self, id: u64)
        ensures
            final(self)@ == old(self)@.insert(id, Client { state: ClientState::Connected }),
    {
        self.by_id.insert(id, Client::new());
    }

    /// Forgets the client `id` and returns what was known of it.
    pub fn remove(&mut self, id: u64) -> (r: Option<Client>)
        ensures
            final(self)@ == old(self)@.remove(id),
            r == (if old(self)@.contains_key(id) {
                Some(old(self)@[id])
            } else {
                None
            }),
    {
        self.by_id.remove(&id)
    }

    /// What is known of the client `id`.
    pub fn get(&self, id: u64) -> (r: Option<&Client>)
        ensures
            r == (if self@.contains_key(id) {
                Some(&self@[id])
            } else {
                None
            }),
    {
        self.by_id.get(&id)
    }

    /// Puts the client `id` into `state`. Says whether the client is known;
    /// an unknown one is not recorded.
    pub fn set_state(&mut self, id: u64, state: ClientState) -> (r: bool)
        ensures
            r == old(self)@.contains_key(id),
            r ==> final(self)@ == old(self)@.insert(id, Client { state }),
            !r ==> final(self)@ == old(self)@,
    {
        if self.by_id.contains_key(&id) {
            self.by_id.insert(id, Client { state });
            true
        } else {
            false
        }
    }
}

} // verus!
