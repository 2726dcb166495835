//! Who is connected: one session per remote endpoint, each with an id that
//! is never handed out again.

use vstd::prelude::*;
use crate::transport::reliability::{elapsed, spec_elapsed};

verus! {

/// Where a client's datagrams come from. An IPv4 address stands as the
/// IPv6 address that it maps to.
#[derive(Debug, Clone, Copy, PartialEq, Eq, Hash, Structural)]
pub struct RemoteAddr {
    pub ip: u128,
    pub port: u16,
}

/// What the transport keeps of one client: its id, its endpoint and the time
/// at which it was last heard from, in milliseconds.
#[derive(Debug, Clone, Copy, PartialEq, Eq, Structural)]
pub struct ClientSession {
    pub id: u64,
    pub addr: RemoteAddr,
    pub last_heard_from: u64,
}

/// The sessions as mathematics sees them: the sessions in the order of
/// their making, and the id that the next one gets.
pub struct ManagerView {
    pub sessions: Seq<ClientSession>,
    pub next_id: u64,
}

impl ManagerView {
    /// Whether a session numbered `id` is alive.
    pub open spec fn has_id(self, id: u64) -> bool {
        exists|i: int| 0 <= i < self.sessions.len() && (#[trigger] self.sessions[i]).id == id
    }

    /// Whether a session of the endpoint `addr` is alive.
    pub open spec fn has_addr(self, addr: RemoteAddr) -> bool {
        exists|i: int| 0 <= i < self.sessions.len() && (#[trigger] self.sessions[i]).addr == addr
    }

    /// The session numbered `id`.
    pub open spec fn by_id(self, id: u64) -> ClientSession {
        self.sessions[choose|i: int| 0 <= i < self.sessions.len() && (#[trigger] self.sessions[i]).id == id]
    }

    /// The session of the endpoint `addr`.
    pub open spec fn by_addr(self, addr: RemoteAddr) -> ClientSession {
        self.sessions[choose|i: int| 0 <= i < self.sessions.len() && (#[trigger] self.sessions[i]).addr == addr]
    }

    /// The map from ids to sessions.
    pub open spec fn id_to_session(self) -> Map<u64, ClientSession> {
        Map::new(|id: u64| self.has_id(id), |id: u64| self.by_id(id))
    }

    /// The map from endpoints to ids.
    pub open spec fn addr_to_id(self) -> Map<RemoteAddr, u64> {
        Map::new(|addr: RemoteAddr| self.has_addr(addr), |addr: RemoteAddr| self.by_addr(addr).id)
    }

    /// No two sessions share an id or an endpoint; ids start at 1 and lie
    /// below the next one to be handed out.
    pub open spec fn wf(self) -> bool {
        &&& 1 <= self.next_id
        &&& forall|i: int| 0 <= i < self.sessions.len() ==> 1 <= (#[trigger] self.sessions[i]).id < self.next_id
        &&& forall|i: int, j: int|
            0 <= i < j < self.sessions.len() ==> (#[trigger] self.sessions[i]).id != (
            #[trigger] self.sessions[j]).id
        &&& forall|i: int, j: int|
            0 <= i < j < self.sessions.len() ==> (#[trigger] self.sessions[i]).addr != (
            #[trigger] self.sessions[j]).addr
    }
}

/// The sessions with the session numbered `id` marked as heard from at
/// `now`.
pub open spec fn spec_touched(sessions: Seq<ClientSession>, id: u64, now: u64) -> Seq<ClientSession> {
    sessions.map_values(
        |s: ClientSession|
            if s.id == id {
                ClientSession { last_heard_from: now, ..s }
            } else {
                s
            },
    )
}

/// The sessions but those numbered `id`, in their order.
pub open spec fn spec_without_id(sessions: Seq<ClientSession>, id: u64) -> Seq<ClientSession>
    decreases sessions.len(),
{
    if sessions.len() == 0 {
        sessions
    } else if sessions.last().id == id {
        spec_without_id(sessions.drop_last(), id)
    } else {
        spec_without_id(sessions.drop_last(), id).push(sessions.last())
    }
}

proof fn lemma_without_id_absent(sessions: Seq<ClientSession>, id: u64)
    requires
        forall|i: int| 0 <= i < sessions.len() ==> (#[trigger] sessions[i]).id != id,
    ensures
        spec_without_id(sessions, id) == sessions,
    decreases sessions.len(),
{
    if sessions.len() > 0 {
        let front = sessions.drop_last();
        assert forall|i: int| 0 <= i < front.len() implies (#[trigger] front[i]).id != id by {
            assert(front[i] == sessions[i]);
        }
        lemma_without_id_absent(front, id);
        assert(sessions.last() == sessions[sessions.len() - 1]);
        assert(front.push(sessions.last()) =~= sessions);
    }
}

proof fn lemma_without_id_at(sessions: Seq<ClientSession>, id: u64, at: int)
    requires
        forall|i: int, j: int|
            0 <= i < j < sessions.len() ==> (#[trigger] sessions[i]).id != (#[trigger] sessions[j]).id,
        0 <= at < sessions.len(),
        sessions[at].id == id,
    ensures
        spec_without_id(sessions, id) == sessions.remove(at),
    decreases sessions.len(),
{
    let front = sessions.drop_last();
    if at == sessions.len() - 1 {
        assert forall|i: int| 0 <= i < front.len() implies (#[trigger] front[i]).id != id by {
            assert(front[i] == sessions[i]);
        }
        lemma_without_id_absent(front, id);
        assert(sessions.remove(at) =~= front);
    } else {
        assert(front[at] == sessions[at]);
        assert forall|i: int, j: int| 0 <= i < j < front.len() implies (#[trigger] front[i]).id != (
        #[trigger] front[j]).id by {
            assert(front[i] == sessions[i]);
            assert(front[j] == sessions[j]);
        }
        lemma_without_id_at(front, id, at);
        assert(sessions.last() == sessions[sessions.len() - 1]);
        assert(sessions.last().id != id);
        assert(front.remove(at).push(sessions.last()) =~= sessions.remove(at));
    }
}

/// Whether a session has been silent for longer than `timeout` at `now`.
pub open spec fn spec_expired(s: ClientSession, now: u64, timeout: u64) -> bool {
    spec_elapsed(now, s.last_heard_from) > timeout
}

/// The ids of the expired sessions among `sessions`, in their order.
pub open spec fn spec_expired_ids(sessions: Seq<ClientSession>, now: u64, timeout: u64) -> Seq<u64>
    decreases sessions.len(),
{
    if sessions.len() == 0 {
        Seq::empty()
    } else if spec_expired(sessions.last(), now, timeout) {
        spec_expired_ids(sessions.drop_last(), now, timeout).push(sessions.last().id)
    } else {
        spec_expired_ids(sessions.drop_last(), now, timeout)
    }
}

/// The sessions among `sessions` that have not expired, in their order.
pub open spec fn spec_alive(sessions: Seq<ClientSession>, now: u64, timeout: u64) -> Seq<ClientSession>
    decreases sessions.len(),
{
    if sessions.len() == 0 {
        Seq::empty()
    } else if spec_expired(sessions.last(), now, timeout) {
        spec_alive(sessions.drop_last(), now, timeout)
    } else {
        spec_alive(sessions.drop_last(), now, timeout).push(sessions.last())
    }
}

/// Under `wf`, the session at index `i` is the one found by its id and by
/// its endpoint.
pub proof fn lemma_session_at(v: ManagerView, i: int)
    requires
        v.wf(),
        0 <= i < v.sessions.len(),
    ensures
        v.has_id(v.sessions[i].id),
        v.by_id(v.sessions[i].id) == v.sessions[i],
        v.has_addr(v.sessions[i].addr),
        v.by_addr(v.sessions[i].addr) == v.sessions[i],
{
    let a = choose|a: int| 0 <= a < v.sessions.len() && (#[trigger] v.sessions[a]).id == v.sessions[i].id;
    assert(a == i);
    let b = choose|b: int| 0 <= b < v.sessions.len() && (#[trigger] v.sessions[b]).addr == v.sessions[i].addr;
    assert(b == i);
}

/// Under `wf`, the session of an endpoint is the session of its own id.
pub proof fn lemma_by_addr(v: ManagerView, addr: RemoteAddr)
    requires
        v.wf(),
        v.has_addr(addr),
    ensures
        v.has_id(v.by_addr(addr).id),
        v.by_id(v.by_addr(addr).id) == v.by_addr(addr),
        v.by_addr(addr).addr == addr,
{
    let i = choose|i: int| 0 <= i < v.sessions.len() && (#[trigger] v.sessions[i]).addr == addr;
    lemma_session_at(v, i);
}

/// Endpoints and ids stand in one-to-one correspondence: the ids that the
/// endpoints lead to are exactly the ids that have a session, and the session
/// of an id leads back to that id through its endpoint.
pub proof fn lemma_maps_agree(v: ManagerView)
    requires
        v.wf(),
    ensures
        v.addr_to_id().values() =~= v.id_to_session().dom(),
        forall|id: u64| #[trigger]
            v.has_id(id) ==> v.has_addr(v.by_id(id).addr) && v.addr_to_id()[v.by_id(id).addr] == id,
        forall|addr: RemoteAddr| #[trigger]
            v.has_addr(addr) ==> v.has_id(v.by_addr(addr).id) && v.id_to_session()[v.by_addr(addr).id].addr
                == addr,
{
    assert forall|id: u64| #[trigger] v.has_id(id) implies v.has_addr(v.by_id(id).addr) && v.addr_to_id()[v.by_id(
        id,
    ).addr] == id by {
        let i = choose|i: int| 0 <= i < v.sessions.len() && (#[trigger] v.sessions[i]).id == id;
        lemma_session_at(v, i);
    }
    assert forall|addr: RemoteAddr| #[trigger] v.has_addr(addr) implies v.has_id(v.by_addr(addr).id)
        && v.id_to_session()[v.by_addr(addr).id].addr == addr by {
        let i = choose|i: int| 0 <= i < v.sessions.len() && (#[trigger] v.sessions[i]).addr == addr;
        lemma_session_at(v, i);
    }
    assert forall|id: u64| v.addr_to_id().values().contains(id) <==> v.id_to_session().dom().contains(id) by {
        if v.addr_to_id().values().contains(id) {
            let addr = choose|addr: RemoteAddr| v.addr_to_id().dom().contains(addr) && v.addr_to_id()[addr] == id;
            assert(v.has_addr(addr));
        }
        if v.has_id(id) {
            let addr = v.by_id(id).addr;
            assert(v.addr_to_id().dom().contains(addr) && v.addr_to_id()[addr] == id);
        }
    }
}

/// The sessions of all clients, found by id or by endpoint.
pub struct ConnectionManager {
    sessions: Vec<ClientSession>,
    next_client_id: u64,
}

impl View for ConnectionManager {
    type V = ManagerView;

    closed spec fn view(&self) -> ManagerView {
        ManagerView { sessions: self.sessions@, next_id: self.next_client_id }
    }
}

impl ConnectionManager {
    /// No session; the first will be numbered 1.
    pub fn new() -> (r: Self)
        ensures
            r@.wf(),
            r@ == (ManagerView { sessions: Seq::empty(), next_id: 1 }),
    {
        Self { sessions: Vec::new(), next_client_id: 1 }
    }

    fn find(&self, id: u64) -> (r: Option<usize>)
        ensures
            match r {
                Some(i) => i < self@.sessions.len() && self@.sessions[i as int].id == id,
                None => !self@.has_id(id),
            },
    {
        let mut i: usize = 0;
        while i < self.sessions.len()
            invariant
                i <= self.sessions.len(),
                forall|k: int| 0 <= k < i ==> (#[trigger] self@.sessions[k]).id != id,
            decreases self.sessions.len() - i,
        {
            if self.sessions[i].id == id {
                return Some(i);
            }
            i += 1;
        }
        None
    }

    fn find_addr(&self, addr: RemoteAddr) -> (r: Option<usize>)
        ensures
            match r {
                Some(i) => i < self@.sessions.len() && self@.sessions[i as int].addr == addr,
                None => !self@.has_addr(addr),
            },
    {
        let mut i: usize = 0;
        while i < self.sessions.len()
            invariant
                i <= self.sessions.len(),
                forall|k: int| 0 <= k < i ==> (#[trigger] self@.sessions[k]).addr != addr,
            decreases self.sessions.len() - i,
        {
            if self.sessions[i].addr == addr {
                return Some(i);
            }
            i += 1;
        }
        None
    }

    /// The sessions in the order of their making.
    pub fn as_slice(&self) -> (r: &[ClientSession])
        ensures
            r@ == self@.sessions,
    {
        self.sessions.as_slice()
    }

    /// The id of the session of `addr`, and whether the session had to be
    /// made for it (then with `now` as the time it was last heard from).
    /// `None`, with nothing changed, when the endpoint is new and no id is
    /// left.
    pub fn get_or_create(&mut self, addr: RemoteAddr, now: u64) -> (r: Option<(u64, bool)>)
        requires
            old(self)@.wf(),
        ensures
            final(self)@.wf(),
            old(self)@.has_addr(addr) ==> r == Some((old(self)@.by_addr(addr).id, false)) && final(self)@
                == old(self)@,
            !old(self)@.has_addr(addr) && old(self)@.next_id == u64::MAX ==> r is None && final(self)@ == old(self)@,
            !old(self)@.has_addr(addr) && old(self)@.next_id < u64::MAX ==> r == Some(
                (old(self)@.next_id, true),
            ) && final(self)@ == (ManagerView {
                sessions: old(self)@.sessions.push(
                    ClientSession { id: old(self)@.next_id, addr, last_heard_from: now },
                ),
                next_id: (old(self)@.next_id + 1) as u64,
            }),
    {
        match self.find_addr(addr) {
            Some(i) => {
                proof {
                    lemma_session_at(self@, i as int);
                }
                Some((self.sessions[i].id, false))
            },
            None => {
                if self.next_client_id == u64::MAX {
                    None
                } else {
                    let id = self.create_session(addr, now);
                    Some((id, true))
                }
            },
        }
    }

    /// Makes a session for the endpoint `addr`, which has none, and returns
    /// its id.
    pub fn create_session(&mut self, addr: RemoteAddr, now: u64) -> (id: u64)
        requires
            old(self)@.wf(),
            !old(self)@.has_addr(addr),
            old(self)@.next_id < u64::MAX,
        ensures
            final(self)@.wf(),
            id == old(self)@.next_id,
            final(self)@ == (ManagerView {
                sessions: old(self)@.sessions.push(ClientSession { id, addr, last_heard_from: now }),
                next_id: (id + 1) as u64,
            }),
    {
        let id = self.next_client_id;
        self.next_client_id += 1;
        self.sessions.push(ClientSession { id, addr, last_heard_from: now });
        proof {
            let before = old(self)@;
            let after = self@;
            assert forall|i: int| 0 <= i < before.sessions.len() implies #[trigger] after.sessions[i]
                == before.sessions[i] by {}
            assert forall|i: int, j: int| 0 <= i < j < after.sessions.len() implies (
            #[trigger] after.sessions[i]).addr != (#[trigger] after.sessions[j]).addr by {
                if j == before.sessions.len() {
                    assert(before.sessions[i].addr != addr);
                }
            }
        }
        id
    }

    /// The session numbered `id`.
    pub fn get_by_id(&self, id: u64) -> (r: Option<&ClientSession>)
        requires
            self@.wf(),
        ensures
            r is Some <==> self@.has_id(id),
            r is Some ==> *r->0 == self@.by_id(id),
    {
        match self.find(id) {
            Some(i) => {
                proof {
                    lemma_session_at(self@, i as int);
                }
                Some(&self.sessions[i])
            },
            None => None,
        }
    }

    /// Notes that the client `id` was heard from at `now`. Says whether
    /// there is such a session.
    pub fn touch(&mut self, id: u64, now: u64) -> (r: bool)
        requires
            old(self)@.wf(),
        ensures
            final(self)@.wf(),
            r == old(self)@.has_id(id),
            final(self)@ == (ManagerView { sessions: spec_touched(old(self)@.sessions, id, now), ..old(self)@ }),
            r ==> final(self)@.has_id(id) && final(self)@.by_id(id) == (ClientSession {
                last_heard_from: now,
                ..old(self)@.by_id(id)
            }),
    {
        let ghost before = self@;
        match self.find(id) {
            Some(i) => {
                proof {
                    lemma_session_at(self@, i as int);
                }
                let session = self.sessions[i];
                self.sessions.set(i, ClientSession { last_heard_from: now, ..session });
                proof {
                    let after = self@;
                    assert forall|k: int| 0 <= k < before.sessions.len() implies #[trigger] after.sessions[k]
                        == spec_touched(before.sessions, id, now)[k] by {
                        if k != i {
                            if k < i {
                                assert(before.sessions[k].id != before.sessions[i as int].id);
                            } else {
                                assert(before.sessions[i as int].id != before.sessions[k].id);
                            }
                        }
                    }
                    assert(after.sessions =~= spec_touched(before.sessions, id, now));
                    lemma_touched(before, id, now);
                    lemma_session_at(after, i as int);
                }
                true
            },
            None => {
                proof {
                    assert(spec_touched(before.sessions, id, now) =~= before.sessions);
                }
                false
            },
        }
    }

    /// Ends every session that has been silent for longer than `timeout` at
    /// `now`, and returns their ids in the order of their making.
    pub fn cleanup_sessions(&mut self, timeout: u64, now: u64) -> (expired: Vec<u64>)
        requires
            old(self)@.wf(),
        ensures
            final(self)@.wf(),
            expired@ == spec_expired_ids(old(self)@.sessions, now, timeout),
            final(self)@ == (ManagerView {
                sessions: spec_alive(old(self)@.sessions, now, timeout),
                ..old(self)@
            }),
            forall|id: u64|
                final(self)@.has_id(id) <==> #[trigger] old(self)@.has_id(id) && !spec_expired(
                    old(self)@.by_id(id),
                    now,
                    timeout,
                ),
    {
        let mut expired: Vec<u64> = Vec::new();
        let mut kept: Vec<ClientSession> = Vec::new();
        let ghost all = self@.sessions;
        let mut i: usize = 0;
        while i < self.sessions.len()
            invariant
                i <= self.sessions.len(),
                self@ == old(self)@,
                all == self@.sessions,
                expired@ == spec_expired_ids(all.take(i as int), now, timeout),
                kept@ == spec_alive(all.take(i as int), now, timeout),
            decreases self.sessions.len() - i,
        {
            assert(all.take(i + 1).drop_last() =~= all.take(i as int));
            assert(all.take(i + 1).last() == all[i as int]);
            let session = self.sessions[i];
            if elapsed(now, session.last_heard_from) > timeout {
                expired.push(session.id);
            } else {
                kept.push(session);
            }
            i += 1;
        }
        assert(all.take(i as int) =~= all);
        self.sessions = kept;
        proof {
            lemma_alive(old(self)@, now, timeout);
        }
        expired
    }

    /// Ends the session numbered `id`. Does nothing if there is none.
    pub fn remove_session(&mut self, id: u64)
        requires
            old(self)@.wf(),
        ensures
            final(self)@.wf(),
            final(self)@ == (ManagerView { sessions: spec_without_id(old(self)@.sessions, id), ..old(self)@ }),
            !final(self)@.has_id(id),
            forall|other: u64|
                other != id ==> final(self)@.has_id(other) == #[trigger] old(self)@.has_id(other) && (old(self)@.has_id(other) ==> final(self)@.by_id(other) == old(self)@.by_id(other)),
    {
        match self.find(id) {
            None => {
                proof {
                    lemma_without_id_absent(self@.sessions, id);
                }
            },
            Some(at) => {
                proof {
                    lemma_without_id_at(self@.sessions, id, at as int);
                }
                self.sessions.remove(at);
                proof {
                    let before = old(self)@;
                    let after = self@;
                    assert forall|i: int| 0 <= i < after.sessions.len() implies #[trigger] after.sessions[i]
                        == before.sessions[if i < at { i } else { i + 1 }] by {}
                    assert forall|i: int| 0 <= i < after.sessions.len() implies 1 <= (
                    #[trigger] after.sessions[i]).id < after.next_id by {
                        let a = if i < at { i } else { i + 1 };
                        assert(after.sessions[i] == before.sessions[a]);
                    }
                    assert forall|i: int, j: int| 0 <= i < j < after.sessions.len() implies (
                    #[trigger] after.sessions[i]).id != (#[trigger] after.sessions[j]).id by {
                        let a = if i < at { i } else { i + 1 };
                        let b = if j < at { j } else { j + 1 };
                        assert(after.sessions[i] == before.sessions[a]);
                        assert(after.sessions[j] == before.sessions[b]);
                    }
                    assert forall|i: int, j: int| 0 <= i < j < after.sessions.len() implies (
                    #[trigger] after.sessions[i]).addr != (#[trigger] after.sessions[j]).addr by {
                        let a = if i < at { i } else { i + 1 };
                        let b = if j < at { j } else { j + 1 };
                        assert(after.sessions[i] == before.sessions[a]);
                        assert(after.sessions[j] == before.sessions[b]);
                    }
                    assert(after.wf());
                    if after.has_id(id) {
                        let i = choose|i: int| 0 <= i < after.sessions.len() && (#[trigger] after.sessions[i]).id
                            == id;
                        let a = if i < at { i } else { i + 1 };
                        assert(after.sessions[i] == before.sessions[a]);
                        if a < at {
                            assert(before.sessions[a].id != before.sessions[at as int].id);
                        } else {
                            assert(before.sessions[at as int].id != before.sessions[a].id);
                        }
                    }
                    assert forall|other: u64| other != id implies after.has_id(other) == #[trigger] before.has_id(
                        other,
                    ) && (before.has_id(other) ==> after.by_id(other) == before.by_id(other)) by {
                        if before.has_id(other) {
                            let a = choose|a: int| 0 <= a < before.sessions.len() && (
                            #[trigger] before.sessions[a]).id == other;
                            let i = if a < at { a } else { a - 1 };
                            assert(after.sessions[i] == before.sessions[a]);
                            lemma_session_at(after, i);
                            lemma_session_at(before, a);
                        }
                        if after.has_id(other) {
                            let i = choose|i: int| 0 <= i < after.sessions.len() && (
                            #[trigger] after.sessions[i]).id == other;
                            let a = if i < at { i } else { i + 1 };
                            assert(after.sessions[i] == before.sessions[a]);
                        }
                    }
                }
            },
        }
    }
}

/// Marking a session as heard from keeps the sessions well-formed.
proof fn lemma_touched(v: ManagerView, id: u64, now: u64)
    requires
        v.wf(),
    ensures
        (ManagerView { sessions: spec_touched(v.sessions, id, now), ..v }).wf(),
{
    let after = ManagerView { sessions: spec_touched(v.sessions, id, now), ..v };
    assert forall|k: int| 0 <= k < v.sessions.len() implies (#[trigger] after.sessions[k]).id == v.sessions[k].id
        && after.sessions[k].addr == v.sessions[k].addr by {}
    assert forall|a: int, b: int| 0 <= a < b < after.sessions.len() implies (#[trigger] after.sessions[a]).id != (
    #[trigger] after.sessions[b]).id by {
        assert(v.sessions[a].id != v.sessions[b].id);
    }
    assert forall|a: int, b: int| 0 <= a < b < after.sessions.len() implies (#[trigger] after.sessions[a]).addr != (
    #[trigger] after.sessions[b]).addr by {
        assert(v.sessions[a].addr != v.sessions[b].addr);
    }
}

/// Every session that did not expire is one of the sessions, in the order
/// they had; so what is left is well-formed, and an id is left exactly if its
/// session did not expire.
proof fn lemma_alive_sub(sessions: Seq<ClientSession>, now: u64, timeout: u64)
    ensures
        forall|i: int|
            0 <= i < spec_alive(sessions, now, timeout).len() ==> exists|k: int|
                0 <= k < sessions.len() && sessions[k] == #[trigger] spec_alive(sessions, now, timeout)[i]
                    && !spec_expired(sessions[k], now, timeout),
        forall|i: int, j: int|
            0 <= i < j < spec_alive(sessions, now, timeout).len() ==> exists|a: int, b: int|
                0 <= a < b < sessions.len() && sessions[a] == #[trigger] spec_alive(sessions, now, timeout)[i]
                    && sessions[b] == #[trigger] spec_alive(sessions, now, timeout)[j],
        forall|k: int|
            0 <= k < sessions.len() && !spec_expired(#[trigger] sessions[k], now, timeout) ==> spec_alive(
                sessions,
                now,
                timeout,
            ).contains(sessions[k]),
    decreases sessions.len(),
{
    let alive = spec_alive(sessions, now, timeout);
    if sessions.len() > 0 {
        let front = sessions.drop_last();
        let last = sessions.last();
        let n = front.len() as int;
        let fa = spec_alive(front, now, timeout);
        lemma_alive_sub(front, now, timeout);
        assert forall|i: int| 0 <= i < alive.len() implies exists|k: int|
            0 <= k < sessions.len() && sessions[k] == #[trigger] alive[i] && !spec_expired(
                sessions[k],
                now,
                timeout,
            ) by {
            if i < fa.len() {
                assert(alive[i] == fa[i]);
                let k = choose|k: int| 0 <= k < front.len() && front[k] == fa[i] && !spec_expired(
                    front[k],
                    now,
                    timeout,
                );
                assert(sessions[k] == front[k]);
            } else {
                assert(sessions[n] == alive[i]);
            }
        }
        assert forall|i: int, j: int| 0 <= i < j < alive.len() implies exists|a: int, b: int|
            0 <= a < b < sessions.len() && sessions[a] == #[trigger] alive[i] && sessions[b] == #[trigger] alive[j] by {
            if j < fa.len() {
                assert(alive[i] == fa[i]);
                assert(alive[j] == fa[j]);
                let (a, b) = choose|a: int, b: int|
                    0 <= a < b < front.len() && front[a] == fa[i] && front[b] == fa[j];
                assert(sessions[a] == front[a]);
                assert(sessions[b] == front[b]);
            } else {
                assert(alive[i] == fa[i]);
                let k = choose|k: int| 0 <= k < front.len() && front[k] == fa[i] && !spec_expired(
                    front[k],
                    now,
                    timeout,
                );
                assert(sessions[k] == front[k]);
                assert(sessions[n] == alive[j]);
            }
        }
        assert forall|k: int| 0 <= k < sessions.len() && !spec_expired(
            #[trigger] sessions[k],
            now,
            timeout,
        ) implies alive.contains(sessions[k]) by {
            if k < n {
                assert(front[k] == sessions[k]);
                let i = choose|i: int| 0 <= i < fa.len() && fa[i] == front[k];
                assert(alive[i] == fa[i]);
            } else {
                assert(alive[alive.len() - 1] == sessions[k]);
            }
        }
    }
}

proof fn lemma_alive(v: ManagerView, now: u64, timeout: u64)
    requires
        v.wf(),
    ensures
        (ManagerView { sessions: spec_alive(v.sessions, now, timeout), ..v }).wf(),
        forall|id: u64|
            (ManagerView { sessions: spec_alive(v.sessions, now, timeout), ..v }).has_id(id) <==> #[trigger] v.has_id(
                id,
            ) && !spec_expired(v.by_id(id), now, timeout),
{
    let alive = spec_alive(v.sessions, now, timeout);
    let after = ManagerView { sessions: alive, ..v };
    lemma_alive_sub(v.sessions, now, timeout);
    assert forall|i: int| 0 <= i < alive.len() implies 1 <= (#[trigger] alive[i]).id < v.next_id by {
        let k = choose|k: int| 0 <= k < v.sessions.len() && v.sessions[k] == alive[i] && !spec_expired(
            v.sessions[k],
            now,
            timeout,
        );
    }
    assert forall|i: int, j: int| 0 <= i < j < alive.len() implies (#[trigger] alive[i]).id != (
    #[trigger] alive[j]).id && alive[i].addr != alive[j].addr by {
        let (a, b) = choose|a: int, b: int|
            0 <= a < b < v.sessions.len() && v.sessions[a] == alive[i] && v.sessions[b] == alive[j];
        assert(v.sessions[a].id != v.sessions[b].id);
        assert(v.sessions[a].addr != v.sessions[b].addr);
    }
    assert(after.wf());
    assert forall|id: u64| after.has_id(id) <==> #[trigger] v.has_id(id) && !spec_expired(
        v.by_id(id),
        now,
        timeout,
    ) by {
        if after.has_id(id) {
            let i = choose|i: int| 0 <= i < alive.len() && (#[trigger] alive[i]).id == id;
            let found = alive[i];
            let k = choose|k: int| 0 <= k < v.sessions.len() && v.sessions[k] == found && !spec_expired(
                v.sessions[k],
                now,
                timeout,
            );
            lemma_session_at(v, k);
            assert(v.has_id(id));
            assert(v.by_id(id) == v.sessions[k]);
        }
        if v.has_id(id) && !spec_expired(v.by_id(id), now, timeout) {
            let k = choose|k: int| 0 <= k < v.sessions.len() && (#[trigger] v.sessions[k]).id == id;
            lemma_session_at(v, k);
            assert(!spec_expired(v.sessions[k], now, timeout));
            assert(alive.contains(v.sessions[k]));
            let i = choose|i: int| 0 <= i < alive.len() && alive[i] == v.sessions[k];
            assert(alive[i].id == id);
            assert(after.sessions[i].id == id);
        }
    }
}

} // verus!
