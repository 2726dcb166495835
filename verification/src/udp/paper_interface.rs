//! What the relay makes of its datagrams. The socket and the per-session
//! reliability channel are the caller's: the caller reads a datagram, asks
//! here for the session, has the session's channel decode the datagram, and
//! hands the outcome back.

use vstd::prelude::*;
use crate::transport::reliability::{elapsed, spec_elapsed};
use crate::udp::common::{ServerEvent, ServerEventView, TransferChannel};
use crate::udp::sessions::{
    lemma_by_addr, spec_alive, spec_expired_ids, spec_touched, spec_without_id, ClientSession,
    ConnectionManager, ManagerView, RemoteAddr,
};

verus! {

/// The payload by which a client says no more than that it is still there.
pub const HEARTBEAT: u8 = 3;

/// How often silent sessions are looked for.
pub const CLEANUP_INTERVAL_MS: u64 = 1000;

/// How often unacknowledged datagrams are sent again.
pub const RESEND_INTERVAL_MS: u64 = 50;

/// How long a session may stay silent before it is ended.
pub const SESSION_TIMEOUT_MS: u64 = 5000;

/// What a session's channel made of one datagram.
#[derive(Debug, Clone, PartialEq, Eq)]
pub enum DecodeResult {
    /// Payloads that came on the unreliable channel.
    Unreliable { payload: Vec<Vec<u8>> },
    /// Payloads of the reliable channel that are ready, in order, and the
    /// acknowledgement to send back, if one is due.
    Reliable { payload: Vec<Vec<u8>>, ack_packet: Option<Vec<u8>> },
    /// An acknowledgement of something this side sent.
    Ack,
    /// Nothing that the channel knows.
    Unknown,
}

/// A `DecodeResult` as mathematics sees it.
pub enum DecodeResultView {
    Unreliable { payload: Seq<Seq<u8>> },
    Reliable { payload: Seq<Seq<u8>>, ack_packet: Option<Seq<u8>> },
    Ack,
    Unknown,
}

impl View for DecodeResult {
    type V = DecodeResultView;

    open spec fn view(&self) -> DecodeResultView {
        match self {
            DecodeResult::Unreliable { payload } => DecodeResultView::Unreliable {
                payload: payload@.map_values(|p: Vec<u8>| p@),
            },
            DecodeResult::Reliable { payload, ack_packet } => DecodeResultView::Reliable {
                payload: payload@.map_values(|p: Vec<u8>| p@),
                ack_packet: match ack_packet {
                    Some(a) => Some(a@),
                    None => None,
                },
            },
            DecodeResult::Ack => DecodeResultView::Ack,
            DecodeResult::Unknown => DecodeResultView::Unknown,
        }
    }
}

/// Whether a payload is a heartbeat: the single byte `HEARTBEAT`.
pub open spec fn spec_is_heartbeat(p: Seq<u8>) -> bool {
    p.len() == 1 && p[0] == HEARTBEAT
}

/// The events for the payloads `payloads` of client `id` on `channel`.
/// On the unreliable channel heartbeats give no event.
pub open spec fn spec_packet_events(id: u64, payloads: Seq<Seq<u8>>, channel: TransferChannel) -> Seq<
    ServerEventView,
>
    decreases payloads.len(),
{
    if payloads.len() == 0 {
        Seq::empty()
    } else if channel == TransferChannel::Unreliable && spec_is_heartbeat(payloads.last()) {
        spec_packet_events(id, payloads.drop_last(), channel)
    } else {
        spec_packet_events(id, payloads.drop_last(), channel).push(
            ServerEventView::PacketReceived { client_id: id, data: payloads.last(), channel },
        )
    }
}

/// A `ClientDisconnected` event for each of `ids`.
pub open spec fn spec_disconnect_events(ids: Seq<u64>) -> Seq<ServerEventView> {
    ids.map_values(|id: u64| ServerEventView::ClientDisconnected { client_id: id })
}

/// The interface as mathematics sees it.
pub struct InterfaceView {
    pub manager: ManagerView,
    pub pending_events: Seq<ServerEventView>,
    pub last_cleanup: u64,
    pub last_resend: u64,
}

/// Whether silent sessions are to be looked for at `now`.
pub open spec fn spec_cleanup_due(v: InterfaceView, now: u64) -> bool {
    spec_elapsed(now, v.last_cleanup) >= CLEANUP_INTERVAL_MS
}

/// Whether unacknowledged datagrams are to be sent again at `now`.
pub open spec fn spec_resend_due(v: InterfaceView, now: u64) -> bool {
    spec_elapsed(now, v.last_resend) >= RESEND_INTERVAL_MS
}

/// The interface after its timers were looked after at `now`. When the
/// cleanup is due, the sessions that have been silent for longer than
/// `SESSION_TIMEOUT_MS` are ended, with a `ClientDisconnected` event each.
pub open spec fn spec_after_tick(v: InterfaceView, now: u64) -> InterfaceView {
    let cleaned = if spec_cleanup_due(v, now) {
        InterfaceView {
            manager: ManagerView {
                sessions: spec_alive(v.manager.sessions, now, SESSION_TIMEOUT_MS),
                ..v.manager
            },
            pending_events: v.pending_events + spec_disconnect_events(
                spec_expired_ids(v.manager.sessions, now, SESSION_TIMEOUT_MS),
            ),
            last_cleanup: now,
            ..v
        }
    } else {
        v
    };
    InterfaceView { last_resend: if spec_resend_due(v, now) { now } else { v.last_resend }, ..cleaned }
}

/// The relay's end of the datagram transport, without its socket.
pub struct PaperInterface {
    connection_manager: ConnectionManager,
    pending_events: Vec<ServerEvent>,
    last_cleanup: u64,
    last_resend: u64,
}

impl View for PaperInterface {
    type V = InterfaceView;

    closed spec fn view(&self) -> InterfaceView {
        InterfaceView {
            manager: self.connection_manager@,
            pending_events: self.pending_events@.map_values(|e: ServerEvent| e@),
            last_cleanup: self.last_cleanup,
            last_resend: self.last_resend,
        }
    }
}

fn is_heartbeat(p: &Vec<u8>) -> (r: bool)
    ensures
        r == spec_is_heartbeat(p@),
{
    p.len() == 1 && p[0] == HEARTBEAT
}

fn push_packet_events(events: &mut Vec<ServerEvent>, id: u64, payloads: Vec<Vec<u8>>, channel: TransferChannel)
    ensures
        final(events)@.map_values(|e: ServerEvent| e@) == old(events)@.map_values(|e: ServerEvent| e@)
            + spec_packet_events(id, payloads@.map_values(|p: Vec<u8>| p@), channel),
{
    let ghost before = events@.map_values(|e: ServerEvent| e@);
    let ghost all = payloads@.map_values(|p: Vec<u8>| p@);
    let mut rest = payloads;
    let n = rest.len();
    let mut k: usize = 0;
    assert(all.take(0) =~= Seq::<Seq<u8>>::empty());
    assert(before + spec_packet_events(id, all.take(0), channel) =~= before);
    while k < n
        invariant
            k <= n,
            n == all.len(),
            rest@.len() == n - k,
            forall|j: int| 0 <= j < rest@.len() ==> (#[trigger] rest@[j])@ == all[k + j],
            events@.map_values(|e: ServerEvent| e@) == before + spec_packet_events(id, all.take(k as int), channel),
        decreases n - k,
    {
        let ghost events_before = events@.map_values(|e: ServerEvent| e@);
        let ghost rest_before = rest@;
        let p = rest.remove(0);
        assert(p@ == all[k as int]) by {
            assert(rest_before[0]@ == all[k + 0]);
        }
        assert forall|j: int| 0 <= j < rest@.len() implies (#[trigger] rest@[j])@ == all[k + 1 + j] by {
            assert(rest@[j] == rest_before[j + 1]);
        }
        assert(all.take(k + 1).drop_last() =~= all.take(k as int));
        assert(all.take(k + 1).last() == all[k as int]);
        let heartbeat = match channel {
            TransferChannel::Unreliable => is_heartbeat(&p),
            TransferChannel::Reliable => false,
        };
        if !heartbeat {
            events.push(ServerEvent::PacketReceived { client_id: id, data: p, channel });
            proof {
                let added = ServerEventView::PacketReceived { client_id: id, data: all[k as int], channel };
                assert(events@.map_values(|e: ServerEvent| e@) =~= events_before.push(added));
                assert(events_before.push(added) =~= before + spec_packet_events(id, all.take(k + 1), channel));
            }
        }
        k += 1;
    }
    assert(all.take(k as int) =~= all);
}

impl PaperInterface {
    /// The sessions are well-formed.
    pub open spec fn wf(&self) -> bool {
        self@.manager.wf()
    }

    /// No session and no event; the timers start at time zero.
    pub fn new() -> (r: Self)
        ensures
            r.wf(),
            r@ == (InterfaceView {
                manager: ManagerView { sessions: Seq::empty(), next_id: 1 },
                pending_events: Seq::empty(),
                last_cleanup: 0,
                last_resend: 0,
            }),
    {
        let r = Self {
            connection_manager: ConnectionManager::new(),
            pending_events: Vec::new(),
            last_cleanup: 0,
            last_resend: 0,
        };
        assert(r@.pending_events =~= Seq::empty());
        r
    }

    /// A datagram came from `addr` at `now`. Returns the id of the session
    /// it belongs to, which is marked as heard from. An endpoint that is not
    /// known gets a session, and a `ClientConnected` event is queued for it.
    /// `None`, with nothing changed, when the endpoint is new and no id is
    /// left.
    pub fn accept(&mut self, addr: RemoteAddr, now: u64) -> (r: Option<u64>)
        requires
            old(self).wf(),
        ensures
            final(self).wf(),
            old(self)@.manager.has_addr(addr) ==> {
                let id = old(self)@.manager.by_addr(addr).id;
                &&& r == Some(id)
                &&& final(self)@.pending_events == old(self)@.pending_events
                &&& final(self)@.manager == (ManagerView {
                    sessions: spec_touched(old(self)@.manager.sessions, id, now),
                    ..old(self)@.manager
                })
                &&& final(self)@.manager.has_id(id)
                &&& final(self)@.manager.by_id(id) == (ClientSession {
                    last_heard_from: now,
                    ..old(self)@.manager.by_addr(addr)
                })
            },
            !old(self)@.manager.has_addr(addr) && old(self)@.manager.next_id == u64::MAX ==> r is None && final(self)@ == old(self)@,
            !old(self)@.manager.has_addr(addr) && old(self)@.manager.next_id < u64::MAX ==> {
                let id = old(self)@.manager.next_id;
                &&& r == Some(id)
                &&& final(self)@.pending_events == old(self)@.pending_events.push(
                    ServerEventView::ClientConnected { client_id: id },
                )
                &&& final(self)@.manager == (ManagerView {
                    sessions: old(self)@.manager.sessions.push(ClientSession { id, addr, last_heard_from: now }),
                    next_id: (id + 1) as u64,
                })
            },
            final(self)@.last_cleanup == old(self)@.last_cleanup,
            final(self)@.last_resend == old(self)@.last_resend,
    {
        proof {
            if self@.manager.has_addr(addr) {
                lemma_by_addr(self@.manager, addr);
            }
        }
        match self.connection_manager.get_or_create(addr, now) {
            None => None,
            Some((id, is_new)) => {
                if is_new {
                    self.pending_events.push(ServerEvent::ClientConnected { client_id: id });
                    assert(self@.pending_events =~= old(self)@.pending_events.push(
                        ServerEventView::ClientConnected { client_id: id },
                    ));
                } else {
                    self.connection_manager.touch(id, now);
                }
                Some(id)
            },
        }
    }

    /// Takes in what the channel of session `session_id` made of a
    /// datagram, and returns the acknowledgement to send back, if any.
    ///
    /// Payloads become `PacketReceived` events on their channel, in order;
    /// heartbeats on the unreliable channel are dropped. If the channel could
    /// make nothing of the datagram, the session is ended and a
    /// `ClientDisconnected` event is queued.
    pub fn handle_decoded(&mut self, session_id: u64, res: DecodeResult) -> (ack: Option<Vec<u8>>)
        requires
            old(self).wf(),
        ensures
            final(self).wf(),
            final(self)@.last_cleanup == old(self)@.last_cleanup,
            final(self)@.last_resend == old(self)@.last_resend,
            match res@ {
                DecodeResultView::Unreliable { payload } => {
                    &&& ack is None
                    &&& final(self)@.manager == old(self)@.manager
                    &&& final(self)@.pending_events == old(self)@.pending_events + spec_packet_events(
                        session_id,
                        payload,
                        TransferChannel::Unreliable,
                    )
                },
                DecodeResultView::Reliable { payload, ack_packet } => {
                    &&& ack is Some == ack_packet is Some
                    &&& ack is Some ==> ack->0@ == ack_packet->0
                    &&& final(self)@.manager == old(self)@.manager
                    &&& final(self)@.pending_events == old(self)@.pending_events + spec_packet_events(
                        session_id,
                        payload,
                        TransferChannel::Reliable,
                    )
                },
                DecodeResultView::Ack => ack is None && final(self)@ == old(self)@,
                DecodeResultView::Unknown => {
                    &&& ack is None
                    &&& !final(self)@.manager.has_id(session_id)
                    &&& forall|other: u64|
                        other != session_id ==> final(self)@.manager.has_id(other) == #[trigger] old(self)@.manager.has_id(other)
                    &&& final(self)@.pending_events == old(self)@.pending_events.push(
                        ServerEventView::ClientDisconnected { client_id: session_id },
                    )
                },
            },
    {
        match res {
            DecodeResult::Unreliable { payload } => {
                push_packet_events(&mut self.pending_events, session_id, payload, TransferChannel::Unreliable);
                None
            },
            DecodeResult::Reliable { payload, ack_packet } => {
                push_packet_events(&mut self.pending_events, session_id, payload, TransferChannel::Reliable);
                ack_packet
            },
            DecodeResult::Ack => None,
            DecodeResult::Unknown => {
                self.connection_manager.remove_session(session_id);
                self.pending_events.push(ServerEvent::ClientDisconnected { client_id: session_id });
                assert(self@.pending_events =~= old(self)@.pending_events.push(
                    ServerEventView::ClientDisconnected { client_id: session_id },
                ));
                None
            },
        }
    }

    /// Hands out the events that have gathered, oldest first.
    pub fn recv_events(&mut self) -> (events: Vec<ServerEvent>)
        ensures
            events@.map_values(|e: ServerEvent| e@) == old(self)@.pending_events,
            final(self)@ == (InterfaceView { pending_events: Seq::empty(), ..old(self)@ }),
    {
        let mut events: Vec<ServerEvent> = Vec::new();
        std::mem::swap(&mut events, &mut self.pending_events);
        assert(self@.pending_events =~= Seq::empty());
        events
    }

    /// Where to send what is meant for the client `target`: its endpoint,
    /// or `None` if its session is gone, in which case the payload is dropped
    /// in silence.
    pub fn send(&self, target: u64) -> (addr: Option<RemoteAddr>)
        requires
            self.wf(),
        ensures
            addr is Some <==> self@.manager.has_id(target),
            addr is Some ==> addr->0 == self@.manager.by_id(target).addr,
    {
        match self.connection_manager.get_by_id(target) {
            Some(session) => Some(session.addr),
            None => None,
        }
    }

    /// Ends the sessions that have been silent for longer than `timeout` at
    /// `now`, and queues a `ClientDisconnected` event for each.
    pub fn cleanup_sessions(&mut self, timeout: u64, now: u64)
        requires
            old(self).wf(),
        ensures
            final(self).wf(),
            final(self)@ == (InterfaceView {
                manager: ManagerView {
                    sessions: spec_alive(old(self)@.manager.sessions, now, timeout),
                    ..old(self)@.manager
                },
                pending_events: old(self)@.pending_events + spec_disconnect_events(
                    spec_expired_ids(old(self)@.manager.sessions, now, timeout),
                ),
                ..old(self)@
            }),
    {
        let expired = self.connection_manager.cleanup_sessions(timeout, now);
        let ghost before = self.pending_events@.map_values(|e: ServerEvent| e@);
        let ghost ids = expired@;
        let mut i: usize = 0;
        assert(before + spec_disconnect_events(ids.take(0)) =~= before);
        while i < expired.len()
            invariant
                i <= expired.len(),
                ids == expired@,
                self.connection_manager@ == (ManagerView {
                    sessions: spec_alive(old(self)@.manager.sessions, now, timeout),
                    ..old(self)@.manager
                }),
                self.pending_events@.map_values(|e: ServerEvent| e@) == before + spec_disconnect_events(
                    ids.take(i as int),
                ),
                self.last_cleanup == old(self).last_cleanup,
                self.last_resend == old(self).last_resend,
            decreases expired.len() - i,
        {
            let ghost events_before = self.pending_events@.map_values(|e: ServerEvent| e@);
            self.pending_events.push(ServerEvent::ClientDisconnected { client_id: expired[i] });
            proof {
                let added = ServerEventView::ClientDisconnected { client_id: ids[i as int] };
                assert(self.pending_events@.map_values(|e: ServerEvent| e@) =~= events_before.push(added));
                assert(spec_disconnect_events(ids.take(i + 1)) =~= spec_disconnect_events(ids.take(i as int)).push(
                    added,
                ));
                assert(events_before.push(added) =~= before + spec_disconnect_events(ids.take(i + 1)));
            }
            i += 1;
        }
        assert(ids.take(i as int) =~= ids);
    }

    /// Looks after the timers at `now`: ends the sessions that have timed
    /// out, if the cleanup is due, and says whether unacknowledged datagrams
    /// are to be sent again now.
    pub fn tick(&mut self, now: u64) -> (resend: bool)
        requires
            old(self).wf(),
        ensures
            final(self).wf(),
            resend == spec_resend_due(old(self)@, now),
            final(self)@ == spec_after_tick(old(self)@, now),
    {
        if elapsed(now, self.last_cleanup) >= CLEANUP_INTERVAL_MS {
            self.cleanup_sessions(SESSION_TIMEOUT_MS, now);
            self.last_cleanup = now;
        }
        let resend = elapsed(now, self.last_resend) >= RESEND_INTERVAL_MS;
        if resend {
            self.last_resend = now;
        }
        resend
    }

    /// Ends the session of client `id`, without an event. Does nothing if
    /// there is none.
    pub fn remove_client(&mut self, id: u64)
        requires
            old(self).wf(),
        ensures
            final(self).wf(),
            final(self)@ == (InterfaceView {
                manager: ManagerView {
                    sessions: spec_without_id(old(self)@.manager.sessions, id),
                    ..old(self)@.manager
                },
                ..old(self)@
            }),
            !final(self)@.manager.has_id(id),
    {
        self.connection_manager.remove_session(id);
    }

    /// The sessions in the order of their making.
    pub fn sessions(&self) -> (r: &[ClientSession])
        ensures
            r@ == self@.manager.sessions,
    {
        self.connection_manager.as_slice()
    }
}

} // verus!
