//! The inner framing of datagrams and the client's end of a connection: what
//! to put on the wire for a payload, and what a datagram from the wire means.
//! The socket itself is the caller's.

use vstd::prelude::*;
use vstd::slice::{slice_subrange, slice_to_vec};
use crate::protocol::serialize::{spec_be4, spec_from_be4};
use crate::transport::reliability::{
    elapsed, spec_after_sweep, spec_elapsed, spec_next_seq, spec_receive, spec_sweep_output, spec_without,
    ReceiverView, ReliableReceiver, ReliableSender, SenderView, SentRecord, SequenceNumber,
    RESEND_CHECK_INTERVAL_MS,
};
use crate::transport::types::Channel;

verus! {

/// First byte of a reliable data frame.
pub const FRAME_RELIABLE: u8 = 0;

/// First byte of an unreliable data frame.
pub const FRAME_UNRELIABLE: u8 = 1;

/// First byte of an acknowledgement.
pub const FRAME_ACK: u8 = 2;

/// How long acknowledgements are held back to be sent together.
pub const ACK_FLUSH_INTERVAL_MS: u64 = 10;

/// One datagram, taken apart.
#[derive(Debug, Clone, PartialEq, Eq)]
pub enum Frame {
    Reliable { seq: u32, payload: Vec<u8> },
    Unreliable { payload: Vec<u8> },
    Ack { seq: u32 },
}

/// A `Frame` as mathematics sees it.
pub enum FrameView {
    Reliable { seq: u32, payload: Seq<u8> },
    Unreliable { payload: Seq<u8> },
    Ack { seq: u32 },
}

impl View for Frame {
    type V = FrameView;

    open spec fn view(&self) -> FrameView {
        match self {
            Frame::Reliable { seq, payload } => FrameView::Reliable { seq: *seq, payload: payload@ },
            Frame::Unreliable { payload } => FrameView::Unreliable { payload: payload@ },
            Frame::Ack { seq } => FrameView::Ack { seq: *seq },
        }
    }
}

/// The datagram of a frame: the frame's kind, a sequence number in four
/// big-endian bytes where the kind has one, and the payload.
pub open spec fn spec_encode_frame(f: FrameView) -> Seq<u8> {
    match f {
        FrameView::Reliable { seq, payload } => seq![FRAME_RELIABLE] + spec_be4(seq as int) + payload,
        FrameView::Unreliable { payload } => seq![FRAME_UNRELIABLE] + payload,
        FrameView::Ack { seq } => seq![FRAME_ACK] + spec_be4(seq as int),
    }
}

/// The frame that a datagram holds, if it holds one. What follows the
/// sequence number of an acknowledgement is ignored.
pub open spec fn spec_decode_frame(b: Seq<u8>) -> Option<FrameView> {
    if b.len() == 0 {
        None
    } else if b[0] == FRAME_RELIABLE {
        if b.len() < 5 {
            None
        } else {
            Some(
                FrameView::Reliable {
                    seq: spec_from_be4(b.subrange(1, 5)) as u32,
                    payload: b.subrange(5, b.len() as int),
                },
            )
        }
    } else if b[0] == FRAME_UNRELIABLE {
        Some(FrameView::Unreliable { payload: b.subrange(1, b.len() as int) })
    } else if b[0] == FRAME_ACK {
        if b.len() < 5 {
            None
        } else {
            Some(FrameView::Ack { seq: spec_from_be4(b.subrange(1, 5)) as u32 })
        }
    } else {
        None
    }
}

/// A frame reads back from its own datagram.
pub proof fn lemma_decode_encode_frame(f: FrameView)
    ensures
        spec_decode_frame(spec_encode_frame(f)) == Some(f),
{
    let b = spec_encode_frame(f);
    match f {
        FrameView::Reliable { seq, payload } => {
            assert(b.subrange(1, 5) =~= spec_be4(seq as int));
            assert(b.subrange(5, b.len() as int) =~= payload);
        },
        FrameView::Unreliable { payload } => {
            assert(b.subrange(1, b.len() as int) =~= payload);
        },
        FrameView::Ack { seq } => {
            assert(b.subrange(1, 5) =~= spec_be4(seq as int));
        },
    }
}

fn push_seq(buf: &mut Vec<u8>, seq: u32)
    ensures
        final(buf)@ == old(buf)@ + spec_be4(seq as int),
{
    buf.push((seq / 0x100_0000) as u8);
    buf.push(((seq / 0x1_0000) % 0x100) as u8);
    buf.push(((seq / 0x100) % 0x100) as u8);
    buf.push((seq % 0x100) as u8);
    assert(buf@ =~= old(buf)@ + spec_be4(seq as int));
}

/// The datagram of one frame.
pub fn encode_frame(frame: &Frame) -> (buf: Vec<u8>)
    ensures
        buf@ == spec_encode_frame(frame@),
{
    let mut buf: Vec<u8> = Vec::new();
    match frame {
        Frame::Reliable { seq, payload } => {
            buf.push(FRAME_RELIABLE);
            push_seq(&mut buf, *seq);
            buf.extend_from_slice(payload.as_slice());
        },
        Frame::Unreliable { payload } => {
            buf.push(FRAME_UNRELIABLE);
            buf.extend_from_slice(payload.as_slice());
        },
        Frame::Ack { seq } => {
            buf.push(FRAME_ACK);
            push_seq(&mut buf, *seq);
        },
    }
    assert(buf@ =~= spec_encode_frame(frame@));
    buf
}

/// Takes a datagram apart. `None` for one that holds no frame.
pub fn decode_frame(datagram: &[u8]) -> (r: Option<Frame>)
    ensures
        match r {
            Some(f) => spec_decode_frame(datagram@) == Some(f@),
            None => spec_decode_frame(datagram@) is None,
        },
{
    if datagram.len() == 0 {
        return None;
    }
    let kind = datagram[0];
    if kind == FRAME_UNRELIABLE {
        return Some(Frame::Unreliable { payload: slice_to_vec(slice_subrange(datagram, 1, datagram.len())) });
    }
    if kind != FRAME_RELIABLE && kind != FRAME_ACK {
        return None;
    }
    if datagram.len() < 5 {
        return None;
    }
    let head = slice_subrange(datagram, 1, 5);
    let seq: u32 = (head[0] as u32) * 0x100_0000 + (head[1] as u32) * 0x1_0000 + (head[2] as u32) * 0x100
        + (head[3] as u32);
    if kind == FRAME_RELIABLE {
        Some(Frame::Reliable { seq, payload: slice_to_vec(slice_subrange(datagram, 5, datagram.len())) })
    } else {
        Some(Frame::Ack { seq })
    }
}

/// What the connection reports to the application.
#[derive(Debug, Clone, PartialEq, Eq)]
pub enum ClientEvent {
    Connected,
    Disconnected,
    PacketReceived { data: Vec<u8>, channel: Channel },
}

/// A `ClientEvent` as mathematics sees it.
pub enum ClientEventView {
    Connected,
    Disconnected,
    PacketReceived { data: Seq<u8>, channel: Channel },
}

impl View for ClientEvent {
    type V = ClientEventView;

    open spec fn view(&self) -> ClientEventView {
        match self {
            ClientEvent::Connected => ClientEventView::Connected,
            ClientEvent::Disconnected => ClientEventView::Disconnected,
            ClientEvent::PacketReceived { data, channel } => ClientEventView::PacketReceived {
                data: data@,
                channel: *channel,
            },
        }
    }
}

/// The client's end as mathematics sees it.
pub struct ClientTransportView {
    pub sender: SenderView,
    pub receiver: ReceiverView,
    pub pending_events: Seq<ClientEventView>,
    pub last_resend_check: u64,
    pub last_ack_send: u64,
}

/// The payloads `payloads`, each as an event on the reliable channel.
pub open spec fn spec_reliable_events(payloads: Seq<Seq<u8>>) -> Seq<ClientEventView> {
    payloads.map_values(|p: Seq<u8>| ClientEventView::PacketReceived { data: p, channel: Channel::Reliable })
}

/// The datagrams that send the records `resends` again.
pub open spec fn spec_resend_frames(resends: Seq<(u32, Seq<u8>)>) -> Seq<Seq<u8>> {
    resends.map_values(|r: (u32, Seq<u8>)| spec_encode_frame(FrameView::Reliable { seq: r.0, payload: r.1 }))
}

/// The datagrams that acknowledge the sequence numbers `acks`.
pub open spec fn spec_ack_frames(acks: Seq<u32>) -> Seq<Seq<u8>> {
    acks.map_values(|s: u32| spec_encode_frame(FrameView::Ack { seq: s }))
}

/// The client's end after the datagram `b` came in.
///
/// A reliable frame goes through the receiver; what the receiver has ready
/// afterwards becomes events, and the frame's number is queued for
/// acknowledgement. An unreliable frame becomes an event as it is. An
/// acknowledgement releases the sender's record. Anything else changes
/// nothing.
pub open spec fn spec_handle_datagram(t: ClientTransportView, b: Seq<u8>) -> ClientTransportView {
    match spec_decode_frame(b) {
        Some(FrameView::Reliable { seq, payload }) => {
            let received = spec_receive(t.receiver, seq, payload);
            ClientTransportView {
                sender: SenderView { pending_acks: t.sender.pending_acks.push(seq), ..t.sender },
                receiver: ReceiverView { ordered: Seq::empty(), ..received },
                pending_events: t.pending_events + spec_reliable_events(received.ordered),
                ..t
            }
        },
        Some(FrameView::Unreliable { payload }) => ClientTransportView {
            pending_events: t.pending_events.push(
                ClientEventView::PacketReceived { data: payload, channel: Channel::Unreliable },
            ),
            ..t
        },
        Some(FrameView::Ack { seq }) => ClientTransportView {
            sender: SenderView { outstanding: spec_without(t.sender.outstanding, seq), ..t.sender },
            ..t
        },
        None => t,
    }
}

fn push_reliable_events(events: &mut Vec<ClientEvent>, packets: Vec<Vec<u8>>)
    ensures
        final(events)@.map_values(|e: ClientEvent| e@) == old(events)@.map_values(|e: ClientEvent| e@)
            + spec_reliable_events(packets@.map_values(|v: Vec<u8>| v@)),
{
    let ghost before = events@.map_values(|e: ClientEvent| e@);
    let ghost all = packets@.map_values(|v: Vec<u8>| v@);
    let mut rest = packets;
    let n = rest.len();
    let mut k: usize = 0;
    assert(all.take(0) =~= Seq::<Seq<u8>>::empty());
    assert(before + spec_reliable_events(all.take(0)) =~= before);
    while k < n
        invariant
            k <= n,
            n == all.len(),
            rest@.len() == n - k,
            forall|j: int| 0 <= j < rest@.len() ==> (#[trigger] rest@[j])@ == all[k + j],
            events@.map_values(|e: ClientEvent| e@) == before + spec_reliable_events(all.take(k as int)),
        decreases n - k,
    {
        let ghost events_before = events@.map_values(|e: ClientEvent| e@);
        let ghost rest_before = rest@;
        let packet = rest.remove(0);
        assert(packet@ == all[k as int]) by {
            assert(rest_before[0]@ == all[k + 0]);
        }
        assert forall|j: int| 0 <= j < rest@.len() implies (#[trigger] rest@[j])@ == all[k + 1 + j] by {
            assert(rest@[j] == rest_before[j + 1]);
        }
        events.push(ClientEvent::PacketReceived { data: packet, channel: Channel::Reliable });
        proof {
            let added = ClientEventView::PacketReceived { data: all[k as int], channel: Channel::Reliable };
            assert(events@.map_values(|e: ClientEvent| e@) =~= events_before.push(added));
            assert(spec_reliable_events(all.take(k + 1)) =~= spec_reliable_events(all.take(k as int)).push(added));
            assert(events_before.push(added) =~= before + spec_reliable_events(all.take(k + 1)));
        }
        k += 1;
    }
    assert(all.take(k as int) =~= all);
}

/// The client's end after its timers were looked after at `now`: overdue
/// packets are swept up once more than `RESEND_CHECK_INTERVAL_MS` have
/// passed since the last look, and the acknowledgements that are owed leave
/// once more than `ACK_FLUSH_INTERVAL_MS` have passed since they last left.
pub open spec fn spec_after_poll(t: ClientTransportView, now: u64) -> ClientTransportView {
    let resend = spec_elapsed(now, t.last_resend_check) > RESEND_CHECK_INTERVAL_MS;
    let swept = if resend { spec_after_sweep(t.sender, now) } else { t.sender };
    let flush = spec_elapsed(now, t.last_ack_send) > ACK_FLUSH_INTERVAL_MS;
    ClientTransportView {
        sender: if flush { SenderView { pending_acks: Seq::empty(), ..swept } } else { swept },
        last_resend_check: if resend { now } else { t.last_resend_check },
        last_ack_send: if flush { now } else { t.last_ack_send },
        ..t
    }
}

/// The datagrams that leave when the timers are looked after at `now`: the
/// resends first, then the acknowledgements.
pub open spec fn spec_poll_output(t: ClientTransportView, now: u64) -> Seq<Seq<u8>> {
    let resends = if spec_elapsed(now, t.last_resend_check) > RESEND_CHECK_INTERVAL_MS {
        spec_resend_frames(spec_sweep_output(t.sender, now))
    } else {
        Seq::empty()
    };
    let acks = if spec_elapsed(now, t.last_ack_send) > ACK_FLUSH_INTERVAL_MS {
        spec_ack_frames(t.sender.pending_acks)
    } else {
        Seq::empty()
    };
    resends + acks
}

/// The client's end after the datagrams `datagrams` came in, one after the
/// other.
pub open spec fn spec_handle_all(t: ClientTransportView, datagrams: Seq<Seq<u8>>) -> ClientTransportView
    decreases datagrams.len(),
{
    if datagrams.len() == 0 {
        t
    } else {
        spec_handle_datagram(spec_handle_all(t, datagrams.drop_last()), datagrams.last())
    }
}

/// The client's end of a connection to the relay.
pub struct ClientTransport {
    reliable_sender: ReliableSender,
    reliable_receiver: ReliableReceiver,
    pending_events: Vec<ClientEvent>,
    last_resend_check: u64,
    last_ack_send: u64,
}

impl View for ClientTransport {
    type V = ClientTransportView;

    closed spec fn view(&self) -> ClientTransportView {
        ClientTransportView {
            sender: self.reliable_sender@,
            receiver: self.reliable_receiver@,
            pending_events: self.pending_events@.map_values(|e: ClientEvent| e@),
            last_resend_check: self.last_resend_check,
            last_ack_send: self.last_ack_send,
        }
    }
}

impl ClientTransport {
    /// The sender's book holds no sequence number twice.
    pub closed spec fn wf(&self) -> bool {
        self.reliable_sender.wf()
    }

    /// A connection on which nothing has been sent or received; `now` is the
    /// time of its making.
    pub fn new(now: u64) -> (r: Self)
        ensures
            r.wf(),
            r@.sender.next_seq == 0,
            r@.sender.outstanding.len() == 0,
            r@.sender.pending_acks.len() == 0,
            r@.receiver == (ReceiverView { expected_next: 0, buffered: Map::empty(), ordered: Seq::empty() }),
            r@.pending_events.len() == 0,
            r@.last_resend_check == now,
            r@.last_ack_send == now,
    {
        Self {
            reliable_sender: ReliableSender::new(now),
            reliable_receiver: ReliableReceiver::new(),
            pending_events: Vec::new(),
            last_resend_check: now,
            last_ack_send: now,
        }
    }

    /// The datagram that carries `data` on `channel`. A reliable payload is
    /// given the next sequence number and kept for resending until it is
    /// acknowledged.
    pub fn send(&mut self, data: Vec<u8>, channel: Channel, now: u64) -> (datagram: Vec<u8>)
        requires
            old(self).wf(),
        ensures
            final(self).wf(),
            channel == Channel::Unreliable ==> final(self)@ == old(self)@ && datagram@ == spec_encode_frame(
                FrameView::Unreliable { payload: data@ },
            ),
            channel == Channel::Reliable ==> {
                let seq = old(self)@.sender.next_seq;
                &&& datagram@ == spec_encode_frame(FrameView::Reliable { seq, payload: data@ })
                &&& final(self)@ == (ClientTransportView {
                    sender: SenderView {
                        next_seq: spec_next_seq(seq),
                        outstanding: spec_without(old(self)@.sender.outstanding, seq).push(
                            SentRecord { seq, data: data@, sent_at: now, resend_count: 0 },
                        ),
                        ..old(self)@.sender
                    },
                    ..old(self)@
                })
            },
    {
        match channel {
            Channel::Reliable => {
                let copy = slice_to_vec(data.as_slice());
                let seq = self.reliable_sender.send(copy, now);
                encode_frame(&Frame::Reliable { seq: seq.0, payload: data })
            },
            Channel::Unreliable => encode_frame(&Frame::Unreliable { payload: data }),
        }
    }

    /// Takes in one datagram from the relay.
    pub fn handle_datagram(&mut self, datagram: &[u8])
        requires
            old(self).wf(),
        ensures
            final(self).wf(),
            final(self)@ == spec_handle_datagram(old(self)@, datagram@),
    {
        match decode_frame(datagram) {
            Some(Frame::Reliable { seq, payload }) => {
                let acks = self.reliable_receiver.receive(SequenceNumber::new(seq), payload);
                self.reliable_sender.queue_ack(acks[0]);
                let packets = self.reliable_receiver.take_all_packets();
                push_reliable_events(&mut self.pending_events, packets);
            },
            Some(Frame::Unreliable { payload }) => {
                self.pending_events.push(ClientEvent::PacketReceived { data: payload, channel: Channel::Unreliable });
                assert(self@.pending_events =~= old(self)@.pending_events.push(
                    ClientEventView::PacketReceived { data: payload@, channel: Channel::Unreliable },
                ));
            },
            Some(Frame::Ack { seq }) => {
                self.reliable_sender.ack_received(SequenceNumber::new(seq));
            },
            None => {},
        }
    }

    /// Looks after the timers and returns the datagrams to put on the wire.
    pub fn poll(&mut self, now: u64) -> (out: Vec<Vec<u8>>)
        requires
            old(self).wf(),
        ensures
            final(self).wf(),
            final(self)@ == spec_after_poll(old(self)@, now),
            out@.map_values(|d: Vec<u8>| d@) == spec_poll_output(old(self)@, now),
    {
        let mut out: Vec<Vec<u8>> = Vec::new();
        let ghost mut resent: Seq<Seq<u8>> = Seq::empty();
        assert(out@.map_values(|d: Vec<u8>| d@) =~= resent);
        if elapsed(now, self.last_resend_check) > RESEND_CHECK_INTERVAL_MS {
            let resends = self.reliable_sender.get_resends(now);
            let ghost records = resends@.map_values(|r: (SequenceNumber, Vec<u8>)| (r.0.0, r.1@));
            proof {
                resent = spec_resend_frames(records);
            }
            let mut i: usize = 0;
            while i < resends.len()
                invariant
                    i <= resends.len(),
                    records == resends@.map_values(|r: (SequenceNumber, Vec<u8>)| (r.0.0, r.1@)),
                    out@.map_values(|d: Vec<u8>| d@) == spec_resend_frames(records).take(i as int),
                decreases resends.len() - i,
            {
                let ghost before = out@.map_values(|d: Vec<u8>| d@);
                let frame = Frame::Reliable {
                    seq: resends[i].0.0,
                    payload: slice_to_vec(resends[i].1.as_slice()),
                };
                let datagram = encode_frame(&frame);
                out.push(datagram);
                assert(out@.map_values(|d: Vec<u8>| d@) =~= before.push(spec_resend_frames(records)[i as int]));
                assert(spec_resend_frames(records).take(i + 1) =~= before.push(
                    spec_resend_frames(records)[i as int],
                ));
                i += 1;
            }
            assert(spec_resend_frames(records).take(i as int) =~= spec_resend_frames(records));
            self.last_resend_check = now;
        }
        if elapsed(now, self.last_ack_send) > ACK_FLUSH_INTERVAL_MS {
            let acks = self.reliable_sender.get_pending_acks();
            let ghost numbers = acks@.map_values(|s: SequenceNumber| s.0);
            let mut i: usize = 0;
            assert(resent + spec_ack_frames(numbers).take(0) =~= resent);
            while i < acks.len()
                invariant
                    i <= acks.len(),
                    numbers == acks@.map_values(|s: SequenceNumber| s.0),
                    out@.map_values(|d: Vec<u8>| d@) == resent + spec_ack_frames(numbers).take(i as int),
                decreases acks.len() - i,
            {
                let ghost before = out@.map_values(|d: Vec<u8>| d@);
                let datagram = encode_frame(&Frame::Ack { seq: acks[i].0 });
                out.push(datagram);
                assert(out@.map_values(|d: Vec<u8>| d@) =~= before.push(spec_ack_frames(numbers)[i as int]));
                assert(resent + spec_ack_frames(numbers).take(i + 1) =~= before.push(
                    spec_ack_frames(numbers)[i as int],
                ));
                i += 1;
            }
            assert(spec_ack_frames(numbers).take(i as int) =~= spec_ack_frames(numbers));
            self.last_ack_send = now;
        } else {
            assert(resent + Seq::<Seq<u8>>::empty() =~= resent);
        }
        out
    }

    /// One turn of the connection: looks after the timers, then takes in the
    /// datagrams that were read from the socket, in their order. Returns the
    /// events for the application and the datagrams to put on the wire.
    pub fn recv_packets(&mut self, datagrams: &Vec<Vec<u8>>, now: u64) -> (r: (Vec<ClientEvent>, Vec<Vec<u8>>))
        requires
            old(self).wf(),
        ensures
            final(self).wf(),
            r.1@.map_values(|d: Vec<u8>| d@) == spec_poll_output(old(self)@, now),
            r.0@.map_values(|e: ClientEvent| e@) == spec_handle_all(
                spec_after_poll(old(self)@, now),
                datagrams@.map_values(|d: Vec<u8>| d@),
            ).pending_events,
            final(self)@ == (ClientTransportView {
                pending_events: Seq::empty(),
                ..spec_handle_all(spec_after_poll(old(self)@, now), datagrams@.map_values(|d: Vec<u8>| d@))
            }),
    {
        let out = self.poll(now);
        let ghost start = self@;
        let ghost inputs = datagrams@.map_values(|d: Vec<u8>| d@);
        let mut i: usize = 0;
        while i < datagrams.len()
            invariant
                i <= datagrams.len(),
                self.wf(),
                inputs == datagrams@.map_values(|d: Vec<u8>| d@),
                self@ == spec_handle_all(start, inputs.take(i as int)),
            decreases datagrams.len() - i,
        {
            assert(inputs.take(i + 1).drop_last() =~= inputs.take(i as int));
            assert(inputs.take(i + 1).last() == datagrams@[i as int]@);
            self.handle_datagram(datagrams[i].as_slice());
            i += 1;
        }
        assert(inputs.take(i as int) =~= inputs);
        let events = self.take_events();
        (events, out)
    }

    /// Whether any reliable payload still waits for its acknowledgement.
    pub fn has_unacked(&self) -> (r: bool)
        ensures
            r == (self@.sender.outstanding.len() > 0),
    {
        self.reliable_sender.has_unacked()
    }

    /// Hands out the events that have gathered, oldest first.
    pub fn take_events(&mut self) -> (events: Vec<ClientEvent>)
        ensures
            events@.map_values(|e: ClientEvent| e@) == old(self)@.pending_events,
            final(self)@ == (ClientTransportView { pending_events: Seq::empty(), ..old(self)@ }),
            old(self).wf() ==> final(self).wf(),
    {
        let mut events: Vec<ClientEvent> = Vec::new();
        std::mem::swap(&mut events, &mut self.pending_events);
        assert(self@.pending_events =~= Seq::empty());
        events
    }
}

} // verus!
