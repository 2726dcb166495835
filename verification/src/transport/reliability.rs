//! Sequence numbers, the sender's retransmission book and the receiver's
//! reordering buffer. Time is a count of milliseconds on a monotonic clock,
//! handed in by the caller.

use std::collections::HashMap;
use vstd::prelude::*;

verus! {

broadcast use vstd::std_specs::hash::group_hash_axioms;

/// How long the sender waits between two sweeps for overdue packets.
pub const RESEND_CHECK_INTERVAL_MS: u64 = 50;

/// After how many resends of one packet the remote is taken for dead.
pub const MAX_RESENDS: u32 = 10;

/// How long a packet may stay unacknowledged before it is sent again.
pub const DEFAULT_ACK_TIMEOUT_MS: u64 = 200;

/// `(a - b) mod 2^32`.
pub open spec fn spec_seq_distance(a: u32, b: u32) -> int {
    if a >= b {
        a - b
    } else {
        a - b + 0x1_0000_0000
    }
}

/// `a` is `b` or follows it by fewer than 2^31 steps, counting modulo 2^32.
pub open spec fn spec_newer_than(a: u32, b: u32) -> bool {
    spec_seq_distance(a, b) < 0x8000_0000
}

/// The sequence number after `a`; `u32::MAX` is followed by zero.
pub open spec fn spec_next_seq(a: u32) -> u32 {
    if a == u32::MAX {
        0
    } else {
        (a + 1) as u32
    }
}

/// Milliseconds from `then` to `now`; zero when `then` is not in the past.
pub open spec fn spec_elapsed(now: u64, then: u64) -> u64 {
    if now >= then {
        (now - then) as u64
    } else {
        0
    }
}

/// Milliseconds from `then` to `now`; zero when `then` is not in the past.
pub fn elapsed(now: u64, then: u64) -> (r: u64)
    ensures
        r == spec_elapsed(now, then),
{
    if now >= then {
        now - then
    } else {
        0
    }
}

/// A 32-bit sequence number that wraps.
#[derive(Debug, Clone, Copy, PartialEq, Eq, Hash, Structural)]
pub struct SequenceNumber(pub u32);

impl SequenceNumber {
    /// The sequence number `num`.
    pub fn new(num: u32) -> (r: Self)
        ensures
            r.0 == num,
    {
        SequenceNumber(num)
    }

    /// The sequence number that follows; after `u32::MAX` comes zero.
    pub fn next(self) -> (r: Self)
        ensures
            r.0 == spec_next_seq(self.0),
    {
        if self.0 == u32::MAX {
            SequenceNumber(0)
        } else {
            SequenceNumber(self.0 + 1)
        }
    }

    /// Whether `self` is `other` or follows it by fewer than 2^31 steps,
    /// counting modulo 2^32.
    pub fn is_newer_than(self, other: SequenceNumber) -> (r: bool)
        ensures
            r == spec_newer_than(self.0, other.0),
    {
        let diff: u32 = if self.0 >= other.0 {
            self.0 - other.0
        } else {
            (u32::MAX - (other.0 - self.0)) + 1
        };
        diff < 2_147_483_648
    }
}

/// Of two different sequence numbers at most one is newer than the other.
pub proof fn lemma_newer_than_antisymmetric(a: u32, b: u32)
    requires
        spec_newer_than(a, b),
        spec_newer_than(b, a),
    ensures
        a == b,
{
}

/// Unless two sequence numbers lie exactly 2^31 apart, one of them is newer
/// than the other.
pub proof fn lemma_newer_than_total(a: u32, b: u32)
    requires
        spec_seq_distance(a, b) != 0x8000_0000,
    ensures
        spec_newer_than(a, b) || spec_newer_than(b, a),
{
}

/// The number that follows is newer, across the wrap too.
pub proof fn lemma_next_is_newer(a: u32)
    ensures
        spec_newer_than(spec_next_seq(a), a),
        !spec_newer_than(a, spec_next_seq(a)),
{
}

/// One packet that was sent and not yet acknowledged.
pub struct SentRecord {
    pub seq: u32,
    pub data: Seq<u8>,
    pub sent_at: u64,
    pub resend_count: u32,
}

struct SentPacket {
    seq: u32,
    data: Vec<u8>,
    sent_at: u64,
    resend_count: u32,
}

impl View for SentPacket {
    type V = SentRecord;

    closed spec fn view(&self) -> SentRecord {
        SentRecord { seq: self.seq, data: self.data@, sent_at: self.sent_at, resend_count: self.resend_count }
    }
}

/// The sender as mathematics sees it. `outstanding` is in sending order.
pub struct SenderView {
    pub next_seq: u32,
    pub outstanding: Seq<SentRecord>,
    pub ack_timeout: u64,
    pub last_resend_check: u64,
    pub pending_acks: Seq<u32>,
}

/// The records of `records` but those numbered `seq`, in their order.
pub open spec fn spec_without(records: Seq<SentRecord>, seq: u32) -> Seq<SentRecord>
    decreases records.len(),
{
    if records.len() == 0 {
        records
    } else if records.last().seq == seq {
        spec_without(records.drop_last(), seq)
    } else {
        spec_without(records.drop_last(), seq).push(records.last())
    }
}

/// No two records carry the same sequence number.
pub open spec fn spec_distinct(records: Seq<SentRecord>) -> bool {
    forall|i: int, j: int|
        0 <= i < j < records.len() ==> (#[trigger] records[i]).seq != (#[trigger] records[j]).seq
}

/// Whether a record has waited longer than `timeout` at time `now`.
pub open spec fn spec_is_due(record: SentRecord, now: u64, timeout: u64) -> bool {
    spec_elapsed(now, record.sent_at) > timeout
}

/// The overdue records of `records`, in their order, as they go out again.
pub open spec fn spec_due(records: Seq<SentRecord>, now: u64, timeout: u64) -> Seq<(u32, Seq<u8>)>
    decreases records.len(),
{
    if records.len() == 0 {
        Seq::empty()
    } else if spec_is_due(records.last(), now, timeout) {
        spec_due(records.drop_last(), now, timeout).push((records.last().seq, records.last().data))
    } else {
        spec_due(records.drop_last(), now, timeout)
    }
}

/// A record after a sweep at `now`: an overdue one is stamped `now` and
/// counts one more resend (the count stops at `u32::MAX`).
pub open spec fn spec_resent(record: SentRecord, now: u64, timeout: u64) -> SentRecord {
    if spec_is_due(record, now, timeout) {
        SentRecord {
            sent_at: now,
            resend_count: if record.resend_count == u32::MAX {
                u32::MAX
            } else {
                (record.resend_count + 1) as u32
            },
            ..record
        }
    } else {
        record
    }
}

/// Whether a sweep for overdue packets is due at `now`.
pub open spec fn spec_sweep_is_due(s: SenderView, now: u64) -> bool {
    spec_elapsed(now, s.last_resend_check) >= RESEND_CHECK_INTERVAL_MS
}

/// What a call for resends at `now` hands out: nothing unless a sweep is
/// due, else the overdue records in sending order.
pub open spec fn spec_sweep_output(s: SenderView, now: u64) -> Seq<(u32, Seq<u8>)> {
    if spec_sweep_is_due(s, now) {
        spec_due(s.outstanding, now, s.ack_timeout)
    } else {
        Seq::empty()
    }
}

/// The sender after a call for resends at `now`.
pub open spec fn spec_after_sweep(s: SenderView, now: u64) -> SenderView {
    if spec_sweep_is_due(s, now) {
        SenderView {
            last_resend_check: now,
            outstanding: s.outstanding.map_values(|r: SentRecord| spec_resent(r, now, s.ack_timeout)),
            ..s
        }
    } else {
        s
    }
}

proof fn lemma_without_absent(records: Seq<SentRecord>, seq: u32)
    requires
        forall|i: int| 0 <= i < records.len() ==> (#[trigger] records[i]).seq != seq,
    ensures
        spec_without(records, seq) == records,
    decreases records.len(),
{
    if records.len() > 0 {
        let front = records.drop_last();
        assert forall|i: int| 0 <= i < front.len() implies (#[trigger] front[i]).seq != seq by {
            assert(front[i] == records[i]);
        }
        lemma_without_absent(front, seq);
        assert(records.last() == records[records.len() - 1]);
        assert(front.push(records.last()) =~= records);
    }
}

proof fn lemma_without_at(records: Seq<SentRecord>, seq: u32, at: int)
    requires
        spec_distinct(records),
        0 <= at < records.len(),
        records[at].seq == seq,
    ensures
        spec_without(records, seq) == records.remove(at),
    decreases records.len(),
{
    let front = records.drop_last();
    if at == records.len() - 1 {
        assert forall|i: int| 0 <= i < front.len() implies (#[trigger] front[i]).seq != seq by {
            assert(front[i] == records[i]);
        }
        lemma_without_absent(front, seq);
        assert(records.remove(at) =~= front);
    } else {
        assert(front[at] == records[at]);
        assert(spec_distinct(front)) by {
            assert forall|i: int, j: int| 0 <= i < j < front.len() implies (#[trigger] front[i]).seq != (
            #[trigger] front[j]).seq by {
                assert(front[i] == records[i]);
                assert(front[j] == records[j]);
            }
        }
        lemma_without_at(front, seq, at);
        assert(records.last() == records[records.len() - 1]);
        assert(records.last().seq != seq);
        assert(front.remove(at).push(records.last()) =~= records.remove(at));
    }
}

/// What `spec_without` leaves holds no record numbered `seq`, keeps every
/// other record, and stays free of repeats.
pub proof fn lemma_without_props(records: Seq<SentRecord>, seq: u32)
    ensures
        forall|i: int|
            0 <= i < spec_without(records, seq).len() ==> (#[trigger] spec_without(records, seq)[i]).seq
                != seq && records.contains(spec_without(records, seq)[i]),
        spec_distinct(records) ==> spec_distinct(spec_without(records, seq)),
        spec_without(records, seq).len() <= records.len(),
    decreases records.len(),
{
    if records.len() > 0 {
        let front = records.drop_last();
        let last = records.last();
        lemma_without_props(front, seq);
        let w = spec_without(records, seq);
        let wf = spec_without(front, seq);
        assert(records.last() == records[records.len() - 1]);
        assert forall|i: int| 0 <= i < w.len() implies (#[trigger] w[i]).seq != seq && records.contains(
            w[i],
        ) by {
            if i < wf.len() {
                assert(w[i] == wf[i]);
                let k = choose|k: int| 0 <= k < front.len() && front[k] == wf[i];
                assert(records[k] == front[k]);
            }
        }
        if spec_distinct(records) {
            assert(spec_distinct(front)) by {
                assert forall|i: int, j: int| 0 <= i < j < front.len() implies (#[trigger] front[i]).seq
                    != (#[trigger] front[j]).seq by {
                    assert(front[i] == records[i]);
                    assert(front[j] == records[j]);
                }
            }
            assert forall|i: int, j: int| 0 <= i < j < w.len() implies (#[trigger] w[i]).seq != (
            #[trigger] w[j]).seq by {
                if j == wf.len() {
                    assert(w[i] == wf[i]);
                    let k = choose|k: int| 0 <= k < front.len() && front[k] == wf[i];
                    assert(records[k] == front[k]);
                } else {
                    assert(w[i] == wf[i]);
                    assert(w[j] == wf[j]);
                }
            }
        }
    }
}

/// The sending half of a reliable channel: it numbers each payload, keeps
/// it until the remote acknowledges it, and hands it out again when the
/// acknowledgement is overdue. It also queues the acknowledgements that this
/// side owes the remote.
pub struct ReliableSender {
    next_sequence_num: SequenceNumber,
    sent_packets: Vec<SentPacket>,
    ack_timeout: u64,
    last_resend_check: u64,
    pending_acks: Vec<SequenceNumber>,
}

impl View for ReliableSender {
    type V = SenderView;

    closed spec fn view(&self) -> SenderView {
        SenderView {
            next_seq: self.next_sequence_num.0,
            outstanding: self.sent_packets@.map_values(|p: SentPacket| p@),
            ack_timeout: self.ack_timeout,
            last_resend_check: self.last_resend_check,
            pending_acks: self.pending_acks@.map_values(|s: SequenceNumber| s.0),
        }
    }
}

impl ReliableSender {
    /// No two outstanding records carry the same sequence number.
    pub open spec fn wf(&self) -> bool {
        spec_distinct(self@.outstanding)
    }

    /// A sender that starts numbering at zero; `now` is the time of creation.
    pub fn new(now: u64) -> (r: Self)
        ensures
            r.wf(),
            r@ == (SenderView {
                next_seq: 0,
                outstanding: Seq::empty(),
                ack_timeout: DEFAULT_ACK_TIMEOUT_MS,
                last_resend_check: now,
                pending_acks: Seq::empty(),
            }),
    {
        let r = Self {
            next_sequence_num: SequenceNumber::new(0),
            sent_packets: Vec::new(),
            ack_timeout: DEFAULT_ACK_TIMEOUT_MS,
            last_resend_check: now,
            pending_acks: Vec::new(),
        };
        assert(r@.outstanding =~= Seq::empty());
        assert(r@.pending_acks =~= Seq::empty());
        r
    }

    fn position(&self, seq: u32) -> (r: Option<usize>)
        ensures
            match r {
                Some(i) => i < self@.outstanding.len() && self@.outstanding[i as int].seq == seq,
                None => forall|i: int|
                    0 <= i < self@.outstanding.len() ==> (#[trigger] self@.outstanding[i]).seq != seq,
            },
    {
        let mut i: usize = 0;
        while i < self.sent_packets.len()
            invariant
                i <= self.sent_packets.len(),
                forall|k: int| 0 <= k < i ==> (#[trigger] self@.outstanding[k]).seq != seq,
            decreases self.sent_packets.len() - i,
        {
            if self.sent_packets[i].seq == seq {
                return Some(i);
            }
            i += 1;
        }
        None
    }

    fn forget(&mut self, seq: u32)
        requires
            old(self).wf(),
        ensures
            final(self).wf(),
            final(self)@ == (SenderView { outstanding: spec_without(old(self)@.outstanding, seq), ..old(self)@ }),
    {
        proof {
            lemma_without_props(self@.outstanding, seq);
        }
        match self.position(seq) {
            Some(i) => {
                proof {
                    lemma_without_at(self@.outstanding, seq, i as int);
                }
                self.sent_packets.remove(i);
                assert(self@.outstanding =~= old(self)@.outstanding.remove(i as int));
            },
            None => {
                proof {
                    lemma_without_absent(self@.outstanding, seq);
                }
            },
        }
    }

    /// Takes the next sequence number for `data` and records it as sent at
    /// `now`. A record that still carried that number (the numbers have
    /// wrapped) gives way to the new one.
    pub fn send(&mut self, data: Vec<u8>, now: u64) -> (seq: SequenceNumber)
        requires
            old(self).wf(),
        ensures
            final(self).wf(),
            seq.0 == old(self)@.next_seq,
            final(self)@ == (SenderView {
                next_seq: spec_next_seq(seq.0),
                outstanding: spec_without(old(self)@.outstanding, seq.0).push(
                    SentRecord { seq: seq.0, data: data@, sent_at: now, resend_count: 0 },
                ),
                ..old(self)@
            }),
    {
        let seq = self.next_sequence_num;
        self.next_sequence_num = seq.next();
        self.forget(seq.0);
        proof {
            lemma_without_props(old(self)@.outstanding, seq.0);
        }
        let ghost before = self@.outstanding;
        self.sent_packets.push(SentPacket { seq: seq.0, data, sent_at: now, resend_count: 0 });
        assert(self@.outstanding =~= before.push(
            SentRecord { seq: seq.0, data: data@, sent_at: now, resend_count: 0 },
        ));
        seq
    }

    /// Sweeps for overdue packets, at most once per
    /// `RESEND_CHECK_INTERVAL_MS`. A sweep hands out, in sending order, every
    /// record that has waited longer than the timeout, stamps it `now` and
    /// counts the resend.
    pub fn get_resends(&mut self, now: u64) -> (resends: Vec<(SequenceNumber, Vec<u8>)>)
        requires
            old(self).wf(),
        ensures
            final(self).wf(),
            resends@.map_values(|r: (SequenceNumber, Vec<u8>)| (r.0.0, r.1@)) == spec_sweep_output(old(self)@, now),
            final(self)@ == spec_after_sweep(old(self)@, now),
    {
        if elapsed(now, self.last_resend_check) < RESEND_CHECK_INTERVAL_MS {
            let none: Vec<(SequenceNumber, Vec<u8>)> = Vec::new();
            assert(none@.map_values(|r: (SequenceNumber, Vec<u8>)| (r.0.0, r.1@)) =~= Seq::empty());
            return none;
        }
        self.last_resend_check = now;

        let ghost timeout = self.ack_timeout;
        let ghost before = old(self)@.outstanding;
        let mut resends: Vec<(SequenceNumber, Vec<u8>)> = Vec::new();
        let mut i: usize = 0;
        while i < self.sent_packets.len()
            invariant
                i <= self.sent_packets.len(),
                timeout == self.ack_timeout,
                before.len() == self.sent_packets.len(),
                self@ == (SenderView { last_resend_check: now, outstanding: self@.outstanding, ..old(self)@ }),
                forall|k: int| 0 <= k < i ==> #[trigger] self@.outstanding[k] == spec_resent(before[k], now, timeout),
                forall|k: int| i <= k < before.len() ==> #[trigger] self@.outstanding[k] == before[k],
                resends@.map_values(|r: (SequenceNumber, Vec<u8>)| (r.0.0, r.1@)) == spec_due(
                    before.take(i as int),
                    now,
                    timeout,
                ),
            decreases self.sent_packets.len() - i,
        {
            let ghost sent_before = self@.outstanding;
            let ghost out_before = resends@.map_values(|r: (SequenceNumber, Vec<u8>)| (r.0.0, r.1@));
            assert(before.take(i + 1).drop_last() =~= before.take(i as int));
            assert(before.take(i + 1).last() == before[i as int]);
            assert(self@.outstanding[i as int] == before[i as int]);
            if elapsed(now, self.sent_packets[i].sent_at) > self.ack_timeout {
                let seq = self.sent_packets[i].seq;
                let data = vstd::slice::slice_to_vec(self.sent_packets[i].data.as_slice());
                let count = self.sent_packets[i].resend_count;
                resends.push((SequenceNumber(seq), data));
                let old_data = self.sent_packets.remove(i).data;
                self.sent_packets.insert(
                    i,
                    SentPacket {
                        seq,
                        data: old_data,
                        sent_at: now,
                        resend_count: if count == u32::MAX {
                            u32::MAX
                        } else {
                            count + 1
                        },
                    },
                );
                assert(resends@.map_values(|r: (SequenceNumber, Vec<u8>)| (r.0.0, r.1@)) =~= out_before.push(
                    (seq, before[i as int].data),
                ));
                assert(self@.outstanding =~= sent_before.update(
                    i as int,
                    spec_resent(before[i as int], now, timeout),
                ));
            }
            i += 1;
        }
        assert(before.take(i as int) =~= before);
        assert(self@.outstanding =~= before.map_values(|r: SentRecord| spec_resent(r, now, timeout)));
        assert(spec_distinct(self@.outstanding)) by {
            assert forall|a: int, b: int| 0 <= a < b < self@.outstanding.len() implies (
            #[trigger] self@.outstanding[a]).seq != (#[trigger] self@.outstanding[b]).seq by {
                assert(before[a].seq != before[b].seq);
            }
        }
        resends
    }

    /// The remote has acknowledged `seq`: its record is dropped.
    pub fn ack_received(&mut self, seq: SequenceNumber)
        requires
            old(self).wf(),
        ensures
            final(self).wf(),
            final(self)@ == (SenderView { outstanding: spec_without(old(self)@.outstanding, seq.0), ..old(self)@ }),
    {
        self.forget(seq.0);
    }

    /// Whether any packet still waits for its acknowledgement.
    pub fn has_unacked(&self) -> (r: bool)
        ensures
            r == (self@.outstanding.len() > 0),
    {
        self.sent_packets.len() > 0
    }

    /// Whether some packet has been sent again more than `MAX_RESENDS`
    /// times: the remote is probably gone.
    pub fn is_stalled(&self) -> (r: bool)
        ensures
            r == exists|i: int|
                0 <= i < self@.outstanding.len() && (#[trigger] self@.outstanding[i]).resend_count > MAX_RESENDS,
    {
        let mut i: usize = 0;
        while i < self.sent_packets.len()
            invariant
                i <= self.sent_packets.len(),
                forall|k: int| 0 <= k < i ==> (#[trigger] self@.outstanding[k]).resend_count <= MAX_RESENDS,
            decreases self.sent_packets.len() - i,
        {
            if self.sent_packets[i].resend_count > MAX_RESENDS {
                assert(self@.outstanding[i as int].resend_count > MAX_RESENDS);
                return true;
            }
            i += 1;
        }
        false
    }

    /// Notes that `seq` must be acknowledged to the remote.
    pub fn queue_ack(&mut self, seq: SequenceNumber)
        ensures
            final(self)@ == (SenderView { pending_acks: old(self)@.pending_acks.push(seq.0), ..old(self)@ }),
            old(self).wf() ==> final(self).wf(),
    {
        self.pending_acks.push(seq);
        assert(self@.pending_acks =~= old(self)@.pending_acks.push(seq.0));
    }

    /// Hands out the acknowledgements that are owed, oldest first, and
    /// empties the queue.
    pub fn get_pending_acks(&mut self) -> (acks: Vec<SequenceNumber>)
        ensures
            acks@.map_values(|s: SequenceNumber| s.0) == old(self)@.pending_acks,
            final(self)@ == (SenderView { pending_acks: Seq::empty(), ..old(self)@ }),
            old(self).wf() ==> final(self).wf(),
    {
        let mut acks: Vec<SequenceNumber> = Vec::new();
        std::mem::swap(&mut acks, &mut self.pending_acks);
        assert(self@.pending_acks =~= Seq::empty());
        acks
    }
}

/// The receiver as mathematics sees it: the number it waits for, the packets
/// that came too early, and the payloads ready for the application, oldest
/// first.
pub struct ReceiverView {
    pub expected_next: u32,
    pub buffered: Map<u32, Seq<u8>>,
    pub ordered: Seq<Seq<u8>>,
}

/// Moves packets from the buffer to the ready queue for as long as the one
/// that is waited for lies in the buffer.
pub open spec fn spec_drain(r: ReceiverView) -> ReceiverView
    decreases r.buffered.dom().len(),
    when r.buffered.dom().finite()
{
    if r.buffered.contains_key(r.expected_next) {
        spec_drain(
            ReceiverView {
                expected_next: spec_next_seq(r.expected_next),
                buffered: r.buffered.remove(r.expected_next),
                ordered: r.ordered.push(r.buffered[r.expected_next]),
            },
        )
    } else {
        r
    }
}

/// The receiver after the reliable frame `(seq, data)` came in. The frame
/// that is waited for is delivered, together with all that the buffer holds
/// in unbroken succession; a newer one is buffered; any other is dropped.
pub open spec fn spec_receive(r: ReceiverView, seq: u32, data: Seq<u8>) -> ReceiverView {
    if seq == r.expected_next {
        spec_drain(ReceiverView { expected_next: spec_next_seq(seq), ordered: r.ordered.push(data), ..r })
    } else if spec_newer_than(seq, r.expected_next) {
        ReceiverView { buffered: r.buffered.insert(seq, data), ..r }
    } else {
        r
    }
}

/// The receiving half of a reliable channel. It hands payloads to the
/// application in the order of their sequence numbers, each once.
pub struct ReliableReceiver {
    received_packets: HashMap<u32, Vec<u8>>,
    ordered_buffer: Vec<Vec<u8>>,
    expected_next: SequenceNumber,
}

impl View for ReliableReceiver {
    type V = ReceiverView;

    closed spec fn view(&self) -> ReceiverView {
        ReceiverView {
            expected_next: self.expected_next.0,
            buffered: self.received_packets@.map_values(|v: Vec<u8>| v@),
            ordered: self.ordered_buffer@.map_values(|v: Vec<u8>| v@),
        }
    }
}

impl ReliableReceiver {
    /// A receiver that waits for sequence number zero.
    pub fn new() -> (r: Self)
        ensures
            r@ == (ReceiverView { expected_next: 0, buffered: Map::empty(), ordered: Seq::empty() }),
    {
        let r = Self {
            received_packets: HashMap::new(),
            ordered_buffer: Vec::new(),
            expected_next: SequenceNumber::new(0),
        };
        assert(r@.buffered =~= Map::empty());
        assert(r@.ordered =~= Seq::empty());
        r
    }

    proof fn lemma_buffer_finite(&self)
        ensures
            self@.buffered.dom().finite(),
            self@.buffered.dom() == self.received_packets@.dom(),
    {
        assert(self@.buffered.dom() =~= self.received_packets@.dom());
    }

    /// Takes in one reliable frame and returns the sequence numbers to
    /// acknowledge: always `seq`, once, whether the frame was delivered,
    /// buffered or dropped as a repeat.
    pub fn receive(&mut self, seq: SequenceNumber, data: Vec<u8>) -> (acks: Vec<SequenceNumber>)
        ensures
            final(self)@ == spec_receive(old(self)@, seq.0, data@),
            acks@ == seq![seq],
    {
        let mut acks: Vec<SequenceNumber> = Vec::new();
        acks.push(seq);

        if seq.0 == self.expected_next.0 {
            self.ordered_buffer.push(data);
            self.expected_next = seq.next();
            assert(self@.ordered =~= old(self)@.ordered.push(data@));
            proof {
                self.lemma_buffer_finite();
            }
            loop
                invariant
                    self@.buffered.dom().finite(),
                    spec_drain(self@) == spec_receive(old(self)@, seq.0, data@),
                ensures
                    self@ == spec_receive(old(self)@, seq.0, data@),
                decreases self.received_packets@.dom().len(),
            {
                let ghost before = self@;
                let ghost raw = self.received_packets@;
                match self.received_packets.remove(&self.expected_next.0) {
                    Some(buffered) => {
                        assert(raw.contains_key(before.expected_next) && raw[before.expected_next] == buffered);
                        self.ordered_buffer.push(buffered);
                        self.expected_next = self.expected_next.next();
                        assert(self@.ordered =~= before.ordered.push(before.buffered[before.expected_next]));
                        assert(self@.buffered =~= before.buffered.remove(before.expected_next));
                        proof {
                            self.lemma_buffer_finite();
                        }
                    },
                    None => {
                        assert(!before.buffered.contains_key(before.expected_next));
                        assert(self@.buffered =~= before.buffered);
                        break;
                    },
                }
            }
        } else if seq.is_newer_than(self.expected_next) {
            self.received_packets.insert(seq.0, data);
            assert(self@.buffered =~= old(self)@.buffered.insert(seq.0, data@));
        }
        assert(acks@ =~= seq![seq]);
        acks
    }

    /// Takes the oldest ready payload, if there is one.
    pub fn pop_packet(&mut self) -> (r: Option<Vec<u8>>)
        ensures
            old(self)@.ordered.len() == 0 ==> r is None && final(self)@ == old(self)@,
            old(self)@.ordered.len() > 0 ==> r is Some && r->0@ == old(self)@.ordered[0] && final(self)@ == (
            ReceiverView { ordered: old(self)@.ordered.drop_first(), ..old(self)@ }),
    {
        if self.ordered_buffer.len() == 0 {
            None
        } else {
            let first = self.ordered_buffer.remove(0);
            assert(self@.ordered =~= old(self)@.ordered.drop_first());
            Some(first)
        }
    }

    /// Takes all ready payloads, oldest first.
    pub fn take_all_packets(&mut self) -> (r: Vec<Vec<u8>>)
        ensures
            r@.map_values(|v: Vec<u8>| v@) == old(self)@.ordered,
            final(self)@ == (ReceiverView { ordered: Seq::empty(), ..old(self)@ }),
    {
        let mut out: Vec<Vec<u8>> = Vec::new();
        std::mem::swap(&mut out, &mut self.ordered_buffer);
        assert(self@.ordered =~= Seq::empty());
        out
    }
}

/// What it means that a receiver has so far dealt faithfully with the
/// payloads `log`, numbered from zero in sending order: what the application
/// has taken (`taken`) followed by what is ready for it is a prefix of `log`,
/// the receiver waits for the payload right after that prefix, and the buffer
/// holds only later payloads of `log` under their own numbers. The log is
/// shorter than 2^31 payloads, so that the sequence numbers have not wrapped.
pub open spec fn spec_in_send_order(r: ReceiverView, taken: Seq<Seq<u8>>, log: Seq<Seq<u8>>) -> bool {
    let n = taken.len() + r.ordered.len();
    &&& log.len() < 0x8000_0000
    &&& n <= log.len()
    &&& r.expected_next == n
    &&& taken + r.ordered == log.take(n as int)
    &&& r.buffered.dom().finite()
    &&& forall|s: u32| #[trigger]
        r.buffered.contains_key(s) ==> n < s < log.len() && r.buffered[s] == log[s as int]
}

proof fn lemma_drain_in_send_order(r: ReceiverView, taken: Seq<Seq<u8>>, log: Seq<Seq<u8>>)
    requires
        log.len() < 0x8000_0000,
        taken.len() + r.ordered.len() <= log.len(),
        r.expected_next == taken.len() + r.ordered.len(),
        taken + r.ordered == log.take((taken.len() + r.ordered.len()) as int),
        r.buffered.dom().finite(),
        forall|s: u32| #[trigger]
            r.buffered.contains_key(s) ==> r.expected_next <= s < log.len() && r.buffered[s] == log[s as int],
    ensures
        spec_in_send_order(spec_drain(r), taken, log),
    decreases r.buffered.dom().len(),
{
    let n = taken.len() + r.ordered.len();
    if r.buffered.contains_key(r.expected_next) {
        let next = ReceiverView {
            expected_next: spec_next_seq(r.expected_next),
            buffered: r.buffered.remove(r.expected_next),
            ordered: r.ordered.push(r.buffered[r.expected_next]),
        };
        assert(taken + next.ordered =~= log.take((n + 1) as int)) by {
            assert(taken + next.ordered =~= (taken + r.ordered).push(log[n as int]));
        }
        lemma_drain_in_send_order(next, taken, log);
    } else {
        assert forall|s: u32| #[trigger] r.buffered.contains_key(s) implies n < s by {}
    }
}

/// A fresh receiver has dealt faithfully with any log, nothing being taken.
pub proof fn lemma_new_in_send_order(log: Seq<Seq<u8>>)
    requires
        log.len() < 0x8000_0000,
    ensures
        spec_in_send_order(
            ReceiverView { expected_next: 0, buffered: Map::empty(), ordered: Seq::empty() },
            Seq::empty(),
            log,
        ),
{
    assert(Seq::<Seq<u8>>::empty() + Seq::<Seq<u8>>::empty() =~= log.take(0));
}

/// Ordered, at-most-once delivery. Let the sender have numbered the
/// payloads of `log` from zero. Whatever frame of that log arrives, in
/// whatever order and however often, the receiver stays faithful to the
/// log: all that it has ever handed on is a prefix of the log, so no payload
/// is delivered twice, none is skipped and none overtakes another.
pub proof fn lemma_receive_in_send_order(r: ReceiverView, taken: Seq<Seq<u8>>, log: Seq<Seq<u8>>, seq: u32)
    requires
        spec_in_send_order(r, taken, log),
        seq < log.len(),
    ensures
        spec_in_send_order(spec_receive(r, seq, log[seq as int]), taken, log),
{
    let n = taken.len() + r.ordered.len();
    let data = log[seq as int];
    if seq == r.expected_next {
        let pushed = ReceiverView { expected_next: spec_next_seq(seq), ordered: r.ordered.push(data), ..r };
        assert(taken + pushed.ordered =~= log.take((n + 1) as int)) by {
            assert(taken + pushed.ordered =~= (taken + r.ordered).push(log[n as int]));
        }
        lemma_drain_in_send_order(pushed, taken, log);
    } else if spec_newer_than(seq, r.expected_next) {
    } else {
    }
}

/// Taking the oldest ready payload keeps the receiver faithful to the log;
/// the payload joins those that were taken.
pub proof fn lemma_pop_in_send_order(r: ReceiverView, taken: Seq<Seq<u8>>, log: Seq<Seq<u8>>)
    requires
        spec_in_send_order(r, taken, log),
        r.ordered.len() > 0,
    ensures
        spec_in_send_order(
            ReceiverView { ordered: r.ordered.drop_first(), ..r },
            taken.push(r.ordered[0]),
            log,
        ),
{
    assert(taken.push(r.ordered[0]) + r.ordered.drop_first() =~= taken + r.ordered);
}

} // verus!
