use relay_server::transport::client::{
    decode_frame, encode_frame, ClientEvent, ClientTransport, Frame,
};
use relay_server::transport::reliability::{ReliableReceiver, ReliableSender, SequenceNumber};
use relay_server::transport::types::Channel;

#[test]
fn sequence_numbers_wrap() {
    assert_eq!(SequenceNumber::new(5).0, 5);
    assert_eq!(SequenceNumber::new(5).next(), SequenceNumber(6));
    assert_eq!(SequenceNumber::new(u32::MAX).next(), SequenceNumber(0));
}

#[test]
fn newer_than_handles_the_wrap() {
    let last = SequenceNumber::new(0xFFFF_FFFF);
    let first = SequenceNumber::new(0);
    assert_eq!(last.is_newer_than(first), false);
    assert_eq!(first.is_newer_than(last), true);
    assert!(SequenceNumber::new(10).is_newer_than(SequenceNumber::new(9)));
    assert!(!SequenceNumber::new(9).is_newer_than(SequenceNumber::new(10)));
    // a number is not older than itself
    assert!(SequenceNumber::new(7).is_newer_than(SequenceNumber::new(7)));
    // exactly half the circle apart: neither is newer
    assert!(!SequenceNumber::new(0x8000_0000).is_newer_than(SequenceNumber::new(0)));
    assert!(!SequenceNumber::new(0).is_newer_than(SequenceNumber::new(0x8000_0000)));
    assert!(SequenceNumber::new(0x7FFF_FFFF).is_newer_than(SequenceNumber::new(0)));
}

#[test]
fn newer_than_is_antisymmetric_on_samples() {
    let samples: [u32; 8] = [0, 1, 2, 0x7FFF_FFFF, 0x8000_0000, 0x8000_0001, 0xFFFF_FFFE, 0xFFFF_FFFF];
    for a in samples {
        for b in samples {
            let ab: bool = SequenceNumber::new(a).is_newer_than(SequenceNumber::new(b));
            let ba: bool = SequenceNumber::new(b).is_newer_than(SequenceNumber::new(a));
            if ab && ba {
                assert_eq!(a, b);
            }
            let diff: u32 = a.wrapping_sub(b);
            assert_eq!(ab, diff < 0x8000_0000);
        }
    }
}

#[test]
fn sender_numbers_from_zero_and_keeps_until_acked() {
    let mut s = ReliableSender::new(0);
    assert!(!s.has_unacked());
    assert_eq!(s.send(vec![1], 0), SequenceNumber(0));
    assert_eq!(s.send(vec![2], 0), SequenceNumber(1));
    assert_eq!(s.send(vec![3], 0), SequenceNumber(2));
    assert!(s.has_unacked());
    s.ack_received(SequenceNumber(1));
    s.ack_received(SequenceNumber(1));
    s.ack_received(SequenceNumber(77));
    assert!(s.has_unacked());
    s.ack_received(SequenceNumber(0));
    s.ack_received(SequenceNumber(2));
    assert!(!s.has_unacked());
}

#[test]
fn sender_resends_what_is_overdue() {
    let mut s = ReliableSender::new(1000);
    s.send(vec![1], 1000);
    s.send(vec![2], 1100);
    // the sweep is not due before 50 ms have passed since the last one
    assert_eq!(s.get_resends(1049), Vec::new());
    // due, but nothing has waited longer than 200 ms
    assert_eq!(s.get_resends(1200), Vec::new());
    // 1201 - 1000 > 200, but the last sweep was at 1200
    assert_eq!(s.get_resends(1201), Vec::new());
    assert_eq!(s.get_resends(1250), vec![(SequenceNumber(0), vec![1u8])]);
    // the first was stamped 1250; the second is overdue at 1301
    assert_eq!(s.get_resends(1301), vec![(SequenceNumber(1), vec![2u8])]);
    assert_eq!(s.get_resends(1451), vec![(SequenceNumber(0), vec![1u8])]);
    s.ack_received(SequenceNumber(0));
    assert_eq!(s.get_resends(1600), vec![(SequenceNumber(1), vec![2u8])]);
    s.ack_received(SequenceNumber(1));
    assert_eq!(s.get_resends(5000), Vec::new());
}

#[test]
fn sender_resends_in_sending_order() {
    let mut s = ReliableSender::new(0);
    for i in 0u8..5 {
        s.send(vec![i], 0);
    }
    s.ack_received(SequenceNumber(2));
    let out = s.get_resends(1000);
    assert_eq!(
        out,
        vec![
            (SequenceNumber(0), vec![0u8]),
            (SequenceNumber(1), vec![1u8]),
            (SequenceNumber(3), vec![3u8]),
            (SequenceNumber(4), vec![4u8]),
        ]
    );
}

#[test]
fn sender_survives_a_clock_that_steps_back() {
    let mut s = ReliableSender::new(1000);
    s.send(vec![1], 1000);
    assert_eq!(s.get_resends(10), Vec::new());
    assert!(s.has_unacked());
}

#[test]
fn sender_queues_acks() {
    let mut s = ReliableSender::new(0);
    s.queue_ack(SequenceNumber(4));
    s.queue_ack(SequenceNumber(2));
    s.queue_ack(SequenceNumber(4));
    assert_eq!(s.get_pending_acks(), vec![SequenceNumber(4), SequenceNumber(2), SequenceNumber(4)]);
    assert_eq!(s.get_pending_acks(), Vec::new());
}

#[test]
fn receiver_delivers_in_order() {
    let mut r = ReliableReceiver::new();
    assert_eq!(r.pop_packet(), None);
    assert_eq!(r.receive(SequenceNumber(2), vec![2]), vec![SequenceNumber(2)]);
    assert_eq!(r.receive(SequenceNumber(1), vec![1]), vec![SequenceNumber(1)]);
    assert_eq!(r.pop_packet(), None);
    assert_eq!(r.receive(SequenceNumber(0), vec![0]), vec![SequenceNumber(0)]);
    assert_eq!(r.pop_packet(), Some(vec![0u8]));
    assert_eq!(r.take_all_packets(), vec![vec![1u8], vec![2u8]]);
    assert_eq!(r.take_all_packets(), Vec::<Vec<u8>>::new());
    // a repeat of what was delivered is acknowledged and dropped
    assert_eq!(r.receive(SequenceNumber(1), vec![1]), vec![SequenceNumber(1)]);
    assert_eq!(r.pop_packet(), None);
    assert_eq!(r.receive(SequenceNumber(3), vec![3]), vec![SequenceNumber(3)]);
    assert_eq!(r.pop_packet(), Some(vec![3u8]));
}

#[test]
fn receiver_holds_back_behind_a_gap() {
    let mut r = ReliableReceiver::new();
    r.receive(SequenceNumber(0), vec![0]);
    r.receive(SequenceNumber(2), vec![2]);
    r.receive(SequenceNumber(3), vec![3]);
    r.receive(SequenceNumber(2), vec![2]);
    assert_eq!(r.take_all_packets(), vec![vec![0u8]]);
    r.receive(SequenceNumber(1), vec![1]);
    assert_eq!(r.take_all_packets(), vec![vec![1u8], vec![2u8], vec![3u8]]);
}

#[test]
fn receiver_drops_what_is_half_a_circle_away() {
    let mut r = ReliableReceiver::new();
    // not newer than the number that is waited for: dropped, never buffered
    r.receive(SequenceNumber(0x8000_0000), vec![9]);
    r.receive(SequenceNumber(0xFFFF_FFFF), vec![8]);
    r.receive(SequenceNumber(0), vec![0]);
    assert_eq!(r.take_all_packets(), vec![vec![0u8]]);
}

#[test]
fn frames_have_their_kind_in_front() {
    assert_eq!(encode_frame(&Frame::Reliable { seq: 0x0102_0304, payload: vec![9, 8] }), vec![0u8, 1, 2, 3, 4, 9, 8]);
    assert_eq!(encode_frame(&Frame::Unreliable { payload: vec![3] }), vec![1u8, 3]);
    assert_eq!(encode_frame(&Frame::Ack { seq: 258 }), vec![2u8, 0, 0, 1, 2]);
    assert_eq!(encode_frame(&Frame::Unreliable { payload: Vec::new() }), vec![1u8]);
}

#[test]
fn frames_read_back() {
    let frames: Vec<Frame> = vec![
        Frame::Reliable { seq: u32::MAX, payload: vec![1, 2, 3] },
        Frame::Reliable { seq: 0, payload: Vec::new() },
        Frame::Unreliable { payload: vec![7] },
        Frame::Ack { seq: 0x8000_0000 },
    ];
    for f in frames {
        assert_eq!(decode_frame(&encode_frame(&f)), Some(f));
    }
}

#[test]
fn malformed_frames_hold_nothing() {
    assert_eq!(decode_frame(&[]), None);
    assert_eq!(decode_frame(&[0u8, 1, 2, 3]), None);
    assert_eq!(decode_frame(&[2u8, 1, 2, 3]), None);
    assert_eq!(decode_frame(&[3u8]), None);
    assert_eq!(decode_frame(&[255u8, 0, 0, 0, 0, 0]), None);
    assert_eq!(decode_frame(&[2u8, 0, 0, 0, 5, 99]), Some(Frame::Ack { seq: 5 }));
}

#[test]
fn client_sends_on_both_channels() {
    let mut t = ClientTransport::new(0);
    assert_eq!(t.send(vec![5, 6], Channel::Unreliable, 0), vec![1u8, 5, 6]);
    assert!(!t.has_unacked());
    assert_eq!(t.send(vec![5, 6], Channel::Reliable, 0), vec![0u8, 0, 0, 0, 0, 5, 6]);
    assert_eq!(t.send(vec![7], Channel::Reliable, 0), vec![0u8, 0, 0, 0, 1, 7]);
    assert!(t.has_unacked());
    t.handle_datagram(&[2u8, 0, 0, 0, 0]);
    t.handle_datagram(&[2u8, 0, 0, 0, 1]);
    assert!(!t.has_unacked());
}

#[test]
fn client_turns_datagrams_into_events() {
    let mut t = ClientTransport::new(0);
    t.handle_datagram(&[1u8, 42]);
    t.handle_datagram(&[0u8, 0, 0, 0, 1, 11]);
    t.handle_datagram(&[9u8, 9]);
    t.handle_datagram(&[]);
    t.handle_datagram(&[0u8, 0, 0, 0, 0, 10]);
    let events = t.take_events();
    assert_eq!(
        events,
        vec![
            ClientEvent::PacketReceived { data: vec![42u8], channel: Channel::Unreliable },
            ClientEvent::PacketReceived { data: vec![10u8], channel: Channel::Reliable },
            ClientEvent::PacketReceived { data: vec![11u8], channel: Channel::Reliable },
        ]
    );
    assert_eq!(t.take_events(), Vec::new());
    // both reliable frames are acknowledged once the flush interval has passed
    assert_eq!(t.poll(5), Vec::<Vec<u8>>::new());
    assert_eq!(t.poll(11), vec![vec![2u8, 0, 0, 0, 1], vec![2u8, 0, 0, 0, 0]]);
    assert_eq!(t.poll(30), Vec::<Vec<u8>>::new());
}

#[test]
fn client_resends_after_the_timeout() {
    let mut t = ClientTransport::new(0);
    t.send(vec![1], Channel::Reliable, 0);
    assert_eq!(t.poll(100), Vec::<Vec<u8>>::new());
    assert_eq!(t.poll(201), vec![vec![0u8, 0, 0, 0, 0, 1]]);
    assert_eq!(t.poll(260), Vec::<Vec<u8>>::new());
    assert_eq!(t.poll(402), vec![vec![0u8, 0, 0, 0, 0, 1]]);
}

#[test]
fn client_turn_polls_then_reads() {
    let mut t = ClientTransport::new(0);
    t.send(vec![1], Channel::Reliable, 0);
    let datagrams: Vec<Vec<u8>> = vec![vec![0u8, 0, 0, 0, 0, 33], vec![2u8, 0, 0, 0, 0]];
    let (events, out) = t.recv_packets(&datagrams, 300);
    assert_eq!(events, vec![ClientEvent::PacketReceived { data: vec![33u8], channel: Channel::Reliable }]);
    assert_eq!(out, vec![vec![0u8, 0, 0, 0, 0, 1]]);
    assert!(!t.has_unacked());
    let (events, out) = t.recv_packets(&Vec::new(), 320);
    assert_eq!(events, Vec::new());
    assert_eq!(out, vec![vec![2u8, 0, 0, 0, 0]]);
}

fn next_random(state: &mut u64) -> u64 {
    *state = state.wrapping_mul(6364136223846793005).wrapping_add(1442695040888963407);
    *state >> 33
}

fn is_lost(state: &mut u64) -> bool {
    next_random(state) % 10 < 3
}

#[test]
fn reliability_under_loss() {
    let mut rng: u64 = 0x1234_5678;
    let mut a = ClientTransport::new(0);
    let mut b = ClientTransport::new(0);
    let total: u32 = 1000;
    let mut to_b: Vec<Vec<u8>> = Vec::new();
    let mut seen: Vec<Vec<u8>> = Vec::new();
    let mut now: u64 = 0;
    let mut sent: u32 = 0;
    let mut cycles: u32 = 0;
    while (sent < total || a.has_unacked()) && cycles < 5000 {
        cycles += 1;
        now += 60;
        // a few new payloads per cycle
        let mut burst: u32 = 0;
        while sent < total && burst < 5 {
            let payload: Vec<u8> = sent.to_be_bytes().to_vec();
            let datagram: Vec<u8> = a.send(payload, Channel::Reliable, now);
            if !is_lost(&mut rng) {
                to_b.push(datagram);
            }
            sent += 1;
            burst += 1;
        }
        // b reads what came through, and answers
        let (events, from_b) = b.recv_packets(&to_b, now);
        to_b.clear();
        for e in events {
            match e {
                ClientEvent::PacketReceived { data, channel } => {
                    assert_eq!(channel, Channel::Reliable);
                    seen.push(data);
                }
                _ => panic!("unexpected event"),
            }
        }
        let mut to_a: Vec<Vec<u8>> = Vec::new();
        for d in from_b {
            if !is_lost(&mut rng) {
                to_a.push(d);
            }
        }
        // a reads the acknowledgements and resends what is overdue
        let (events, from_a) = a.recv_packets(&to_a, now);
        assert!(events.is_empty());
        for d in from_a {
            if !is_lost(&mut rng) {
                to_b.push(d);
            }
        }
    }
    assert!(!a.has_unacked(), "the outstanding set did not drain");
    assert_eq!(seen.len(), 1000);
    for (i, p) in seen.iter().enumerate() {
        assert_eq!(p, &(i as u32).to_be_bytes().to_vec());
    }
}

#[test]
fn sender_notices_a_dead_remote() {
    let mut s = ReliableSender::new(0);
    s.send(vec![1], 0);
    let mut now: u64 = 0;
    for round in 0u32..11 {
        assert!(!s.is_stalled(), "stalled after {} resends", round);
        now += 250;
        assert_eq!(s.get_resends(now).len(), 1);
    }
    // sent again eleven times: more than the ten that are put up with
    assert!(s.is_stalled());
    s.ack_received(SequenceNumber(0));
    assert!(!s.is_stalled());
}
