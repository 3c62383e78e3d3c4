use psicose::protocol::{crc8, Frame};
use psicose::test_support::{concat2, MockTransport};
use psicose::timeout::{IdleBudget, RetryPolicy};
use psicose::tx::{Sender, TxState};
use psicose::tx::TxPoll;
use psicose::window::{WindowedReceiver, WindowedSender};
use psicose::rx::{PollOutcome, Receiver};
use psicose::protocol::OutBuf;
use psicose::Error;
use psicose::p2p::{Fragmenter, MessageId, StreamId};

#[test]
fn crc8_detects_every_single_bit_flip_of_many_messages() {
    let messages: [&[u8]; 5] = [
        &[0x00],
        &[0xFF, 0x00, 0x7E],
        &[0x01, 0x02, 0x03, 0x04, 0x05, 0x06, 0x07, 0x08],
        &[0x00, 0x00, 0x00, 0x00],
        &[0xA5; 17],
    ];
    for msg in messages {
        let base = crc8(msg);
        let mut buf = [0u8; 32];
        for i in 0..msg.len() {
            for bit in 0..8u8 {
                buf[..msg.len()].copy_from_slice(msg);
                buf[i] ^= 1 << bit;
                assert_ne!(crc8(&buf[..msg.len()]), base, "flip at byte {i}, bit {bit}");
            }
        }
    }
}

#[test]
fn idle_budget_lets_exactly_its_limit_pass() {
    for limit in [0u32, 1, 2, 7, 100] {
        let mut b = IdleBudget::new(limit);
        for _ in 0..limit {
            assert_eq!(b.tick::<()>(), Ok(()));
        }
        assert_eq!(b.tick::<()>(), Err(Error::IdleBudgetExhausted));
    }
}

#[test]
fn fragments_concatenate_back_to_the_message() {
    let payload: [u8; 20] = core::array::from_fn(|i| i as u8 * 3);
    for len in 0..=payload.len() {
        for max in 1..=6u8 {
            let msg = &payload[..len];
            let mut frag = Fragmenter::new(StreamId::new(2), MessageId::new(9), msg, max);
            let mut rebuilt = [0u8; 20];
            let mut filled = 0usize;
            let mut count = 0usize;
            let mut last = false;
            while let Some((h, chunk)) = frag.next_fragment() {
                assert!(!last);
                last = h.last;
                if !h.last {
                    assert_eq!(chunk.len(), max as usize);
                } else if len > 0 {
                    assert!(!chunk.is_empty());
                }
                rebuilt[filled..filled + chunk.len()].copy_from_slice(chunk);
                filled += chunk.len();
                count += 1;
            }
            assert!(last);
            let want = if len == 0 { 1 } else { len.div_ceil(max as usize) };
            assert_eq!(count, want);
            assert_eq!(&rebuilt[..filled], msg);
        }
    }
}

#[test]
fn windowed_stray_ack_changes_nothing_and_its_own_ack_frees_the_slot() {
    let incoming = concat2(Frame::ack(5).to_bytes(), Frame::ack(0).to_bytes());
    let mut tx = WindowedSender::<_, 4>::new(MockTransport::with_incoming(&incoming));
    assert_eq!(tx.offer(0x42), Ok(()));
    for _ in 0..4 {
        assert_eq!(tx.poll(), Ok(TxPoll::Pending));
    }
    assert_eq!(tx.transport().written(), &Frame::data(0, 0x42).to_bytes());
    for _ in 0..4 {
        assert_eq!(tx.poll(), Ok(TxPoll::Pending));
        assert_eq!(tx.outstanding(), 1);
    }
    for _ in 0..3 {
        assert_eq!(tx.poll(), Ok(TxPoll::Pending));
    }
    assert_eq!(tx.poll(), Ok(TxPoll::Acked));
    assert_eq!(tx.outstanding(), 0);
}

#[test]
fn silent_transport_gets_retries_plus_one_copies_then_gives_up() {
    for retries in 0u8..=3 {
        let mut tx = Sender::with_policy(MockTransport::with_incoming(&[]), RetryPolicy::new(3, retries));
        assert_eq!(tx.send_byte(0x5A), Err(Error::RetriesExhausted));
        assert_eq!(tx.state(), TxState::Failed);
        let frame = Frame::data(0, 0x5A).to_bytes();
        let written = tx.transport().written();
        assert_eq!(written.len(), 4 * (retries as usize + 1));
        for copy in written.chunks(4) {
            assert_eq!(copy, &frame);
        }
    }
}

#[test]
fn idle_budget_keeps_failing_after_its_limit_and_unbounded_never_does() {
    let mut b = IdleBudget::new(2);
    let results: Vec<bool> = (0..6).map(|_| b.tick::<()>().is_ok()).collect();
    assert_eq!(results, vec![true, true, false, false, false, false]);
    b.reset();
    assert_eq!(b.tick::<()>(), Ok(()));
    let mut u = IdleBudget::unbounded();
    for _ in 0..1000 {
        assert_eq!(u.tick::<()>(), Ok(()));
    }
}

/// Polls `rx` until it has consumed every incoming byte and written its
/// replies; returns the delivered bytes in order.
fn windowed_delivered(incoming: &[u8], polls: usize) -> Vec<u8> {
    let mut rx = WindowedReceiver::<_, 4>::new(MockTransport::with_incoming(incoming));
    let mut out = Vec::new();
    for _ in 0..polls {
        if let Ok(PollOutcome::Delivered(b)) = rx.poll() {
            out.push(b);
        }
    }
    out
}

#[test]
fn windowed_receiver_delivers_positions_in_order_once_whatever_the_arrival_order() {
    let mut incoming = Vec::new();
    for (seq, byte) in [(2u8, 0x32u8), (0, 0x30), (2, 0x99), (1, 0x31), (0, 0x77), (3, 0x33)] {
        incoming.extend_from_slice(&Frame::data(seq, byte).to_bytes());
    }
    assert_eq!(windowed_delivered(&incoming, 200), vec![0x30, 0x31, 0x32, 0x33]);
}

#[test]
fn receiver_after_finish_delivers_nothing_and_writes_only_acks() {
    let mut incoming = Vec::new();
    incoming.extend_from_slice(&Frame::data(0, 0x10).to_bytes());
    incoming.extend_from_slice(&Frame::finish(1).to_bytes());
    incoming.extend_from_slice(&Frame::data(1, 0x11).to_bytes());
    incoming.extend_from_slice(&[0xFF, 0x00, 0x00, 0x00]);
    incoming.extend_from_slice(&Frame::finish(1).to_bytes());
    let mut rx = Receiver::new(MockTransport::with_incoming(&incoming));
    let mut outcomes = Vec::new();
    for _ in 0..60 {
        match rx.poll() {
            Ok(PollOutcome::Pending) => {},
            Ok(o) => outcomes.push(o),
            Err(e) => panic!("{:?}", e),
        }
    }
    assert_eq!(
        outcomes,
        vec![PollOutcome::Delivered(0x10), PollOutcome::TransferFinished, PollOutcome::TransferFinished]
    );
    let mut expected = Vec::new();
    expected.extend_from_slice(&Frame::ack(0).to_bytes());
    expected.extend_from_slice(&Frame::ack(1).to_bytes());
    expected.extend_from_slice(&Frame::ack(1).to_bytes());
    assert_eq!(rx.transport().written(), &expected[..]);
}

#[test]
fn stop_and_wait_receiver_delivers_in_sequence_once() {
    let mut incoming = Vec::new();
    for (seq, byte) in [(0u8, 0xA0u8), (0, 0xEE), (2, 0xEE), (1, 0xA1), (1, 0xEE), (2, 0xA2)] {
        incoming.extend_from_slice(&Frame::data(seq, byte).to_bytes());
    }
    let mut rx = Receiver::new(MockTransport::with_incoming(&incoming));
    let mut out = Vec::new();
    for _ in 0..100 {
        if let Ok(PollOutcome::Delivered(b)) = rx.poll() {
            out.push(b);
        }
    }
    assert_eq!(out, vec![0xA0, 0xA1, 0xA2]);
}

#[test]
fn outbuf_yields_the_frame_over_rounds_then_stays_idle() {
    let f = Frame::data(7, 0x5C);
    let bytes = f.to_bytes();
    for k in 0..8usize {
        let mut ob = OutBuf::empty();
        ob.load(&f);
        for _ in 0..k {
            let _ = ob.peek();
            ob.commit();
        }
        if k < 4 {
            assert_eq!(ob.peek(), Some(bytes[k]));
            assert_eq!(ob.peek(), Some(bytes[k]));
            assert!(!ob.is_idle());
        } else {
            assert_eq!(ob.peek(), None);
            assert!(ob.is_idle());
        }
    }
}
