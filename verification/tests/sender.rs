use psicose::protocol::{crc8, Frame, FrameType};
use psicose::test_support::{concat2, MockFull, MockTransport};
use psicose::timeout::RetryPolicy;
use psicose::tx::{Sender, TxPoll, TxState};
use psicose::Error;

#[test]
fn writes_one_byte_per_poll() {
    let transport = MockTransport::with_incoming(&Frame::ack(0).to_bytes());
    let mut sender = Sender::new(transport);
    assert_eq!(sender.offer(0x7E), Ok(()));
    for n in 1..=3 {
        assert_eq!(sender.poll(), Ok(TxPoll::Pending));
        assert_eq!(sender.transport().written().len(), n);
        assert_eq!(sender.state(), TxState::Sending);
    }
    assert_eq!(sender.poll(), Ok(TxPoll::Pending));
    assert_eq!(sender.transport().written().len(), 4);
    assert_eq!(sender.state(), TxState::WaitingAck);
}

#[test]
fn offer_while_sending_is_not_idle() {
    let transport = MockTransport::with_incoming(&[]);
    let mut sender = Sender::new(transport);
    assert_eq!(sender.offer(0x01), Ok(()));
    assert_eq!(sender.offer(0x02), Err(Error::NotIdle));
    assert_eq!(sender.offer_finish(), Err(Error::NotIdle));
}

#[test]
fn happy_path_single_byte_is_acked_and_seq_advances() {
    let transport = MockTransport::with_incoming(&Frame::ack(0).to_bytes());
    let mut sender = Sender::new(transport);
    assert_eq!(sender.send_byte(0x7E), Ok(()));
    assert_eq!(sender.next_seq(), 1);
    assert_eq!(sender.transport().written(), Frame::data(0, 0x7E).to_bytes());
}

#[test]
fn nack_of_current_seq_retransmits() {
    let incoming = concat2(Frame::nack(0).to_bytes(), Frame::ack(0).to_bytes());
    let transport = MockTransport::with_incoming(&incoming);
    let mut sender = Sender::with_policy(transport, RetryPolicy::new(50, 3));
    assert_eq!(sender.send_byte(0x11), Ok(()));
    assert_eq!(
        sender.transport().written(),
        concat2(Frame::data(0, 0x11).to_bytes(), Frame::data(0, 0x11).to_bytes())
    );
}

#[test]
fn ack_for_wrong_sequence_is_ignored_until_timeout() {
    let transport = MockTransport::with_incoming(&Frame::ack(99).to_bytes());
    let mut sender = Sender::with_policy(transport, RetryPolicy::new(5, 0));
    assert_eq!(sender.send_byte(0x01), Err(Error::RetriesExhausted));
}

#[test]
fn nack_for_wrong_sequence_is_ignored_until_timeout() {
    let transport = MockTransport::with_incoming(&Frame::nack(99).to_bytes());
    let mut sender = Sender::with_policy(transport, RetryPolicy::new(5, 0));
    assert_eq!(sender.send_byte(0x01), Err(Error::RetriesExhausted));
    assert_eq!(sender.transport().written(), Frame::data(0, 0x01).to_bytes());
}

#[test]
fn corrupted_ack_is_ignored_then_real_ack_succeeds() {
    let mut bad = Frame::ack(0).to_bytes();
    bad[3] ^= 0xFF;
    let incoming = concat2(bad, Frame::ack(0).to_bytes());
    let transport = MockTransport::with_incoming(&incoming);
    let mut sender = Sender::with_policy(transport, RetryPolicy::new(50, 3));
    assert_eq!(sender.send_byte(0x42), Ok(()));
    assert_eq!(sender.next_seq(), 1);
    assert_eq!(sender.transport().written(), Frame::data(0, 0x42).to_bytes());
}

#[test]
fn timeout_with_no_response_exhausts_retries_and_fails() {
    let transport = MockTransport::with_incoming(&[]);
    let mut sender = Sender::with_policy(transport, RetryPolicy::new(2, 1));
    assert_eq!(sender.send_byte(0xAB), Err(Error::RetriesExhausted));
    assert_eq!(sender.state(), TxState::Failed);
}

#[test]
fn start_waits_for_ack() {
    let transport = MockTransport::with_incoming(&Frame::ack(0).to_bytes());
    let mut sender = Sender::new(transport);
    assert_eq!(sender.send_start(), Ok(()));
    assert_eq!(sender.state(), TxState::Idle);
    assert_eq!(sender.next_seq(), 0);
    assert_eq!(sender.transport().written(), Frame::start().to_bytes());
}

#[test]
fn finish_waits_for_ack() {
    let transport = MockTransport::with_incoming(&Frame::ack(0).to_bytes());
    let mut sender = Sender::new(transport);
    assert_eq!(sender.send_finish(), Ok(()));
    assert_eq!(sender.state(), TxState::Finished);
    assert_eq!(sender.transport().written(), Frame::finish(0).to_bytes());
}

#[test]
fn offer_after_finish_is_not_idle_until_start() {
    let transport = MockTransport::with_incoming(&Frame::ack(0).to_bytes());
    let mut sender = Sender::new(transport);
    assert_eq!(sender.send_finish(), Ok(()));
    assert_eq!(sender.offer(0x01), Err(Error::NotIdle));
    assert_eq!(sender.offer_start(), Ok(()));
    assert_eq!(sender.state(), TxState::Sending);
}

#[test]
fn semantically_invalid_ack_is_ignored() {
    let header = [FrameType::Ack.byte(), 0, 0xFF];
    let crc = crc8(&header);
    let bad = [header[0], header[1], header[2], crc];
    let incoming = concat2(bad, Frame::ack(0).to_bytes());
    let transport = MockTransport::with_incoming(&incoming);
    let mut sender = Sender::with_policy(transport, RetryPolicy::new(50, 3));
    assert_eq!(sender.send_byte(0x01), Ok(()));
    assert_eq!(sender.transport().written(), Frame::data(0, 0x01).to_bytes());
}

#[test]
fn abort_waits_for_ack() {
    let transport = MockTransport::with_incoming(&Frame::ack(0).to_bytes());
    let mut sender = Sender::new(transport);
    assert_eq!(sender.send_abort(), Ok(()));
    assert_eq!(sender.state(), TxState::Aborted);
    assert_eq!(sender.transport().written(), Frame::abort().to_bytes());
}

#[test]
fn abort_during_retry_drops_data_and_sends_abort() {
    let incoming = concat2(Frame::nack(0).to_bytes(), Frame::ack(0).to_bytes());
    let transport = MockTransport::with_incoming(&incoming);
    let mut sender = Sender::with_policy(transport, RetryPolicy::new(50, 3));
    assert_eq!(sender.offer(0x11), Ok(()));
    loop {
        match sender.poll() {
            Ok(TxPoll::Pending) if sender.state() == TxState::Retrying => break,
            Ok(TxPoll::Pending) => {}
            other => {
                assert_eq!(other, Ok(TxPoll::Pending));
                break;
            }
        }
    }
    assert_eq!(sender.offer_abort(), Ok(()));
    assert_eq!(sender.send_abort(), Ok(()));
    assert_eq!(sender.state(), TxState::Aborted);
    let written = sender.transport().written();
    assert_eq!(&written[written.len() - 4..], &Frame::abort().to_bytes());
}

#[test]
fn peer_abort_cancels_an_in_flight_data() {
    let transport = MockTransport::with_incoming(&Frame::abort().to_bytes());
    let mut sender = Sender::new(transport);
    assert_eq!(sender.send_byte(0x01), Err(Error::Aborted));
    assert_eq!(sender.state(), TxState::Aborted);
}

#[test]
fn start_after_abort_reopens() {
    let incoming = concat2(Frame::ack(0).to_bytes(), Frame::ack(0).to_bytes());
    let transport = MockTransport::with_incoming(&incoming);
    let mut sender = Sender::new(transport);
    assert_eq!(sender.send_abort(), Ok(()));
    assert_eq!(sender.offer(0x01), Err(Error::NotIdle));
    assert_eq!(sender.send_start(), Ok(()));
    assert_eq!(sender.state(), TxState::Idle);
    assert_eq!(sender.next_seq(), 0);
}

#[test]
fn acked_byte_leaves_sender_idle_for_the_next_one() {
    let incoming = concat2(Frame::ack(0).to_bytes(), Frame::ack(1).to_bytes());
    let mut sender = Sender::new(MockTransport::with_incoming(&incoming));
    assert_eq!(sender.send_byte(0x10), Ok(()));
    assert_eq!(sender.state(), TxState::Idle);
    assert_eq!(sender.send_byte(0x11), Ok(()));
    assert_eq!(sender.next_seq(), 2);
    assert_eq!(
        sender.transport().written(),
        concat2(Frame::data(0, 0x10).to_bytes(), Frame::data(1, 0x11).to_bytes())
    );
}

#[test]
fn force_abort_cancels_locally_without_writing_abort() {
    let mut sender = Sender::new(MockTransport::with_incoming(&Frame::ack(0).to_bytes()));
    assert_eq!(sender.offer(0x33), Ok(()));
    sender.force_abort();
    assert_eq!(sender.state(), TxState::Aborted);
    assert_eq!(sender.send_abort(), Ok(()));
    assert_eq!(sender.state(), TxState::Aborted);
    assert!(sender.transport().written().is_empty());
}

#[test]
fn transport_error_is_reported_as_transport() {
    // No ACK ever comes; retransmissions fill the mock's 64 outgoing bytes.
    let mut sender = Sender::with_policy(MockTransport::with_incoming(&[]), RetryPolicy::new(1, 255));
    assert_eq!(sender.send_byte(0x01), Err(Error::Transport(MockFull)));
    assert_eq!(sender.transport().written().len(), 64);
}
