use psicose::error::Error;
use psicose::protocol::Frame;
use psicose::rx::{PollOutcome, Receiver, RxState};
use psicose::test_support::{concat2, concat3, MockTransport};
use psicose::transport::ByteTransport;

fn poll_until_settled<T: ByteTransport>(rx: &mut Receiver<T>) -> Result<PollOutcome, Error<T::Error>> {
    loop {
        match rx.poll()? {
            PollOutcome::Pending => continue,
            other => return Ok(other),
        }
    }
}

#[test]
fn delivers_in_order_byte_and_acks_it() {
    let incoming = Frame::data(0, 0x42).to_bytes();
    let transport = MockTransport::with_incoming(&incoming);
    let mut rx = Receiver::new(transport);

    let outcome = poll_until_settled(&mut rx).unwrap();
    assert_eq!(outcome, PollOutcome::Delivered(0x42));
    assert_eq!(rx.expected_seq(), 1);
    assert_eq!(rx.transport().written(), Frame::ack(0).to_bytes());
}

#[test]
fn delivered_only_after_ack_is_fully_written() {
    let incoming = Frame::data(0, 0x42).to_bytes();
    let mut rx = Receiver::new(MockTransport::with_incoming(&incoming));

    for _ in 0..3 {
        assert_eq!(rx.poll().unwrap(), PollOutcome::Pending);
        assert!(rx.transport().written().is_empty());
    }
    assert_eq!(rx.poll().unwrap(), PollOutcome::Pending);
    assert_eq!(rx.transport().written().len(), 1);
    assert_eq!(rx.expected_seq(), 0, "must not advance before ACK is out");
    assert_eq!(rx.poll().unwrap(), PollOutcome::Pending);
    assert_eq!(rx.poll().unwrap(), PollOutcome::Pending);
    assert_eq!(rx.poll().unwrap(), PollOutcome::Delivered(0x42));
    assert_eq!(rx.expected_seq(), 1);
    assert_eq!(rx.transport().written(), Frame::ack(0).to_bytes());
}

#[test]
fn pending_when_frame_incomplete() {
    let bytes = Frame::data(0, 1).to_bytes();
    let transport = MockTransport::with_incoming(&bytes[..2]);
    let mut rx = Receiver::new(transport);

    assert_eq!(rx.poll().unwrap(), PollOutcome::Pending);
    assert_eq!(rx.poll().unwrap(), PollOutcome::Pending);
    assert_eq!(rx.poll().unwrap(), PollOutcome::Pending);
}

#[test]
fn duplicate_retransmission_is_reacked_not_redelivered() {
    let incoming = concat2(Frame::data(0, 0xAA).to_bytes(), Frame::data(0, 0xAA).to_bytes());
    let transport = MockTransport::with_incoming(&incoming);
    let mut rx = Receiver::new(transport);

    assert_eq!(poll_until_settled(&mut rx).unwrap(), PollOutcome::Delivered(0xAA));
    assert_eq!(poll_until_settled(&mut rx).unwrap(), PollOutcome::DuplicateIgnored);
    assert_eq!(rx.expected_seq(), 1);
}

#[test]
fn corrupted_frame_triggers_nack_and_propagates_error() {
    let mut bytes = Frame::data(0, 1).to_bytes();
    bytes[2] ^= 0xFF;
    let transport = MockTransport::with_incoming(&bytes);
    let mut rx = Receiver::new(transport);

    assert_eq!(poll_until_settled(&mut rx).unwrap(), PollOutcome::Rejected);
    assert_eq!(rx.expected_seq(), 0);
    assert_eq!(rx.transport().written(), Frame::nack(0).to_bytes());
}

#[test]
fn start_resets_expected_seq_and_acks() {
    let incoming = concat3(
        Frame::data(0, 0x10).to_bytes(),
        Frame::data(1, 0x11).to_bytes(),
        Frame::start().to_bytes(),
    );
    let transport = MockTransport::with_incoming(&incoming);
    let mut rx = Receiver::new(transport);

    assert_eq!(poll_until_settled(&mut rx).unwrap(), PollOutcome::Delivered(0x10));
    assert_eq!(poll_until_settled(&mut rx).unwrap(), PollOutcome::Delivered(0x11));
    assert_eq!(rx.expected_seq(), 2);
    assert_eq!(poll_until_settled(&mut rx).unwrap(), PollOutcome::Started);
    assert_eq!(rx.expected_seq(), 0);
    assert_eq!(rx.state(), RxState::Idle);
}

#[test]
fn finish_is_accepted_only_at_expected_seq() {
    let incoming = concat2(Frame::data(0, 0x10).to_bytes(), Frame::finish(0).to_bytes());
    let mut rx = Receiver::new(MockTransport::with_incoming(&incoming));

    assert_eq!(poll_until_settled(&mut rx).unwrap(), PollOutcome::Delivered(0x10));
    assert_eq!(rx.expected_seq(), 1);
    assert_eq!(poll_until_settled(&mut rx).unwrap(), PollOutcome::Rejected);
    assert_eq!(rx.state(), RxState::Idle);
    assert_eq!(rx.expected_seq(), 1);
}

#[test]
fn finish_at_expected_seq_is_acked_then_closed() {
    let transport = MockTransport::with_incoming(&Frame::finish(0).to_bytes());
    let mut rx = Receiver::new(transport);

    assert_eq!(poll_until_settled(&mut rx).unwrap(), PollOutcome::TransferFinished);
    assert_eq!(rx.state(), RxState::Finished);
    assert_eq!(rx.transport().written(), Frame::ack(0).to_bytes());
}

#[test]
fn duplicate_finish_is_reacked_not_an_error() {
    let incoming = concat2(Frame::finish(0).to_bytes(), Frame::finish(0).to_bytes());
    let transport = MockTransport::with_incoming(&incoming);
    let mut rx = Receiver::new(transport);

    assert_eq!(poll_until_settled(&mut rx).unwrap(), PollOutcome::TransferFinished);
    assert_eq!(poll_until_settled(&mut rx).unwrap(), PollOutcome::TransferFinished);
    assert_eq!(
        rx.transport().written(),
        concat2(Frame::ack(0).to_bytes(), Frame::ack(0).to_bytes())
    );
    assert_eq!(rx.state(), RxState::Finished);
}

#[test]
fn data_after_finish_is_not_delivered() {
    let incoming = concat2(Frame::finish(0).to_bytes(), Frame::data(0, 0x99).to_bytes());
    let mut rx = Receiver::new(MockTransport::with_incoming(&incoming));

    assert_eq!(poll_until_settled(&mut rx).unwrap(), PollOutcome::TransferFinished);
    for _ in 0..8 {
        assert_eq!(rx.poll().unwrap(), PollOutcome::Pending);
    }
    assert_eq!(rx.state(), RxState::Finished);
    assert_eq!(rx.transport().written(), Frame::ack(0).to_bytes());
}

#[test]
fn corrupt_after_finish_does_not_nack_or_leave_finished() {
    let finish = Frame::finish(0).to_bytes();
    let mut bad = Frame::data(0, 1).to_bytes();
    bad[3] ^= 0xFF;
    let incoming = concat2(finish, bad);
    let mut rx = Receiver::new(MockTransport::with_incoming(&incoming));

    assert_eq!(poll_until_settled(&mut rx).unwrap(), PollOutcome::TransferFinished);
    for _ in 0..8 {
        assert_eq!(rx.poll().unwrap(), PollOutcome::Pending);
    }
    assert_eq!(rx.state(), RxState::Finished);
    assert_eq!(rx.transport().written(), Frame::ack(0).to_bytes());
}

#[test]
fn start_after_finish_reopens_the_session() {
    let incoming = concat3(
        Frame::finish(0).to_bytes(),
        Frame::start().to_bytes(),
        Frame::data(0, 0xAB).to_bytes(),
    );
    let mut rx = Receiver::new(MockTransport::with_incoming(&incoming));

    assert_eq!(poll_until_settled(&mut rx).unwrap(), PollOutcome::TransferFinished);
    assert_eq!(poll_until_settled(&mut rx).unwrap(), PollOutcome::Started);
    assert_eq!(rx.expected_seq(), 0);
    assert_eq!(poll_until_settled(&mut rx).unwrap(), PollOutcome::Delivered(0xAB));
    assert_eq!(rx.expected_seq(), 1);
}

#[test]
fn reordered_data_is_rejected_and_not_delivered() {
    let incoming = concat3(
        Frame::data(0, 0x10).to_bytes(),
        Frame::data(2, 0x12).to_bytes(),
        Frame::data(1, 0x11).to_bytes(),
    );
    let transport = MockTransport::with_incoming(&incoming);
    let mut rx = Receiver::new(transport);

    assert_eq!(poll_until_settled(&mut rx).unwrap(), PollOutcome::Delivered(0x10));
    assert_eq!(poll_until_settled(&mut rx).unwrap(), PollOutcome::Rejected);
    assert_eq!(rx.expected_seq(), 1);
    assert_eq!(poll_until_settled(&mut rx).unwrap(), PollOutcome::Delivered(0x11));
    assert_eq!(rx.expected_seq(), 2);
}

#[test]
fn wraparound_duplicate_of_255_is_not_redelivered() {
    let incoming = concat2(Frame::data(255, 0xFE).to_bytes(), Frame::data(0, 0x00).to_bytes());
    let transport = MockTransport::with_incoming(&incoming);
    let mut rx = Receiver::new(transport);
    rx.set_expected_seq(0);

    assert_eq!(poll_until_settled(&mut rx).unwrap(), PollOutcome::DuplicateIgnored);
    assert_eq!(rx.expected_seq(), 0);
    assert_eq!(poll_until_settled(&mut rx).unwrap(), PollOutcome::Delivered(0x00));
    assert_eq!(rx.expected_seq(), 1);
}

#[test]
fn wraparound_255_then_0_delivers_both() {
    let incoming = concat2(Frame::data(255, 0xFE).to_bytes(), Frame::data(0, 0x00).to_bytes());
    let transport = MockTransport::with_incoming(&incoming);
    let mut rx = Receiver::new(transport);
    rx.set_expected_seq(255);

    assert_eq!(poll_until_settled(&mut rx).unwrap(), PollOutcome::Delivered(0xFE));
    assert_eq!(rx.expected_seq(), 0);
    assert_eq!(poll_until_settled(&mut rx).unwrap(), PollOutcome::Delivered(0x00));
    assert_eq!(rx.expected_seq(), 1);
}

#[test]
fn abort_is_acked_and_reported() {
    let mut rx = Receiver::new(MockTransport::with_incoming(&Frame::abort().to_bytes()));
    let outcome = poll_until_settled(&mut rx).unwrap();
    assert_eq!(outcome, PollOutcome::Aborted);
    assert!(outcome.is_closed());
    assert_eq!(rx.transport().written(), Frame::ack(0).to_bytes());
}

#[test]
fn ack_frames_are_ignored_by_the_receiver() {
    let mut rx = Receiver::new(MockTransport::with_incoming(&Frame::ack(0).to_bytes()));
    for _ in 0..6 {
        assert_eq!(rx.poll().unwrap(), PollOutcome::Pending);
    }
    assert!(rx.transport().written().is_empty());
    assert_eq!(rx.expected_seq(), 0);
}
