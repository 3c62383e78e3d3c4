use psicose::error::Error;
use psicose::protocol::Frame;
use psicose::rx::{PollOutcome, RxState};
use psicose::test_support::{concat2, concat3, MockTransport};
use psicose::timeout::RetryPolicy;
use psicose::transport::ByteTransport;
use psicose::tx::TxPoll;
use psicose::window::{WindowedReceiver, WindowedSender};

fn offer_ok<T: ByteTransport, const N: usize>(tx: &mut WindowedSender<T, N>, b: u8)
where
    T::Error: core::fmt::Debug + PartialEq,
{
    assert_eq!(tx.offer(b), Ok(()));
}

fn drain_acks<T: ByteTransport, const N: usize>(tx: &mut WindowedSender<T, N>, want: u8) {
    let mut acked = 0u8;
    for _ in 0..1024 {
        match tx.poll() {
            Ok(TxPoll::Acked) => {
                acked += 1;
                if acked == want {
                    return;
                }
            }
            Ok(TxPoll::Pending) => {}
            Ok(_) | Err(_) => break,
        }
    }
    assert_eq!(acked, want);
}

fn poll_until_settled<T: ByteTransport, const N: usize>(
    rx: &mut WindowedReceiver<T, N>,
) -> Result<PollOutcome, Error<T::Error>> {
    loop {
        match rx.poll()? {
            PollOutcome::Pending => continue,
            other => return Ok(other),
        }
    }
}

struct Nop;

impl ByteTransport for Nop {
    type Error = core::convert::Infallible;
    fn write_byte(&mut self, _byte: u8) -> Result<(), Self::Error> {
        Ok(())
    }
    fn read_byte(&mut self) -> Result<Option<u8>, Self::Error> {
        Ok(None)
    }
}

// ---- sizes ----

#[test]
fn w8_state_fits_in_a_quarter_kilobyte() {
    let tx = core::mem::size_of::<WindowedSender<Nop, 8>>();
    let rx = core::mem::size_of::<WindowedReceiver<Nop, 8>>();
    assert!(tx < 256, "W8 sender is {tx} bytes; must stay a register machine");
    assert!(rx < 256, "W8 receiver is {rx} bytes; must stay a register machine");
}

#[test]
fn n1_is_no_larger_than_a_handful_of_frames() {
    let tx = core::mem::size_of::<WindowedSender<Nop, 1>>();
    assert!(tx < 128, "N=1 sender is {tx} bytes");
}

// ---- sender ----

#[test]
fn offer_fills_the_window_then_window_full() {
    let mut tx = WindowedSender::<_, 2>::new(MockTransport::with_incoming(&[]));
    offer_ok(&mut tx, 0x10);
    offer_ok(&mut tx, 0x11);
    assert_eq!(tx.outstanding(), 2);
    assert_eq!(tx.offer(0x12), Err(Error::WindowFull));
    assert_eq!(tx.next_seq(), 2);
}

#[test]
fn two_data_frames_are_written_before_any_ack() {
    let incoming = concat2(Frame::ack(0).to_bytes(), Frame::ack(1).to_bytes());
    let mut tx = WindowedSender::<_, 4>::with_policy(
        MockTransport::with_incoming(&incoming),
        RetryPolicy::new(50, 3),
    );
    offer_ok(&mut tx, 0xAA);
    offer_ok(&mut tx, 0xBB);
    drain_acks(&mut tx, 2);
    assert_eq!(tx.outstanding(), 0);
    assert_eq!(
        tx.transport().written(),
        concat2(Frame::data(0, 0xAA).to_bytes(), Frame::data(1, 0xBB).to_bytes())
    );
}

#[test]
fn ack_out_of_order_frees_the_matching_slot() {
    let incoming = concat3(
        Frame::ack(1).to_bytes(),
        Frame::ack(0).to_bytes(),
        Frame::ack(2).to_bytes(),
    );
    let mut tx = WindowedSender::<_, 4>::with_policy(
        MockTransport::with_incoming(&incoming),
        RetryPolicy::new(50, 3),
    );
    offer_ok(&mut tx, 0x00);
    offer_ok(&mut tx, 0x01);
    offer_ok(&mut tx, 0x02);
    drain_acks(&mut tx, 3);
    assert_eq!(tx.outstanding(), 0);
    assert_eq!(tx.next_seq(), 3);
}

#[test]
fn nack_of_one_slot_retransmits_only_that_frame() {
    let incoming = concat3(
        Frame::nack(0).to_bytes(),
        Frame::ack(0).to_bytes(),
        Frame::ack(1).to_bytes(),
    );
    let mut tx = WindowedSender::<_, 4>::with_policy(
        MockTransport::with_incoming(&incoming),
        RetryPolicy::new(50, 3),
    );
    offer_ok(&mut tx, 0x10);
    offer_ok(&mut tx, 0x11);
    drain_acks(&mut tx, 2);
    assert_eq!(
        tx.transport().written(),
        concat3(
            Frame::data(0, 0x10).to_bytes(),
            Frame::data(1, 0x11).to_bytes(),
            Frame::data(0, 0x10).to_bytes(),
        )
    );
}

#[test]
fn finish_refused_while_data_is_outstanding() {
    let mut tx = WindowedSender::<_, 4>::new(MockTransport::with_incoming(&[]));
    offer_ok(&mut tx, 0x01);
    assert_eq!(tx.offer_finish(), Err(Error::NotIdle));
}

#[test]
fn left_edge_blocks_seq_outside_the_window() {
    let incoming = concat3(
        Frame::ack(1).to_bytes(),
        Frame::ack(2).to_bytes(),
        Frame::ack(3).to_bytes(),
    );
    let mut tx = WindowedSender::<_, 4>::with_policy(
        MockTransport::with_incoming(&incoming),
        RetryPolicy::new(50, 3),
    );
    offer_ok(&mut tx, 0);
    offer_ok(&mut tx, 1);
    offer_ok(&mut tx, 2);
    offer_ok(&mut tx, 3);
    drain_acks(&mut tx, 3);
    assert_eq!(tx.outstanding(), 1);
    assert_eq!(tx.offer(4), Err(Error::WindowFull));
}

#[test]
fn window_size_is_the_compile_time_n() {
    let tx = WindowedSender::<_, 3>::new(MockTransport::with_incoming(&[]));
    assert_eq!(tx.window_size(), 3);
    let rx = WindowedReceiver::<_, 5>::new(MockTransport::with_incoming(&[]));
    assert_eq!(rx.window_size(), 5);
}

// ---- receiver ----

#[test]
fn in_order_byte_is_acked_and_delivered() {
    let mut rx =
        WindowedReceiver::<_, 4>::new(MockTransport::with_incoming(&Frame::data(0, 0x42).to_bytes()));
    assert_eq!(poll_until_settled(&mut rx), Ok(PollOutcome::Delivered(0x42)));
    assert_eq!(rx.expected_seq(), 1);
    assert_eq!(rx.transport().written(), Frame::ack(0).to_bytes());
}

#[test]
fn out_of_order_is_buffered_then_delivered_in_order() {
    let incoming = concat2(Frame::data(1, 0xB1).to_bytes(), Frame::data(0, 0xB0).to_bytes());
    let mut rx = WindowedReceiver::<_, 4>::new(MockTransport::with_incoming(&incoming));

    assert_eq!(poll_until_settled(&mut rx), Ok(PollOutcome::Delivered(0xB0)));
    assert_eq!(rx.poll(), Ok(PollOutcome::Delivered(0xB1)));
    assert_eq!(rx.expected_seq(), 2);
    assert_eq!(
        rx.transport().written(),
        concat2(Frame::ack(1).to_bytes(), Frame::ack(0).to_bytes())
    );
}

#[test]
fn duplicate_inside_the_left_window_is_reacked() {
    let incoming = concat2(Frame::data(0, 0xAA).to_bytes(), Frame::data(0, 0xAA).to_bytes());
    let mut rx = WindowedReceiver::<_, 4>::new(MockTransport::with_incoming(&incoming));
    assert_eq!(poll_until_settled(&mut rx), Ok(PollOutcome::Delivered(0xAA)));
    assert_eq!(poll_until_settled(&mut rx), Ok(PollOutcome::DuplicateIgnored));
    assert_eq!(rx.expected_seq(), 1);
}

#[test]
fn seq_outside_window_is_rejected() {
    let mut rx =
        WindowedReceiver::<_, 4>::new(MockTransport::with_incoming(&Frame::data(5, 0xFF).to_bytes()));
    assert_eq!(poll_until_settled(&mut rx), Ok(PollOutcome::Rejected));
    assert_eq!(rx.expected_seq(), 0);
    assert_eq!(rx.transport().written(), Frame::nack(5).to_bytes());
}

#[test]
fn finish_with_a_hole_is_rejected() {
    let incoming = concat2(Frame::data(1, 0x01).to_bytes(), Frame::finish(2).to_bytes());
    let mut rx = WindowedReceiver::<_, 4>::new(MockTransport::with_incoming(&incoming));
    assert_eq!(poll_until_settled(&mut rx), Ok(PollOutcome::Rejected));
    assert_eq!(rx.expected_seq(), 0);
    assert_ne!(rx.state(), RxState::Finished);
}

#[test]
fn wraparound_window_accepts_255_then_0() {
    let incoming = concat2(Frame::data(255, 0xFE).to_bytes(), Frame::data(0, 0x00).to_bytes());
    let mut rx = WindowedReceiver::<_, 4>::new(MockTransport::with_incoming(&incoming));
    rx.set_expected_seq(255);
    assert_eq!(poll_until_settled(&mut rx), Ok(PollOutcome::Delivered(0xFE)));
    assert_eq!(rx.expected_seq(), 0);
    assert_eq!(poll_until_settled(&mut rx), Ok(PollOutcome::Delivered(0x00)));
    assert_eq!(rx.expected_seq(), 1);
}

#[test]
fn crc_failure_is_nacked_as_crc_rejected() {
    let mut bad = Frame::data(0, 0x01).to_bytes();
    bad[3] ^= 0xFF;
    let mut rx = WindowedReceiver::<_, 4>::new(MockTransport::with_incoming(&bad));
    assert_eq!(poll_until_settled(&mut rx), Ok(PollOutcome::CrcRejected));
    assert_eq!(rx.transport().written(), Frame::nack(0).to_bytes());
}

#[test]
fn abort_is_acked_and_clears_the_window() {
    let incoming = concat2(Frame::data(1, 0x01).to_bytes(), Frame::abort().to_bytes());
    let mut rx = WindowedReceiver::<_, 4>::new(MockTransport::with_incoming(&incoming));
    assert_eq!(poll_until_settled(&mut rx), Ok(PollOutcome::Aborted));
    assert_eq!(rx.state(), RxState::Aborted);
    assert_eq!(rx.expected_seq(), 0);
    assert_eq!(
        rx.transport().written(),
        concat2(Frame::ack(1).to_bytes(), Frame::ack(0).to_bytes())
    );
}

#[test]
fn windowed_one_byte_exchange_step_by_step() {
    let mut tx: WindowedSender<MockTransport, 4> = WindowedSender::new(MockTransport::with_incoming(&[]));
    assert!(tx.offer(0x3C).is_ok());
    for _ in 0..4 {
        assert_eq!(tx.poll(), Ok(TxPoll::Pending));
    }
    let data = Frame::data(0, 0x3C).to_bytes();
    assert_eq!(tx.transport().written(), &data[..]);

    let mut rx: WindowedReceiver<MockTransport, 4> = WindowedReceiver::new(MockTransport::with_incoming(&data));
    for _ in 0..6 {
        assert_eq!(rx.poll(), Ok(PollOutcome::Pending));
    }
    assert_eq!(rx.poll(), Ok(PollOutcome::Delivered(0x3C)));
    assert_eq!(rx.expected_seq(), 1);
    let ack = Frame::ack(0).to_bytes();
    assert_eq!(rx.transport().written(), &ack[..]);

    let mut reader: WindowedSender<MockTransport, 4> = WindowedSender::new(MockTransport::with_incoming(&ack));
    assert!(reader.offer(0x3C).is_ok());
    for _ in 0..4 {
        assert_eq!(reader.poll(), Ok(TxPoll::Pending));
    }
    for _ in 0..3 {
        assert_eq!(reader.poll(), Ok(TxPoll::Pending));
    }
    assert_eq!(reader.poll(), Ok(TxPoll::Acked));
    assert_eq!(reader.outstanding(), 0);
}
