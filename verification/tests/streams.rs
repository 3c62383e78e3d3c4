use psicose::error::Error;
use psicose::protocol::Frame;
use psicose::rx::Receiver;
use psicose::stream::{
    recv_all, recv_all_budgeted, recv_all_windowed, recv_bytes, send_all, send_all_windowed,
    send_bytes, SliceFull, SliceSink, SliceSource, StreamError,
};
use psicose::test_support::{concat2, concat3, MockTransport};
use psicose::timeout::{IdleBudget, RetryPolicy};
use psicose::transport::{ByteSink, ByteSource};
use psicose::tx::{Sender, TxState};
use psicose::window::{WindowedReceiver, WindowedSender};

fn ack_run(data_bytes: u8) -> [u8; 36] {
    let data_bytes = core::cmp::min(data_bytes, 8);
    let mut out = [0u8; 36];
    let frames = data_bytes as usize + 1;
    for i in 0..frames {
        let bytes = Frame::ack(i as u8).to_bytes();
        out[i * 4..i * 4 + 4].copy_from_slice(&bytes);
    }
    out
}

#[test]
fn slice_source_is_just_bytes() {
    let jpeg_so_i_like = [0xFF, 0xD8, 0xFF, 0xE0, 0x00, 0x10];
    let mut src = SliceSource::new(&jpeg_so_i_like);
    assert_eq!(src.read_byte(), Ok(Some(0xFF)));
    assert_eq!(src.read_byte(), Ok(Some(0xD8)));
    assert_eq!(src.remaining(), 4);
}

#[test]
fn send_bytes_moves_any_payload_then_finish() {
    let payload = [b'P', b'S', b'I', 0x00];
    let incoming = ack_run(4);
    let mut tx = Sender::with_policy(
        MockTransport::with_incoming(&incoming[..20]),
        RetryPolicy::new(50, 3),
    );
    assert_eq!(send_bytes(&mut tx, &payload), Ok(4));
    assert_eq!(tx.state(), TxState::Finished);
}

#[test]
fn recv_bytes_rebuilds_the_payload() {
    let incoming = concat3(
        Frame::data(0, 0xFF).to_bytes(),
        Frame::data(1, 0xD8).to_bytes(),
        Frame::finish(2).to_bytes(),
    );
    let mut rx = Receiver::new(MockTransport::with_incoming(&incoming));
    let mut buf = [0u8; 8];
    assert_eq!(recv_bytes(&mut rx, &mut buf), Ok(&[0xFF, 0xD8][..]));
}

#[test]
fn sink_full_is_an_application_error() {
    let incoming = concat2(Frame::data(0, 1).to_bytes(), Frame::data(1, 2).to_bytes());
    let mut rx = Receiver::new(MockTransport::with_incoming(&incoming));
    let mut buf = [0u8; 1];
    assert_eq!(
        recv_bytes(&mut rx, &mut buf),
        Err(StreamError::Application(SliceFull))
    );
}

#[test]
fn send_all_windowed_then_finish() {
    let payload = [0xDE, 0xAD, 0xBE, 0xEF];
    let incoming = ack_run(4);
    let mut tx = WindowedSender::<_, 4>::with_policy(
        MockTransport::with_incoming(&incoming[..20]),
        RetryPolicy::new(50, 3),
    );
    let mut src = SliceSource::new(&payload);
    assert_eq!(send_all_windowed(&mut tx, &mut src), Ok(4));
    assert_eq!(tx.state(), TxState::Finished);
}

#[test]
fn recv_all_windowed_rebuilds_any_blob() {
    let incoming = concat3(
        Frame::data(0, b'{').to_bytes(),
        Frame::data(1, b'}').to_bytes(),
        Frame::finish(2).to_bytes(),
    );
    let mut rx = WindowedReceiver::<_, 4>::new(MockTransport::with_incoming(&incoming));
    let mut buf = [0u8; 8];
    let mut sink = SliceSink::new(&mut buf);
    assert_eq!(recv_all_windowed(&mut rx, &mut sink), Ok(2));
    assert_eq!(sink.written(), b"{}");
}

#[test]
fn recv_all_budgeted_returns_when_peer_disappears() {
    let mut rx = Receiver::new(MockTransport::with_incoming(&[]));
    let mut buf = [0u8; 4];
    let mut sink = SliceSink::new(&mut buf);
    assert_eq!(
        recv_all_budgeted(&mut rx, &mut sink, IdleBudget::new(8)),
        Err(StreamError::Protocol(Error::IdleBudgetExhausted))
    );
}

#[test]
fn send_all_moves_a_source_then_finish() {
    let payload = [1u8, 2, 3];
    let incoming = ack_run(3);
    let mut tx = Sender::with_policy(
        MockTransport::with_incoming(&incoming[..16]),
        RetryPolicy::new(50, 3),
    );
    let mut src = SliceSource::new(&payload);
    assert_eq!(send_all(&mut tx, &mut src), Ok(3));
    assert_eq!(tx.state(), TxState::Finished);
    assert_eq!(src.remaining(), 0);
}

#[test]
fn recv_all_fills_a_sink_in_order() {
    let incoming = concat3(
        Frame::data(0, 7).to_bytes(),
        Frame::data(1, 8).to_bytes(),
        Frame::finish(2).to_bytes(),
    );
    let mut rx = Receiver::new(MockTransport::with_incoming(&incoming));
    let mut buf = [0u8; 4];
    let mut sink = SliceSink::new(&mut buf);
    assert_eq!(recv_all(&mut rx, &mut sink), Ok(2));
    assert_eq!(sink.filled(), 2);
    assert_eq!(sink.written(), &[7, 8]);
}

#[test]
fn slice_sink_refuses_past_its_end() {
    let mut buf = [0u8; 1];
    let mut sink = SliceSink::new(&mut buf);
    assert_eq!(sink.write_byte(5), Ok(()));
    assert_eq!(sink.write_byte(6), Err(SliceFull));
    assert_eq!(sink.written(), &[5]);
}

#[test]
fn send_bytes_on_a_busy_sender_is_not_idle_and_changes_nothing() {
    let mut tx = Sender::new(MockTransport::with_incoming(&[]));
    assert!(tx.offer(0x10).is_ok());
    assert_eq!(send_bytes(&mut tx, b"ab"), Err(Error::NotIdle));
    assert_eq!(send_bytes(&mut tx, b""), Err(Error::NotIdle));
    assert_eq!(tx.state(), TxState::Sending);
    assert_eq!(tx.transport().written(), &[] as &[u8]);
}
