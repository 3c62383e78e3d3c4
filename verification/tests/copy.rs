use psicose::error::Error;
use psicose::p2p::duplex::WireCopyError;
use psicose::p2p::{CopyOffer, CopyState, CopyStep, PumpEvent, COPY_ROUNDS};

/// Runs the copy decisions over an ideal wire: every accepted offer reaches
/// the receiving pump within the round. `sink_fails_at` makes the sink fail
/// on that byte.
fn ideal_copy(src: &[u8], sink_fails_at: Option<usize>) -> (Result<usize, WireCopyError>, Vec<u8>) {
    let mut c = CopyState::new();
    let mut next = 0usize;
    let mut sink = Vec::new();
    loop {
        if c.wants_byte() {
            let r: Result<Option<u8>, ()> = Ok(src.get(next).copied());
            next += 1;
            if let Err(e) = c.on_source(r) {
                return (Err(e), sink);
            }
        }
        let mut in_flight = None;
        if let Some(offer) = c.next_offer(true) {
            if let Err(e) = c.on_offer::<()>(offer, Ok(())) {
                return (Err(e), sink);
            }
            in_flight = Some(offer);
        }
        if let Err(e) = c.on_sender_poll::<()>(Ok(PumpEvent::Sent)) {
            return (Err(e), sink);
        }
        let ev = match in_flight {
            Some(CopyOffer::Byte(b)) => PumpEvent::Received(b),
            Some(CopyOffer::Finish) => PumpEvent::Completed,
            None => PumpEvent::Idle,
        };
        match c.on_receiver_poll::<()>(Ok(ev)) {
            CopyStep::Continue => {},
            CopyStep::Deliver(b) => {
                let r: Result<(), ()> = if Some(sink.len()) == sink_fails_at { Err(()) } else { Ok(()) };
                if r.is_ok() {
                    sink.push(b);
                }
                if let Err(e) = c.on_sink(r) {
                    return (Err(e), sink);
                }
            },
            CopyStep::Done(n) => return (Ok(n), sink),
            CopyStep::Failed(e) => return (Err(e), sink),
        }
        if let Err(e) = c.end_round() {
            return (Err(e), sink);
        }
    }
}

#[test]
fn copy_moves_every_source_byte_then_completes() {
    let (r, sink) = ideal_copy(b"hello, wire", None);
    assert_eq!(r, Ok(11));
    assert_eq!(sink, b"hello, wire".to_vec());
    let (r, sink) = ideal_copy(b"", None);
    assert_eq!(r, Ok(0));
    assert!(sink.is_empty());
}

#[test]
fn copy_stops_on_a_failing_sink() {
    let (r, sink) = ideal_copy(b"abcdef", Some(3));
    assert_eq!(r, Err(WireCopyError::Sink));
    assert_eq!(sink, b"abc".to_vec());
}

#[test]
fn copy_holds_a_refused_byte_and_retries_a_busy_finish() {
    let mut c = CopyState::new();
    assert_eq!(c.on_source::<()>(Ok(Some(7))), Ok(()));
    assert!(!c.wants_byte());
    assert_eq!(c.next_offer(false), None);
    assert_eq!(c.next_offer(true), Some(CopyOffer::Byte(7)));
    assert_eq!(c.on_offer::<()>(CopyOffer::Byte(7), Err(Error::NotIdle)), Ok(()));
    assert_eq!(c.next_offer(true), Some(CopyOffer::Byte(7)));
    assert_eq!(c.on_offer::<()>(CopyOffer::Byte(7), Ok(())), Ok(()));
    assert_eq!(c.on_source::<()>(Ok(None)), Ok(()));
    assert_eq!(c.next_offer(true), Some(CopyOffer::Finish));
    assert_eq!(c.on_offer::<()>(CopyOffer::Finish, Err(Error::NotIdle)), Ok(()));
    assert_eq!(c.next_offer(true), Some(CopyOffer::Finish));
    assert_eq!(c.on_offer::<()>(CopyOffer::Finish, Err(Error::RetriesExhausted)), Err(WireCopyError::Protocol));
    assert_eq!(c.on_offer::<()>(CopyOffer::Finish, Ok(())), Ok(()));
    assert_eq!(c.next_offer(true), None);
}

#[test]
fn copy_fails_on_abort_or_source_error_and_stalls_after_its_rounds() {
    let c = CopyState::new();
    assert_eq!(c.on_sender_poll::<()>(Ok(PumpEvent::Aborted)), Err(WireCopyError::Protocol));
    assert_eq!(c.on_sender_poll::<()>(Err(())), Err(WireCopyError::Protocol));
    assert_eq!(c.on_receiver_poll::<()>(Ok(PumpEvent::Aborted)), CopyStep::Failed(WireCopyError::Protocol));
    let mut c = CopyState::new();
    assert_eq!(c.on_source::<()>(Err(())), Err(WireCopyError::Source));
    let mut c = CopyState::new();
    for _ in 0..COPY_ROUNDS - 1 {
        assert_eq!(c.end_round(), Ok(()));
    }
    assert_eq!(c.end_round(), Err(WireCopyError::Stalled));
}
