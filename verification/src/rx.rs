//! The stop-and-wait receive side: ACKs in-order DATA, NACKs corrupted or
//! out-of-order frames, and re-ACKs a duplicate retransmission without
//! delivering it again.
//!
//! Replies are written one byte per poll. [`PollOutcome::Delivered`] is
//! reported only after the matching ACK is entirely on the wire.

use vstd::prelude::*;
use crate::error::Error;
use crate::protocol::frame::{lemma_decode_encode, lemma_encode_decode, spec_decode, spec_encode, Frame, FrameType, FrameView};
use crate::protocol::sequence::{seq_next, seq_prev};
use crate::protocol::{FrameAssembler, OutBuf, Sequence};
use crate::transport::{read_call, write_call, ByteTransport, LinkCall};

verus! {

/// The receiver's coarse state, for diagnostics.
#[derive(Debug, Clone, Copy, PartialEq, Eq, Structural)]
pub enum RxState {
    /// No frame being assembled.
    Idle,
    /// Bytes are being accumulated into a candidate frame.
    Receiving,
    /// A complete frame is being checked.
    Validating,
    /// An ACK or NACK is being written back, one byte per poll.
    Acknowledging,
    /// FINISH was accepted; the transfer is complete.
    Finished,
    /// ABORT was accepted; the session is cancelled until the next START.
    Aborted,
}

/// What happened during one receiver poll.
#[derive(Debug, Clone, Copy, PartialEq, Eq, Structural)]
pub enum PollOutcome {
    /// Nothing complete yet; poll again.
    Pending,
    /// A new, in-order byte was received and its ACK written. The only
    /// outcome that carries application data.
    Delivered(u8),
    /// A retransmitted duplicate was re-ACKed but not delivered again.
    DuplicateIgnored,
    /// START was accepted and ACKed; the expected sequence is 0.
    Started,
    /// FINISH was accepted and ACKed; the transfer is closed.
    TransferFinished,
    /// ABORT was accepted and ACKed; the session is cancelled.
    Aborted,
    /// A frame was rejected (bad type or semantics, unexpected SEQ) and a
    /// NACK was sent. A wire event, not an application failure.
    Rejected,
    /// A frame failed its CRC and a NACK was sent.
    CrcRejected,
}

impl PollOutcome {
    /// The session ended: FINISH or ABORT was accepted.
    pub fn is_closed(&self) -> (b: bool)
        ensures
            b == (*self is TransferFinished || *self is Aborted),
    {
        match self {
            PollOutcome::TransferFinished | PollOutcome::Aborted => true,
            _ => false,
        }
    }
}

/// What a receiver does once its reply is entirely written.
#[derive(Debug, Clone, Copy, PartialEq, Eq, Structural)]
pub enum PendingAction {
    /// Deliver this byte and advance the expected sequence.
    Deliver(u8),
    /// Report a duplicate.
    Duplicate,
    /// Report that a new session started.
    Started,
    /// Report that the transfer finished.
    Finished,
    /// Report that the session was aborted.
    Aborted,
    /// Report a rejected frame.
    Rejected,
}

/// What passed through the transport during one receiver poll: at most
/// one read, then at most one write.
pub struct RxIo<E> {
    /// The answer of the `read_byte` call, if one was made.
    pub read: Option<Result<Option<u8>, E>>,
    /// The byte handed to the `write_byte` call and its answer, if one was
    /// made.
    pub wrote: Option<(u8, Result<(), E>)>,
}

/// The receiver's state apart from its transport.
pub struct RxModel {
    /// Sequence the next in-order DATA frame must carry.
    pub expected: u8,
    /// Coarse state.
    pub state: RxState,
    /// Bytes of the incoming frame accumulated so far.
    pub reply: Seq<u8>,
    /// Bytes of the outgoing reply not yet written.
    pub out: Seq<u8>,
    /// What to report once the reply is written.
    pub pending: Option<PendingAction>,
    /// The sequence of the accepted FINISH, once the transfer is closed.
    pub finish: Option<u8>,
    /// An ABORT was accepted and no START has followed.
    pub aborted: bool,
}

/// The session is closed by FINISH or ABORT.
pub open spec fn rx_closed(m: RxModel) -> bool {
    m.aborted || m.finish is Some
}

/// The state a quiet receiver settles in.
pub open spec fn rx_settle(m: RxModel) -> RxModel {
    RxModel {
        state: if m.aborted {
            RxState::Aborted
        } else if m.finish is Some {
            RxState::Finished
        } else {
            RxState::Idle
        },
        ..m
    }
}

/// Starts writing `frame` back, reporting `action` once it is written.
pub open spec fn rx_begin_reply(m: RxModel, frame: FrameView, action: PendingAction) -> RxModel {
    RxModel {
        out: spec_encode(frame),
        pending: Some(action),
        state: RxState::Acknowledging,
        ..m
    }
}

/// The reply is written: act on the pending action.
pub open spec fn rx_take_pending(m: RxModel) -> (RxModel, Option<PollOutcome>) {
    match m.pending {
        None => (m, None),
        Some(a) => {
            let m1 = RxModel { pending: None, ..m };
            match a {
                PendingAction::Deliver(b) => (
                    RxModel { expected: seq_next(m.expected), state: RxState::Idle, ..m1 },
                    Some(PollOutcome::Delivered(b)),
                ),
                PendingAction::Duplicate => (rx_settle(m1), Some(PollOutcome::DuplicateIgnored)),
                PendingAction::Started => (
                    RxModel { finish: None, aborted: false, state: RxState::Idle, ..m1 },
                    Some(PollOutcome::Started),
                ),
                PendingAction::Finished => (
                    RxModel { state: RxState::Finished, ..m1 },
                    Some(PollOutcome::TransferFinished),
                ),
                PendingAction::Aborted => (
                    RxModel { state: RxState::Aborted, ..m1 },
                    Some(PollOutcome::Aborted),
                ),
                PendingAction::Rejected => (rx_settle(m1), Some(PollOutcome::Rejected)),
            }
        },
    }
}

/// Writes the next reply byte, if any.
pub open spec fn rx_pump_reply<E>(m: RxModel, w: Option<(u8, Result<(), E>)>) -> (
    RxModel,
    Result<PollOutcome, Error<E>>,
) {
    if m.out.len() == 0 {
        let (m1, o) = rx_take_pending(m);
        (m1, Ok(outcome_or_pending(o)))
    } else {
        match w {
            Some((_, Err(e))) => (m, Err(Error::Transport(e))),
            _ => {
                let m1 = RxModel { out: m.out.drop_first(), ..m };
                if m1.out.len() == 0 {
                    let (m2, o) = rx_take_pending(m1);
                    (m2, Ok(outcome_or_pending(o)))
                } else {
                    (RxModel { state: RxState::Acknowledging, ..m1 }, Ok(PollOutcome::Pending))
                }
            },
        }
    }
}

/// An outcome, or `Pending` when there is none.
pub open spec fn outcome_or_pending(o: Option<PollOutcome>) -> PollOutcome {
    match o {
        Some(x) => x,
        None => PollOutcome::Pending,
    }
}

/// How the receiver reacts to a complete, valid DATA/START/FINISH/ABORT
/// frame (before the reply is written).
pub open spec fn rx_handle(m: RxModel, v: FrameView) -> RxModel {
    match v.0 {
        FrameType::Data => if m.aborted {
            RxModel { state: RxState::Aborted, ..m }
        } else if m.finish is Some {
            RxModel { state: RxState::Finished, ..m }
        } else if v.1 == m.expected {
            rx_begin_reply(m, (FrameType::Ack, m.expected, 0u8), PendingAction::Deliver(v.2))
        } else if v.1 == seq_prev(m.expected) {
            rx_begin_reply(m, (FrameType::Ack, v.1, 0u8), PendingAction::Duplicate)
        } else {
            rx_begin_reply(m, (FrameType::Nack, v.1, 0u8), PendingAction::Rejected)
        },
        FrameType::Start => rx_begin_reply(
            RxModel { expected: 0, finish: None, aborted: false, ..m },
            (FrameType::Ack, 0u8, 0u8),
            PendingAction::Started,
        ),
        FrameType::Finish => if m.aborted {
            RxModel { state: RxState::Aborted, ..m }
        } else if m.finish is Some {
            if v.1 == m.finish.unwrap() {
                rx_begin_reply(m, (FrameType::Ack, v.1, 0u8), PendingAction::Finished)
            } else {
                RxModel { state: RxState::Finished, ..m }
            }
        } else if v.1 != m.expected {
            rx_begin_reply(m, (FrameType::Nack, v.1, 0u8), PendingAction::Rejected)
        } else {
            rx_begin_reply(
                RxModel { finish: Some(v.1), ..m },
                (FrameType::Ack, v.1, 0u8),
                PendingAction::Finished,
            )
        },
        FrameType::Abort => if m.finish is Some {
            RxModel { state: RxState::Finished, ..m }
        } else {
            rx_begin_reply(
                RxModel { aborted: true, expected: 0, ..m },
                (FrameType::Ack, 0u8, 0u8),
                PendingAction::Aborted,
            )
        },
        _ => rx_settle(m),
    }
}

/// One received byte.
pub open spec fn rx_on_byte<E>(m: RxModel, b: u8, w: Option<(u8, Result<(), E>)>) -> (
    RxModel,
    Result<PollOutcome, Error<E>>,
) {
    let bytes = m.reply.push(b);
    if m.reply.len() < 3 {
        (RxModel { reply: bytes, ..m }, Ok(PollOutcome::Pending))
    } else {
        let m1 = RxModel { reply: Seq::empty(), state: RxState::Validating, ..m };
        match spec_decode(bytes) {
            Err(_) => if rx_closed(m1) {
                (rx_settle(m1), Ok(PollOutcome::Pending))
            } else {
                rx_pump_reply(
                    rx_begin_reply(m1, (FrameType::Nack, m1.expected, 0u8), PendingAction::Rejected),
                    w,
                )
            },
            Ok(v) => if v.0 is Ack || v.0 is Nack {
                (rx_settle(m1), Ok(PollOutcome::Pending))
            } else {
                rx_pump_reply(rx_handle(m1, v), w)
            },
        }
    }
}

/// One receiver poll: the next model state and the result, given what the
/// transport answered.
pub open spec fn rx_step<E>(m: RxModel, io: RxIo<E>) -> (RxModel, Result<PollOutcome, Error<E>>) {
    if m.out.len() > 0 {
        rx_pump_reply(m, io.wrote)
    } else {
        let m0 = RxModel { state: RxState::Receiving, ..m };
        match io.read {
            Some(Err(e)) => (m0, Err(Error::Transport(e))),
            Some(Ok(Some(b))) => rx_on_byte(m0, b, io.wrote),
            _ => (rx_settle(m0), Ok(PollOutcome::Pending)),
        }
    }
}

/// The calls on the transport that `io` records, in order: the read, then
/// the write.
pub open spec fn rx_link_calls<E>(io: RxIo<E>) -> Seq<LinkCall> {
    (match io.read {
        Some(r) => seq![read_call(r)],
        None => Seq::empty(),
    }) + match io.wrote {
        Some((b, w)) => seq![write_call(b, w)],
        None => Seq::empty(),
    }
}

/// The reply a poll writes from: the one in progress, or the one begun for
/// the frame that the byte just read completes; empty when the poll writes
/// nothing.
pub open spec fn rx_reply_source<E>(m: RxModel, read: Option<Result<Option<u8>, E>>) -> Seq<u8> {
    if m.out.len() > 0 {
        m.out
    } else {
        match read {
            Some(Ok(Some(b))) => if m.reply.len() < 3 {
                Seq::empty()
            } else {
                let m1 = RxModel { reply: Seq::empty(), state: RxState::Validating, ..m };
                match spec_decode(m.reply.push(b)) {
                    Err(_) => if rx_closed(m1) {
                        Seq::empty()
                    } else {
                        spec_encode((FrameType::Nack, m1.expected, 0u8))
                    },
                    Ok(v) => if v.0 is Ack || v.0 is Nack {
                        Seq::empty()
                    } else {
                        rx_handle(m1, v).out
                    },
                }
            },
            _ => Seq::empty(),
        }
    }
}

/// Which transport calls one receiver poll makes: a reply byte in progress
/// is written without reading; otherwise one read, then a write exactly
/// when a reply was just begun. A write hands over the next byte of that
/// reply.
pub open spec fn rx_io_fits<E>(m: RxModel, io: RxIo<E>) -> bool {
    &&& if m.out.len() > 0 {
        io.read is None
    } else {
        io.read is Some
    }
    &&& (io.wrote is Some <==> rx_reply_source(m, io.read).len() > 0)
    &&& (io.wrote matches Some((x, _)) ==> x == rx_reply_source(m, io.read)[0])
}

/// The ACK the receiver writes for sequence `s`.
pub open spec fn ack_bytes(s: u8) -> Seq<u8> {
    spec_encode((FrameType::Ack, s, 0u8))
}

/// What every reachable receiver state satisfies: a reply is being written
/// exactly when an action is pending; a pending delivery is answered by the
/// ACK of the expected sequence, of which a nonempty tail remains; and at
/// most three bytes of an incoming frame are held.
pub open spec fn rx_inv(m: RxModel) -> bool {
    &&& (m.out.len() == 0 <==> m.pending is None)
    &&& m.out.len() <= 4
    &&& m.reply.len() <= 3
    &&& (m.pending matches Some(PendingAction::Deliver(_)) ==> ack_bytes(m.expected).skip(
        4 - m.out.len(),
    ) == m.out)
}

/// The state of a fresh receiver.
pub open spec fn rx_initial() -> RxModel {
    RxModel {
        expected: 0,
        state: RxState::Idle,
        reply: Seq::empty(),
        out: Seq::empty(),
        pending: None,
        finish: None,
        aborted: false,
    }
}

/// A fresh receiver satisfies the invariant.
pub proof fn lemma_rx_initial()
    ensures
        rx_inv(rx_initial()),
{
}

proof fn lemma_ack_len(s: u8)
    ensures
        ack_bytes(s).len() == 4,
{
}

/// Taking the pending action after the reply is written keeps the
/// invariant, delivers only a pending delivery, and moves the expected
/// sequence only by a delivery.
proof fn lemma_rx_take_pending(m: RxModel)
    requires
        m.out.len() == 0,
        m.reply.len() <= 3,
    ensures
        rx_inv(rx_take_pending(m).0),
        rx_take_pending(m).1 matches Some(PollOutcome::Delivered(b)) ==> m.pending == Some(
            PendingAction::Deliver(b),
        ) && rx_take_pending(m).0.expected == seq_next(m.expected),
        !(rx_take_pending(m).1 matches Some(PollOutcome::Delivered(_))) ==> rx_take_pending(
            m,
        ).0.expected == m.expected,
{
}

/// Writing one reply byte keeps the invariant.
proof fn lemma_rx_pump_reply<E>(m: RxModel, w: Option<(u8, Result<(), E>)>)
    requires
        rx_inv(m),
    ensures
        rx_inv(rx_pump_reply(m, w).0),
        rx_pump_reply(m, w).1 matches Ok(PollOutcome::Delivered(b)) ==> {
            &&& m.pending == Some(PendingAction::Deliver(b))
            &&& m.out == ack_bytes(m.expected).skip(3)
            &&& m.out.len() == 1
            &&& !(w matches Some((_, Err(_))))
            &&& rx_pump_reply(m, w).0.out.len() == 0
            &&& rx_pump_reply(m, w).0.expected == seq_next(m.expected)
        },
        !(rx_pump_reply(m, w).1 matches Ok(PollOutcome::Delivered(_))) ==> rx_pump_reply(
            m,
            w,
        ).0.expected == m.expected,
{
    lemma_ack_len(m.expected);
    if m.out.len() == 0 {
        lemma_rx_take_pending(m);
    } else if !(w matches Some((_, Err(_)))) {
        let m1 = RxModel { out: m.out.drop_first(), ..m };
        if m1.out.len() == 0 {
            lemma_rx_take_pending(m1);
            if m.pending matches Some(PendingAction::Deliver(_)) {
                assert(m.out.len() == 1);
                assert(ack_bytes(m.expected).skip(3) == m.out);
            }
        } else {
            if m.pending matches Some(PendingAction::Deliver(_)) {
                assert(ack_bytes(m.expected).skip(4 - m1.out.len()) =~= m1.out);
            }
        }
    }
}

/// Beginning a reply to a fresh frame keeps the invariant, provided a
/// delivery is only ever queued behind the ACK of the expected sequence.
proof fn lemma_rx_begin_reply(m: RxModel, f: FrameView, a: PendingAction)
    requires
        m.reply.len() <= 3,
        a matches PendingAction::Deliver(_) ==> f == (FrameType::Ack, m.expected, 0u8),
    ensures
        rx_inv(rx_begin_reply(m, f, a)),
{
    if a matches PendingAction::Deliver(_) {
        assert(ack_bytes(m.expected).skip(0) =~= ack_bytes(m.expected));
    }
}

/// A complete frame's handling keeps the invariant and leaves the
/// expected sequence alone, except that START and ABORT reset it to 0.
proof fn lemma_rx_handle(m: RxModel, v: FrameView)
    requires
        m.out.len() == 0,
        m.pending is None,
        m.reply.len() == 0,
    ensures
        rx_inv(rx_handle(m, v)) || rx_handle(m, v) == rx_settle(m) || rx_handle(m, v).out.len()
            == 0,
        rx_handle(m, v).out.len() > 0 ==> rx_inv(rx_handle(m, v)),
        rx_handle(m, v).out.len() == 0 ==> rx_handle(m, v).pending is None,
        rx_handle(m, v).reply.len() == 0,
        rx_handle(m, v).expected == m.expected || rx_handle(m, v).expected == 0,
{
    match v.0 {
        FrameType::Data => {
            if !m.aborted && !(m.finish is Some) {
                if v.1 == m.expected {
                    lemma_rx_begin_reply(
                        m,
                        (FrameType::Ack, m.expected, 0u8),
                        PendingAction::Deliver(v.2),
                    );
                }
            }
        },
        _ => {},
    }
}

/// Every poll keeps the receiver invariant. The result of a poll is
/// [`PollOutcome::Delivered`] only when the last byte of the ACK of the
/// expected sequence has just been written successfully and a delivery
/// was pending; the expected sequence then advances by exactly one.
/// Otherwise the expected sequence stays, unless START or ABORT reset it
/// to 0.
pub proof fn lemma_rx_step<E>(m: RxModel, io: RxIo<E>)
    requires
        rx_inv(m),
        rx_io_fits(m, io),
    ensures
        rx_inv(rx_step(m, io).0),
        rx_step(m, io).1 matches Ok(PollOutcome::Delivered(b)) ==> {
            &&& m.pending == Some(PendingAction::Deliver(b))
            &&& m.out == ack_bytes(m.expected).skip(3)
            &&& io.wrote matches Some((_, Ok(_)))
            &&& rx_step(m, io).0.expected == seq_next(m.expected)
        },
        !(rx_step(m, io).1 matches Ok(PollOutcome::Delivered(_))) ==> rx_step(m, io).0.expected
            == m.expected || rx_step(m, io).0.expected == 0,
{
    if m.out.len() > 0 {
        lemma_rx_pump_reply(m, io.wrote);
    } else {
        let m0 = RxModel { state: RxState::Receiving, ..m };
        match io.read {
            Some(Ok(Some(b))) => {
                let bytes = m0.reply.push(b);
                if m0.reply.len() >= 3 {
                    let m1 = RxModel { reply: Seq::empty(), state: RxState::Validating, ..m0 };
                    match spec_decode(bytes) {
                        Err(_) => {
                            if !rx_closed(m1) {
                                let r = rx_begin_reply(
                                    m1,
                                    (FrameType::Nack, m1.expected, 0u8),
                                    PendingAction::Rejected,
                                );
                                lemma_rx_begin_reply(
                                    m1,
                                    (FrameType::Nack, m1.expected, 0u8),
                                    PendingAction::Rejected,
                                );
                                lemma_rx_pump_reply(r, io.wrote);
                            }
                        },
                        Ok(v) => {
                            if !(v.0 is Ack || v.0 is Nack) {
                                lemma_rx_handle(m1, v);
                                let h = rx_handle(m1, v);
                                if h.out.len() > 0 {
                                    lemma_rx_pump_reply(h, io.wrote);
                                } else {
                                    lemma_rx_take_pending(h);
                                }
                            }
                        },
                    }
                }
            },
            _ => {},
        }
    }
}

/// A delivery is only ever queued by reading a valid DATA frame that
/// carries the expected sequence: when a poll leaves `Deliver(b)` pending
/// and it was not pending before, the byte that poll read completed the
/// four bytes of `DATA(expected, b)`, on an open session. With
/// [`lemma_rx_step`], every byte a receiver delivers arrived in such a
/// frame; noise and corrupted frames are never delivered.
pub proof fn lemma_rx_delivery_from_data<E>(m: RxModel, io: RxIo<E>, b: u8)
    requires
        rx_inv(m),
        rx_io_fits(m, io),
        rx_step(m, io).0.pending == Some(PendingAction::Deliver(b)),
        m.pending != Some(PendingAction::Deliver(b)),
    ensures
        m.out.len() == 0,
        m.reply.len() == 3,
        !rx_closed(m),
        io.read matches Some(Ok(Some(x))) && m.reply.push(x) == spec_encode(
            (FrameType::Data, m.expected, b),
        ),
{
    if m.out.len() > 0 {
        lemma_ack_len(m.expected);
    } else {
        match io.read {
            Some(Ok(Some(x))) => {
                if m.reply.len() >= 3 {
                    match spec_decode(m.reply.push(x)) {
                        Ok(v) => {
                            lemma_encode_decode(m.reply.push(x), v);
                        },
                        Err(_) => {},
                    }
                }
            },
            _ => {},
        }
    }
}

/// A retransmitted duplicate (a DATA frame carrying the sequence just
/// before the expected one) is never delivered again: completing it leaves
/// the expected sequence as it was and queues a re-ACK of that sequence.
pub proof fn lemma_rx_duplicate_not_redelivered<E>(m: RxModel, b: u8, w: Option<(u8, Result<(), E>)>)
    requires
        rx_inv(m),
        m.out.len() == 0,
        m.reply.len() == 3,
        !rx_closed(m),
        spec_decode(m.reply.push(b)) matches Ok(v) && v.0 is Data && v.1 == seq_prev(m.expected),
    ensures
        !(rx_on_byte(m, b, w).1 matches Ok(PollOutcome::Delivered(_))),
        rx_on_byte(m, b, w).0.expected == m.expected,
        rx_on_byte(m, b, w).0.pending == Some(PendingAction::Duplicate),
        rx_reply_source(m, Some(Ok::<Option<u8>, E>(Some(b)))) == spec_encode(
            (FrameType::Ack, seq_prev(m.expected), 0u8),
        ),
{
    let v = spec_decode(m.reply.push(b))->Ok_0;
    crate::protocol::sequence::lemma_prev_next(m.expected);
    assert(seq_prev(m.expected) != m.expected);
    let m1 = RxModel { reply: Seq::empty(), state: RxState::Validating, ..m };
    let h = rx_handle(m1, v);
    assert(h.pending == Some(PendingAction::Duplicate));
    assert(h.out.len() == 4);
}

/// One receiver poll could have led from `m` to `m2` with result `r`.
pub open spec fn rx_poll_ok<E>(m: RxModel, m2: RxModel, r: Result<PollOutcome, Error<E>>) -> bool {
    exists|io: RxIo<E>| rx_io_fits(m, io) && #[trigger] rx_step(m, io) == (m2, r)
}

/// A run of polls: `ms[i]` is the state before poll `i`, which returned
/// `rs[i]` and left `ms[i + 1]`.
pub open spec fn rx_run<E>(ms: Seq<RxModel>, rs: Seq<Result<PollOutcome, Error<E>>>) -> bool {
    &&& ms.len() == rs.len() + 1
    &&& forall|i: int| 0 <= i < rs.len() ==> #[trigger] rx_poll_ok(ms[i], ms[i + 1], rs[i])
}

/// A run of polls with what the transport answered in each: `ms[i]` is
/// the state before poll `i`, `ios[i]` what its transport calls answered,
/// `rs[i]` its result, `ms[i + 1]` the state it left.
pub open spec fn rx_io_run<E>(
    ms: Seq<RxModel>,
    ios: Seq<RxIo<E>>,
    rs: Seq<Result<PollOutcome, Error<E>>>,
) -> bool {
    &&& ms.len() == rs.len() + 1
    &&& ios.len() == rs.len()
    &&& forall|i: int| 0 <= i < rs.len() ==> #[trigger] rx_io_step(ms[i], ios[i], ms[i + 1], rs[i])
}

/// One poll from `m`, whose transport calls answered `io`, left `m2` and
/// returned `r`.
pub open spec fn rx_io_step<E>(m: RxModel, io: RxIo<E>, m2: RxModel, r: Result<PollOutcome, Error<E>>) -> bool {
    rx_io_fits(m, io) && rx_step(m, io) == (m2, r)
}

/// The transport calls of a run of polls, in order.
pub open spec fn rx_run_calls<E>(ios: Seq<RxIo<E>>) -> Seq<LinkCall>
    decreases ios.len(),
{
    if ios.len() == 0 {
        Seq::empty()
    } else {
        rx_run_calls(ios.drop_last()) + rx_link_calls(ios.last())
    }
}

/// A run with answers extended by one more poll is still one.
pub proof fn lemma_rx_io_run_push<E>(
    ms: Seq<RxModel>,
    ios: Seq<RxIo<E>>,
    rs: Seq<Result<PollOutcome, Error<E>>>,
    io: RxIo<E>,
    m2: RxModel,
    r: Result<PollOutcome, Error<E>>,
)
    requires
        rx_io_run(ms, ios, rs),
        rx_io_fits(ms.last(), io),
        rx_step(ms.last(), io) == (m2, r),
    ensures
        rx_io_run(ms.push(m2), ios.push(io), rs.push(r)),
        rx_run_calls(ios.push(io)) == rx_run_calls(ios) + rx_link_calls(io),
        delivered_bytes(rs.push(r)) == delivered_bytes(rs) + match r {
            Ok(PollOutcome::Delivered(b)) => seq![b],
            _ => Seq::empty(),
        },
{
    let ms2 = ms.push(m2);
    let ios2 = ios.push(io);
    let rs2 = rs.push(r);
    assert forall|i: int| 0 <= i < rs2.len() implies #[trigger] rx_io_step(ms2[i], ios2[i], ms2[i + 1], rs2[i]) by {
        if i < rs.len() {
            assert(rx_io_step(ms[i], ios[i], ms[i + 1], rs[i]));
            assert(ms2[i] == ms[i] && ms2[i + 1] == ms[i + 1] && rs2[i] == rs[i] && ios2[i] == ios[i]);
        } else {
            assert(ms2[i] == ms.last() && ms2[i + 1] == m2 && rs2[i] == r && ios2[i] == io);
        }
    }
    assert(ios2.drop_last() =~= ios);
    assert(rs2.drop_last() =~= rs);
}

/// The bytes a run of polls delivered, in order.
pub open spec fn delivered_bytes<E>(rs: Seq<Result<PollOutcome, Error<E>>>) -> Seq<u8>
    decreases rs.len(),
{
    if rs.len() == 0 {
        Seq::empty()
    } else {
        delivered_bytes(rs.drop_last()) + match rs.last() {
            Ok(PollOutcome::Delivered(b)) => seq![b],
            _ => Seq::empty(),
        }
    }
}

/// A receiver closed by FINISH `fs` and not yet answering a START: it keeps
/// its FINISH, and the only reply it may be writing is the rest of ACK(`fs`).
pub open spec fn rx_closed_by(m: RxModel, fs: u8) -> bool {
    &&& rx_inv(m)
    &&& m.finish == Some(fs)
    &&& !m.aborted
    &&& (m.pending is None || m.pending == Some(PendingAction::Finished))
    &&& m.out == ack_bytes(fs).skip(4 - m.out.len())
}

/// A reply made only of acknowledgements: the rest of ACK(`fs`), or the
/// whole ACK of a START.
pub open spec fn rx_acks_only(src: Seq<u8>, fs: u8) -> bool {
    src.len() <= 4 && src == ack_bytes(fs).skip(4 - src.len()) || src == ack_bytes(0)
}

/// One poll of a receiver closed by FINISH: see [`lemma_rx_closed_by_finish`].
proof fn lemma_rx_closed_step<E>(m: RxModel, io: RxIo<E>, fs: u8)
    requires
        rx_closed_by(m, fs),
    ensures
        ({
            let (m2, r) = rx_step(m, io);
            &&& r == Ok::<PollOutcome, Error<E>>(PollOutcome::Pending) || r == Ok::<
                PollOutcome,
                Error<E>,
            >(PollOutcome::TransferFinished) || (r matches Err(Error::Transport(_)))
            &&& r == Ok::<PollOutcome, Error<E>>(PollOutcome::TransferFinished) ==> m.pending == Some(
                PendingAction::Finished,
            )
            &&& rx_closed_by(m2, fs) || m2.pending == Some(PendingAction::Started)
            &&& rx_acks_only(rx_reply_source(m, io.read), fs)
        }),
{
    lemma_ack_len(fs);
    lemma_ack_len(0);
    assert(ack_bytes(fs).skip(4) =~= Seq::<u8>::empty());
    let (m2, r) = rx_step(m, io);
    if m.out.len() > 0 {
        if !(io.wrote matches Some((_, Err(_)))) {
            let m1 = RxModel { out: m.out.drop_first(), ..m };
            assert(m1.out =~= ack_bytes(fs).skip(4 - m1.out.len()));
        }
    } else {
        let m0 = RxModel { state: RxState::Receiving, ..m };
        if let Some(Ok(Some(b))) = io.read {
            if m0.reply.len() >= 3 {
                let m1 = RxModel { reply: Seq::empty(), state: RxState::Validating, ..m0 };
                if let Ok(v) = spec_decode(m0.reply.push(b)) {
                    if !(v.0 is Ack || v.0 is Nack) {
                        let h = rx_handle(m1, v);
                        if v.0 is Finish && v.1 == fs {
                            assert(h.out =~= ack_bytes(fs).skip(0));
                            if !(io.wrote matches Some((_, Err(_)))) {
                                let h1 = RxModel { out: h.out.drop_first(), ..h };
                                assert(h1.out =~= ack_bytes(fs).skip(4 - h1.out.len()));
                            }
                        } else if v.0 is Start {
                            assert(h.out == ack_bytes(0));
                        }
                    }
                }
            }
        }
    }
}

/// Once FINISH has closed the transfer, the receiver stays closed until a
/// START reopens it.
///
/// Over a run of polls from a receiver that took in FINISH `fs` and has
/// reported it, up to the poll that reads a START: every poll returns
/// `Pending`, `TransferFinished` (only in answer to a repeated FINISH
/// `fs`) or a transport error, never a delivery, a duplicate or a
/// rejection; every byte written belongs to an acknowledgement (the rest of
/// ACK(`fs`), or the ACK of the START), never a NACK, not even for a
/// corrupt frame; and the receiver keeps its FINISH.
pub proof fn lemma_rx_closed_by_finish<E>(
    ms: Seq<RxModel>,
    ios: Seq<RxIo<E>>,
    rs: Seq<Result<PollOutcome, Error<E>>>,
    fs: u8,
)
    requires
        rx_io_run(ms, ios, rs),
        rx_inv(ms[0]),
        ms[0].finish == Some(fs),
        !ms[0].aborted,
        ms[0].pending is None,
        forall|i: int| 0 <= i < rs.len() ==> (#[trigger] ms[i]).pending != Some(PendingAction::Started),
    ensures
        forall|i: int|
            0 <= i < rs.len() ==> {
                &&& #[trigger] rs[i] == Ok::<PollOutcome, Error<E>>(PollOutcome::Pending) || rs[i] == Ok::<
                    PollOutcome,
                    Error<E>,
                >(PollOutcome::TransferFinished) || (rs[i] matches Err(Error::Transport(_)))
                &&& rs[i] == Ok::<PollOutcome, Error<E>>(PollOutcome::TransferFinished) ==> ms[i].pending
                    == Some(PendingAction::Finished)
            },
        forall|i: int|
            0 <= i < rs.len() ==> (#[trigger] ios[i].wrote matches Some((x, _)) ==> {
                &&& x == rx_reply_source(ms[i], ios[i].read)[0]
                &&& rx_acks_only(rx_reply_source(ms[i], ios[i].read), fs)
            }),
        forall|i: int| 0 <= i < rs.len() ==> (#[trigger] ms[i]).finish == Some(fs),
        ms.last().finish == Some(fs) || ms.last().pending == Some(PendingAction::Started),
{
    assert(ms[0].out.len() == 0);
    assert(ms[0].out =~= ack_bytes(fs).skip(4 - 0)) by {
        lemma_ack_len(fs);
    }
    assert forall|i: int| 0 <= i <= rs.len() implies rx_closed_by(#[trigger] ms[i], fs) || (i == rs.len()
        && ms[i].pending == Some(PendingAction::Started)) by {
        lemma_rx_closed_upto(ms, ios, rs, fs, i as nat);
    }
    assert forall|i: int| 0 <= i < rs.len() implies {
        &&& #[trigger] rs[i] == Ok::<PollOutcome, Error<E>>(PollOutcome::Pending) || rs[i] == Ok::<
            PollOutcome,
            Error<E>,
        >(PollOutcome::TransferFinished) || (rs[i] matches Err(Error::Transport(_)))
        &&& rs[i] == Ok::<PollOutcome, Error<E>>(PollOutcome::TransferFinished) ==> ms[i].pending
            == Some(PendingAction::Finished)
    } by {
        assert(rx_closed_by(ms[i], fs));
        assert(rx_io_step(ms[i], ios[i], ms[i + 1], rs[i]));
        lemma_rx_closed_step(ms[i], ios[i], fs);
    }
    assert forall|i: int| 0 <= i < rs.len() implies (#[trigger] ios[i].wrote matches Some((x, _)) ==> {
        &&& x == rx_reply_source(ms[i], ios[i].read)[0]
        &&& rx_acks_only(rx_reply_source(ms[i], ios[i].read), fs)
    }) by {
        assert(rx_closed_by(ms[i], fs));
        assert(rx_io_step(ms[i], ios[i], ms[i + 1], rs[i]));
        lemma_rx_closed_step(ms[i], ios[i], fs);
    }
    assert(rx_closed_by(ms[rs.len() as int], fs) || ms[rs.len() as int].pending == Some(PendingAction::Started));
}

/// The first `i` polls of such a run leave the receiver closed by FINISH,
/// unless the last of them read a START.
proof fn lemma_rx_closed_upto<E>(
    ms: Seq<RxModel>,
    ios: Seq<RxIo<E>>,
    rs: Seq<Result<PollOutcome, Error<E>>>,
    fs: u8,
    i: nat,
)
    requires
        rx_io_run(ms, ios, rs),
        rx_closed_by(ms[0], fs),
        forall|k: int| 0 <= k < rs.len() ==> (#[trigger] ms[k]).pending != Some(PendingAction::Started),
        i <= rs.len(),
    ensures
        rx_closed_by(ms[i as int], fs) || (i == rs.len() && ms[i as int].pending == Some(
            PendingAction::Started,
        )),
    decreases i,
{
    if i > 0 {
        let p = (i - 1) as int;
        lemma_rx_closed_upto(ms, ios, rs, fs, (i - 1) as nat);
        assert(ms[p].pending != Some(PendingAction::Started));
        assert(rx_io_step(ms[p], ios[p], ms[p + 1], rs[p]));
        lemma_rx_closed_step(ms[p], ios[p], fs);
        if i < rs.len() {
            assert(ms[i as int].pending != Some(PendingAction::Started));
        }
    }
}

/// The DATA frame a poll accepted for delivery, by its sequence and
/// payload: a frame completed by the byte read, on an open session, that
/// carries the expected sequence.
pub open spec fn rx_accepts<E>(m: RxModel, io: RxIo<E>) -> Option<(u8, u8)> {
    if m.out.len() > 0 || m.reply.len() < 3 || rx_closed(m) {
        None
    } else {
        match io.read {
            Some(Ok(Some(x))) => match spec_decode(m.reply.push(x)) {
                Ok(v) => if v.0 is Data && v.1 == m.expected {
                    Some((v.1, v.2))
                } else {
                    None
                },
                Err(_) => None,
            },
            _ => None,
        }
    }
}

/// The DATA frames the first `i` polls of a run accepted, in order.
pub open spec fn rx_accepted<E>(ms: Seq<RxModel>, ios: Seq<RxIo<E>>, i: nat) -> Seq<(u8, u8)>
    decreases i,
{
    if i == 0 {
        Seq::empty()
    } else {
        let a = rx_accepted(ms, ios, (i - 1) as nat);
        match rx_accepts(ms[i - 1], ios[i - 1]) {
            Some(f) => a.push(f),
            None => a,
        }
    }
}

/// How delivery stands in `m` after the bytes `d` were delivered and the
/// frames `a` accepted, from expected sequence `e0`: every accepted frame
/// was delivered, in order, but the one whose ACK is still being written;
/// frame `j` carried sequence `e0 + j`.
pub open spec fn rx_order(m: RxModel, d: Seq<u8>, a: Seq<(u8, u8)>, e0: u8) -> bool {
    &&& a.len() == d.len() + if m.pending matches Some(PendingAction::Deliver(_)) { 1nat } else { 0nat }
    &&& forall|j: int| 0 <= j < d.len() ==> (#[trigger] a[j]).1 == d[j]
    &&& m.pending matches Some(PendingAction::Deliver(b)) ==> a[d.len() as int].1 == b
    &&& forall|j: int| 0 <= j < a.len() ==> (#[trigger] a[j]).0 == (e0 + j) % 256
    &&& m.expected == (e0 + d.len()) % 256
}

/// One poll keeps [`rx_order`] when it moves the expected sequence only by
/// a delivery.
proof fn lemma_rx_order_step<E>(m: RxModel, io: RxIo<E>, d: Seq<u8>, a: Seq<(u8, u8)>, e0: u8)
    requires
        rx_inv(m),
        rx_io_fits(m, io),
        rx_order(m, d, a, e0),
        !(rx_step(m, io).1 matches Ok(PollOutcome::Delivered(_))) ==> rx_step(m, io).0.expected
            == m.expected,
    ensures
        ({
            let (m2, r) = rx_step(m, io);
            rx_order(
                m2,
                match r {
                    Ok(PollOutcome::Delivered(b)) => d.push(b),
                    _ => d,
                },
                match rx_accepts(m, io) {
                    Some(f) => a.push(f),
                    None => a,
                },
                e0,
            )
        }),
{
    let (m2, r) = rx_step(m, io);
    lemma_rx_step(m, io);
    let acc = rx_accepts(m, io);
    lemma_ack_len(m.expected);
    if let Some(f) = acc {
        // the frame read queued its delivery behind the ACK
        assert(m.out.len() == 0 && m.pending is None);
        assert(m2.pending == Some(PendingAction::Deliver(f.1)));
        let a2 = a.push(f);
        assert(a2[d.len() as int] == f);
        assert(forall|j: int| 0 <= j < d.len() ==> a2[j] == a[j]);
    } else {
        if let Some(PendingAction::Deliver(b)) = m2.pending {
            if m.pending != Some(PendingAction::Deliver(b)) {
                lemma_rx_delivery_from_data(m, io, b);
                if let Some(Ok(Some(x))) = io.read {
                    lemma_decode_encode((FrameType::Data, m.expected, b));
                }
                assert(false);
            }
        }
        if let Ok(PollOutcome::Delivered(b)) = r {
            let d2 = d.push(b);
            assert(forall|j: int| 0 <= j < d.len() ==> d2[j] == d[j]);
            assert((e0 + d.len() + 1) % 256 == (m.expected + 1) % 256) by {
                vstd::arithmetic::div_mod::lemma_add_mod_noop(e0 + d.len(), 1, 256);
            }
        }
    }
}

/// A stop-and-wait receiver delivers in order, each byte once.
///
/// Over a run of polls from a reachable receiver with no delivery queued,
/// in which nothing but a delivery moves the expected sequence (no START or
/// ABORT resets it): the `j`-th byte delivered is the payload of the `j`-th
/// DATA frame the run accepted, and that frame carried sequence
/// `expected + j` (mod 256) of the run's first state; every accepted frame
/// was delivered but at most the last, whose ACK is still being written.
/// Duplicates, frames out of sequence and corrupted frames are never
/// accepted.
pub proof fn lemma_rx_in_order<E>(ms: Seq<RxModel>, ios: Seq<RxIo<E>>, rs: Seq<Result<PollOutcome, Error<E>>>)
    requires
        rx_io_run(ms, ios, rs),
        rx_inv(ms[0]),
        !(ms[0].pending matches Some(PendingAction::Deliver(_))),
        forall|i: int|
            0 <= i < rs.len() && !(#[trigger] rs[i] matches Ok(PollOutcome::Delivered(_)))
                ==> ms[i + 1].expected == ms[i].expected,
    ensures
        ({
            let a = rx_accepted(ms, ios, rs.len());
            let d = delivered_bytes(rs);
            &&& d.len() <= a.len() <= d.len() + 1
            &&& forall|j: int| 0 <= j < d.len() ==> #[trigger] d[j] == a[j].1
            &&& forall|j: int| 0 <= j < a.len() ==> (#[trigger] a[j]).0 == (ms[0].expected + j) % 256
        }),
{
    lemma_rx_order_upto(ms, ios, rs, rs.len());
    assert(rs.take(rs.len() as int) =~= rs);
}

/// [`rx_order`] after the first `i` polls of such a run.
proof fn lemma_rx_order_upto<E>(
    ms: Seq<RxModel>,
    ios: Seq<RxIo<E>>,
    rs: Seq<Result<PollOutcome, Error<E>>>,
    i: nat,
)
    requires
        rx_io_run(ms, ios, rs),
        rx_inv(ms[0]),
        !(ms[0].pending matches Some(PendingAction::Deliver(_))),
        forall|k: int|
            0 <= k < rs.len() && !(#[trigger] rs[k] matches Ok(PollOutcome::Delivered(_)))
                ==> ms[k + 1].expected == ms[k].expected,
        i <= rs.len(),
    ensures
        rx_inv(ms[i as int]),
        rx_order(ms[i as int], delivered_bytes(rs.take(i as int)), rx_accepted(ms, ios, i), ms[0].expected),
    decreases i,
{
    let e0 = ms[0].expected;
    if i == 0 {
        assert(rs.take(0) =~= Seq::<Result<PollOutcome, Error<E>>>::empty());
        assert(delivered_bytes(rs.take(0)) =~= Seq::<u8>::empty());
        assert(ms[0].expected == (e0 + 0) % 256);
    } else {
        let p = (i - 1) as int;
        lemma_rx_order_upto(ms, ios, rs, (i - 1) as nat);
        assert(rx_io_step(ms[p], ios[p], ms[p + 1], rs[p]));
        let d = delivered_bytes(rs.take(p));
        let a = rx_accepted(ms, ios, (i - 1) as nat);
        if !(rs[p] matches Ok(PollOutcome::Delivered(_))) {
            assert(ms[p + 1].expected == ms[p].expected);
        }
        lemma_rx_order_step(ms[p], ios[p], d, a, e0);
        lemma_rx_step(ms[p], ios[p]);
        assert(rs.take(i as int).drop_last() =~= rs.take(p));
        assert(rs.take(i as int).last() == rs[p]);
        match rs[p] {
            Ok(PollOutcome::Delivered(b)) => {
                assert(d + seq![b] =~= d.push(b));
            },
            _ => {
                assert(d + Seq::<u8>::empty() =~= d);
            },
        }
    }
}

/// A run with answers is a run: what [`lemma_rx_run_counts`] says of runs
/// holds of the runs the receive loops report.
pub proof fn lemma_rx_io_run_is_run<E>(
    ms: Seq<RxModel>,
    ios: Seq<RxIo<E>>,
    rs: Seq<Result<PollOutcome, Error<E>>>,
)
    requires
        rx_io_run(ms, ios, rs),
    ensures
        rx_run(ms, rs),
{
    assert forall|i: int| 0 <= i < rs.len() implies #[trigger] rx_poll_ok(ms[i], ms[i + 1], rs[i]) by {
        assert(rx_io_step(ms[i], ios[i], ms[i + 1], rs[i]));
    }
}

/// Along any run of polls from a reachable state, every state stays
/// reachable, and the expected sequence counts deliveries: each delivered
/// byte advances it by exactly one, and a run in which nothing else moved
/// it (no START or ABORT reset it) delivers exactly as many bytes as it
/// advanced, modulo 256.
pub proof fn lemma_rx_run_counts<E>(ms: Seq<RxModel>, rs: Seq<Result<PollOutcome, Error<E>>>)
    requires
        rx_run(ms, rs),
        rx_inv(ms[0]),
        forall|i: int|
            0 <= i < rs.len() && !(#[trigger] rs[i] matches Ok(PollOutcome::Delivered(_)))
                ==> ms[i + 1].expected == ms[i].expected,
    ensures
        rx_inv(ms.last()),
        ms.last().expected == (ms[0].expected + delivered_bytes(rs).len()) % 256,
    decreases rs.len(),
{
    if rs.len() > 0 {
        let ms0 = ms.drop_last();
        let rs0 = rs.drop_last();
        assert forall|i: int| 0 <= i < rs0.len() implies #[trigger] rx_poll_ok(ms0[i], ms0[i + 1], rs0[i]) by {
            assert(rx_poll_ok(ms[i], ms[i + 1], rs[i]));
        }
        assert forall|i: int|
            0 <= i < rs0.len() && !(#[trigger] rs0[i] matches Ok(PollOutcome::Delivered(_)))
                implies ms0[i + 1].expected == ms0[i].expected by {
            assert(rs0[i] == rs[i]);
        }
        lemma_rx_run_counts(ms0, rs0);
        let k = rs.len() - 1;
        assert(rx_poll_ok(ms[k], ms[k + 1], rs[k]));
        let io = choose|io: RxIo<E>| rx_io_fits(ms[k], io) && #[trigger] rx_step(ms[k], io) == (ms[k + 1], rs[k]);
        lemma_rx_step(ms[k], io);
        assert(ms.last() == ms[k + 1]);
        assert(ms0.last() == ms[k]);
        assert(rs.drop_last() =~= rs0);
        let e0 = ms[0].expected as int;
        let d0 = delivered_bytes(rs0).len() as int;
        if rs[k] matches Ok(PollOutcome::Delivered(_)) {
            assert(((e0 + d0) % 256 + 1) % 256 == (e0 + d0 + 1) % 256);
        }
    }
}

/// A stop-and-wait receiver over one byte transport.
pub struct Receiver<T: ByteTransport> {
    transport: T,
    expected_seq: Sequence,
    state: RxState,
    assembler: FrameAssembler,
    out: OutBuf,
    pending: Option<PendingAction>,
    finish_seq: Option<u8>,
    abort_latched: bool,
}

impl<T: ByteTransport> Receiver<T> {
    /// The receiver's state apart from its transport.
    pub closed spec fn model(&self) -> RxModel {
        RxModel {
            expected: self.expected_seq@,
            state: self.state,
            reply: self.assembler@,
            out: self.out@,
            pending: self.pending,
            finish: self.finish_seq,
            aborted: self.abort_latched,
        }
    }

    /// Internal consistency, kept by every operation.
    pub closed spec fn wf(&self) -> bool {
        self.assembler.wf()
    }

    /// The transport the receiver reads from and writes to.
    pub closed spec fn link(&self) -> T {
        self.transport
    }

    /// A receiver expecting the first DATA frame at sequence 0.
    pub fn new(transport: T) -> (r: Self)
        ensures
            r.wf(),
            rx_inv(r.model()),
            r.link() == transport,
            r.model() == (RxModel {
                expected: 0,
                state: RxState::Idle,
                reply: Seq::empty(),
                out: Seq::empty(),
                pending: None,
                finish: None,
                aborted: false,
            }),
    {
        Receiver {
            transport,
            expected_seq: Sequence::new(),
            state: RxState::Idle,
            assembler: FrameAssembler::new(),
            out: OutBuf::empty(),
            pending: None,
            finish_seq: None,
            abort_latched: false,
        }
    }

    /// The receiver's current state.
    pub fn state(&self) -> (s: RxState)
        ensures
            s == self.model().state,
    {
        self.state
    }

    /// The sequence the next DATA frame (or a valid FINISH) must carry.
    pub fn expected_seq(&self) -> (s: u8)
        ensures
            s == self.model().expected,
    {
        self.expected_seq.current()
    }

    /// Sets the expected sequence, as if `seq` bytes had been delivered.
    pub fn set_expected_seq(&mut self, seq: u8)
        ensures
            final(self).wf() == old(self).wf(),
            final(self).link() == old(self).link(),
            final(self).model() == (RxModel { expected: seq, ..old(self).model() }),
            rx_inv(old(self).model()) && old(self).model().out.len() == 0 ==> rx_inv(
                final(self).model(),
            ),
    {
        self.expected_seq = Sequence::from_raw(seq);
    }

    fn settle_idle(&mut self)
        ensures
            final(self).wf() == old(self).wf(),
            final(self).link() == old(self).link(),
            final(self).model() == rx_settle(old(self).model()),
    {
        self.state = if self.abort_latched {
            RxState::Aborted
        } else if self.finish_seq.is_some() {
            RxState::Finished
        } else {
            RxState::Idle
        };
    }

    fn begin_reply(&mut self, frame: &Frame, action: PendingAction)
        ensures
            final(self).wf() == old(self).wf(),
            final(self).link() == old(self).link(),
            final(self).model() == rx_begin_reply(old(self).model(), frame@, action),
    {
        self.out.load(frame);
        self.pending = Some(action);
        self.state = RxState::Acknowledging;
    }

    fn take_pending(&mut self) -> (o: Option<PollOutcome>)
        ensures
            final(self).wf() == old(self).wf(),
            final(self).link() == old(self).link(),
            (final(self).model(), o) == rx_take_pending(old(self).model()),
    {
        let action = match self.pending {
            None => return None,
            Some(a) => a,
        };
        self.pending = None;
        match action {
            PendingAction::Deliver(byte) => {
                self.expected_seq.advance();
                self.state = RxState::Idle;
                Some(PollOutcome::Delivered(byte))
            },
            PendingAction::Duplicate => {
                self.settle_idle();
                Some(PollOutcome::DuplicateIgnored)
            },
            PendingAction::Started => {
                self.finish_seq = None;
                self.abort_latched = false;
                self.state = RxState::Idle;
                Some(PollOutcome::Started)
            },
            PendingAction::Finished => {
                self.state = RxState::Finished;
                Some(PollOutcome::TransferFinished)
            },
            PendingAction::Aborted => {
                self.state = RxState::Aborted;
                Some(PollOutcome::Aborted)
            },
            PendingAction::Rejected => {
                self.settle_idle();
                Some(PollOutcome::Rejected)
            },
        }
    }

    fn pump_reply(&mut self) -> (res: (Result<PollOutcome, Error<T::Error>>, Ghost<
        Option<(u8, Result<(), T::Error>)>,
    >))
        requires
            old(self).wf(),
        ensures
            final(self).wf(),
            old(self).model().out.len() > 0 <==> res.1@ is Some,
            res.1@ matches Some((x, _)) ==> x == old(self).model().out[0],
            (final(self).model(), res.0) == rx_pump_reply(old(self).model(), res.1@),
            (T::keeps_calls() ==> final(self).link().calls() == old(self).link().calls() + match res.1@ {
                Some((b, w)) => seq![write_call(b, w)],
                None => Seq::<LinkCall>::empty(),
            }),
    {
        let byte = match self.out.peek() {
            None => {
                let o = self.take_pending();
                let out = match o {
                    Some(x) => x,
                    None => PollOutcome::Pending,
                };
                return (Ok(out), Ghost(None));
            },
            Some(b) => b,
        };
        let w = self.transport.write_byte(byte);
        let ghost wrote = Some((byte, w));
        match w {
            Err(e) => return (Err(Error::Transport(e)), Ghost(wrote)),
            Ok(()) => {},
        }
        self.out.commit();
        if self.out.is_idle() {
            let o = self.take_pending();
            let out = match o {
                Some(x) => x,
                None => PollOutcome::Pending,
            };
            (Ok(out), Ghost(wrote))
        } else {
            self.state = RxState::Acknowledging;
            (Ok(PollOutcome::Pending), Ghost(wrote))
        }
    }

    fn handle_frame(&mut self, frame: Frame)
        requires
            old(self).wf(),
            !(frame@.0 is Ack || frame@.0 is Nack),
        ensures
            final(self).wf(),
            final(self).link() == old(self).link(),
            final(self).model() == rx_handle(old(self).model(), frame@),
    {
        let seq = frame.seq();
        match frame.frame_type() {
            FrameType::Data => {
                if self.abort_latched {
                    self.state = RxState::Aborted;
                    return;
                }
                if self.finish_seq.is_some() {
                    self.state = RxState::Finished;
                    return;
                }
                let expected = self.expected_seq.current();
                if seq == expected {
                    self.begin_reply(&Frame::ack(expected), PendingAction::Deliver(frame.payload()));
                } else if seq == self.expected_seq.previous() {
                    self.begin_reply(&Frame::ack(seq), PendingAction::Duplicate);
                } else {
                    self.begin_reply(&Frame::nack(seq), PendingAction::Rejected);
                }
            },
            FrameType::Start => {
                self.expected_seq = Sequence::new();
                self.finish_seq = None;
                self.abort_latched = false;
                self.begin_reply(&Frame::ack(0), PendingAction::Started);
            },
            FrameType::Finish => {
                if self.abort_latched {
                    self.state = RxState::Aborted;
                    return;
                }
                if let Some(closed) = self.finish_seq {
                    if seq == closed {
                        self.begin_reply(&Frame::ack(seq), PendingAction::Finished);
                    } else {
                        self.state = RxState::Finished;
                    }
                    return;
                }
                if seq != self.expected_seq.current() {
                    self.begin_reply(&Frame::nack(seq), PendingAction::Rejected);
                    return;
                }
                self.finish_seq = Some(seq);
                self.begin_reply(&Frame::ack(seq), PendingAction::Finished);
            },
            FrameType::Abort => {
                if self.finish_seq.is_some() {
                    self.state = RxState::Finished;
                    return;
                }
                self.abort_latched = true;
                self.expected_seq = Sequence::new();
                self.begin_reply(&Frame::ack(0), PendingAction::Aborted);
            },
            FrameType::Ack | FrameType::Nack => {
                self.settle_idle();
            },
        }
    }

    fn poll_io(&mut self) -> (res: (Result<PollOutcome, Error<T::Error>>, Ghost<RxIo<T::Error>>))
        requires
            old(self).wf(),
        ensures
            final(self).wf(),
            rx_io_fits(old(self).model(), res.1@),
            rx_step(old(self).model(), res.1@) == (final(self).model(), res.0),
            (T::keeps_calls() ==> final(self).link().calls() == old(self).link().calls() + rx_link_calls(res.1@)),
    {
        if !self.out.is_idle() {
            let (r, Ghost(w)) = self.pump_reply();
            return (r, Ghost(RxIo { read: None, wrote: w }));
        }
        self.state = RxState::Receiving;
        let rd = self.transport.read_byte();
        let ghost read = Some(rd);
        let byte = match rd {
            Err(e) => return (Err(Error::Transport(e)), Ghost(RxIo { read, wrote: None })),
            Ok(None) => {
                self.settle_idle();
                return (Ok(PollOutcome::Pending), Ghost(RxIo { read, wrote: None }));
            },
            Ok(Some(b)) => b,
        };
        let ghost m0 = self.model();
        let decoded = match self.assembler.push(byte) {
            None => {
                assert(self.model() == RxModel { reply: m0.reply.push(byte), ..m0 });
                return (Ok(PollOutcome::Pending), Ghost(RxIo { read, wrote: None }));
            },
            Some(d) => d,
        };
        self.state = RxState::Validating;
        assert(self.model() == RxModel { reply: Seq::empty(), state: RxState::Validating, ..m0 });
        let frame = match decoded {
            Err(_) => {
                if self.abort_latched || self.finish_seq.is_some() {
                    self.settle_idle();
                    return (Ok(PollOutcome::Pending), Ghost(RxIo { read, wrote: None }));
                }
                let nack = Frame::nack(self.expected_seq.current());
                self.begin_reply(&nack, PendingAction::Rejected);
                let (r, Ghost(w)) = self.pump_reply();
                return (r, Ghost(RxIo { read, wrote: w }));
            },
            Ok(f) => f,
        };
        match frame.frame_type() {
            FrameType::Ack | FrameType::Nack => {
                self.settle_idle();
                return (Ok(PollOutcome::Pending), Ghost(RxIo { read, wrote: None }));
            },
            _ => {},
        }
        self.handle_frame(frame);
        let (r, Ghost(w)) = self.pump_reply();
        (r, Ghost(RxIo { read, wrote: w }))
    }

    /// Polls once: writes at most one reply byte, or reads at most one
    /// incoming byte (and, when that completes a frame, writes the first
    /// byte of the reply). Non-blocking.
    ///
    /// The next state and the result are [`rx_step`] of the previous state
    /// and of what the transport answered; the byte handed to a write is
    /// the one [`rx_io_fits`] names, and the calls made on the transport
    /// are exactly those the record lists.
    pub fn poll(&mut self) -> (r: Result<PollOutcome, Error<T::Error>>)
        requires
            old(self).wf(),
        ensures
            final(self).wf(),
            exists|io: RxIo<T::Error>|
                rx_io_fits(old(self).model(), io) && #[trigger] rx_step(old(self).model(), io) == (
                final(self).model(),
                r,
                ) && (T::keeps_calls() ==> final(self).link().calls() == old(self).link().calls() + rx_link_calls(io)),
            rx_inv(old(self).model()) ==> rx_inv(final(self).model()),
    {
        let (r, Ghost(io)) = self.poll_io();
        assert(rx_io_fits(old(self).model(), io) && rx_step(old(self).model(), io) == (
        self.model(), r) && (T::keeps_calls() ==> self.link().calls() == old(self).link().calls() + rx_link_calls(io)));
        proof {
            if rx_inv(old(self).model()) {
                lemma_rx_step(old(self).model(), io);
            }
        }
        r
    }

    /// The transport, for inspection.
    pub fn transport(&self) -> (t: &T)
        ensures
            *t == self.link(),
    {
        &self.transport
    }

    /// Consumes the receiver, returning the underlying transport.
    pub fn release(self) -> (t: T)
        ensures
            t == self.link(),
    {
        self.transport
    }
}

} // verus!
