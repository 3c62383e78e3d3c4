//! Stop-and-wait sender.
//!
//! ```text
//! IDLE --offer--> SENDING (one wire byte per poll) --> WAIT_ACK
//! WAIT_ACK --ACK(cur)--> IDLE (or FINISHED / ABORTED)
//! WAIT_ACK --NACK(cur) or timeout--> RETRYING --> SENDING
//! ```
//!
//! ACK/NACK for any other sequence, and invalid frames, are ignored until the
//! tick timeout fires. A frame is on the wire only once all four bytes have
//! been written.

use vstd::prelude::*;
use crate::error::Error;
use crate::protocol::frame::{spec_decode, spec_encode, Frame, FrameError, FrameType, FrameView};
use crate::protocol::sequence::seq_next;
use crate::protocol::{FrameAssembler, OutBuf, Sequence};
use crate::timeout::RetryPolicy;
use crate::transport::{read_call, write_call, ByteTransport, LinkCall};

verus! {

/// Transmitter state.
#[derive(Debug, Clone, Copy, PartialEq, Eq, Structural)]
pub enum TxState {
    /// Ready for the next offer.
    Idle,
    /// Writing a frame, one byte per poll.
    Sending,
    /// Frame on the wire; waiting for ACK/NACK/timeout.
    WaitingAck,
    /// About to retransmit.
    Retrying,
    /// FINISH was ACKed.
    Finished,
    /// ABORT was ACKed, or a peer ABORT was observed.
    Aborted,
    /// Retry budget exhausted.
    Failed,
}

/// Outcome of one [`Sender::poll`].
#[derive(Debug, Clone, Copy, PartialEq, Eq, Structural)]
pub enum TxPoll {
    /// Still working.
    Pending,
    /// A DATA byte was ACKed; the sequence advanced.
    Acked,
    /// START was ACKed; the receiver has reset to sequence 0.
    SessionReady,
    /// FINISH was ACKed; the transfer is closed.
    TransferDone,
    /// ABORT was ACKed, or a peer ABORT cancelled the flight.
    Aborted,
}

/// What the frame in flight is.
#[derive(Debug, Clone, Copy, PartialEq, Eq, Structural)]
pub enum FlightKind {
    /// One payload byte.
    Data(u8),
    /// Session start.
    Start,
    /// Session finish.
    Finish,
    /// Session abort.
    Abort,
}

/// The frame currently in flight and its retry bookkeeping.
#[derive(Debug, Clone, Copy, PartialEq, Eq, Structural)]
pub struct InFlight {
    /// What is being sent.
    pub kind: FlightKind,
    /// The sequence number it carries.
    pub seq: u8,
    /// Retransmissions still allowed.
    pub retries_left: u8,
    /// All four bytes are on the wire and an answer is awaited.
    pub waiting: bool,
    /// Consecutive empty reads while waiting.
    pub empty_ticks: u16,
}

/// The sender's state apart from its transport.
pub struct TxModel {
    /// Sequence the next DATA byte will carry.
    pub seq: u8,
    /// Coarse state.
    pub state: TxState,
    /// Retry policy.
    pub policy: RetryPolicy,
    /// Bytes of an incoming reply accumulated so far.
    pub reply: Seq<u8>,
    /// The frame in flight, if any.
    pub flight: Option<InFlight>,
    /// Bytes of the outgoing frame not yet written.
    pub out: Seq<u8>,
}

/// What passed through the transport during one poll: nothing was asked
/// of it, one byte was handed to a write that returned this, or a read
/// returned this.
pub enum LinkIo<E> {
    /// No transport call was made.
    Nothing,
    /// One `write_byte` call, with this byte, returned this.
    Wrote(u8, Result<(), E>),
    /// One `read_byte` call returned this.
    Read(Result<Option<u8>, E>),
}

/// The calls on the transport that `io` records, in order.
pub open spec fn link_calls<E>(io: LinkIo<E>) -> Seq<LinkCall> {
    match io {
        LinkIo::Nothing => Seq::empty(),
        LinkIo::Wrote(b, r) => seq![write_call(b, r)],
        LinkIo::Read(r) => seq![read_call(r)],
    }
}

/// One poll from `m`, whose transport call answered `io`, left `m2` and
/// returned `r`.
pub open spec fn tx_io_step<E>(m: TxModel, io: LinkIo<E>, m2: TxModel, r: Result<TxPoll, Error<E>>) -> bool {
    tx_io_fits(m, io) && tx_step(m, io) == (m2, r)
}

/// A run of polls with what the transport answered in each: `ms[i]` is
/// the state before poll `i`, `ios[i]` what its transport call answered,
/// `rs[i]` its result, `ms[i + 1]` the state it left.
pub open spec fn tx_io_run<E>(ms: Seq<TxModel>, ios: Seq<LinkIo<E>>, rs: Seq<Result<TxPoll, Error<E>>>) -> bool {
    &&& ms.len() == rs.len() + 1
    &&& ios.len() == rs.len()
    &&& forall|i: int| 0 <= i < rs.len() ==> #[trigger] tx_io_step(ms[i], ios[i], ms[i + 1], rs[i])
}

/// The transport calls of a run of polls, in order.
pub open spec fn tx_run_calls<E>(ios: Seq<LinkIo<E>>) -> Seq<LinkCall>
    decreases ios.len(),
{
    if ios.len() == 0 {
        Seq::empty()
    } else {
        tx_run_calls(ios.drop_last()) + link_calls(ios.last())
    }
}

/// The sender right after a blocking send queued a frame of `kind` at
/// sequence `seq`.
pub open spec fn tx_queued(m: TxModel, kind: FlightKind, seq: u8) -> TxModel {
    TxModel { seq, flight: Some(new_flight(kind, seq, m.policy)), state: TxState::Sending, ..m }
}

/// The sender right after `offer_abort`: unchanged when already aborted
/// or when an ABORT is in flight, else holding a fresh ABORT at sequence 0
/// with nothing half-written or half-read.
pub open spec fn tx_abort_queued(m: TxModel) -> TxModel {
    if (m.state is Aborted && m.flight is None) || (m.flight matches Some(f) && f.kind is Abort) {
        m
    } else {
        TxModel {
            seq: 0,
            flight: Some(new_flight(FlightKind::Abort, 0, m.policy)),
            out: Seq::empty(),
            reply: Seq::empty(),
            state: TxState::Sending,
            ..m
        }
    }
}

/// A blocking send whose polls answered `rs` returned `r`: every poll but
/// the last answered `Pending`, and the last ended the send: with an ACK,
/// SESSION or transfer-done event for `Ok`, with its own error or an ABORT
/// for `Err`; or `u64::MAX` polls all answered `Pending` and the send gave
/// up with `Timeout`.
pub open spec fn tx_drove<E>(rs: Seq<Result<TxPoll, Error<E>>>, r: Result<(), Error<E>>) -> bool {
    &&& forall|i: int| 0 <= i < rs.len() - 1 ==> #[trigger] rs[i] == Ok::<TxPoll, Error<E>>(TxPoll::Pending)
    &&& rs.len() > 0
    &&& match r {
        Ok(()) => rs.last() matches Ok(TxPoll::Acked | TxPoll::SessionReady | TxPoll::TransferDone),
        Err(e) => {
            ||| rs.last() == Err::<TxPoll, Error<E>>(e)
            ||| e == Error::<E>::Aborted && rs.last() == Ok::<TxPoll, Error<E>>(TxPoll::Aborted)
            ||| e == Error::<E>::Timeout && rs.len() == u64::MAX && rs.last() == Ok::<TxPoll, Error<E>>(
                TxPoll::Pending,
            )
        },
    }
}

/// A run with answers extended by one more poll is still one.
pub proof fn lemma_tx_io_run_push<E>(
    ms: Seq<TxModel>,
    ios: Seq<LinkIo<E>>,
    rs: Seq<Result<TxPoll, Error<E>>>,
    io: LinkIo<E>,
    m2: TxModel,
    r: Result<TxPoll, Error<E>>,
)
    requires
        tx_io_run(ms, ios, rs),
        tx_io_fits(ms.last(), io),
        tx_step(ms.last(), io) == (m2, r),
        forall|i: int| 0 <= i < rs.len() ==> #[trigger] rs[i] == Ok::<TxPoll, Error<E>>(TxPoll::Pending),
    ensures
        tx_io_run(ms.push(m2), ios.push(io), rs.push(r)),
        tx_run_calls(ios.push(io)) == tx_run_calls(ios) + link_calls(io),
        forall|i: int| 0 <= i < rs.push(r).len() - 1 ==> #[trigger] rs.push(r)[i] == Ok::<TxPoll, Error<E>>(
            TxPoll::Pending,
        ),
        rs.push(r).last() == r,
        rs.push(r).len() == rs.len() + 1,
{
    let ms2 = ms.push(m2);
    let ios2 = ios.push(io);
    let rs2 = rs.push(r);
    assert forall|i: int| 0 <= i < rs2.len() implies #[trigger] tx_io_step(ms2[i], ios2[i], ms2[i + 1], rs2[i]) by {
        if i < rs.len() {
            assert(tx_io_step(ms[i], ios[i], ms[i + 1], rs[i]));
            assert(ms2[i] == ms[i] && ms2[i + 1] == ms[i + 1] && rs2[i] == rs[i] && ios2[i] == ios[i]);
        } else {
            assert(ms2[i] == ms.last() && ms2[i + 1] == m2 && rs2[i] == r && ios2[i] == io);
        }
    }
    assert forall|i: int| 0 <= i < rs2.len() - 1 implies #[trigger] rs2[i] == Ok::<TxPoll, Error<E>>(
        TxPoll::Pending,
    ) by {
        assert(rs2[i] == rs[i]);
    }
    assert(ios2.drop_last() =~= ios);
}

/// The wire content of the frame in flight.
pub open spec fn flight_frame(f: InFlight) -> FrameView {
    match f.kind {
        FlightKind::Data(b) => (FrameType::Data, f.seq, b),
        FlightKind::Start => (FrameType::Start, 0u8, 0u8),
        FlightKind::Finish => (FrameType::Finish, f.seq, 0u8),
        FlightKind::Abort => (FrameType::Abort, 0u8, 0u8),
    }
}

/// A fresh flight record.
pub open spec fn new_flight(kind: FlightKind, seq: u8, policy: RetryPolicy) -> InFlight {
    InFlight { kind, seq, retries_left: policy.max_retries, waiting: false, empty_ticks: 0 }
}

/// A poll that answers without touching the transport.
pub open spec fn tx_settled(m: TxModel) -> bool {
    ||| m.state is Failed
    ||| (m.state is Aborted && m.flight is None)
    ||| (m.state is Finished && m.flight is None)
}

/// Which transport call one poll makes in model state `m`; a write hands
/// over the next byte of the frame in flight.
pub open spec fn tx_io_fits<E>(m: TxModel, io: LinkIo<E>) -> bool {
    if tx_settled(m) {
        io is Nothing
    } else if m.out.len() > 0 {
        io matches LinkIo::Wrote(b, _) && b == m.out[0]
    } else if m.flight is None {
        io is Nothing
    } else if !m.flight.unwrap().waiting {
        io matches LinkIo::Wrote(b, _) && b == spec_encode(flight_frame(m.flight.unwrap()))[0]
    } else {
        io is Read
    }
}

/// Local cancel: the flight, the half-written frame and any partial reply
/// are dropped.
pub open spec fn tx_force_abort(m: TxModel) -> TxModel {
    TxModel { flight: None, out: Seq::empty(), reply: Seq::empty(), state: TxState::Aborted, ..m }
}

/// The flight failed (NACK or timeout): retransmit if the budget allows,
/// otherwise give up.
pub open spec fn tx_attempt_failed<E>(m: TxModel) -> (TxModel, Result<TxPoll, Error<E>>) {
    match m.flight {
        None => (m, Ok(TxPoll::Pending)),
        Some(f) => if f.retries_left == 0 {
            (TxModel { flight: None, state: TxState::Failed, ..m }, Err(Error::RetriesExhausted))
        } else {
            (
                TxModel {
                    flight: Some(
                        InFlight {
                            retries_left: (f.retries_left - 1) as u8,
                            waiting: false,
                            empty_ticks: 0,
                            ..f
                        },
                    ),
                    state: TxState::Retrying,
                    ..m
                },
                Ok(TxPoll::Pending),
            )
        },
    }
}

/// The flight was acknowledged.
pub open spec fn tx_on_ack<E>(m: TxModel) -> (TxModel, Result<TxPoll, Error<E>>) {
    match m.flight {
        None => (m, Ok(TxPoll::Pending)),
        Some(f) => {
            let m2 = TxModel { flight: None, ..m };
            match f.kind {
                FlightKind::Data(_) => (
                    TxModel { seq: seq_next(m.seq), state: TxState::Idle, ..m2 },
                    Ok(TxPoll::Acked),
                ),
                FlightKind::Start => (
                    TxModel { seq: 0, state: TxState::Idle, ..m2 },
                    Ok(TxPoll::SessionReady),
                ),
                FlightKind::Finish => (
                    TxModel { state: TxState::Finished, ..m2 },
                    Ok(TxPoll::TransferDone),
                ),
                FlightKind::Abort => (
                    TxModel { state: TxState::Aborted, ..m2 },
                    Ok(TxPoll::Aborted),
                ),
            }
        },
    }
}

/// A complete, valid control frame arrived while waiting.
pub open spec fn tx_on_control<E>(m: TxModel, v: FrameView) -> (TxModel, Result<TxPoll, Error<E>>) {
    let fseq = match m.flight {
        Some(f) => f.seq,
        None => 0u8,
    };
    if v.0 is Abort {
        (tx_force_abort(m), Ok(TxPoll::Aborted))
    } else if v.0 is Ack && v.1 == fseq {
        tx_on_ack(m)
    } else if v.0 is Nack && v.1 == fseq {
        tx_attempt_failed(m)
    } else if v.0 is Ack || v.0 is Nack {
        (
            TxModel {
                flight: match m.flight {
                    Some(f) => Some(InFlight { empty_ticks: 0, ..f }),
                    None => None,
                },
                ..m
            },
            Ok(TxPoll::Pending),
        )
    } else {
        (m, Ok(TxPoll::Pending))
    }
}

/// One reply byte arrived while waiting.
pub open spec fn tx_on_byte<E>(m: TxModel, b: u8) -> (TxModel, Result<TxPoll, Error<E>>) {
    let bytes = m.reply.push(b);
    if m.reply.len() < 3 {
        (TxModel { reply: bytes, ..m }, Ok(TxPoll::Pending))
    } else {
        let m2 = TxModel { reply: Seq::empty(), ..m };
        match spec_decode(bytes) {
            Err(_) => (m2, Ok(TxPoll::Pending)),
            Ok(v) => tx_on_control(m2, v),
        }
    }
}

/// An empty read while waiting: one more tick towards the timeout.
pub open spec fn tx_on_silence<E>(m: TxModel) -> (TxModel, Result<TxPoll, Error<E>>) {
    match m.flight {
        None => (m, Ok(TxPoll::Pending)),
        Some(f) => {
            let ticks = if f.empty_ticks == u16::MAX { u16::MAX } else { (f.empty_ticks + 1) as u16 };
            let m2 = TxModel { flight: Some(InFlight { empty_ticks: ticks, ..f }), ..m };
            if ticks >= m.policy.timeout_ticks {
                tx_attempt_failed(m2)
            } else {
                (m2, Ok(TxPoll::Pending))
            }
        },
    }
}

/// A byte of the outgoing frame was written.
pub open spec fn tx_after_write<E>(m: TxModel) -> (TxModel, Result<TxPoll, Error<E>>) {
    let out = m.out.drop_first();
    if out.len() > 0 {
        (TxModel { out, state: TxState::Sending, ..m }, Ok(TxPoll::Pending))
    } else {
        (
            TxModel {
                out,
                flight: match m.flight {
                    Some(f) => Some(InFlight { waiting: true, empty_ticks: 0, ..f }),
                    None => None,
                },
                reply: Seq::empty(),
                state: TxState::WaitingAck,
                ..m
            },
            Ok(TxPoll::Pending),
        )
    }
}

/// One sender poll: the next model state and the result, given what the
/// transport answered.
pub open spec fn tx_step<E>(m: TxModel, io: LinkIo<E>) -> (TxModel, Result<TxPoll, Error<E>>) {
    if m.state is Failed {
        (m, Err(Error::RetriesExhausted))
    } else if m.state is Aborted && m.flight is None {
        (m, Ok(TxPoll::Aborted))
    } else if m.state is Finished && m.flight is None {
        (m, Ok(TxPoll::TransferDone))
    } else if m.out.len() > 0 {
        match io {
            LinkIo::Wrote(_, Err(e)) => (m, Err(Error::Transport(e))),
            _ => tx_after_write(m),
        }
    } else if m.flight is None {
        (m, Ok(TxPoll::Pending))
    } else if !m.flight.unwrap().waiting {
        let loaded = TxModel {
            out: spec_encode(flight_frame(m.flight.unwrap())),
            state: TxState::Sending,
            ..m
        };
        match io {
            LinkIo::Wrote(_, Err(e)) => (loaded, Err(Error::Transport(e))),
            _ => (TxModel { out: loaded.out.drop_first(), ..loaded }, Ok(TxPoll::Pending)),
        }
    } else {
        match io {
            LinkIo::Read(Err(e)) => (m, Err(Error::Transport(e))),
            LinkIo::Read(Ok(Some(b))) => tx_on_byte(m, b),
            _ => tx_on_silence(m),
        }
    }
}

/// Four reply bytes that end a session: a valid ABORT from the peer, or
/// the ACK of our own ABORT in flight.
pub open spec fn tx_abort_reply(m: TxModel, bytes: Seq<u8>) -> bool {
    match spec_decode(bytes) {
        Ok(v) => v.0 is Abort || (v.0 is Ack && (m.flight matches Some(f) && f.kind is Abort
            && v.1 == f.seq)),
        Err(_) => false,
    }
}

/// What every reachable sender state satisfies: an in-flight DATA byte
/// carries the current sequence; bytes still to be written are a tail of
/// the in-flight frame, which is then not yet awaiting its answer; and at
/// most three bytes of a reply are held.
pub open spec fn tx_inv(m: TxModel) -> bool {
    &&& match m.flight {
        Some(f) => f.kind is Data ==> f.seq == m.seq,
        None => true,
    }
    &&& m.out.len() <= 4
    &&& m.reply.len() <= 3
    &&& (m.out.len() > 0 ==> (m.flight matches Some(f) && !f.waiting && spec_encode(
        flight_frame(f),
    ).skip(4 - m.out.len()) == m.out))
}

/// The poll that ended a send of `data` from state `m0`: it read the last
/// byte of the ACK that carries the sequence of the DATA frame in flight,
/// and left the sender at `m1`.
pub open spec fn acked_by_poll<E>(m0: TxModel, m1: TxModel, data: u8) -> bool {
    exists|m: TxModel, b: u8|
        {
            &&& m.flight matches Some(f) && f.kind == FlightKind::Data(data) && f.seq == m0.seq
                && f.waiting
            &&& m.reply.len() == 3
            &&& spec_decode(m.reply.push(b)) == Ok::<FrameView, FrameError>(
                (FrameType::Ack, m0.seq, 0u8),
            )
            &&& #[trigger] tx_step(m, LinkIo::<E>::Read(Ok(Some(b)))) == (
                m1,
                Ok::<TxPoll, Error<E>>(TxPoll::Acked),
            )
        }
}

/// A completed stop-and-wait send of `data`: from `m0`, the byte was
/// acknowledged at `m0`'s sequence, and the sender is idle at the next one.
pub open spec fn acked_send<E>(m0: TxModel, m1: TxModel, data: u8) -> bool {
    &&& m1.state is Idle
    &&& m1.seq == seq_next(m0.seq)
    &&& m1.flight is None
    &&& acked_by_poll::<E>(m0, m1, data)
}

/// A completed FINISH from `m0`: the poll that ended it read the last byte
/// of the ACK that carries FINISH's sequence (that of `m0`), and the
/// transfer is finished at that sequence.
pub open spec fn acked_finish<E>(m0: TxModel, m1: TxModel) -> bool {
    &&& m1.state is Finished
    &&& m1.seq == m0.seq
    &&& m1.flight is None
    &&& exists|m: TxModel, b: u8|
        {
            &&& m.flight matches Some(f) && f.kind is Finish && f.seq == m0.seq && f.waiting
            &&& m.reply.len() == 3
            &&& spec_decode(m.reply.push(b)) == Ok::<FrameView, FrameError>(
                (FrameType::Ack, m0.seq, 0u8),
            )
            &&& #[trigger] tx_step(m, LinkIo::<E>::Read(Ok(Some(b)))) == (
                m1,
                Ok::<TxPoll, Error<E>>(TxPoll::TransferDone),
            )
        }
}

/// A fresh sender satisfies the invariant.
pub proof fn lemma_tx_initial(policy: RetryPolicy)
    ensures
        tx_inv(
            TxModel {
                seq: 0,
                state: TxState::Idle,
                policy,
                reply: Seq::empty(),
                flight: None,
                out: Seq::empty(),
            },
        ),
{
}

/// Every offer keeps the invariant: a new flight starts with nothing
/// written, and a DATA flight takes the current sequence.
pub proof fn lemma_tx_offer(m: TxModel, kind: FlightKind, seq: u8)
    requires
        tx_inv(m),
        kind is Data ==> seq == m.seq,
    ensures
        tx_inv(TxModel { flight: Some(new_flight(kind, seq, m.policy)), state: TxState::Sending, out: Seq::empty(), ..m }),
        tx_inv(TxModel { seq: 0, flight: Some(new_flight(FlightKind::Start, 0, m.policy)), state: TxState::Sending, out: Seq::empty(), ..m }),
        tx_inv(TxModel { seq: 0, flight: Some(new_flight(FlightKind::Abort, 0, m.policy)), state: TxState::Sending, out: Seq::empty(), reply: Seq::empty(), ..m }),
        tx_inv(tx_force_abort(m)),
{
}

proof fn lemma_tx_control<E>(m: TxModel, v: FrameView)
    requires
        tx_inv(m),
        m.out.len() == 0,
        m.reply.len() == 0,
    ensures
        tx_inv(tx_on_control::<E>(m, v).0),
{
}

proof fn lemma_tx_frame_len(f: InFlight)
    ensures
        spec_encode(flight_frame(f)).len() == 4,
{
}

/// Every poll keeps the sender invariant. A poll reports
/// [`TxPoll::Acked`] only when it read the last byte of a valid ACK that
/// carries the sequence of the DATA byte in flight; the sequence then
/// advances by exactly one and the sender is idle. The sequence moves in
/// no other way, except back to 0 when START is acknowledged. Likewise a
/// poll reports `SessionReady` only on the ACK of START, and
/// `TransferDone` only on the ACK of FINISH (or once finished).
pub proof fn lemma_tx_step<E>(m: TxModel, io: LinkIo<E>)
    requires
        tx_inv(m),
        tx_io_fits(m, io),
    ensures
        tx_inv(tx_step(m, io).0),
        tx_step(m, io).1 == Ok::<TxPoll, Error<E>>(TxPoll::Acked) ==> {
            &&& m.flight matches Some(f) && f.kind is Data && f.waiting
            &&& m.reply.len() == 3
            &&& io matches LinkIo::Read(Ok(Some(b))) && spec_decode(m.reply.push(b)) == Ok::<
                FrameView,
                FrameError,
            >((FrameType::Ack, m.flight.unwrap().seq, 0u8))
            &&& tx_step(m, io).0.seq == seq_next(m.seq)
            &&& tx_step(m, io).0.flight is None
            &&& tx_step(m, io).0.state is Idle
        },
        tx_step(m, io).1 == Ok::<TxPoll, Error<E>>(TxPoll::SessionReady) ==> {
            &&& m.flight matches Some(f) && f.kind is Start && f.waiting
            &&& m.reply.len() == 3
            &&& io matches LinkIo::Read(Ok(Some(b))) && spec_decode(m.reply.push(b)) == Ok::<
                FrameView,
                FrameError,
            >((FrameType::Ack, m.flight.unwrap().seq, 0u8))
        },
        tx_step(m, io).1 == Ok::<TxPoll, Error<E>>(TxPoll::TransferDone) ==> (m.state is Finished
            && m.flight is None) || {
            &&& m.flight matches Some(f) && f.kind is Finish && f.waiting
            &&& m.reply.len() == 3
            &&& io matches LinkIo::Read(Ok(Some(b))) && spec_decode(m.reply.push(b)) == Ok::<
                FrameView,
                FrameError,
            >((FrameType::Ack, m.flight.unwrap().seq, 0u8))
        },
        tx_step(m, io).0.seq != m.seq ==> (tx_step(m, io).1 == Ok::<TxPoll, Error<E>>(
            TxPoll::Acked,
        ) && tx_step(m, io).0.seq == seq_next(m.seq)) || (tx_step(m, io).1 == Ok::<
            TxPoll,
            Error<E>,
        >(TxPoll::SessionReady) && tx_step(m, io).0.seq == 0),
{
    if m.flight is Some {
        lemma_tx_frame_len(m.flight.unwrap());
    }
    if tx_settled(m) {
    } else if m.out.len() > 0 {
        let out = m.out.drop_first();
        let f = m.flight.unwrap();
        assert(spec_encode(flight_frame(f)).skip(4 - out.len()) =~= out);
    } else if m.flight is None {
    } else if !m.flight.unwrap().waiting {
        let f = m.flight.unwrap();
        let e = spec_encode(flight_frame(f));
        assert(e.skip(0) =~= e);
        assert(e.skip(1) =~= e.drop_first());
    } else {
        match io {
            LinkIo::Read(Ok(Some(b))) => {
                if m.reply.len() >= 3 {
                    let m2 = TxModel { reply: Seq::empty(), ..m };
                    match spec_decode(m.reply.push(b)) {
                        Ok(v) => {
                            lemma_tx_control::<E>(m2, v);
                        },
                        Err(_) => {},
                    }
                }
            },
            _ => {},
        }
    }
}

/// Where a send stands once it stopped with `e`: a transport failure or a
/// timeout leaves the frame in flight; spent retries leave the sender
/// failed; a peer's ABORT leaves it aborted, with nothing in flight.
pub open spec fn tx_stopped<E>(m: TxModel, e: Error<E>) -> bool {
    match e {
        Error::Transport(_) | Error::Timeout => m.flight is Some && !(m.state is Failed),
        Error::RetriesExhausted => m.state is Failed && m.flight is None,
        Error::Aborted => m.state is Aborted && m.flight is None,
        _ => false,
    }
}

/// A poll of a sender with a frame in flight that fails, or reports
/// `Aborted`, leaves the sender as [`tx_stopped`] says.
pub proof fn lemma_tx_step_stops<E>(m: TxModel, io: LinkIo<E>)
    requires
        tx_io_fits(m, io),
        m.flight is Some,
        !(m.state is Failed),
    ensures
        tx_step(m, io).1 matches Err(e) ==> tx_stopped(tx_step(m, io).0, e),
        tx_step(m, io).1 == Ok::<TxPoll, Error<E>>(TxPoll::Aborted) ==> tx_stopped(
            tx_step(m, io).0,
            Error::<E>::Aborted,
        ),
{
    if m.out.len() == 0 && m.flight.unwrap().waiting {
        match io {
            LinkIo::Read(Ok(Some(b))) => {
                if m.reply.len() >= 3 {
                    let m2 = TxModel { reply: Seq::empty(), ..m };
                    assert(m2.flight == m.flight);
                }
            },
            _ => {},
        }
    }
}

/// A poll reports `Aborted` only once the sender is aborted with nothing
/// in flight, or on the last byte of a peer's ABORT or of the ACK of our
/// own ABORT.
pub proof fn lemma_tx_aborted<E>(m: TxModel, io: LinkIo<E>)
    requires
        tx_io_fits(m, io),
        m.reply.len() <= 3,
        tx_step(m, io).1 == Ok::<TxPoll, Error<E>>(TxPoll::Aborted),
    ensures
        (m.state is Aborted && m.flight is None) || {
            &&& m.reply.len() == 3
            &&& io matches LinkIo::Read(Ok(Some(b))) && tx_abort_reply(m, m.reply.push(b))
        },
{
    if !tx_settled(m) && m.out.len() == 0 && m.flight is Some && m.flight.unwrap().waiting {
        match io {
            LinkIo::Read(Ok(Some(b))) => {
                if m.reply.len() >= 3 {
                    let m2 = TxModel { reply: Seq::empty(), ..m };
                    match spec_decode(m.reply.push(b)) {
                        Ok(v) => {
                            assert(m2.flight == m.flight);
                        },
                        Err(_) => {},
                    }
                }
            },
            _ => {},
        }
    }
}

/// An ACK or NACK that carries another sequence than the frame in flight
/// changes nothing but restarting the silence count: the flight, its
/// retries and the sequence stay, and the poll reports `Pending`.
pub proof fn lemma_tx_stray_reply_ignored<E>(m: TxModel, b: u8)
    requires
        m.flight matches Some(f) && f.waiting,
        m.out.len() == 0,
        m.reply.len() == 3,
        spec_decode(m.reply.push(b)) matches Ok(v) && (v.0 is Ack || v.0 is Nack)
            && v.1 != m.flight.unwrap().seq,
        !tx_settled(m),
    ensures
        ({
            let (m2, r) = tx_step(m, LinkIo::<E>::Read(Ok(Some(b))));
            &&& r == Ok::<TxPoll, Error<E>>(TxPoll::Pending)
            &&& m2 == (TxModel {
                reply: Seq::empty(),
                flight: Some(InFlight { empty_ticks: 0, ..m.flight.unwrap() }),
                ..m
            })
        }),
{
}

/// Retries only run down: across one poll the same flight never gains
/// retries, and the sender gives up with `RetriesExhausted` only once the
/// budget is spent (or had already been).
pub proof fn lemma_tx_retries_bounded<E>(m: TxModel, io: LinkIo<E>)
    requires
        tx_inv(m),
        tx_io_fits(m, io),
    ensures
        match (m.flight, tx_step(m, io).0.flight) {
            (Some(f), Some(g)) => g.kind == f.kind && g.seq == f.seq && g.retries_left
                <= f.retries_left,
            _ => true,
        },
        tx_step(m, io).1 == Err::<TxPoll, Error<E>>(Error::RetriesExhausted) ==> m.state is Failed
            || (m.flight matches Some(f) && f.retries_left == 0),
{
}

/// A stop-and-wait sender over one byte transport.
pub struct Sender<T: ByteTransport> {
    transport: T,
    seq: Sequence,
    state: TxState,
    retry_policy: RetryPolicy,
    assembler: FrameAssembler,
    inflight: Option<InFlight>,
    out: OutBuf,
}

impl<T: ByteTransport> Sender<T> {
    /// The sender's state apart from its transport.
    pub closed spec fn model(&self) -> TxModel {
        TxModel {
            seq: self.seq@,
            state: self.state,
            policy: self.retry_policy,
            reply: self.assembler@,
            flight: self.inflight,
            out: self.out@,
        }
    }

    /// Internal consistency, kept by every operation.
    pub closed spec fn wf(&self) -> bool {
        &&& self.assembler.wf()
        &&& (self.state is Failed ==> self.inflight is None)
    }

    /// The transport the sender writes to and reads from.
    pub closed spec fn link(&self) -> T {
        self.transport
    }

    /// A sender with the default retry policy.
    pub fn new(transport: T) -> (s: Self)
        ensures
            s.wf(),
            s.link() == transport,
            s.model() == (TxModel {
                seq: 0,
                state: TxState::Idle,
                policy: RetryPolicy::spec_default(),
                reply: Seq::empty(),
                flight: None,
                out: Seq::empty(),
            }),
    {
        Self::with_policy(transport, RetryPolicy::default())
    }

    /// A sender with an explicit retry policy.
    pub fn with_policy(transport: T, retry_policy: RetryPolicy) -> (s: Self)
        ensures
            s.wf(),
            s.link() == transport,
            s.model() == (TxModel {
                seq: 0,
                state: TxState::Idle,
                policy: retry_policy,
                reply: Seq::empty(),
                flight: None,
                out: Seq::empty(),
            }),
    {
        Sender {
            transport,
            seq: Sequence::new(),
            state: TxState::Idle,
            retry_policy,
            assembler: FrameAssembler::new(),
            inflight: None,
            out: OutBuf::empty(),
        }
    }

    /// Current state.
    pub fn state(&self) -> (s: TxState)
        ensures
            s == self.model().state,
    {
        self.state
    }

    /// Sequence that the next DATA byte will carry.
    pub fn next_seq(&self) -> (s: u8)
        ensures
            s == self.model().seq,
    {
        self.seq.current()
    }

    /// The sender can take a new DATA or FINISH offer.
    pub open spec fn spec_can_offer(m: TxModel) -> bool {
        m.state is Idle && m.flight is None && m.out.len() == 0
    }

    fn can_offer_data(&self) -> (b: bool)
        ensures
            b == Self::spec_can_offer(self.model()),
    {
        self.state == TxState::Idle && self.inflight.is_none() && self.out.is_idle()
    }

    fn begin(&mut self, kind: FlightKind, seq: u8)
        ensures
            old(self).wf() ==> final(self).wf(),
            final(self).link() == old(self).link(),
            final(self).model() == (TxModel {
                flight: Some(new_flight(kind, seq, old(self).model().policy)),
                state: TxState::Sending,
                ..old(self).model()
            }),
    {
        self.inflight = Some(InFlight {
            kind,
            seq,
            retries_left: self.retry_policy.max_retries,
            waiting: false,
            empty_ticks: 0,
        });
        self.state = TxState::Sending;
    }

    /// Opens a session. Allowed from Idle, Finished, Aborted or Failed
    /// with no half-written frame.
    pub fn offer_start(&mut self) -> (r: Result<(), Error<T::Error>>)
        requires
            old(self).wf(),
        ensures
            final(self).wf(),
            final(self).link() == old(self).link(),
            ({
                let m = old(self).model();
                let ok = (m.state is Idle || m.state is Finished || m.state is Aborted
                    || m.state is Failed) && m.out.len() == 0;
                if ok {
                    &&& r is Ok
                    &&& final(self).model() == (TxModel {
                        seq: 0,
                        flight: Some(new_flight(FlightKind::Start, 0, m.policy)),
                        state: TxState::Sending,
                        ..m
                    })
                } else {
                    &&& r == Err::<(), Error<T::Error>>(Error::NotIdle)
                    &&& final(self).model() == m
                }
            }),
    {
        match self.state {
            TxState::Idle | TxState::Finished | TxState::Aborted | TxState::Failed => {},
            _ => return Err(Error::NotIdle),
        }
        if !self.out.is_idle() {
            return Err(Error::NotIdle);
        }
        self.inflight = None;
        self.seq = Sequence::new();
        self.begin(FlightKind::Start, 0);
        Ok(())
    }

    /// Begins a stop-and-wait send of one payload byte. Must be Idle.
    pub fn offer(&mut self, data: u8) -> (r: Result<(), Error<T::Error>>)
        requires
            old(self).wf(),
        ensures
            final(self).wf(),
            final(self).link() == old(self).link(),
            ({
                let m = old(self).model();
                if Self::spec_can_offer(m) {
                    &&& r is Ok
                    &&& final(self).model() == (TxModel {
                        flight: Some(new_flight(FlightKind::Data(data), m.seq, m.policy)),
                        state: TxState::Sending,
                        ..m
                    })
                } else {
                    &&& r == Err::<(), Error<T::Error>>(Error::NotIdle)
                    &&& final(self).model() == m
                }
            }),
    {
        if !self.can_offer_data() {
            return Err(Error::NotIdle);
        }
        let seq = self.seq.current();
        self.begin(FlightKind::Data(data), seq);
        Ok(())
    }

    /// Begins FINISH at the current (next unused) sequence. Must be Idle.
    pub fn offer_finish(&mut self) -> (r: Result<(), Error<T::Error>>)
        requires
            old(self).wf(),
        ensures
            final(self).wf(),
            final(self).link() == old(self).link(),
            ({
                let m = old(self).model();
                if Self::spec_can_offer(m) {
                    &&& r is Ok
                    &&& final(self).model() == (TxModel {
                        flight: Some(new_flight(FlightKind::Finish, m.seq, m.policy)),
                        state: TxState::Sending,
                        ..m
                    })
                } else {
                    &&& r == Err::<(), Error<T::Error>>(Error::NotIdle)
                    &&& final(self).model() == m
                }
            }),
    {
        if !self.can_offer_data() {
            return Err(Error::NotIdle);
        }
        let seq = self.seq.current();
        self.begin(FlightKind::Finish, seq);
        Ok(())
    }

    /// Cancels the session: drops any flight, including a frame mid-write or
    /// mid-retry, and sends ABORT (SEQ=0), which waits for its ACK. Does
    /// nothing when already aborted or while an ABORT is in flight.
    pub fn offer_abort(&mut self) -> (r: Result<(), Error<T::Error>>)
        requires
            old(self).wf(),
        ensures
            final(self).wf(),
            final(self).link() == old(self).link(),
            r is Ok,
            ({
                let m = old(self).model();
                if (m.state is Aborted && m.flight is None) || (m.flight matches Some(f)
                    && f.kind is Abort) {
                    final(self).model() == m
                } else {
                    final(self).model() == (TxModel {
                        seq: 0,
                        flight: Some(new_flight(FlightKind::Abort, 0, m.policy)),
                        out: Seq::empty(),
                        reply: Seq::empty(),
                        state: TxState::Sending,
                        ..m
                    })
                }
            }),
    {
        if self.state == TxState::Aborted && self.inflight.is_none() {
            return Ok(());
        }
        let aborting = match &self.inflight {
            Some(f) => match f.kind {
                FlightKind::Abort => true,
                _ => false,
            },
            None => false,
        };
        if aborting {
            return Ok(());
        }
        self.inflight = None;
        self.out = OutBuf::empty();
        self.assembler.reset();
        self.seq = Sequence::new();
        self.begin(FlightKind::Abort, 0);
        Ok(())
    }

    /// Local cancel without writing ABORT; used when the peer already aborted.
    pub fn force_abort(&mut self)
        requires
            old(self).wf(),
        ensures
            final(self).wf(),
            final(self).link() == old(self).link(),
            final(self).model() == tx_force_abort(old(self).model()),
    {
        self.inflight = None;
        self.out = OutBuf::empty();
        self.assembler.reset();
        self.state = TxState::Aborted;
    }

    fn on_attempt_failed(&mut self) -> (r: Result<TxPoll, Error<T::Error>>)
        requires
            old(self).wf(),
        ensures
            final(self).wf(),
            final(self).link() == old(self).link(),
            (final(self).model(), r) == tx_attempt_failed::<T::Error>(old(self).model()),
    {
        match self.inflight {
            None => Ok(TxPoll::Pending),
            Some(f) => {
                if f.retries_left == 0 {
                    self.inflight = None;
                    self.state = TxState::Failed;
                    return Err(Error::RetriesExhausted);
                }
                self.inflight = Some(InFlight {
                    retries_left: f.retries_left - 1,
                    waiting: false,
                    empty_ticks: 0,
                    ..f
                });
                self.state = TxState::Retrying;
                Ok(TxPoll::Pending)
            },
        }
    }

    fn on_ack(&mut self) -> (r: Result<TxPoll, Error<T::Error>>)
        requires
            old(self).wf(),
        ensures
            final(self).wf(),
            final(self).link() == old(self).link(),
            (final(self).model(), r) == tx_on_ack::<T::Error>(old(self).model()),
    {
        let kind = match self.inflight {
            None => return Ok(TxPoll::Pending),
            Some(f) => f.kind,
        };
        self.inflight = None;
        match kind {
            FlightKind::Data(_) => {
                self.seq.advance();
                self.state = TxState::Idle;
                Ok(TxPoll::Acked)
            },
            FlightKind::Start => {
                self.seq = Sequence::new();
                self.state = TxState::Idle;
                Ok(TxPoll::SessionReady)
            },
            FlightKind::Finish => {
                self.state = TxState::Finished;
                Ok(TxPoll::TransferDone)
            },
            FlightKind::Abort => {
                self.state = TxState::Aborted;
                Ok(TxPoll::Aborted)
            },
        }
    }

    fn on_control(&mut self, frame: Frame) -> (r: Result<TxPoll, Error<T::Error>>)
        requires
            old(self).wf(),
        ensures
            final(self).wf(),
            final(self).link() == old(self).link(),
            (final(self).model(), r) == tx_on_control::<T::Error>(old(self).model(), frame@),
    {
        let seq = match self.inflight {
            Some(f) => f.seq,
            None => 0,
        };
        let t = frame.frame_type();
        let s = frame.seq();
        match t {
            FrameType::Abort => {
                self.force_abort();
                Ok(TxPoll::Aborted)
            },
            FrameType::Ack if s == seq => self.on_ack(),
            FrameType::Nack if s == seq => self.on_attempt_failed(),
            FrameType::Ack | FrameType::Nack => {
                if let Some(f) = self.inflight {
                    self.inflight = Some(InFlight { empty_ticks: 0, ..f });
                }
                Ok(TxPoll::Pending)
            },
            _ => Ok(TxPoll::Pending),
        }
    }

    fn load_flight_frame(&mut self)
        requires
            old(self).wf(),
            old(self).model().flight is Some,
        ensures
            final(self).wf(),
            final(self).link() == old(self).link(),
            final(self).model() == (TxModel {
                out: spec_encode(flight_frame(old(self).model().flight.unwrap())),
                state: TxState::Sending,
                ..old(self).model()
            }),
    {
        let flight = match self.inflight {
            Some(f) => f,
            None => return,
        };
        let frame = match flight.kind {
            FlightKind::Data(byte) => Frame::data(flight.seq, byte),
            FlightKind::Start => Frame::start(),
            FlightKind::Finish => Frame::finish(flight.seq),
            FlightKind::Abort => Frame::abort(),
        };
        self.out.load(&frame);
        self.state = TxState::Sending;
    }

    fn mark_on_wire(&mut self)
        requires
            old(self).wf(),
        ensures
            final(self).wf(),
            final(self).link() == old(self).link(),
            final(self).model() == (TxModel {
                flight: match old(self).model().flight {
                    Some(f) => Some(InFlight { waiting: true, empty_ticks: 0, ..f }),
                    None => None,
                },
                reply: Seq::empty(),
                state: TxState::WaitingAck,
                ..old(self).model()
            }),
    {
        if let Some(f) = self.inflight {
            self.inflight = Some(InFlight { waiting: true, empty_ticks: 0, ..f });
        }
        self.assembler.reset();
        self.state = TxState::WaitingAck;
    }

    fn poll_io(&mut self) -> (res: (Result<TxPoll, Error<T::Error>>, Ghost<LinkIo<T::Error>>))
        requires
            old(self).wf(),
        ensures
            final(self).wf(),
            tx_io_fits(old(self).model(), res.1@),
            tx_step(old(self).model(), res.1@) == (final(self).model(), res.0),
            (T::keeps_calls() ==> final(self).link().calls() == old(self).link().calls() + link_calls(res.1@)),
    {
        if self.state == TxState::Failed {
            return (Err(Error::RetriesExhausted), Ghost(LinkIo::Nothing));
        }
        if self.state == TxState::Aborted && self.inflight.is_none() {
            return (Ok(TxPoll::Aborted), Ghost(LinkIo::Nothing));
        }
        if self.state == TxState::Finished && self.inflight.is_none() {
            return (Ok(TxPoll::TransferDone), Ghost(LinkIo::Nothing));
        }
        if !self.out.is_idle() {
            let byte = match self.out.peek() {
                Some(b) => b,
                None => 0,
            };
            let res = self.transport.write_byte(byte);
            let ghost io = LinkIo::Wrote(byte, res);
            match res {
                Err(e) => return (Err(Error::Transport(e)), Ghost(io)),
                Ok(()) => {},
            }
            self.out.commit();
            if !self.out.is_idle() {
                self.state = TxState::Sending;
                return (Ok(TxPoll::Pending), Ghost(io));
            }
            self.mark_on_wire();
            return (Ok(TxPoll::Pending), Ghost(io));
        }
        let waiting = match self.inflight {
            None => return (Ok(TxPoll::Pending), Ghost(LinkIo::Nothing)),
            Some(f) => f.waiting,
        };
        if !waiting {
            self.load_flight_frame();
            let byte = match self.out.peek() {
                Some(b) => b,
                None => 0,
            };
            let res = self.transport.write_byte(byte);
            let ghost io = LinkIo::Wrote(byte, res);
            match res {
                Err(e) => return (Err(Error::Transport(e)), Ghost(io)),
                Ok(()) => {},
            }
            self.out.commit();
            return (Ok(TxPoll::Pending), Ghost(io));
        }
        let res = self.transport.read_byte();
        let ghost io = LinkIo::Read(res);
        match res {
            Err(e) => (Err(Error::Transport(e)), Ghost(io)),
            Ok(Some(byte)) => {
                let ghost m0 = self.model();
                let pushed = self.assembler.push(byte);
                proof {
                    if m0.reply.len() == 3 {
                        assert(m0.reply.len() >= 3);
                    }
                }
                match pushed {
                    None => {
                        assert(self.model() == TxModel { reply: m0.reply.push(byte), ..m0 });
                        (Ok(TxPoll::Pending), Ghost(io))
                    },
                    Some(Err(_)) => {
                        assert(self.model() == TxModel { reply: Seq::empty(), ..m0 });
                        (Ok(TxPoll::Pending), Ghost(io))
                    },
                    Some(Ok(frame)) => {
                        assert(self.model() == TxModel { reply: Seq::empty(), ..m0 });
                        (self.on_control(frame), Ghost(io))
                    },
                }
            },
            Ok(None) => {
                let timeout = self.retry_policy.timeout_ticks;
                let f = match self.inflight {
                    Some(f) => f,
                    None => return (Ok(TxPoll::Pending), Ghost(io)),
                };
                let ticks = if f.empty_ticks == u16::MAX { u16::MAX } else { f.empty_ticks + 1 };
                self.inflight = Some(InFlight { empty_ticks: ticks, ..f });
                if ticks >= timeout {
                    (self.on_attempt_failed(), Ghost(io))
                } else {
                    (Ok(TxPoll::Pending), Ghost(io))
                }
            },
        }
    }

    /// One non-blocking step: writes at most one byte, or reads at most one.
    ///
    /// The next state and the result are [`tx_step`] of the previous state
    /// and of what the transport answered; the byte handed to a write is
    /// the one [`tx_io_fits`] names, and the calls made on the transport
    /// are exactly those the record lists.
    pub fn poll(&mut self) -> (r: Result<TxPoll, Error<T::Error>>)
        requires
            old(self).wf(),
        ensures
            final(self).wf(),
            exists|io: LinkIo<T::Error>|
                tx_io_fits(old(self).model(), io) && #[trigger] tx_step(old(self).model(), io) == (
                final(self).model(),
                r,
                ) && (T::keeps_calls() ==> final(self).link().calls() == old(self).link().calls() + link_calls(io)),
    {
        let (r, Ghost(io)) = self.poll_io();
        assert(tx_io_fits(old(self).model(), io) && tx_step(old(self).model(), io) == (
        self.model(), r) && (T::keeps_calls() ==> self.link().calls() == old(self).link().calls() + link_calls(io)));
        r
    }

    /// START, then polls until it is acknowledged.
    ///
    /// Gives up with [`Error::Timeout`] after `u64::MAX` polls without an
    /// answer.
    pub fn send_start(&mut self) -> (r: Result<(), Error<T::Error>>)
        requires
            old(self).wf(),
        ensures
            final(self).wf(),
            r is Ok ==> {
                &&& final(self).model().state is Idle
                &&& final(self).model().seq == 0
                &&& final(self).model().flight is None
            },
            r is Err ==> r matches Err(
                Error::NotIdle | Error::Transport(_) | Error::RetriesExhausted | Error::Aborted
                | Error::Timeout,
            ),
            !((old(self).model().state is Idle || old(self).model().state is Finished
                || old(self).model().state is Aborted || old(self).model().state is Failed)
                && old(self).model().out.len() == 0) ==> r == Err::<(), Error<T::Error>>(
                Error::NotIdle,
            ) && final(self).model() == old(self).model(),
            r is Ok ==> exists|m: TxModel, b: u8|
                {
                    &&& m.flight matches Some(f) && f.kind is Start && f.seq == 0 && f.waiting
                    &&& m.reply.len() == 3
                    &&& spec_decode(m.reply.push(b)) == Ok::<FrameView, FrameError>(
                        (FrameType::Ack, 0u8, 0u8),
                    )
                    &&& #[trigger] tx_step(m, LinkIo::<T::Error>::Read(Ok(Some(b)))) == (
                        final(self).model(),
                        Ok::<TxPoll, Error<T::Error>>(TxPoll::SessionReady),
                    )
                },
            ((old(self).model().state is Idle || old(self).model().state is Finished
                || old(self).model().state is Aborted || old(self).model().state is Failed)
                && old(self).model().out.len() == 0) ==> exists|ms: Seq<TxModel>, ios: Seq<LinkIo<T::Error>>, rs: Seq<Result<TxPoll, Error<T::Error>>>|
                {
                    &&& #[trigger] tx_io_run(ms, ios, rs)
                    &&& ms[0] == tx_queued(old(self).model(), FlightKind::Start, 0)
                    &&& ms.last() == final(self).model()
                    &&& (T::keeps_calls() ==> final(self).link().calls() == old(self).link().calls() + tx_run_calls(ios))
                    &&& tx_drove(rs, r)
                },
    {
        match self.offer_start() {
            Err(e) => return Err(e),
            Ok(()) => {},
        }
        let ghost m0 = old(self).model();
        proof {
            self.assembler.lemma_len();
        }
        let mut budget: u64 = u64::MAX;
        let ghost mut ms: Seq<TxModel> = seq![self.model()];
        let ghost mut ios: Seq<LinkIo<T::Error>> = Seq::empty();
        let ghost mut rs: Seq<Result<TxPoll, Error<T::Error>>> = Seq::empty();
        assert((T::keeps_calls() ==> old(self).link().calls() + tx_run_calls(ios) =~= old(self).link().calls()));
        loop
            invariant
                self.wf(),
                tx_io_run(ms, ios, rs),
                ms[0] == tx_queued(old(self).model(), FlightKind::Start, 0),
                ms.last() == self.model(),
                (T::keeps_calls() ==> self.link().calls() == old(self).link().calls() + tx_run_calls(ios)),
                forall|i: int| 0 <= i < rs.len() ==> #[trigger] rs[i] == Ok::<TxPoll, Error<T::Error>>(
                    TxPoll::Pending,
                ),
                rs.len() + budget == u64::MAX,
                rs.len() > 0 ==> rs.last() == Ok::<TxPoll, Error<T::Error>>(TxPoll::Pending),
                m0 == old(self).model(),
                (m0.state is Idle || m0.state is Finished || m0.state is Aborted
                    || m0.state is Failed) && m0.out.len() == 0,
                self.model().flight matches Some(f) && f.kind is Start && f.seq == 0,
                !(self.model().state is Failed),
                tx_inv(self.model()),
            decreases budget,
        {
            if budget == 0 {
                return Err(Error::Timeout);
            }
            budget = budget - 1;
            let ghost prev = self.model();
            let ghost c0 = self.link().calls();
            let polled = self.poll();
            let ghost io = choose|io: LinkIo<T::Error>|
                tx_io_fits(prev, io) && #[trigger] tx_step(prev, io) == (self.model(), polled)
                    && (T::keeps_calls() ==> self.link().calls() == c0 + link_calls(io));
            proof {
                lemma_tx_io_run_push(ms, ios, rs, io, self.model(), polled);
                ms = ms.push(self.model());
                ios = ios.push(io);
                rs = rs.push(polled);
                lemma_tx_step(prev, io);
                lemma_tx_retries_bounded(prev, io);
                lemma_tx_step_stops(prev, io);
            }
            match polled {
                Err(e) => return Err(e),
                Ok(TxPoll::Pending) => {},
                Ok(TxPoll::SessionReady) => {
                    proof {
                        let b = choose|b: u8| io == LinkIo::<T::Error>::Read(Ok(Some(b)));
                        assert(io == LinkIo::<T::Error>::Read(Ok(Some(b))));
                    }
                    return Ok(());
                },
                Ok(TxPoll::Acked) | Ok(TxPoll::TransferDone) => return Ok(()),
                Ok(TxPoll::Aborted) => return Err(Error::Aborted),
            }
        }
    }

    /// DATA, then polls until it is acknowledged.
    ///
    /// Gives up with [`Error::Timeout`] after `u64::MAX` polls without an
    /// answer.
    pub fn send_byte(&mut self, data: u8) -> (r: Result<(), Error<T::Error>>)
        requires
            old(self).wf(),
        ensures
            final(self).wf(),
            r is Ok ==> acked_send::<T::Error>(old(self).model(), final(self).model(), data),
            r is Ok ==> Self::spec_can_offer(final(self).model()),
            r == Err::<(), Error<T::Error>>(Error::NotIdle) ==> !Self::spec_can_offer(
                old(self).model(),
            ),
            r is Err && !(r->Err_0 is NotIdle) ==> tx_stopped(final(self).model(), r->Err_0),
            r is Err ==> r matches Err(
                Error::NotIdle | Error::Transport(_) | Error::RetriesExhausted | Error::Aborted
                | Error::Timeout,
            ),
            !Self::spec_can_offer(old(self).model()) ==> r == Err::<(), Error<T::Error>>(
                Error::NotIdle,
            ) && final(self).model() == old(self).model(),
            Self::spec_can_offer(old(self).model()) ==> exists|ms: Seq<TxModel>, ios: Seq<LinkIo<T::Error>>, rs: Seq<Result<TxPoll, Error<T::Error>>>|
                {
                    &&& #[trigger] tx_io_run(ms, ios, rs)
                    &&& ms[0] == tx_queued(old(self).model(), FlightKind::Data(data), old(self).model().seq)
                    &&& ms.last() == final(self).model()
                    &&& (T::keeps_calls() ==> final(self).link().calls() == old(self).link().calls() + tx_run_calls(ios))
                    &&& tx_drove(rs, r)
                },
    {
        match self.offer(data) {
            Err(e) => return Err(e),
            Ok(()) => {},
        }
        let ghost s0 = old(self).model().seq;
        let ghost m0 = old(self).model();
        proof {
            self.assembler.lemma_len();
        }
        let mut budget: u64 = u64::MAX;
        let ghost mut ms: Seq<TxModel> = seq![self.model()];
        let ghost mut ios: Seq<LinkIo<T::Error>> = Seq::empty();
        let ghost mut rs: Seq<Result<TxPoll, Error<T::Error>>> = Seq::empty();
        assert((T::keeps_calls() ==> old(self).link().calls() + tx_run_calls(ios) =~= old(self).link().calls()));
        loop
            invariant
                self.wf(),
                tx_io_run(ms, ios, rs),
                ms[0] == tx_queued(old(self).model(), FlightKind::Data(data), old(self).model().seq),
                ms.last() == self.model(),
                (T::keeps_calls() ==> self.link().calls() == old(self).link().calls() + tx_run_calls(ios)),
                forall|i: int| 0 <= i < rs.len() ==> #[trigger] rs[i] == Ok::<TxPoll, Error<T::Error>>(
                    TxPoll::Pending,
                ),
                rs.len() + budget == u64::MAX,
                rs.len() > 0 ==> rs.last() == Ok::<TxPoll, Error<T::Error>>(TxPoll::Pending),
                m0 == old(self).model(),
                s0 == m0.seq,
                Self::spec_can_offer(m0),
                self.model().seq == s0,
                self.model().flight matches Some(f) && f.kind == FlightKind::Data(data),
                !(self.model().state is Failed),
                tx_inv(self.model()),
            decreases budget,
        {
            if budget == 0 {
                return Err(Error::Timeout);
            }
            budget = budget - 1;
            let ghost prev = self.model();
            let ghost c0 = self.link().calls();
            let polled = self.poll();
            let ghost io = choose|io: LinkIo<T::Error>|
                tx_io_fits(prev, io) && #[trigger] tx_step(prev, io) == (self.model(), polled)
                    && (T::keeps_calls() ==> self.link().calls() == c0 + link_calls(io));
            proof {
                lemma_tx_io_run_push(ms, ios, rs, io, self.model(), polled);
                ms = ms.push(self.model());
                ios = ios.push(io);
                rs = rs.push(polled);
                lemma_tx_step(prev, io);
                lemma_tx_step_stops(prev, io);
            }
            match polled {
                Err(e) => return Err(e),
                Ok(TxPoll::Pending) => {},
                Ok(TxPoll::Acked) => {
                    proof {
                        let b = choose|b: u8| io == LinkIo::<T::Error>::Read(Ok(Some(b)));
                        assert(io == LinkIo::<T::Error>::Read(Ok(Some(b))));
                        assert(acked_by_poll::<T::Error>(m0, self.model(), data));
                    }
                    return Ok(());
                },
                Ok(TxPoll::SessionReady) | Ok(TxPoll::TransferDone) => return Ok(()),
                Ok(TxPoll::Aborted) => return Err(Error::Aborted),
            }
        }
    }

    /// FINISH, then polls until it is acknowledged.
    ///
    /// Gives up with [`Error::Timeout`] after `u64::MAX` polls without an
    /// answer.
    pub fn send_finish(&mut self) -> (r: Result<(), Error<T::Error>>)
        requires
            old(self).wf(),
        ensures
            final(self).wf(),
            r is Ok ==> acked_finish::<T::Error>(old(self).model(), final(self).model()),
            r == Err::<(), Error<T::Error>>(Error::NotIdle) ==> !Self::spec_can_offer(
                old(self).model(),
            ),
            r is Err && !(r->Err_0 is NotIdle) ==> tx_stopped(final(self).model(), r->Err_0),
            r is Err ==> r matches Err(
                Error::NotIdle | Error::Transport(_) | Error::RetriesExhausted | Error::Aborted
                | Error::Timeout,
            ),
            !Self::spec_can_offer(old(self).model()) ==> r == Err::<(), Error<T::Error>>(
                Error::NotIdle,
            ) && final(self).model() == old(self).model(),
            Self::spec_can_offer(old(self).model()) ==> exists|ms: Seq<TxModel>, ios: Seq<LinkIo<T::Error>>, rs: Seq<Result<TxPoll, Error<T::Error>>>|
                {
                    &&& #[trigger] tx_io_run(ms, ios, rs)
                    &&& ms[0] == tx_queued(old(self).model(), FlightKind::Finish, old(self).model().seq)
                    &&& ms.last() == final(self).model()
                    &&& (T::keeps_calls() ==> final(self).link().calls() == old(self).link().calls() + tx_run_calls(ios))
                    &&& tx_drove(rs, r)
                },
    {
        match self.offer_finish() {
            Err(e) => return Err(e),
            Ok(()) => {},
        }
        let ghost s0 = old(self).model().seq;
        let ghost m0 = old(self).model();
        proof {
            self.assembler.lemma_len();
        }
        let mut budget: u64 = u64::MAX;
        let ghost mut ms: Seq<TxModel> = seq![self.model()];
        let ghost mut ios: Seq<LinkIo<T::Error>> = Seq::empty();
        let ghost mut rs: Seq<Result<TxPoll, Error<T::Error>>> = Seq::empty();
        assert((T::keeps_calls() ==> old(self).link().calls() + tx_run_calls(ios) =~= old(self).link().calls()));
        loop
            invariant
                self.wf(),
                tx_io_run(ms, ios, rs),
                ms[0] == tx_queued(old(self).model(), FlightKind::Finish, old(self).model().seq),
                ms.last() == self.model(),
                (T::keeps_calls() ==> self.link().calls() == old(self).link().calls() + tx_run_calls(ios)),
                forall|i: int| 0 <= i < rs.len() ==> #[trigger] rs[i] == Ok::<TxPoll, Error<T::Error>>(
                    TxPoll::Pending,
                ),
                rs.len() + budget == u64::MAX,
                rs.len() > 0 ==> rs.last() == Ok::<TxPoll, Error<T::Error>>(TxPoll::Pending),
                m0 == old(self).model(),
                s0 == m0.seq,
                Self::spec_can_offer(m0),
                self.model().seq == s0,
                self.model().flight matches Some(f) && f.kind is Finish && f.seq == s0,
                !(self.model().state is Failed),
                tx_inv(self.model()),
            decreases budget,
        {
            if budget == 0 {
                return Err(Error::Timeout);
            }
            budget = budget - 1;
            let ghost prev = self.model();
            let ghost c0 = self.link().calls();
            let polled = self.poll();
            let ghost io = choose|io: LinkIo<T::Error>|
                tx_io_fits(prev, io) && #[trigger] tx_step(prev, io) == (self.model(), polled)
                    && (T::keeps_calls() ==> self.link().calls() == c0 + link_calls(io));
            proof {
                lemma_tx_io_run_push(ms, ios, rs, io, self.model(), polled);
                ms = ms.push(self.model());
                ios = ios.push(io);
                rs = rs.push(polled);
                lemma_tx_step(prev, io);
                lemma_tx_retries_bounded(prev, io);
                lemma_tx_step_stops(prev, io);
            }
            match polled {
                Err(e) => return Err(e),
                Ok(TxPoll::Pending) => {},
                Ok(TxPoll::TransferDone) => {
                    proof {
                        let b = choose|b: u8| io == LinkIo::<T::Error>::Read(Ok(Some(b)));
                        assert(io == LinkIo::<T::Error>::Read(Ok(Some(b))));
                    }
                    return Ok(());
                },
                Ok(TxPoll::Acked) | Ok(TxPoll::SessionReady) => return Ok(()),
                Ok(TxPoll::Aborted) => return Err(Error::Aborted),
            }
        }
    }

    /// ABORT, then polls until it is acknowledged (or the peer aborted).
    ///
    /// Gives up with [`Error::Timeout`] after `u64::MAX` polls without an
    /// answer.
    pub fn send_abort(&mut self) -> (r: Result<(), Error<T::Error>>)
        requires
            old(self).wf(),
        ensures
            final(self).wf(),
            r is Ok ==> {
                &&& final(self).model().state is Aborted
                &&& final(self).model().flight is None
            },
            r is Ok ==> (old(self).model().state is Aborted && old(self).model().flight is None
                && final(self).model() == old(self).model()) || exists|m: TxModel, b: u8|
                {
                    &&& m.reply.len() == 3
                    &&& tx_abort_reply(m, m.reply.push(b))
                    &&& #[trigger] tx_step(m, LinkIo::<T::Error>::Read(Ok(Some(b)))) == (
                        final(self).model(),
                        Ok::<TxPoll, Error<T::Error>>(TxPoll::Aborted),
                    )
                },
            r is Err ==> r matches Err(
                Error::Transport(_) | Error::RetriesExhausted | Error::Timeout,
            ),
            exists|ms: Seq<TxModel>, ios: Seq<LinkIo<T::Error>>, rs: Seq<Result<TxPoll, Error<T::Error>>>|
                {
                    &&& #[trigger] tx_io_run(ms, ios, rs)
                    &&& ms[0] == tx_abort_queued(old(self).model())
                    &&& ms.last() == final(self).model()
                    &&& (T::keeps_calls() ==> final(self).link().calls() == old(self).link().calls() + tx_run_calls(ios))
                    &&& rs.len() > 0
                    &&& forall|i: int| 0 <= i < rs.len() - 1 ==> #[trigger] rs[i] == Ok::<TxPoll, Error<T::Error>>(
                        TxPoll::Pending,
                    )
                    &&& r is Ok ==> (rs.last() matches Ok(
                        TxPoll::Aborted | TxPoll::Acked | TxPoll::SessionReady | TxPoll::TransferDone,
                    ))
                    &&& r is Err ==> rs.last() == Err::<TxPoll, Error<T::Error>>(r->Err_0) || (r
                        == Err::<(), Error<T::Error>>(Error::Timeout) && rs.len() == u64::MAX
                        && rs.last() == Ok::<TxPoll, Error<T::Error>>(TxPoll::Pending))
                },
    {
        match self.offer_abort() {
            Err(e) => return Err(e),
            Ok(()) => {},
        }
        let ghost m0 = old(self).model();
        let mut budget: u64 = u64::MAX;
        let ghost mut ms: Seq<TxModel> = seq![self.model()];
        let ghost mut ios: Seq<LinkIo<T::Error>> = Seq::empty();
        let ghost mut rs: Seq<Result<TxPoll, Error<T::Error>>> = Seq::empty();
        assert((T::keeps_calls() ==> old(self).link().calls() + tx_run_calls(ios) =~= old(self).link().calls()));
        loop
            invariant
                self.wf(),
                tx_io_run(ms, ios, rs),
                ms[0] == tx_abort_queued(old(self).model()),
                ms.last() == self.model(),
                (T::keeps_calls() ==> self.link().calls() == old(self).link().calls() + tx_run_calls(ios)),
                forall|i: int| 0 <= i < rs.len() ==> #[trigger] rs[i] == Ok::<TxPoll, Error<T::Error>>(
                    TxPoll::Pending,
                ),
                rs.len() + budget == u64::MAX,
                rs.len() > 0 ==> rs.last() == Ok::<TxPoll, Error<T::Error>>(TxPoll::Pending),
                m0 == old(self).model(),
                (self.model().flight matches Some(f) && f.kind is Abort && !(
                self.model().state is Failed)) || (self.model().state is Aborted
                    && self.model().flight is None && self.model() == m0),
            decreases budget,
        {
            if budget == 0 {
                return Err(Error::Timeout);
            }
            budget = budget - 1;
            let ghost prev = self.model();
            proof {
                self.assembler.lemma_len();
            }
            let ghost c0 = self.link().calls();
            let polled = self.poll();
            let ghost io = choose|io: LinkIo<T::Error>|
                tx_io_fits(prev, io) && #[trigger] tx_step(prev, io) == (self.model(), polled)
                    && (T::keeps_calls() ==> self.link().calls() == c0 + link_calls(io));
            proof {
                lemma_tx_io_run_push(ms, ios, rs, io, self.model(), polled);
                ms = ms.push(self.model());
                ios = ios.push(io);
                rs = rs.push(polled);
            }
            match polled {
                Err(e) => return Err(e),
                Ok(TxPoll::Pending) => {},
                Ok(TxPoll::Aborted) => {
                    proof {
                        lemma_tx_aborted(prev, io);
                        if !(prev.state is Aborted && prev.flight is None) {
                            let b = choose|b: u8| io == LinkIo::<T::Error>::Read(Ok(Some(b)));
                            assert(io == LinkIo::<T::Error>::Read(Ok(Some(b))));
                        }
                    }
                    return Ok(());
                },
                Ok(TxPoll::Acked) | Ok(TxPoll::SessionReady) | Ok(TxPoll::TransferDone) => {
                    return Ok(())
                },
            }
        }
    }

    /// The transport, for inspection.
    pub fn transport(&self) -> (t: &T)
        ensures
            *t == self.link(),
    {
        &self.transport
    }

    /// Returns the underlying transport.
    pub fn release(self) -> (t: T)
        ensures
            t == self.link(),
    {
        self.transport
    }
}


/// What a transport that takes every write and never has anything to read
/// answers a sender poll in state `m`.
pub open spec fn silent_io<E>(m: TxModel) -> LinkIo<E> {
    if tx_settled(m) {
        LinkIo::Nothing
    } else if m.out.len() > 0 {
        LinkIo::Wrote(m.out[0], Ok(()))
    } else if m.flight is None {
        LinkIo::Nothing
    } else if !m.flight.unwrap().waiting {
        LinkIo::Wrote(spec_encode(flight_frame(m.flight.unwrap()))[0], Ok(()))
    } else {
        LinkIo::Read(Ok(None))
    }
}

/// The byte a poll that answered `io` wrote, if any.
pub open spec fn io_written<E>(io: LinkIo<E>) -> Seq<u8> {
    match io {
        LinkIo::Wrote(b, _) => seq![b],
        _ => Seq::empty(),
    }
}

/// `k` polls from `m` on a silent transport: the state they leave, their
/// results, and the bytes they wrote.
pub open spec fn silent_polls<E>(m: TxModel, k: nat) -> (TxModel, Seq<Result<TxPoll, Error<E>>>, Seq<u8>)
    decreases k,
{
    if k == 0 {
        (m, Seq::empty(), Seq::empty())
    } else {
        let io = silent_io::<E>(m);
        let (m1, r) = tx_step(m, io);
        let (mk, rs, ws) = silent_polls::<E>(m1, (k - 1) as nat);
        (mk, seq![r] + rs, io_written(io) + ws)
    }
}

/// The polls an attempt takes on a silent transport: four writes, then
/// empty reads until the timeout (at least one).
pub open spec fn attempt_polls(p: RetryPolicy) -> nat {
    4 + if p.timeout_ticks == 0 {
        1nat
    } else {
        p.timeout_ticks as nat
    }
}

/// `a + b` silent polls are `a` of them, then `b` more from where they left.
proof fn lemma_silent_split<E>(m: TxModel, a: nat, b: nat)
    ensures
        ({
            let (ma, ra, wa) = silent_polls::<E>(m, a);
            let (mb, rb, wb) = silent_polls::<E>(ma, b);
            silent_polls::<E>(m, a + b) == (mb, ra + rb, wa + wb)
        }),
    decreases a,
{
    if a == 0 {
        let (mb, rb, wb) = silent_polls::<E>(m, b);
        assert(Seq::<Result<TxPoll, Error<E>>>::empty() + rb =~= rb);
        assert(Seq::<u8>::empty() + wb =~= wb);
    } else {
        let io = silent_io::<E>(m);
        let (m1, r) = tx_step(m, io);
        lemma_silent_split::<E>(m1, (a - 1) as nat, b);
        let (ma, ra1, wa1) = silent_polls::<E>(m1, (a - 1) as nat);
        let (mb, rb, wb) = silent_polls::<E>(ma, b);
        assert((seq![r] + ra1) + rb =~= seq![r] + (ra1 + rb));
        assert((io_written(io) + wa1) + wb =~= io_written(io) + (wa1 + wb));
        assert((a + b - 1) as nat == ((a - 1) as nat + b) as nat);
    }
}

/// Waiting for an answer that never comes: `n` empty reads from
/// `e` empty ticks, short of the timeout, only count ticks.
proof fn lemma_silent_wait<E>(m: TxModel, f: InFlight, n: nat)
    requires
        !tx_settled(m),
        m.out.len() == 0,
        m.flight == Some(f),
        f.waiting,
        n > 0 ==> f.empty_ticks + n < m.policy.timeout_ticks,
    ensures
        ({
            let (mk, rs, ws) = silent_polls::<E>(m, n);
            &&& mk == (TxModel {
                flight: Some(InFlight { empty_ticks: (f.empty_ticks + n) as u16, ..f }),
                ..m
            })
            &&& rs.len() == n
            &&& forall|i: int| 0 <= i < n ==> #[trigger] rs[i] == Ok::<TxPoll, Error<E>>(TxPoll::Pending)
            &&& ws == Seq::<u8>::empty()
        }),
    decreases n,
{
    if n > 0 {
        let io = silent_io::<E>(m);
        let (m1, r) = tx_step(m, io);
        let f1 = InFlight { empty_ticks: (f.empty_ticks + 1) as u16, ..f };
        assert(m1 == (TxModel { flight: Some(f1), ..m }));
        lemma_silent_wait::<E>(m1, f1, (n - 1) as nat);
        let (mk, rs1, ws1) = silent_polls::<E>(m1, (n - 1) as nat);
        assert(forall|i: int| 0 <= i < n ==> #[trigger] (seq![r] + rs1)[i] == Ok::<TxPoll, Error<E>>(TxPoll::Pending)) by {
            assert forall|i: int| 0 <= i < n implies #[trigger] (seq![r] + rs1)[i] == Ok::<TxPoll, Error<E>>(TxPoll::Pending) by {
                if i > 0 {
                    assert((seq![r] + rs1)[i] == rs1[i - 1]);
                }
            }
        }
        assert(Seq::<u8>::empty() + ws1 =~= ws1);
        assert((InFlight { empty_ticks: (f1.empty_ticks + (n - 1)) as u16, ..f1 }) == (InFlight {
            empty_ticks: (f.empty_ticks + n) as u16,
            ..f
        }));
    }
}

/// One attempt on a silent transport, from a frame about to be written with
/// `j` retries left: the frame goes out once, whole, then empty reads run
/// out the timeout; every poll but the last is `Pending`, and the last
/// either sets up the next attempt with `j - 1` retries or, with none
/// left, gives up with `RetriesExhausted`.
proof fn lemma_silent_attempt<E>(m: TxModel, f: InFlight)
    requires
        tx_inv(m),
        !tx_settled(m),
        m.out.len() == 0,
        m.flight == Some(f),
        !f.waiting,
    ensures
        ({
            let (mk, rs, ws) = silent_polls::<E>(m, attempt_polls(m.policy));
            let g = InFlight { retries_left: (f.retries_left - 1) as u8, waiting: false, empty_ticks: 0, ..f };
            &&& ws == spec_encode(flight_frame(f))
            &&& rs.len() == attempt_polls(m.policy)
            &&& forall|i: int| 0 <= i < rs.len() - 1 ==> #[trigger] rs[i] == Ok::<TxPoll, Error<E>>(TxPoll::Pending)
            &&& f.retries_left > 0 ==> {
                &&& rs.last() == Ok::<TxPoll, Error<E>>(TxPoll::Pending)
                &&& mk == (TxModel {
                    flight: Some(g),
                    reply: Seq::empty(),
                    state: TxState::Retrying,
                    ..m
                })
            }
            &&& f.retries_left == 0 ==> rs.last() == Err::<TxPoll, Error<E>>(Error::RetriesExhausted)
                && mk.state is Failed
        }),
{
    let frame = spec_encode(flight_frame(f));
    let t: nat = if m.policy.timeout_ticks == 0 { 1 } else { m.policy.timeout_ticks as nat };
    reveal_with_fuel(silent_polls, 5);
    // the four writes
    let (m4, r4, w4) = silent_polls::<E>(m, 4);
    let fw = InFlight { waiting: true, empty_ticks: 0, ..f };
    let mw = TxModel { out: Seq::empty(), flight: Some(fw), reply: Seq::empty(), state: TxState::WaitingAck, ..m };
    assert(frame.drop_first().drop_first().drop_first().drop_first() =~= Seq::<u8>::empty());
    assert(m4 == mw);
    assert(w4 =~= frame);
    assert(forall|i: int| 0 <= i < 4 ==> #[trigger] r4[i] == Ok::<TxPoll, Error<E>>(TxPoll::Pending));
    // the waiting
    lemma_silent_split::<E>(m, 4, t);
    lemma_silent_wait::<E>(mw, fw, (t - 1) as nat);
    lemma_silent_split::<E>(mw, (t - 1) as nat, 1);
    let (mt, rt, wt) = silent_polls::<E>(mw, (t - 1) as nat);
    let (ml, rl, wl) = silent_polls::<E>(mt, 1);
    let (mk, rs, ws) = silent_polls::<E>(m, attempt_polls(m.policy));
    assert(attempt_polls(m.policy) == 4 + t);
    assert(ws =~= frame + (wt + wl));
    assert(wt + wl =~= Seq::<u8>::empty());
    assert(rs =~= r4 + (rt + rl));
    assert forall|i: int| 0 <= i < rs.len() - 1 implies #[trigger] rs[i] == Ok::<TxPoll, Error<E>>(TxPoll::Pending) by {
        if i < 4 {
            assert(rs[i] == r4[i]);
        } else {
            assert(rs[i] == rt[i - 4]);
        }
    }
    assert(rs.last() == rl[0]);
    let ft = InFlight { empty_ticks: (t - 1) as u16, ..fw };
    assert(mt == (TxModel { flight: Some(ft), ..mw }));
    let (m_last, r_last) = tx_step(mt, silent_io::<E>(mt));
    assert(silent_io::<E>(mt) == LinkIo::<E>::Read(Ok(None)));
    let ft2 = InFlight { empty_ticks: t as u16, ..fw };
    assert(tx_on_silence::<E>(mt) == tx_attempt_failed::<E>(TxModel { flight: Some(ft2), ..mw }));
    assert(ml == m_last && rl == seq![r_last]);
    assert(ml.out =~= m.out);
}

/// On a silent transport, a frame with `n` retries left is written `n + 1`
/// times, whole, one attempt after another, and then the sender gives up:
/// after `(n + 1)` attempts of [`attempt_polls`] polls each, every poll but
/// the last answered `Pending`, the last answered `RetriesExhausted`, the
/// sender is failed, and the bytes written are `n + 1` copies of the frame.
pub proof fn lemma_silent_retries<E>(m: TxModel, f: InFlight)
    requires
        tx_inv(m),
        !tx_settled(m),
        m.out.len() == 0,
        m.flight == Some(f),
        !f.waiting,
    ensures
        ({
            let k = (f.retries_left + 1) * attempt_polls(m.policy);
            let (mk, rs, ws) = silent_polls::<E>(m, k as nat);
            &&& rs.len() == k
            &&& forall|i: int| 0 <= i < rs.len() - 1 ==> #[trigger] rs[i] == Ok::<TxPoll, Error<E>>(TxPoll::Pending)
            &&& rs.last() == Err::<TxPoll, Error<E>>(Error::RetriesExhausted)
            &&& mk.state is Failed
            &&& ws.len() == (f.retries_left + 1) * 4
            &&& forall|i: int| 0 <= i < ws.len() ==> #[trigger] ws[i] == spec_encode(flight_frame(f))[i % 4]
        }),
    decreases f.retries_left,
{
    let p = attempt_polls(m.policy);
    let frame = spec_encode(flight_frame(f));
    lemma_silent_attempt::<E>(m, f);
    let (ma, ra, wa) = silent_polls::<E>(m, p);
    if f.retries_left == 0 {
        assert(((f.retries_left + 1) * p) as nat == p) by (nonlinear_arith)
            requires f.retries_left == 0;
        assert forall|i: int| 0 <= i < wa.len() implies #[trigger] wa[i] == frame[i % 4] by {}
    } else {
        let g = InFlight { retries_left: (f.retries_left - 1) as u8, waiting: false, empty_ticks: 0, ..f };
        assert(flight_frame(g) == flight_frame(f));
        lemma_silent_retries::<E>(ma, g);
        let k1 = ((g.retries_left + 1) * p) as nat;
        lemma_silent_split::<E>(m, p, k1);
        let (mb, rb, wb) = silent_polls::<E>(ma, k1);
        assert(((f.retries_left + 1) * p) as nat == p + k1) by (nonlinear_arith)
            requires g.retries_left == f.retries_left - 1, k1 == (g.retries_left + 1) * p;
        assert(((f.retries_left + 1) * 4) == 4 + (g.retries_left + 1) * 4) by (nonlinear_arith)
            requires g.retries_left == f.retries_left - 1;
        assert(k1 >= p) by (nonlinear_arith)
            requires k1 == (g.retries_left + 1) * p;
        let rs = ra + rb;
        let ws = wa + wb;
        assert forall|i: int| 0 <= i < rs.len() - 1 implies #[trigger] rs[i] == Ok::<TxPoll, Error<E>>(TxPoll::Pending) by {
            if i < ra.len() {
                assert(rs[i] == ra[i]);
            } else {
                assert(rs[i] == rb[i - ra.len()]);
            }
        }
        assert(rs.last() == rb.last());
        assert forall|i: int| 0 <= i < ws.len() implies #[trigger] ws[i] == frame[i % 4] by {
            if i < 4 {
                assert(ws[i] == wa[i]);
            } else {
                assert(ws[i] == wb[i - 4]);
                assert((i - 4) % 4 == i % 4);
            }
        }
    }
}


/// The bytes a run of polls wrote, in order.
pub open spec fn tx_run_written<E>(ios: Seq<LinkIo<E>>) -> Seq<u8>
    decreases ios.len(),
{
    if ios.len() == 0 {
        Seq::empty()
    } else {
        io_written(ios[0]) + tx_run_written(ios.drop_first())
    }
}

/// A run whose every poll got what a silent transport answers is the run of
/// [`silent_polls`] from its first state.
proof fn lemma_silent_run<E>(ms: Seq<TxModel>, ios: Seq<LinkIo<E>>, rs: Seq<Result<TxPoll, Error<E>>>)
    requires
        tx_io_run(ms, ios, rs),
        forall|i: int| 0 <= i < rs.len() ==> #[trigger] ios[i] == silent_io::<E>(ms[i]),
    ensures
        silent_polls::<E>(ms[0], rs.len()) == (ms.last(), rs, tx_run_written(ios)),
    decreases rs.len(),
{
    if rs.len() == 0 {
        assert(rs =~= Seq::<Result<TxPoll, Error<E>>>::empty());
    } else {
        let ms1 = ms.drop_first();
        let ios1 = ios.drop_first();
        let rs1 = rs.drop_first();
        assert(tx_io_step(ms[0], ios[0], ms[1], rs[0]));
        assert(ios[0] == silent_io::<E>(ms[0]));
        assert forall|i: int| 0 <= i < rs1.len() implies #[trigger] tx_io_step(ms1[i], ios1[i], ms1[i + 1], rs1[i]) by {
            let j = i + 1;
            assert(tx_io_step(ms[j], ios[j], ms[j + 1], rs[j]));
            assert(ms1[i] == ms[j] && ms1[i + 1] == ms[j + 1] && ios1[i] == ios[j] && rs1[i] == rs[j]);
        }
        assert forall|i: int| 0 <= i < rs1.len() implies #[trigger] ios1[i] == silent_io::<E>(ms1[i]) by {
            assert(ios[i + 1] == silent_io::<E>(ms[i + 1]));
        }
        lemma_silent_run(ms1, ios1, rs1);
        assert(seq![rs[0]] + rs1 =~= rs);
    }
}

/// A blocking send on a silent transport gives up after exactly its retries.
///
/// When every poll of a send from a frame about to be written with `n`
/// retries left got what a transport that takes every write and never has
/// anything to read answers, the send fails with `RetriesExhausted` after
/// `(n + 1)` attempts of [`attempt_polls`] polls each, leaving the sender
/// failed, and the bytes written are exactly `n + 1` copies of the frame
/// (`n == 0`: sent once, never retried).
pub proof fn lemma_silent_send<E>(
    ms: Seq<TxModel>,
    ios: Seq<LinkIo<E>>,
    rs: Seq<Result<TxPoll, Error<E>>>,
    r: Result<(), Error<E>>,
)
    requires
        tx_io_run(ms, ios, rs),
        forall|i: int| 0 <= i < rs.len() ==> #[trigger] ios[i] == silent_io::<E>(ms[i]),
        tx_drove(rs, r),
        tx_inv(ms[0]),
        !tx_settled(ms[0]),
        ms[0].out.len() == 0,
        ms[0].flight matches Some(f) && !f.waiting,
    ensures
        ({
            let f = ms[0].flight.unwrap();
            let ws = tx_run_written(ios);
            &&& r == Err::<(), Error<E>>(Error::RetriesExhausted)
            &&& rs.len() == (f.retries_left + 1) * attempt_polls(ms[0].policy)
            &&& ms.last().state is Failed
            &&& ws.len() == (f.retries_left + 1) * 4
            &&& forall|i: int| 0 <= i < ws.len() ==> #[trigger] ws[i] == spec_encode(flight_frame(f))[i % 4]
        }),
{
    let m = ms[0];
    let f = m.flight.unwrap();
    let p = attempt_polls(m.policy);
    let k = ((f.retries_left + 1) * p) as nat;
    let n = rs.len();
    lemma_silent_retries::<E>(m, f);
    lemma_silent_run(ms, ios, rs);
    let (mk, rsk, wsk) = silent_polls::<E>(m, k);
    assert(k <= 256 * 65540) by (nonlinear_arith)
        requires
            k == (f.retries_left + 1) * p,
            f.retries_left < 256,
            p <= 65540,
    ;
    assert(k >= 1) by (nonlinear_arith)
        requires
            k == (f.retries_left + 1) * p,
            p >= 1,
    ;
    if n < k {
        lemma_silent_split::<E>(m, n, (k - n) as nat);
        let (mb, rb, wb) = silent_polls::<E>(ms.last(), (k - n) as nat);
        assert(rsk =~= rs + rb);
        assert(rs.last() == rsk[n - 1]);
        assert(rs.last() == Ok::<TxPoll, Error<E>>(TxPoll::Pending));
        assert(false);
    } else if n > k {
        lemma_silent_split::<E>(m, k, (n - k) as nat);
        let (mb, rb, wb) = silent_polls::<E>(mk, (n - k) as nat);
        assert(rs =~= rsk + rb);
        assert(rs[k - 1] == rsk[k - 1]);
        assert(rs[k - 1] == Ok::<TxPoll, Error<E>>(TxPoll::Pending));
        assert(false);
    }
}

} // verus!
