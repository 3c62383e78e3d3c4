//! Heapless selective-repeat receiver: reorder buffer `[Option<u8>; N]`.
//!
//! Accepts `SEQ` in `[expected, expected + N)`, re-ACKs `[expected - N,
//! expected)`, and delivers only in order.

use vstd::prelude::*;
use crate::error::Error;
use crate::protocol::frame::{spec_decode, spec_encode, Frame, FrameError, FrameType, FrameView};
use crate::protocol::sequence::{seq_dist, seq_next};
use crate::protocol::{FrameAssembler, OutBuf, Sequence};
use crate::rx::{delivered_bytes, outcome_or_pending, rx_link_calls, rx_run_calls, PollOutcome, RxIo, RxState};
use crate::transport::{write_call, ByteTransport, LinkCall};
use super::MAX_WINDOW;

verus! {

/// What a windowed receiver does once its reply is entirely written.
#[derive(Debug, Clone, Copy, PartialEq, Eq, Structural)]
pub enum WPendingAction {
    /// Move the in-order prefix of the reorder buffer to the output queue.
    Drain,
    /// Report a duplicate.
    Duplicate,
    /// Nothing to report (an out-of-order byte was buffered).
    Quiet,
    /// Report that a new session started.
    Started,
    /// Report that the transfer finished.
    Finished,
    /// Report that the session was aborted.
    Aborted,
    /// Report a rejected frame.
    Rejected,
    /// Report a frame that failed its CRC.
    CrcRejected,
}

/// The windowed receiver's state apart from its transport.
pub struct WRxModel {
    /// Sequence of the next in-order DATA frame.
    pub expected: u8,
    /// Reorder buffer: slot `k` holds the payload of `expected + k`.
    pub buf: Seq<Option<u8>>,
    /// Storage of the in-order bytes waiting to be delivered.
    pub emit: Seq<u8>,
    /// Position of the next byte to deliver in `emit`.
    pub emit_at: usize,
    /// End of the bytes waiting in `emit`.
    pub emit_len: usize,
    /// Coarse state.
    pub state: RxState,
    /// Bytes of the incoming frame accumulated so far.
    pub reply: Seq<u8>,
    /// Bytes of the outgoing reply not yet written.
    pub out: Seq<u8>,
    /// What to report once the reply is written.
    pub pending: Option<WPendingAction>,
    /// The sequence of the accepted FINISH, once the transfer is closed.
    pub finish: Option<u8>,
    /// An ABORT was accepted and no START has followed.
    pub aborted: bool,
}

/// The session is closed by FINISH or ABORT.
pub open spec fn wrx_closed(m: WRxModel) -> bool {
    m.aborted || m.finish is Some
}

/// The state a quiet receiver settles in.
pub open spec fn wrx_settle(m: WRxModel) -> WRxModel {
    WRxModel {
        state: if m.aborted {
            RxState::Aborted
        } else if m.finish is Some {
            RxState::Finished
        } else {
            RxState::Idle
        },
        ..m
    }
}

/// An empty reorder buffer of `n` slots.
pub open spec fn empty_buf(n: nat) -> Seq<Option<u8>> {
    Seq::new(n, |k: int| None)
}

/// Empties the reorder buffer and the output queue.
pub open spec fn wrx_clear(m: WRxModel) -> WRxModel {
    WRxModel { buf: empty_buf(m.buf.len()), emit_at: 0, emit_len: 0, ..m }
}

/// Starts writing `frame` back, reporting `action` once it is written.
pub open spec fn wrx_begin_reply(m: WRxModel, frame: FrameView, action: WPendingAction) -> WRxModel {
    WRxModel { out: spec_encode(frame), pending: Some(action), state: RxState::Acknowledging, ..m }
}

/// Appends a byte to the output queue (dropped if the storage is full).
pub open spec fn wrx_push_emit(m: WRxModel, b: u8) -> WRxModel {
    if m.emit_len as int >= m.emit.len() {
        m
    } else {
        WRxModel { emit: m.emit.update(m.emit_len as int, b), emit_len: (m.emit_len + 1) as usize, ..m }
    }
}

/// Takes the next byte off the output queue.
pub open spec fn wrx_pop_emit(m: WRxModel) -> (WRxModel, Option<u8>) {
    if m.emit_at >= m.emit_len {
        (WRxModel { emit_at: 0, emit_len: 0, ..m }, None)
    } else {
        let b = m.emit[m.emit_at as int];
        let at = (m.emit_at + 1) as usize;
        if at >= m.emit_len {
            (WRxModel { emit_at: 0, emit_len: 0, ..m }, Some(b))
        } else {
            (WRxModel { emit_at: at, ..m }, Some(b))
        }
    }
}

/// Moves the byte at the head of the reorder buffer to the output queue.
pub open spec fn wrx_drain_step(m: WRxModel) -> WRxModel {
    let b = m.buf[0].unwrap();
    wrx_push_emit(
        WRxModel { buf: m.buf.drop_first().push(None), expected: seq_next(m.expected), ..m },
        b,
    )
}

/// Moves the in-order prefix of the reorder buffer (at most `k` bytes) to
/// the output queue.
pub open spec fn wrx_drain(m: WRxModel, k: nat) -> WRxModel
    decreases k,
{
    if k == 0 || m.buf.len() == 0 || m.buf[0] is None {
        m
    } else {
        wrx_drain(wrx_drain_step(m), (k - 1) as nat)
    }
}

/// The reply is written: act on the pending action.
pub open spec fn wrx_take_pending(m: WRxModel) -> (WRxModel, Option<PollOutcome>) {
    match m.pending {
        None => (m, None),
        Some(a) => {
            let m1 = WRxModel { pending: None, ..m };
            match a {
                WPendingAction::Drain => {
                    let m2 = WRxModel { state: RxState::Idle, ..wrx_drain(m1, m1.buf.len()) };
                    let (m3, b) = wrx_pop_emit(m2);
                    (
                        m3,
                        match b {
                            Some(x) => Some(PollOutcome::Delivered(x)),
                            None => None,
                        },
                    )
                },
                WPendingAction::Duplicate => (wrx_settle(m1), Some(PollOutcome::DuplicateIgnored)),
                WPendingAction::Quiet => (wrx_settle(m1), Some(PollOutcome::Pending)),
                WPendingAction::Started => (
                    WRxModel { finish: None, aborted: false, state: RxState::Idle, ..m1 },
                    Some(PollOutcome::Started),
                ),
                WPendingAction::Finished => (
                    WRxModel { state: RxState::Finished, ..m1 },
                    Some(PollOutcome::TransferFinished),
                ),
                WPendingAction::Aborted => (
                    WRxModel { state: RxState::Aborted, ..m1 },
                    Some(PollOutcome::Aborted),
                ),
                WPendingAction::Rejected => (wrx_settle(m1), Some(PollOutcome::Rejected)),
                WPendingAction::CrcRejected => (wrx_settle(m1), Some(PollOutcome::CrcRejected)),
            }
        },
    }
}

/// Writes the next reply byte, if any.
pub open spec fn wrx_pump_reply<E>(m: WRxModel, w: Option<(u8, Result<(), E>)>) -> (
    WRxModel,
    Result<PollOutcome, Error<E>>,
) {
    if m.out.len() == 0 {
        let (m1, o) = wrx_take_pending(m);
        (m1, Ok(outcome_or_pending(o)))
    } else {
        match w {
            Some((_, Err(e))) => (m, Err(Error::Transport(e))),
            _ => {
                let m1 = WRxModel { out: m.out.drop_first(), ..m };
                if m1.out.len() == 0 {
                    let (m2, o) = wrx_take_pending(m1);
                    (m2, Ok(outcome_or_pending(o)))
                } else {
                    (WRxModel { state: RxState::Acknowledging, ..m1 }, Ok(PollOutcome::Pending))
                }
            },
        }
    }
}

/// How the windowed receiver reacts to a complete, valid
/// DATA/START/FINISH/ABORT frame (before the reply is written).
pub open spec fn wrx_handle(m: WRxModel, v: FrameView) -> WRxModel {
    let n = m.buf.len();
    match v.0 {
        FrameType::Data => if m.aborted {
            WRxModel { state: RxState::Aborted, ..m }
        } else if m.finish is Some {
            WRxModel { state: RxState::Finished, ..m }
        } else {
            let off = seq_dist(v.1, m.expected) as int;
            let back = seq_dist(m.expected, v.1) as int;
            if off < n {
                let m1 = if m.buf[off] is None {
                    WRxModel { buf: m.buf.update(off, Some(v.2)), ..m }
                } else {
                    m
                };
                wrx_begin_reply(
                    m1,
                    (FrameType::Ack, v.1, 0u8),
                    if off == 0 { WPendingAction::Drain } else { WPendingAction::Quiet },
                )
            } else if back >= 1 && back <= n {
                wrx_begin_reply(m, (FrameType::Ack, v.1, 0u8), WPendingAction::Duplicate)
            } else {
                wrx_begin_reply(m, (FrameType::Nack, v.1, 0u8), WPendingAction::Rejected)
            }
        },
        FrameType::Start => wrx_begin_reply(
            wrx_clear(WRxModel { expected: 0, finish: None, aborted: false, ..m }),
            (FrameType::Ack, 0u8, 0u8),
            WPendingAction::Started,
        ),
        FrameType::Finish => if m.aborted {
            WRxModel { state: RxState::Aborted, ..m }
        } else if m.finish is Some {
            if v.1 == m.finish.unwrap() {
                wrx_begin_reply(m, (FrameType::Ack, v.1, 0u8), WPendingAction::Finished)
            } else {
                WRxModel { state: RxState::Finished, ..m }
            }
        } else if v.1 != m.expected {
            wrx_begin_reply(m, (FrameType::Nack, v.1, 0u8), WPendingAction::Rejected)
        } else {
            wrx_begin_reply(
                wrx_clear(WRxModel { finish: Some(v.1), ..m }),
                (FrameType::Ack, v.1, 0u8),
                WPendingAction::Finished,
            )
        },
        FrameType::Abort => if m.finish is Some {
            WRxModel { state: RxState::Finished, ..m }
        } else {
            wrx_begin_reply(
                wrx_clear(WRxModel { aborted: true, expected: 0, ..m }),
                (FrameType::Ack, 0u8, 0u8),
                WPendingAction::Aborted,
            )
        },
        _ => wrx_settle(m),
    }
}

/// One received byte.
pub open spec fn wrx_on_byte<E>(m: WRxModel, b: u8, w: Option<(u8, Result<(), E>)>) -> (
    WRxModel,
    Result<PollOutcome, Error<E>>,
) {
    let bytes = m.reply.push(b);
    if m.reply.len() < 3 {
        (WRxModel { reply: bytes, ..m }, Ok(PollOutcome::Pending))
    } else {
        let m1 = WRxModel { reply: Seq::empty(), state: RxState::Validating, ..m };
        match spec_decode(bytes) {
            Err(err) => if wrx_closed(m1) {
                (wrx_settle(m1), Ok(PollOutcome::Pending))
            } else {
                wrx_pump_reply(
                    wrx_begin_reply(
                        m1,
                        (FrameType::Nack, m1.expected, 0u8),
                        if err is CrcMismatch {
                            WPendingAction::CrcRejected
                        } else {
                            WPendingAction::Rejected
                        },
                    ),
                    w,
                )
            },
            Ok(v) => if v.0 is Ack || v.0 is Nack {
                (wrx_settle(m1), Ok(PollOutcome::Pending))
            } else {
                wrx_pump_reply(wrx_handle(m1, v), w)
            },
        }
    }
}

/// One windowed receiver poll.
pub open spec fn wrx_step<E>(m: WRxModel, io: RxIo<E>) -> (WRxModel, Result<PollOutcome, Error<E>>) {
    let (m0, popped) = wrx_pop_emit(m);
    if popped is Some {
        (m0, Ok(PollOutcome::Delivered(popped.unwrap())))
    } else if m0.out.len() > 0 {
        wrx_pump_reply(m0, io.wrote)
    } else {
        let m1 = WRxModel { state: RxState::Receiving, ..m0 };
        match io.read {
            Some(Err(e)) => (m1, Err(Error::Transport(e))),
            Some(Ok(Some(b))) => wrx_on_byte(m1, b, io.wrote),
            _ => (wrx_settle(m1), Ok(PollOutcome::Pending)),
        }
    }
}

/// A run of windowed polls with what the transport answered in each:
/// `ms[i]` is the state before poll `i`, `ios[i]` what its transport calls
/// answered, `rs[i]` its result, `ms[i + 1]` the state it left.
pub open spec fn wrx_io_run<E>(
    ms: Seq<WRxModel>,
    ios: Seq<RxIo<E>>,
    rs: Seq<Result<PollOutcome, Error<E>>>,
) -> bool {
    &&& ms.len() == rs.len() + 1
    &&& ios.len() == rs.len()
    &&& forall|i: int| 0 <= i < rs.len() ==> #[trigger] wrx_io_step(ms[i], ios[i], ms[i + 1], rs[i])
}

/// One poll from `m`, whose transport calls answered `io`, left `m2` and
/// returned `r`.
pub open spec fn wrx_io_step<E>(m: WRxModel, io: RxIo<E>, m2: WRxModel, r: Result<PollOutcome, Error<E>>) -> bool {
    wrx_io_fits(m, io) && wrx_step(m, io) == (m2, r)
}

/// A windowed run with answers extended by one more poll is still one.
pub proof fn lemma_wrx_io_run_push<E>(
    ms: Seq<WRxModel>,
    ios: Seq<RxIo<E>>,
    rs: Seq<Result<PollOutcome, Error<E>>>,
    io: RxIo<E>,
    m2: WRxModel,
    r: Result<PollOutcome, Error<E>>,
)
    requires
        wrx_io_run(ms, ios, rs),
        wrx_io_fits(ms.last(), io),
        wrx_step(ms.last(), io) == (m2, r),
    ensures
        wrx_io_run(ms.push(m2), ios.push(io), rs.push(r)),
        rx_run_calls(ios.push(io)) == rx_run_calls(ios) + rx_link_calls(io),
        delivered_bytes(rs.push(r)) == delivered_bytes(rs) + match r {
            Ok(PollOutcome::Delivered(b)) => seq![b],
            _ => Seq::empty(),
        },
{
    let ms2 = ms.push(m2);
    let ios2 = ios.push(io);
    let rs2 = rs.push(r);
    assert forall|i: int| 0 <= i < rs2.len() implies #[trigger] wrx_io_step(ms2[i], ios2[i], ms2[i + 1], rs2[i]) by {
        if i < rs.len() {
            assert(wrx_io_step(ms[i], ios[i], ms[i + 1], rs[i]));
            assert(ms2[i] == ms[i] && ms2[i + 1] == ms[i + 1] && rs2[i] == rs[i] && ios2[i] == ios[i]);
        } else {
            assert(ms2[i] == ms.last() && ms2[i + 1] == m2 && rs2[i] == r && ios2[i] == io);
        }
    }
    assert(ios2.drop_last() =~= ios);
    assert(rs2.drop_last() =~= rs);
}

/// How many slots at the head of the reorder buffer are filled: the run
/// of in-order bytes that can be delivered.
pub open spec fn filled_prefix(buf: Seq<Option<u8>>) -> nat
    decreases buf.len(),
{
    if buf.len() == 0 || buf[0] is None {
        0
    } else {
        1 + filled_prefix(buf.drop_first())
    }
}

/// The payloads of the first `j` slots.
pub open spec fn run_bytes(buf: Seq<Option<u8>>, j: nat) -> Seq<u8> {
    Seq::new(j, |i: int| buf[i].unwrap())
}

proof fn lemma_filled_prefix_push_none(s: Seq<Option<u8>>)
    ensures
        filled_prefix(s.push(None)) == filled_prefix(s),
    decreases s.len(),
{
    if s.len() > 0 && s[0] is Some {
        assert(s.push(None).drop_first() =~= s.drop_first().push(None));
        lemma_filled_prefix_push_none(s.drop_first());
    }
}

proof fn lemma_filled_prefix_bound(s: Seq<Option<u8>>)
    ensures
        filled_prefix(s) <= s.len(),
        forall|i: int| 0 <= i < filled_prefix(s) ==> #[trigger] s[i] is Some,
        filled_prefix(s) < s.len() ==> s[filled_prefix(s) as int] is None,
    decreases s.len(),
{
    if s.len() > 0 && s[0] is Some {
        lemma_filled_prefix_bound(s.drop_first());
        assert forall|i: int| 0 <= i < filled_prefix(s) implies #[trigger] s[i] is Some by {
            if i > 0 {
                assert(s.drop_first()[i - 1] == s[i]);
            }
        }
    }
}

/// Draining moves exactly the in-order run at the head of the reorder
/// buffer (at most `k` bytes) to the output queue, oldest first: the
/// payloads of sequences `expected`, `expected + 1`, ... in that order.
/// The expected sequence advances by the length of that run, the buffer
/// shifts by it (refilled with empty slots), and nothing else changes.
#[verifier::spinoff_prover]
#[verifier::rlimit(40)]
pub proof fn lemma_wrx_drain(m: WRxModel, k: nat)
    requires
        m.emit_at <= m.emit_len,
        m.emit.len() <= MAX_WINDOW,
        m.emit_len + (if k <= filled_prefix(m.buf) { k } else { filled_prefix(m.buf) }) <= m.emit.len(),
    ensures
        ({
            let j = if k <= filled_prefix(m.buf) { k } else { filled_prefix(m.buf) };
            let d = wrx_drain(m, k);
            &&& d.emit_len == m.emit_len + j
            &&& d.emit_at == m.emit_at
            &&& d.emit.len() == m.emit.len()
            &&& d.emit.subrange(0, d.emit_len as int) == m.emit.subrange(0, m.emit_len as int)
                + run_bytes(m.buf, j)
            &&& d.expected == (m.expected + j) % 256
            &&& d.buf == m.buf.skip(j as int) + empty_buf(j)
            &&& d == (WRxModel {
                emit: d.emit,
                emit_len: d.emit_len,
                expected: d.expected,
                buf: d.buf,
                ..m
            })
        }),
    decreases k,
{
    lemma_filled_prefix_bound(m.buf);
    if k == 0 || m.buf.len() == 0 || m.buf[0] is None {
        assert(m.buf.skip(0) + empty_buf(0) =~= m.buf);
        assert(run_bytes(m.buf, 0) =~= Seq::<u8>::empty());
        assert(m.emit.subrange(0, m.emit_len as int) + Seq::<u8>::empty() =~= m.emit.subrange(0, m.emit_len as int));
    } else {
        let b = m.buf[0].unwrap();
        let m1 = WRxModel { buf: m.buf.drop_first().push(None), expected: seq_next(m.expected), ..m };
        let s = wrx_drain_step(m);
        assert(s == (WRxModel { emit: m.emit.update(m.emit_len as int, b), emit_len: (m.emit_len + 1) as usize, ..m1 }));
        lemma_filled_prefix_push_none(m.buf.drop_first());
        assert(filled_prefix(s.buf) == filled_prefix(m.buf) - 1);
        lemma_wrx_drain(s, (k - 1) as nat);
        let j = if k <= filled_prefix(m.buf) { k } else { filled_prefix(m.buf) };
        let d = wrx_drain(m, k);
        assert(d == wrx_drain(s, (k - 1) as nat));
        assert(s.emit.subrange(0, s.emit_len as int) =~= m.emit.subrange(0, m.emit_len as int).push(b));
        assert(run_bytes(m.buf, j) =~= seq![b] + run_bytes(s.buf, (j - 1) as nat)) by {
            assert forall|i: int| 0 <= i < j - 1 implies #[trigger] run_bytes(s.buf, (j - 1) as nat)[i] == run_bytes(m.buf, j)[i + 1] by {
                assert(s.buf[i] == m.buf[i + 1]);
            }
        }
        assert(d.emit.subrange(0, d.emit_len as int) =~= m.emit.subrange(0, m.emit_len as int) + run_bytes(m.buf, j));
        assert(d.buf =~= m.buf.skip(j as int) + empty_buf(j)) by {
            assert(s.buf.skip((j - 1) as int) + empty_buf((j - 1) as nat) =~= m.buf.skip(j as int) + empty_buf(j));
        }
        assert(d.expected == (m.expected + j) % 256);
    }
}

/// The DATA byte a windowed poll took into its window, if it took one: the
/// frame's offset from the expected sequence, its sequence and its payload.
pub open spec fn wrx_takes<E>(m: WRxModel, io: RxIo<E>) -> Option<(int, u8, u8)> {
    let (m0, popped) = wrx_pop_emit(m);
    if popped is Some || m0.out.len() > 0 {
        None
    } else {
        match io.read {
            Some(Ok(Some(b))) => if m0.reply.len() < 3 {
                None
            } else {
                match spec_decode(m0.reply.push(b)) {
                    Ok(v) => {
                        let off = seq_dist(v.1, m0.expected) as int;
                        if v.0 is Data && !wrx_closed(m0) && off < m0.buf.len() && m0.buf[off] is None {
                            Some((off, v.1, v.2))
                        } else {
                            None
                        }
                    },
                    Err(_) => None,
                }
            },
            _ => None,
        }
    }
}

/// `f` after a poll that took `t` into a window whose first slot is stream
/// position `base`: the first payload taken at each position is kept.
pub open spec fn taken_update(f: spec_fn(int) -> Option<u8>, t: Option<(int, u8, u8)>, base: int) -> spec_fn(
    int,
) -> Option<u8> {
    match t {
        Some((off, _, b)) => |p: int| if p == base + off && f(p) is None { Some(b) } else { f(p) },
        None => f,
    }
}

/// The first payload a windowed run took in for each stream position, over
/// its first `i` polls; position `p` is the `p`-th byte of the session.
pub open spec fn wrx_first_taken<E>(
    ms: Seq<WRxModel>,
    ios: Seq<RxIo<E>>,
    rs: Seq<Result<PollOutcome, Error<E>>>,
    i: nat,
) -> spec_fn(int) -> Option<u8>
    decreases i,
{
    if i == 0 {
        |p: int| None::<u8>
    } else {
        taken_update(
            wrx_first_taken(ms, ios, rs, (i - 1) as nat),
            wrx_takes(ms[i - 1], ios[i - 1]),
            delivered_bytes(rs.take(i - 1)).len() as int,
        )
    }
}

/// A windowed receiver inside one session: no FINISH or ABORT taken in and
/// no START being answered, with its buffers of equal, nonzero size.
pub open spec fn wrx_in_session(m: WRxModel) -> bool {
    &&& 0 < m.buf.len() <= MAX_WINDOW
    &&& m.emit.len() == m.buf.len()
    &&& m.emit_at <= m.emit_len <= m.emit.len()
    &&& m.finish is None
    &&& !m.aborted
    &&& m.pending != Some(WPendingAction::Started)
}

/// The bytes drained in order and not yet delivered.
pub open spec fn wrx_queued(m: WRxModel) -> Seq<u8> {
    m.emit.subrange(m.emit_at as int, m.emit_len as int)
}

/// How a session's stream stands in `m`, after the bytes `d` were
/// delivered, where `f` gives the first payload taken in at each position
/// and `e0` is the sequence of position 0: the delivered bytes, then the
/// queued ones, are the stream's first positions; the window holds what was
/// taken in at the positions after them, and nothing was taken in beyond.
pub open spec fn wrx_stream(m: WRxModel, d: Seq<u8>, f: spec_fn(int) -> Option<u8>, e0: u8) -> bool {
    let q = wrx_queued(m);
    &&& forall|j: int| 0 <= j < d.len() ==> f(j) == Some(#[trigger] d[j])
    &&& forall|j: int| 0 <= j < q.len() ==> f(d.len() + j) == Some(#[trigger] q[j])
    &&& forall|k: int| 0 <= k < m.buf.len() ==> #[trigger] m.buf[k] == f(d.len() + q.len() + k)
    &&& forall|p: int| #[trigger] f(p) is Some ==> 0 <= p < d.len() + q.len() + m.buf.len()
    &&& m.expected == (e0 + d.len() + q.len()) % 256
}

/// A poll that left the window, the queue and the expected sequence as
/// they were, delivered nothing and took nothing in keeps the stream.
proof fn lemma_wrx_stream_same(m: WRxModel, m2: WRxModel, d: Seq<u8>, f: spec_fn(int) -> Option<u8>, e0: u8)
    requires
        wrx_stream(m, d, f, e0),
        m2.buf == m.buf,
        wrx_queued(m2) == wrx_queued(m),
        m2.expected == m.expected,
    ensures
        wrx_stream(m2, d, f, e0),
{
}

/// Draining an empty queue after an ACK moves the window's in-order run to
/// the queue, and delivers its first byte.
proof fn lemma_wrx_stream_drain(m: WRxModel, d: Seq<u8>, f: spec_fn(int) -> Option<u8>, e0: u8)
    requires
        wrx_in_session(m),
        wrx_stream(m, d, f, e0),
        m.emit_at == 0,
        m.emit_len == 0,
    ensures
        ({
            let m2 = WRxModel { state: RxState::Idle, ..wrx_drain(m, m.buf.len()) };
            let (m3, b) = wrx_pop_emit(m2);
            let d2 = match b {
                Some(x) => d.push(x),
                None => d,
            };
            wrx_stream(m3, d2, f, e0)
        }),
{
    let n = m.buf.len();
    lemma_filled_prefix_bound(m.buf);
    let j = filled_prefix(m.buf);
    lemma_wrx_drain(m, n);
    let dm = wrx_drain(m, n);
    let m2 = WRxModel { state: RxState::Idle, ..dm };
    assert(m.emit.subrange(0, 0) =~= Seq::<u8>::empty());
    assert(dm.emit.subrange(0, dm.emit_len as int) =~= run_bytes(m.buf, j));
    assert(wrx_queued(m2) =~= run_bytes(m.buf, j));
    assert(wrx_queued(m) =~= Seq::<u8>::empty());
    assert(wrx_stream(m2, d, f, e0)) by {
        let q2 = wrx_queued(m2);
        assert forall|jj: int| 0 <= jj < q2.len() implies f(d.len() + jj) == Some(#[trigger] q2[jj]) by {
            assert(m.buf[jj] == f(d.len() + 0 + jj));
            assert(m.buf[jj] is Some);
        }
        assert forall|k: int| 0 <= k < m2.buf.len() implies #[trigger] m2.buf[k] == f(d.len() + q2.len() + k) by {
            if k < n - j {
                assert(m2.buf[k] == m.buf[j + k]);
                assert(m.buf[j + k] == f(d.len() + 0 + (j + k)));
            } else {
                assert(m2.buf[k] == empty_buf(j)[k - (n - j)]);
                if f(d.len() + q2.len() + k) is Some {
                    assert(false);
                }
            }
        }
    }
    let (m3, b) = wrx_pop_emit(m2);
    if j > 0 {
        let q2 = wrx_queued(m2);
        assert(b == Some(q2[0]));
        assert(wrx_queued(m3) =~= q2.drop_first());
        let d2 = d.push(q2[0]);
        assert forall|jj: int| 0 <= jj < d2.len() implies f(jj) == Some(#[trigger] d2[jj]) by {
            if jj == d.len() {
                assert(f(d.len() + 0int) == Some(q2[0]));
            }
        }
        assert forall|jj: int| 0 <= jj < wrx_queued(m3).len() implies f(d2.len() + jj) == Some(
            #[trigger] wrx_queued(m3)[jj],
        ) by {
            assert(f(d.len() + (jj + 1)) == Some(q2[jj + 1]));
        }
        assert forall|k: int| 0 <= k < m3.buf.len() implies #[trigger] m3.buf[k] == f(
            d2.len() + wrx_queued(m3).len() + k,
        ) by {
            assert(m3.buf[k] == m2.buf[k]);
            assert(m2.buf[k] == f(d.len() + q2.len() + k));
        }
    } else {
        assert(wrx_queued(m3) =~= Seq::<u8>::empty());
        assert(wrx_queued(m2) =~= Seq::<u8>::empty());
    }
}

/// Writing a reply byte from an empty queue keeps the stream; the drain it
/// may set off delivers the next position.
proof fn lemma_wrx_stream_pump<E>(
    m: WRxModel,
    w: Option<(u8, Result<(), E>)>,
    d: Seq<u8>,
    f: spec_fn(int) -> Option<u8>,
    e0: u8,
)
    requires
        wrx_in_session(m),
        wrx_stream(m, d, f, e0),
        m.emit_at == 0,
        m.emit_len == 0,
    ensures
        ({
            let (m2, r) = wrx_pump_reply(m, w);
            wrx_stream(
                m2,
                match r {
                    Ok(PollOutcome::Delivered(x)) => d.push(x),
                    _ => d,
                },
                f,
                e0,
            )
        }),
{
    let (m2, r) = wrx_pump_reply(m, w);
    let m1 = if m.out.len() == 0 {
        m
    } else {
        WRxModel { out: m.out.drop_first(), ..m }
    };
    if m.out.len() > 0 && (w matches Some((_, Err(_)))) {
        lemma_wrx_stream_same(m, m2, d, f, e0);
    } else if m1.out.len() > 0 {
        lemma_wrx_stream_same(m, m2, d, f, e0);
    } else if m1.pending == Some(WPendingAction::Drain) {
        let m1p = WRxModel { pending: None, ..m1 };
        lemma_wrx_stream_same(m, m1p, d, f, e0);
        lemma_wrx_stream_drain(m1p, d, f, e0);
    } else {
        lemma_wrx_stream_same(m, m2, d, f, e0);
    }
}

/// A sequence `off` past `b`, where `b` is stream position `base`, is the
/// sequence of position `base + off`.
proof fn lemma_seq_dist_position(a: u8, b: u8, base: int)
    requires
        base >= 0,
        b == base % 256,
    ensures
        a == (base + seq_dist(a, b)) % 256,
{
    let k = seq_dist(a, b) as int;
    vstd::arithmetic::div_mod::lemma_add_mod_noop(base, k, 256);
    assert(b + k == a || b + k == a + 256);
}

/// One poll inside a session keeps the stream: a byte it delivers is the
/// next position, and a DATA byte it takes in lands at its position, whose
/// sequence is the frame's.
proof fn lemma_wrx_stream_step<E>(m: WRxModel, io: RxIo<E>, d: Seq<u8>, f: spec_fn(int) -> Option<u8>, e0: u8)
    requires
        wrx_in_session(m),
        wrx_stream(m, d, f, e0),
        wrx_in_session(wrx_step(m, io).0),
    ensures
        ({
            let (m2, r) = wrx_step(m, io);
            let t = wrx_takes(m, io);
            &&& wrx_stream(
                m2,
                match r {
                    Ok(PollOutcome::Delivered(x)) => d.push(x),
                    _ => d,
                },
                taken_update(f, t, d.len() as int),
                e0,
            )
            &&& (t matches Some((off, s, b)) ==> s == (e0 + d.len() + off) % 256)
        }),
{
    let (m2, r) = wrx_step(m, io);
    let t = wrx_takes(m, io);
    let (m0, popped) = wrx_pop_emit(m);
    if popped is Some {
        let q = wrx_queued(m);
        assert(popped == Some(q[0]));
        assert(wrx_queued(m2) =~= q.drop_first());
        let d2 = d.push(q[0]);
        assert forall|j: int| 0 <= j < d2.len() implies f(j) == Some(#[trigger] d2[j]) by {
            if j == d.len() {
                assert(f(d.len() + 0int) == Some(q[0]));
            }
        }
        assert forall|j: int| 0 <= j < wrx_queued(m2).len() implies f(d2.len() + j) == Some(
            #[trigger] wrx_queued(m2)[j],
        ) by {
            assert(f(d.len() + (j + 1)) == Some(q[j + 1]));
        }
        assert forall|k: int| 0 <= k < m2.buf.len() implies #[trigger] m2.buf[k] == f(
            d2.len() + wrx_queued(m2).len() + k,
        ) by {
            assert(m.buf[k] == f(d.len() + q.len() + k));
        }
    } else {
        assert(wrx_queued(m) =~= Seq::<u8>::empty());
        assert(wrx_queued(m0) =~= Seq::<u8>::empty());
        lemma_wrx_stream_same(m, m0, d, f, e0);
        if m0.out.len() > 0 {
            lemma_wrx_stream_pump(m0, io.wrote, d, f, e0);
        } else {
            let m1 = WRxModel { state: RxState::Receiving, ..m0 };
            lemma_wrx_stream_same(m, m1, d, f, e0);
            if let Some(Ok(Some(b))) = io.read {
                if m1.reply.len() >= 3 {
                    let mv = WRxModel { reply: Seq::empty(), state: RxState::Validating, ..m1 };
                    lemma_wrx_stream_same(m, mv, d, f, e0);
                    match spec_decode(m1.reply.push(b)) {
                        Err(err) => {
                            let mb = wrx_begin_reply(
                                mv,
                                (FrameType::Nack, mv.expected, 0u8),
                                if err is CrcMismatch {
                                    WPendingAction::CrcRejected
                                } else {
                                    WPendingAction::Rejected
                                },
                            );
                            lemma_wrx_stream_same(m, mb, d, f, e0);
                            lemma_wrx_stream_pump(mb, io.wrote, d, f, e0);
                        },
                        Ok(v) => {
                            if !(v.0 is Ack || v.0 is Nack) {
                                let h = wrx_handle(mv, v);
                                assert(h.out.len() == 4 || h.out.len() == 0);
                                if v.0 is Data {
                                    let n = mv.buf.len();
                                    let off = seq_dist(v.1, mv.expected) as int;
                                    let back = seq_dist(mv.expected, v.1) as int;
                                    if off < n {
                                        let f2 = taken_update(f, t, d.len() as int);
                                        let mb = if mv.buf[off] is None {
                                            WRxModel { buf: mv.buf.update(off, Some(v.2)), ..mv }
                                        } else {
                                            mv
                                        };
                                        lemma_seq_dist_position(v.1, mv.expected, e0 + d.len());
                                        assert(wrx_stream(mb, d, f2, e0)) by {
                                            if mv.buf[off] is None {
                                                assert(t == Some((off, v.1, v.2)));
                                                assert(f(d.len() + 0 + off) is None);
                                                assert forall|k: int| 0 <= k < mb.buf.len() implies #[trigger] mb.buf[k]
                                                    == f2(d.len() + wrx_queued(mb).len() + k) by {
                                                    assert(mv.buf[k] == f(d.len() + 0 + k));
                                                }
                                                assert forall|p: int| #[trigger] f2(p) is Some implies 0 <= p < d.len()
                                                    + wrx_queued(mb).len() + mb.buf.len() by {
                                                    if p != d.len() + off {
                                                        assert(f(p) is Some);
                                                    }
                                                }
                                                assert forall|j: int| 0 <= j < d.len() implies f2(j) == Some(
                                                    #[trigger] d[j],
                                                ) by {
                                                    assert(f(j) == Some(d[j]));
                                                }
                                            } else {
                                                assert(t is None);
                                            }
                                        }
                                        let hb = wrx_begin_reply(
                                            mb,
                                            (FrameType::Ack, v.1, 0u8),
                                            if off == 0 {
                                                WPendingAction::Drain
                                            } else {
                                                WPendingAction::Quiet
                                            },
                                        );
                                        assert(h == hb);
                                        lemma_wrx_stream_pump(hb, io.wrote, d, f2, e0);
                                    } else {
                                        assert(t is None);
                                        lemma_wrx_stream_same(m, h, d, f, e0);
                                        lemma_wrx_stream_pump(h, io.wrote, d, f, e0);
                                    }
                                } else if v.0 is Finish && v.1 != mv.expected {
                                    assert(t is None);
                                    lemma_wrx_stream_same(m, h, d, f, e0);
                                    lemma_wrx_stream_pump(h, io.wrote, d, f, e0);
                                } else {
                                    assert(t is None);
                                    if v.0 is Start || v.0 is Finish || v.0 is Abort {
                                        assert(!wrx_in_session(m2));
                                    } else {
                                        lemma_wrx_stream_same(m, m2, d, f, e0);
                                    }
                                }
                            } else {
                                assert(t is None);
                            }
                        },
                    }
                }
            }
        }
    }
}

/// Within one session a windowed receiver delivers only in order, each
/// stream position once.
///
/// Over a run of polls that starts with an empty window and queue, and in
/// which no START, FINISH or ABORT is taken in: the `j`-th byte delivered is
/// the payload of the first DATA frame taken into the window for stream
/// position `j`, and a DATA frame taken in for position `p` carried the
/// sequence `expected + p` (mod 256) of the run's first state. Frames that
/// arrive early wait in the window; duplicates, frames outside the window
/// and frames that fail their check are never delivered.
pub proof fn lemma_wrx_in_order<E>(
    ms: Seq<WRxModel>,
    ios: Seq<RxIo<E>>,
    rs: Seq<Result<PollOutcome, Error<E>>>,
)
    requires
        wrx_io_run(ms, ios, rs),
        forall|i: int| 0 <= i < ms.len() ==> #[trigger] wrx_in_session(ms[i]),
        ms[0].buf == empty_buf(ms[0].buf.len()),
        ms[0].emit_at == ms[0].emit_len,
    ensures
        forall|j: int|
            0 <= j < delivered_bytes(rs).len() ==> wrx_first_taken(ms, ios, rs, rs.len())(j) == Some(
                #[trigger] delivered_bytes(rs)[j],
            ),
        forall|i: int|
            0 <= i < rs.len() ==> (#[trigger] wrx_takes(ms[i], ios[i]) matches Some((off, s, b)) ==> s == (
            ms[0].expected + delivered_bytes(rs.take(i)).len() + off) % 256),
{
    lemma_wrx_stream_upto(ms, ios, rs, rs.len());
    assert(rs.take(rs.len() as int) =~= rs);
}

/// The stream invariant after the first `i` polls of a run inside one
/// session, and the sequences of what those polls took in.
proof fn lemma_wrx_stream_upto<E>(
    ms: Seq<WRxModel>,
    ios: Seq<RxIo<E>>,
    rs: Seq<Result<PollOutcome, Error<E>>>,
    i: nat,
)
    requires
        wrx_io_run(ms, ios, rs),
        forall|k: int| 0 <= k < ms.len() ==> #[trigger] wrx_in_session(ms[k]),
        ms[0].buf == empty_buf(ms[0].buf.len()),
        ms[0].emit_at == ms[0].emit_len,
        i <= rs.len(),
    ensures
        wrx_stream(ms[i as int], delivered_bytes(rs.take(i as int)), wrx_first_taken(ms, ios, rs, i), ms[0].expected),
        forall|k: int|
            0 <= k < i ==> (#[trigger] wrx_takes(ms[k], ios[k]) matches Some((off, s, b)) ==> s == (
            ms[0].expected + delivered_bytes(rs.take(k)).len() + off) % 256),
    decreases i,
{
    let e0 = ms[0].expected;
    if i == 0 {
        assert(wrx_in_session(ms[0]));
        assert(rs.take(0) =~= Seq::<Result<PollOutcome, Error<E>>>::empty());
        assert(wrx_queued(ms[0]) =~= Seq::<u8>::empty());
        let f0 = wrx_first_taken(ms, ios, rs, 0);
        assert forall|k: int| 0 <= k < ms[0].buf.len() implies #[trigger] ms[0].buf[k] == f0(
            0 + wrx_queued(ms[0]).len() + k,
        ) by {
            assert(ms[0].buf[k] == empty_buf(ms[0].buf.len())[k]);
        }
        assert(delivered_bytes(rs.take(0)) =~= Seq::<u8>::empty());
        assert(forall|p: int| !(#[trigger] f0(p) is Some));
        assert(ms[0].expected == (e0 + 0 + 0) % 256);
        assert(wrx_stream(ms[0], delivered_bytes(rs.take(0)), f0, e0));
    } else {
        let p = (i - 1) as int;
        lemma_wrx_stream_upto(ms, ios, rs, (i - 1) as nat);
        assert(wrx_io_step(ms[p], ios[p], ms[p + 1], rs[p]));
        assert(wrx_in_session(ms[p]));
        assert(wrx_in_session(ms[p + 1]));
        let d = delivered_bytes(rs.take(p));
        let f = wrx_first_taken(ms, ios, rs, (i - 1) as nat);
        lemma_wrx_stream_step(ms[p], ios[p], d, f, e0);
        assert(rs.take(i as int).drop_last() =~= rs.take(p));
        assert(rs.take(i as int).last() == rs[p]);
        assert(delivered_bytes(rs.take(i as int)) == delivered_bytes(rs.take(p)) + match rs[p] {
            Ok(PollOutcome::Delivered(b)) => seq![b],
            _ => Seq::empty(),
        });
        assert(wrx_first_taken(ms, ios, rs, i) == taken_update(f, wrx_takes(ms[p], ios[p]), d.len() as int));
        match rs[p] {
            Ok(PollOutcome::Delivered(b)) => {
                assert(d + seq![b] =~= d.push(b));
            },
            _ => {
                assert(d + Seq::<u8>::empty() =~= d);
            },
        }
        assert(wrx_stream(ms[i as int], delivered_bytes(rs.take(i as int)), wrx_first_taken(ms, ios, rs, i), e0));
    }
}

/// A retransmitted DATA frame, whose sequence lies 1 to `N` behind the
/// expected one, is answered with exactly the four bytes of ACK(that
/// sequence), so the sender can free its slot; it is reported as a
/// duplicate, never delivered, and leaves the window and the expected
/// sequence as they were.
pub proof fn lemma_wrx_duplicate_reacked<E>(m: WRxModel, io: RxIo<E>)
    requires
        m.emit_at == m.emit_len,
        m.out.len() == 0,
        m.reply.len() == 3,
        !wrx_closed(m),
        0 < m.buf.len() <= MAX_WINDOW,
        io.read matches Some(Ok(Some(b))) && (spec_decode(m.reply.push(b)) matches Ok(v) && v.0 is Data
            && 1 <= seq_dist(m.expected, v.1) <= m.buf.len()),
    ensures
        ({
            let b = io.read->Some_0->Ok_0->Some_0;
            let v = spec_decode(m.reply.push(b))->Ok_0;
            let (m2, r) = wrx_step(m, io);
            &&& wrx_reply_source(m, io.read) == spec_encode((FrameType::Ack, v.1, 0u8))
            &&& !(r matches Ok(PollOutcome::Delivered(_)))
            &&& m2.expected == m.expected
            &&& m2.buf == m.buf
            &&& m2.pending == Some(WPendingAction::Duplicate)
        }),
{
    let b = io.read->Some_0->Ok_0->Some_0;
    let v = spec_decode(m.reply.push(b))->Ok_0;
    assert(seq_dist(v.1, m.expected) >= m.buf.len());
}

/// Every DATA frame on an open session is answered by a frame naming its
/// sequence: an ACK when the sequence lies inside the window (0 to `N - 1`
/// ahead of the expected one) or 1 to `N` behind it, and a NACK for any
/// other sequence, which leaves the window and the expected sequence alone.
pub proof fn lemma_wrx_data_reply<E>(m: WRxModel, io: RxIo<E>)
    requires
        m.emit_at == m.emit_len,
        m.out.len() == 0,
        m.reply.len() == 3,
        !wrx_closed(m),
        0 < m.buf.len() <= MAX_WINDOW,
        io.read matches Some(Ok(Some(b))) && (spec_decode(m.reply.push(b)) matches Ok(v) && v.0 is Data),
    ensures
        ({
            let b = io.read->Some_0->Ok_0->Some_0;
            let v = spec_decode(m.reply.push(b))->Ok_0;
            let ahead = seq_dist(v.1, m.expected);
            let behind = seq_dist(m.expected, v.1);
            let (m2, r) = wrx_step(m, io);
            &&& (ahead < m.buf.len() || 1 <= behind <= m.buf.len()) ==> wrx_reply_source(m, io.read)
                == spec_encode((FrameType::Ack, v.1, 0u8))
            &&& !(ahead < m.buf.len() || 1 <= behind <= m.buf.len()) ==> {
                &&& wrx_reply_source(m, io.read) == spec_encode((FrameType::Nack, v.1, 0u8))
                &&& m2.buf == m.buf
                &&& m2.expected == m.expected
                &&& !(r matches Ok(PollOutcome::Delivered(_)))
            }
        }),
{
}

/// The reply a windowed poll writes from: the one in progress, or the one
/// begun for the frame that the byte just read completes; empty when the
/// poll writes nothing.
pub open spec fn wrx_reply_source<E>(m: WRxModel, read: Option<Result<Option<u8>, E>>) -> Seq<u8> {
    let m0 = wrx_pop_emit(m).0;
    if m.emit_at < m.emit_len {
        Seq::empty()
    } else if m0.out.len() > 0 {
        m0.out
    } else {
        match read {
            Some(Ok(Some(b))) => if m0.reply.len() < 3 {
                Seq::empty()
            } else {
                let m1 = WRxModel { reply: Seq::empty(), state: RxState::Validating, ..m0 };
                match spec_decode(m0.reply.push(b)) {
                    Err(_) => if wrx_closed(m1) {
                        Seq::empty()
                    } else {
                        spec_encode((FrameType::Nack, m1.expected, 0u8))
                    },
                    Ok(v) => if v.0 is Ack || v.0 is Nack {
                        Seq::empty()
                    } else {
                        wrx_handle(m1, v).out
                    },
                }
            },
            _ => Seq::empty(),
        }
    }
}

/// Which transport calls one windowed receiver poll makes: none while
/// in-order bytes wait; a write while a reply is in progress; otherwise a
/// read, then a write exactly when a reply was just begun. A write hands
/// over the next byte of that reply.
pub open spec fn wrx_io_fits<E>(m: WRxModel, io: RxIo<E>) -> bool {
    &&& if m.emit_at < m.emit_len || m.out.len() > 0 {
        io.read is None
    } else {
        io.read is Some
    }
    &&& (io.wrote is Some <==> wrx_reply_source(m, io.read).len() > 0)
    &&& (io.wrote matches Some((x, _)) ==> x == wrx_reply_source(m, io.read)[0])
}

/// A selective-repeat receiver with a compile-time window of `N` frames.
pub struct WindowedReceiver<T: ByteTransport, const N: usize> {
    transport: T,
    expected_seq: Sequence,
    buf: [Option<u8>; N],
    emit: [u8; N],
    emit_at: usize,
    emit_len: usize,
    state: RxState,
    assembler: FrameAssembler,
    out: OutBuf,
    pending: Option<WPendingAction>,
    finish_seq: Option<u8>,
    abort_latched: bool,
}

impl<T: ByteTransport, const N: usize> WindowedReceiver<T, N> {
    /// The receiver's state apart from its transport.
    pub closed spec fn model(&self) -> WRxModel {
        WRxModel {
            expected: self.expected_seq@,
            buf: self.buf@,
            emit: self.emit@,
            emit_at: self.emit_at,
            emit_len: self.emit_len,
            state: self.state,
            reply: self.assembler@,
            out: self.out@,
            pending: self.pending,
            finish: self.finish_seq,
            aborted: self.abort_latched,
        }
    }

    /// Internal consistency, kept by every operation.
    pub closed spec fn wf(&self) -> bool {
        &&& self.assembler.wf()
        &&& 1 <= N <= MAX_WINDOW
        &&& self.emit_len <= N
    }

    /// The transport the receiver reads from and writes to.
    pub closed spec fn link(&self) -> T {
        self.transport
    }

    /// A windowed receiver expecting the first DATA at sequence 0.
    pub fn new(transport: T) -> (r: Self)
        requires
            1 <= N <= MAX_WINDOW,
        ensures
            r.wf(),
            r.link() == transport,
            r.model().expected == 0,
            r.model().buf == empty_buf(N as nat),
            r.model().emit.len() == N,
            r.model().emit_at == 0,
            r.model().emit_len == 0,
            r.model().state == RxState::Idle,
            r.model().reply == Seq::<u8>::empty(),
            r.model().out == Seq::<u8>::empty(),
            r.model().pending is None,
            r.model().finish is None,
            !r.model().aborted,
    {
        let r = WindowedReceiver {
            transport,
            expected_seq: Sequence::new(),
            buf: [None; N],
            emit: [0; N],
            emit_at: 0,
            emit_len: 0,
            state: RxState::Idle,
            assembler: FrameAssembler::new(),
            out: OutBuf::empty(),
            pending: None,
            finish_seq: None,
            abort_latched: false,
        };
        assert(r.buf@ =~= empty_buf(N as nat));
        r
    }

    /// Current coarse state.
    pub fn state(&self) -> (s: RxState)
        ensures
            s == self.model().state,
    {
        self.state
    }

    /// Next in-order DATA sequence (also the SEQ a valid FINISH must carry).
    pub fn expected_seq(&self) -> (s: u8)
        ensures
            s == self.model().expected,
    {
        self.expected_seq.current()
    }

    /// Sets the next in-order sequence, as if that many bytes had been
    /// delivered.
    pub fn set_expected_seq(&mut self, seq: u8)
        ensures
            final(self).wf() == old(self).wf(),
            final(self).link() == old(self).link(),
            final(self).model() == (WRxModel { expected: seq, ..old(self).model() }),
    {
        self.expected_seq = Sequence::from_raw(seq);
    }

    /// The window length `N`.
    pub fn window_size(&self) -> (n: usize)
        ensures
            n == N,
    {
        N
    }

    fn settle_idle(&mut self)
        ensures
            final(self).wf() == old(self).wf(),
            final(self).link() == old(self).link(),
            final(self).model() == wrx_settle(old(self).model()),
    {
        self.state = if self.abort_latched {
            RxState::Aborted
        } else if self.finish_seq.is_some() {
            RxState::Finished
        } else {
            RxState::Idle
        };
    }

    fn clear_window(&mut self)
        requires
            old(self).wf(),
        ensures
            final(self).wf(),
            final(self).link() == old(self).link(),
            final(self).model() == wrx_clear(old(self).model()),
    {
        self.buf = [None; N];
        self.emit_at = 0;
        self.emit_len = 0;
        assert(self.buf@ =~= empty_buf(N as nat));
    }

    fn push_emit(&mut self, byte: u8)
        requires
            old(self).wf(),
        ensures
            final(self).wf(),
            final(self).link() == old(self).link(),
            final(self).model() == wrx_push_emit(old(self).model(), byte),
    {
        if self.emit_len >= N {
            return;
        }
        self.emit[self.emit_len] = byte;
        self.emit_len = self.emit_len + 1;
    }

    fn pop_emit(&mut self) -> (b: Option<u8>)
        requires
            old(self).wf(),
        ensures
            final(self).wf(),
            final(self).link() == old(self).link(),
            (final(self).model(), b) == wrx_pop_emit(old(self).model()),
    {
        if self.emit_at >= self.emit_len {
            self.emit_at = 0;
            self.emit_len = 0;
            return None;
        }
        let byte = self.emit[self.emit_at];
        self.emit_at = self.emit_at + 1;
        if self.emit_at >= self.emit_len {
            self.emit_at = 0;
            self.emit_len = 0;
        }
        Some(byte)
    }

    fn drain_in_order(&mut self)
        requires
            old(self).wf(),
        ensures
            final(self).wf(),
            final(self).link() == old(self).link(),
            final(self).model() == wrx_drain(old(self).model(), N as nat),
    {
        let mut k: usize = N;
        while k > 0
            invariant
                k <= N,
                self.wf(),
                self.link() == old(self).link(),
                self.buf@.len() == N,
                wrx_drain(old(self).model(), N as nat) == wrx_drain(self.model(), k as nat),
            ensures
                self.wf(),
                self.link() == old(self).link(),
                self.model() == wrx_drain(old(self).model(), N as nat),
            decreases k,
        {
            let byte = match self.buf[0] {
                None => break,
                Some(b) => b,
            };
            let ghost m0 = self.model();
            self.buf[0] = None;
            let mut i: usize = 0;
            while i + 1 < N
                invariant
                    i + 1 <= N,
                    self.wf(),
                    self.link() == old(self).link(),
                    self.buf@.len() == N,
                    m0.buf.len() == N,
                    self.model() == (WRxModel { buf: self.buf@, ..m0 }),
                    forall|j: int| 0 <= j < i ==> self.buf@[j] == m0.buf[j + 1],
                    forall|j: int| i < j < N ==> self.buf@[j] == m0.buf[j],
                decreases N - i,
            {
                self.buf[i] = self.buf[i + 1];
                i = i + 1;
            }
            self.buf[N - 1] = None;
            assert(self.buf@ =~= m0.buf.drop_first().push(None));
            self.expected_seq.advance();
            self.push_emit(byte);
            k = k - 1;
        }
    }

    fn begin_reply(&mut self, frame: &Frame, action: WPendingAction)
        ensures
            final(self).wf() == old(self).wf(),
            final(self).link() == old(self).link(),
            final(self).model() == wrx_begin_reply(old(self).model(), frame@, action),
    {
        self.out.load(frame);
        self.pending = Some(action);
        self.state = RxState::Acknowledging;
    }

    fn take_pending(&mut self) -> (o: Option<PollOutcome>)
        requires
            old(self).wf(),
        ensures
            final(self).wf(),
            final(self).link() == old(self).link(),
            (final(self).model(), o) == wrx_take_pending(old(self).model()),
    {
        let action = match self.pending {
            None => return None,
            Some(a) => a,
        };
        self.pending = None;
        match action {
            WPendingAction::Drain => {
                self.drain_in_order();
                self.state = RxState::Idle;
                match self.pop_emit() {
                    Some(b) => Some(PollOutcome::Delivered(b)),
                    None => None,
                }
            },
            WPendingAction::Duplicate => {
                self.settle_idle();
                Some(PollOutcome::DuplicateIgnored)
            },
            WPendingAction::Quiet => {
                self.settle_idle();
                Some(PollOutcome::Pending)
            },
            WPendingAction::Started => {
                self.finish_seq = None;
                self.abort_latched = false;
                self.state = RxState::Idle;
                Some(PollOutcome::Started)
            },
            WPendingAction::Finished => {
                self.state = RxState::Finished;
                Some(PollOutcome::TransferFinished)
            },
            WPendingAction::Aborted => {
                self.state = RxState::Aborted;
                Some(PollOutcome::Aborted)
            },
            WPendingAction::Rejected => {
                self.settle_idle();
                Some(PollOutcome::Rejected)
            },
            WPendingAction::CrcRejected => {
                self.settle_idle();
                Some(PollOutcome::CrcRejected)
            },
        }
    }

    fn pump_reply(&mut self) -> (res: (Result<PollOutcome, Error<T::Error>>, Ghost<
        Option<(u8, Result<(), T::Error>)>,
    >))
        requires
            old(self).wf(),
        ensures
            final(self).wf(),
            old(self).model().out.len() > 0 <==> res.1@ is Some,
            res.1@ matches Some((x, _)) ==> x == old(self).model().out[0],
            (final(self).model(), res.0) == wrx_pump_reply(old(self).model(), res.1@),
            (T::keeps_calls() ==> final(self).link().calls() == old(self).link().calls() + match res.1@ {
                Some((b, w)) => seq![write_call(b, w)],
                None => Seq::<LinkCall>::empty(),
            }),
    {
        let byte = match self.out.peek() {
            None => {
                let o = self.take_pending();
                let out = match o {
                    Some(x) => x,
                    None => PollOutcome::Pending,
                };
                return (Ok(out), Ghost(None));
            },
            Some(b) => b,
        };
        let w = self.transport.write_byte(byte);
        let ghost wrote = Some((byte, w));
        match w {
            Err(e) => return (Err(Error::Transport(e)), Ghost(wrote)),
            Ok(()) => {},
        }
        self.out.commit();
        if self.out.is_idle() {
            let o = self.take_pending();
            let out = match o {
                Some(x) => x,
                None => PollOutcome::Pending,
            };
            (Ok(out), Ghost(wrote))
        } else {
            self.state = RxState::Acknowledging;
            (Ok(PollOutcome::Pending), Ghost(wrote))
        }
    }

    fn handle_frame(&mut self, frame: Frame)
        requires
            old(self).wf(),
            !(frame@.0 is Ack || frame@.0 is Nack),
        ensures
            final(self).wf(),
            final(self).link() == old(self).link(),
            final(self).model() == wrx_handle(old(self).model(), frame@),
    {
        let seq = frame.seq();
        match frame.frame_type() {
            FrameType::Data => {
                if self.abort_latched {
                    self.state = RxState::Aborted;
                    return;
                }
                if self.finish_seq.is_some() {
                    self.state = RxState::Finished;
                    return;
                }
                let expected = self.expected_seq.current();
                let delta = seq.wrapping_sub(expected);
                if (delta as usize) < N {
                    let off = delta as usize;
                    if self.buf[off].is_none() {
                        self.buf[off] = Some(frame.payload());
                    }
                    let action = if off == 0 {
                        WPendingAction::Drain
                    } else {
                        WPendingAction::Quiet
                    };
                    self.begin_reply(&Frame::ack(seq), action);
                    return;
                }
                let back = expected.wrapping_sub(seq);
                if back >= 1 && (back as usize) <= N {
                    self.begin_reply(&Frame::ack(seq), WPendingAction::Duplicate);
                    return;
                }
                self.begin_reply(&Frame::nack(seq), WPendingAction::Rejected);
            },
            FrameType::Start => {
                self.expected_seq = Sequence::new();
                self.finish_seq = None;
                self.abort_latched = false;
                self.clear_window();
                self.begin_reply(&Frame::ack(0), WPendingAction::Started);
            },
            FrameType::Finish => {
                if self.abort_latched {
                    self.state = RxState::Aborted;
                    return;
                }
                if let Some(closed) = self.finish_seq {
                    if seq == closed {
                        self.begin_reply(&Frame::ack(seq), WPendingAction::Finished);
                    } else {
                        self.state = RxState::Finished;
                    }
                    return;
                }
                if seq != self.expected_seq.current() {
                    self.begin_reply(&Frame::nack(seq), WPendingAction::Rejected);
                    return;
                }
                self.finish_seq = Some(seq);
                self.clear_window();
                self.begin_reply(&Frame::ack(seq), WPendingAction::Finished);
            },
            FrameType::Abort => {
                if self.finish_seq.is_some() {
                    self.state = RxState::Finished;
                    return;
                }
                self.abort_latched = true;
                self.expected_seq = Sequence::new();
                self.clear_window();
                self.begin_reply(&Frame::ack(0), WPendingAction::Aborted);
            },
            FrameType::Ack | FrameType::Nack => {
                self.settle_idle();
            },
        }
    }

    fn poll_io(&mut self) -> (res: (Result<PollOutcome, Error<T::Error>>, Ghost<RxIo<T::Error>>))
        requires
            old(self).wf(),
        ensures
            final(self).wf(),
            wrx_io_fits(old(self).model(), res.1@),
            wrx_step(old(self).model(), res.1@) == (final(self).model(), res.0),
            (T::keeps_calls() ==> final(self).link().calls() == old(self).link().calls() + rx_link_calls(res.1@)),
    {
        if let Some(byte) = self.pop_emit() {
            return (Ok(PollOutcome::Delivered(byte)), Ghost(RxIo { read: None, wrote: None }));
        }
        if !self.out.is_idle() {
            let (r, Ghost(w)) = self.pump_reply();
            return (r, Ghost(RxIo { read: None, wrote: w }));
        }
        self.state = RxState::Receiving;
        let rd = self.transport.read_byte();
        let ghost read = Some(rd);
        let byte = match rd {
            Err(e) => return (Err(Error::Transport(e)), Ghost(RxIo { read, wrote: None })),
            Ok(None) => {
                self.settle_idle();
                return (Ok(PollOutcome::Pending), Ghost(RxIo { read, wrote: None }));
            },
            Ok(Some(b)) => b,
        };
        let ghost m0 = self.model();
        let decoded = match self.assembler.push(byte) {
            None => {
                assert(self.model() == WRxModel { reply: m0.reply.push(byte), ..m0 });
                return (Ok(PollOutcome::Pending), Ghost(RxIo { read, wrote: None }));
            },
            Some(d) => d,
        };
        self.state = RxState::Validating;
        assert(self.model() == WRxModel { reply: Seq::empty(), state: RxState::Validating, ..m0 });
        let frame = match decoded {
            Err(err) => {
                if self.abort_latched || self.finish_seq.is_some() {
                    self.settle_idle();
                    return (Ok(PollOutcome::Pending), Ghost(RxIo { read, wrote: None }));
                }
                let action = match err {
                    FrameError::CrcMismatch { .. } => WPendingAction::CrcRejected,
                    _ => WPendingAction::Rejected,
                };
                let nack = Frame::nack(self.expected_seq.current());
                self.begin_reply(&nack, action);
                let (r, Ghost(w)) = self.pump_reply();
                return (r, Ghost(RxIo { read, wrote: w }));
            },
            Ok(f) => f,
        };
        match frame.frame_type() {
            FrameType::Ack | FrameType::Nack => {
                self.settle_idle();
                return (Ok(PollOutcome::Pending), Ghost(RxIo { read, wrote: None }));
            },
            _ => {},
        }
        self.handle_frame(frame);
        let (r, Ghost(w)) = self.pump_reply();
        (r, Ghost(RxIo { read, wrote: w }))
    }

    /// Delivers a queued in-order byte, or writes at most one reply byte,
    /// or reads at most one incoming byte (and, when that completes a frame,
    /// writes the first byte of the reply).
    ///
    /// The next state and the result are [`wrx_step`] of the previous state
    /// and of what the transport answered; the byte handed to a write is
    /// the one [`wrx_io_fits`] names, and the calls made on the transport
    /// are exactly those the record lists.
    pub fn poll(&mut self) -> (r: Result<PollOutcome, Error<T::Error>>)
        requires
            old(self).wf(),
        ensures
            final(self).wf(),
            exists|io: RxIo<T::Error>|
                wrx_io_fits(old(self).model(), io) && #[trigger] wrx_step(old(self).model(), io)
                    == (final(self).model(), r) && (T::keeps_calls() ==> final(self).link().calls() == old(
                    self,
                ).link().calls() + rx_link_calls(io)),
    {
        let (r, Ghost(io)) = self.poll_io();
        assert(wrx_io_fits(old(self).model(), io) && wrx_step(old(self).model(), io) == (
        self.model(), r) && (T::keeps_calls() ==> self.link().calls() == old(self).link().calls() + rx_link_calls(io)));
        r
    }

    /// The transport, for inspection.
    pub fn transport(&self) -> (t: &T)
        ensures
            *t == self.link(),
    {
        &self.transport
    }

    /// Unwraps the transport.
    pub fn release(self) -> (t: T)
        ensures
            t == self.link(),
    {
        self.transport
    }
}

} // verus!
