//! Application data is bytes; the four-byte frame is only the envelope.
//!
//! A JPEG, a 4 GB file and a 4-byte config blob take the same path: a
//! [`ByteSource`] yields one byte at a time, the sender carries it, the
//! receiver hands it to a [`ByteSink`]. Nothing here owns the blob.

use vstd::prelude::*;
use crate::error::Error;
use crate::protocol::sequence::seq_next;
use crate::rx::{delivered_bytes, lemma_rx_io_run_push, rx_io_fits, rx_io_run, rx_run_calls, rx_step, PollOutcome, Receiver, RxIo, RxModel};
use crate::timeout::{tick_runs_out, ticked_idle, IdleBudget};
use crate::transport::{ByteSink, ByteSource, ByteTransport};
use crate::rx::rx_link_calls;
use crate::tx::{
    acked_finish, acked_send, link_calls, tx_drove, tx_io_run, tx_queued, tx_run_calls, tx_stopped, FlightKind,
    LinkIo, Sender, TxModel, TxPoll,
};
use crate::transport::LinkCall;
use crate::window::rx::{lemma_wrx_io_run_push, wrx_io_fits, wrx_io_run, wrx_step, WRxModel};
use crate::window::tx::{
    first_index, lemma_wtx_step_outcomes, lemma_wtx_trace_append, lemma_wtx_trace_push, session_slot, wtx_io_fits,
    wtx_step, wtx_trace, wtx_trace_calls, wtx_trace_offers, WTxEvent, WTxModel,
};
use crate::window::{WindowedReceiver, WindowedSender};

verus! {

/// Error from a source-to-sink transfer: the link, or the application's
/// reader/writer.
#[derive(Debug, Clone, Copy, PartialEq, Eq)]
pub enum StreamError<Link, App> {
    /// ACK/NACK/CRC/retry failure on the wire.
    Protocol(Error<Link>),
    /// The [`ByteSource`] or [`ByteSink`] failed.
    Application(App),
}

/// The destination slice had no room for the next byte.
#[derive(Debug, Clone, Copy, PartialEq, Eq, Structural)]
pub struct SliceFull;

/// The error type of a source that never fails: no value of it is ever
/// produced.
#[derive(Debug, Clone, Copy, PartialEq, Eq, Structural)]
pub struct NoError;

/// Borrowed byte source. The caller owns the buffer.
pub struct SliceSource<'a> {
    rest: &'a [u8],
    taken: Ghost<Seq<Option<u8>>>,
}

impl<'a> SliceSource<'a> {
    /// The bytes not yet read.
    pub closed spec fn rest(&self) -> Seq<u8> {
        self.rest@
    }

    /// Streams `bytes` from the start.
    pub fn new(bytes: &'a [u8]) -> (s: SliceSource<'a>)
        ensures
            s.rest() == bytes@,
            s.reads() == Seq::<Option<u8>>::empty(),
    {
        SliceSource { rest: bytes, taken: Ghost(Seq::empty()) }
    }

    /// Bytes not yet offered.
    pub fn remaining(&self) -> (n: usize)
        ensures
            n == self.rest().len(),
    {
        self.rest.len()
    }

    /// The next byte, or `None` once every byte was read.
    pub fn next_byte(&mut self) -> (r: Option<u8>)
        ensures
            old(self).rest().len() == 0 ==> r is None && final(self).rest() == old(self).rest(),
            old(self).rest().len() > 0 ==> r == Some(old(self).rest()[0]) && final(self).rest()
                == old(self).rest().drop_first(),
            final(self).reads() == old(self).reads().push(r),
    {
        if self.rest.len() == 0 {
            self.taken = Ghost(self.taken@.push(None));
            return None;
        }
        let (first, rest) = self.rest.split_at(1);
        self.rest = rest;
        assert(rest@ =~= old(self).rest().drop_first());
        let b = first[0];
        self.taken = Ghost(self.taken@.push(Some(b)));
        Some(b)
    }
}

impl<'a> ByteSource for SliceSource<'a> {
    type Error = NoError;

    open spec fn keeps_reads() -> bool {
        true
    }

    /// The answers given so far.
    closed spec fn reads(&self) -> Seq<Option<u8>> {
        self.taken@
    }

    /// The next byte, or `Ok(None)` once every byte was read. NoError fails.
    fn read_byte(&mut self) -> (r: Result<Option<u8>, NoError>)
        ensures
            old(self).rest().len() == 0 ==> r == Ok::<Option<u8>, NoError>(None) && final(self).rest()
                == old(self).rest(),
            old(self).rest().len() > 0 ==> r == Ok::<Option<u8>, NoError>(Some(old(self).rest()[0]))
                && final(self).rest() == old(self).rest().drop_first(),
    {
        Ok(self.next_byte())
    }
}

/// Borrowed byte sink. The caller owns the buffer.
pub struct SliceSink<'a> {
    buf: &'a mut [u8],
    pos: usize,
}

impl<'a> SliceSink<'a> {
    /// The whole destination buffer.
    pub closed spec fn contents(&self) -> Seq<u8> {
        self.buf@
    }

    /// How many bytes were written.
    pub closed spec fn pos(&self) -> nat {
        self.pos as nat
    }

    /// Writes into `buf` from index 0.
    pub fn new(buf: &'a mut [u8]) -> (s: SliceSink<'a>)
        ensures
            s.pos() == 0,
            s.contents() == old(buf)@,
    {
        SliceSink { buf, pos: 0 }
    }

    /// How many bytes were written.
    pub fn filled(&self) -> (n: usize)
        ensures
            n == self.pos(),
    {
        self.pos
    }

    /// Appends one byte, or reports that the buffer is full.
    pub fn push(&mut self, byte: u8) -> (r: Result<(), SliceFull>)
        ensures
            old(self).pos() < old(self).contents().len() ==> {
                &&& r is Ok
                &&& final(self).pos() == old(self).pos() + 1
                &&& final(self).contents() == old(self).contents().update(old(self).pos() as int, byte)
            },
            old(self).pos() >= old(self).contents().len() ==> {
                &&& r is Err
                &&& final(self).pos() == old(self).pos()
                &&& final(self).contents() == old(self).contents()
            },
    {
        if self.pos >= self.buf.len() {
            return Err(SliceFull);
        }
        self.buf[self.pos] = byte;
        self.pos = self.pos + 1;
        Ok(())
    }

    /// The prefix that was written.
    pub fn written(&self) -> (w: &[u8])
        requires
            self.pos() <= self.contents().len(),
        ensures
            w@ == self.contents().take(self.pos() as int),
    {
        let w = &self.buf[0..self.pos];
        assert(w@ =~= self.contents().take(self.pos() as int));
        w
    }
}

impl<'a> ByteSink for SliceSink<'a> {
    type Error = SliceFull;

    open spec fn keeps_accepted() -> bool {
        true
    }

    /// The bytes written so far: the filled prefix of the buffer.
    closed spec fn accepted(&self) -> Seq<u8> {
        self.buf@.take(self.pos as int)
    }

    /// Appends one byte, or reports that the buffer is full.
    fn write_byte(&mut self, byte: u8) -> (r: Result<(), SliceFull>)
        ensures
            old(self).pos() < old(self).contents().len() ==> {
                &&& r is Ok
                &&& final(self).pos() == old(self).pos() + 1
                &&& final(self).contents() == old(self).contents().update(old(self).pos() as int, byte)
            },
            old(self).pos() >= old(self).contents().len() ==> {
                &&& r is Err
                &&& final(self).pos() == old(self).pos()
                &&& final(self).contents() == old(self).contents()
            },
    {
        let r = self.push(byte);
        assert(self.buf@.take(self.pos as int) =~= old(self).buf@.take(old(self).pos as int).push(byte)
            || r is Err);
        r
    }
}

/// The idle streak after a receive poll that answered `r`, from `idle`: a
/// `Pending` counts against the budget, any other answer starts it over.
pub open spec fn recv_idle_after<E>(
    limit: Option<u32>,
    idle: u32,
    r: Result<PollOutcome, Error<E>>,
) -> u32 {
    match r {
        Ok(PollOutcome::Pending) => ticked_idle(limit, idle),
        _ => 0,
    }
}

/// The idle streak after the receive polls `rs`, from `idle`.
pub open spec fn recv_idle<E>(limit: Option<u32>, idle: u32, rs: Seq<Result<PollOutcome, Error<E>>>) -> u32
    decreases rs.len(),
{
    if rs.len() == 0 {
        idle
    } else {
        recv_idle_after(limit, recv_idle(limit, idle, rs.drop_last()), rs.last())
    }
}

/// A receive poll that answered `r` with the idle streak at `idle` lets
/// the loop poll again (once the sink took a delivered byte): anything but
/// an error, FINISH, ABORT, or a `Pending` that runs the budget out.
pub open spec fn recv_goes_on<E>(limit: Option<u32>, idle: u32, r: Result<PollOutcome, Error<E>>) -> bool {
    match r {
        Ok(PollOutcome::Pending) => !tick_runs_out(limit, idle),
        Ok(PollOutcome::TransferFinished) | Ok(PollOutcome::Aborted) | Err(_) => false,
        Ok(_) => true,
    }
}

/// Every one of the receive polls `rs` let the loop go on.
pub open spec fn recv_went_on<E>(limit: Option<u32>, idle: u32, rs: Seq<Result<PollOutcome, Error<E>>>) -> bool {
    forall|i: int|
        0 <= i < rs.len() ==> #[trigger] recv_goes_on(limit, recv_idle(limit, idle, rs.take(i)), rs[i])
}

/// The receive poll that answered `r`, with the idle streak at `idle`,
/// ends the loop with the link error `e`.
pub open spec fn recv_stops<E>(limit: Option<u32>, idle: u32, r: Result<PollOutcome, Error<E>>, e: Error<E>) -> bool {
    ||| r == Err::<PollOutcome, Error<E>>(e)
    ||| e == Error::<E>::Aborted && r == Ok::<PollOutcome, Error<E>>(PollOutcome::Aborted)
    ||| e == Error::<E>::IdleBudgetExhausted && r == Ok::<PollOutcome, Error<E>>(PollOutcome::Pending)
        && tick_runs_out(limit, idle)
}

/// A receive loop whose polls were `rs` returned `Ok`: the last of them
/// answered FINISH and every earlier one let the loop go on.
pub open spec fn recv_finished<E>(limit: Option<u32>, idle: u32, rs: Seq<Result<PollOutcome, Error<E>>>) -> bool {
    &&& rs.len() > 0
    &&& recv_went_on(limit, idle, rs.drop_last())
    &&& rs.last() == Ok::<PollOutcome, Error<E>>(PollOutcome::TransferFinished)
}

/// A receive loop whose polls were `rs` failed with `e`: the sink refused
/// the byte the last poll delivered; or the last poll ended the loop with
/// the link error `e`; or it gave up with `Timeout` after `u64::MAX` polls
/// that all let it go on.
pub open spec fn recv_failed<E, A>(
    limit: Option<u32>,
    idle: u32,
    rs: Seq<Result<PollOutcome, Error<E>>>,
    e: StreamError<E, A>,
) -> bool {
    match e {
        StreamError::Application(_) => {
            &&& rs.len() > 0
            &&& recv_went_on(limit, idle, rs.drop_last())
            &&& rs.last() matches Ok(PollOutcome::Delivered(_))
        },
        StreamError::Protocol(e) => {
            ||| e == Error::<E>::Timeout && rs.len() == u64::MAX && recv_went_on(limit, idle, rs)
            ||| rs.len() > 0 && recv_went_on(limit, idle, rs.drop_last()) && recv_stops(
                limit,
                recv_idle(limit, idle, rs.drop_last()),
                rs.last(),
                e,
            )
        },
    }
}

/// What a receive loop whose polls were `rs` returns: the number of bytes
/// they delivered once FINISH came, or the error that ended it.
pub open spec fn recv_result<E, A>(
    limit: Option<u32>,
    idle: u32,
    rs: Seq<Result<PollOutcome, Error<E>>>,
    r: Result<u64, StreamError<E, A>>,
) -> bool {
    match r {
        Ok(n) => recv_finished(limit, idle, rs) && n == delivered_bytes(rs).len(),
        Err(e) => recv_failed(limit, idle, rs, e),
    }
}

/// The bytes a receive loop whose polls were `rs` handed to its sink: all
/// it delivered, but for the last when the sink refused it.
pub open spec fn recv_sunk<E>(rs: Seq<Result<PollOutcome, Error<E>>>, failed_sink: bool) -> Seq<u8> {
    if failed_sink {
        delivered_bytes(rs.drop_last())
    } else {
        delivered_bytes(rs)
    }
}

/// One more poll that let the loop go on keeps every poll going on, and
/// the idle streak follows it.
proof fn lemma_recv_went_on_push<E>(
    limit: Option<u32>,
    idle: u32,
    rs: Seq<Result<PollOutcome, Error<E>>>,
    r: Result<PollOutcome, Error<E>>,
)
    requires
        recv_went_on(limit, idle, rs),
        recv_goes_on(limit, recv_idle(limit, idle, rs), r),
    ensures
        recv_went_on(limit, idle, rs.push(r)),
{
    let rs2 = rs.push(r);
    assert forall|i: int| 0 <= i < rs2.len() implies #[trigger] recv_goes_on(
        limit,
        recv_idle(limit, idle, rs2.take(i)),
        rs2[i],
    ) by {
        if i < rs.len() {
            assert(rs2.take(i) =~= rs.take(i));
        } else {
            assert(rs2.take(i) =~= rs);
        }
    }
}

/// The last poll of a run, taken off, leaves the run before it.
proof fn lemma_recv_last<E>(
    limit: Option<u32>,
    idle: u32,
    rs: Seq<Result<PollOutcome, Error<E>>>,
    r: Result<PollOutcome, Error<E>>,
)
    ensures
        rs.push(r).drop_last() == rs,
        rs.push(r).last() == r,
        recv_idle(limit, idle, rs.push(r)) == recv_idle_after(limit, recv_idle(limit, idle, rs), r),
{
    assert(rs.push(r).drop_last() =~= rs);
}

/// `s + n`, modulo 256.
pub open spec fn seq_add(s: u8, n: nat) -> u8 {
    ((s as nat + n) % 256) as u8
}

/// A source's answers while it handed out `data`: `Some` of each byte, in
/// order.
pub open spec fn some_bytes(data: Seq<u8>) -> Seq<Option<u8>> {
    data.map_values(|b: u8| Some(b))
}

/// `k`, held at `u64::MAX`.
pub open spec fn sat_count(k: nat) -> u64 {
    if k < u64::MAX {
        k as u64
    } else {
        u64::MAX
    }
}

/// The idle streak after one more event of a windowed send loop.
proof fn lemma_wsend_idle_push<E>(limit: Option<u32>, idle: u32, evs: Seq<WTxEvent<E>>, ev: WTxEvent<E>)
    ensures
        evs.push(ev).drop_last() == evs,
        wsend_idle(limit, idle, evs.push(ev)) == match ev {
            WTxEvent::Offer(_) => 0,
            WTxEvent::Poll(_, Ok(TxPoll::Acked)) => 0,
            WTxEvent::Poll(_, Ok(_)) => ticked_idle(limit, wsend_idle(limit, idle, evs)),
            _ => wsend_idle(limit, idle, evs),
        },
{
    assert(evs.push(ev).drop_last() =~= evs);
}

/// One more byte handed out extends the answers by its `Some`.
proof fn lemma_some_bytes_push(data: Seq<u8>, b: u8)
    ensures
        some_bytes(data.push(b)) == some_bytes(data).push(Some(b)),
{
    assert(some_bytes(data.push(b)) =~= some_bytes(data).push(Some(b)));
}

/// Stop-and-wait sends of `data`, in order, each acknowledged: `ts[i]` is
/// the sender before byte `i` and `ts[i + 1]` after it.
pub open spec fn acked_sends<E>(ts: Seq<TxModel>, data: Seq<u8>) -> bool {
    &&& ts.len() == data.len() + 1
    &&& forall|i: int| 0 <= i < data.len() ==> #[trigger] acked_send::<E>(ts[i], ts[i + 1], data[i])
}

/// One blocking send of a frame of `kind` at sequence `seq` from `m0`,
/// which ended with `Ok` in `m1` after polls that made the transport calls
/// `cs`.
pub open spec fn send_run<E>(m0: TxModel, kind: FlightKind, seq: u8, m1: TxModel, cs: Seq<LinkCall>) -> bool {
    exists|ms: Seq<TxModel>, ios: Seq<LinkIo<E>>, rs: Seq<Result<TxPoll, Error<E>>>|
        {
            &&& #[trigger] tx_io_run(ms, ios, rs)
            &&& ms[0] == tx_queued(m0, kind, seq)
            &&& ms.last() == m1
            &&& tx_run_calls(ios) == cs
            &&& tx_drove(rs, Ok::<(), Error<E>>(()))
        }
}

/// The DATA sends of a stop-and-wait chain: `css[i]` are the transport
/// calls that sending `data[i]` from `ts[i]` to `ts[i + 1]` made.
pub open spec fn data_runs<E>(ts: Seq<TxModel>, data: Seq<u8>, css: Seq<Seq<LinkCall>>) -> bool {
    &&& css.len() == data.len()
    &&& forall|i: int|
        0 <= i < data.len() ==> #[trigger] send_run::<E>(
            ts[i],
            FlightKind::Data(data[i]),
            ts[i].seq,
            ts[i + 1],
            css[i],
        )
}

/// The sends of a stop-and-wait transfer that ended in `m1`: the DATA
/// sends of the chain, then FINISH from its last state, with the calls
/// `fc`.
pub open spec fn transfer_runs<E>(
    ts: Seq<TxModel>,
    data: Seq<u8>,
    css: Seq<Seq<LinkCall>>,
    fc: Seq<LinkCall>,
    m1: TxModel,
) -> bool {
    &&& data_runs::<E>(ts, data, css)
    &&& send_run::<E>(ts.last(), FlightKind::Finish, ts.last().seq, m1, fc)
}

/// One blocking send of a frame of `kind` at sequence `seq` from `m0`,
/// which failed with `e` in `m1` after polls that made the transport calls
/// `cs`.
pub open spec fn failed_run<E>(
    m0: TxModel,
    kind: FlightKind,
    seq: u8,
    m1: TxModel,
    cs: Seq<LinkCall>,
    e: Error<E>,
) -> bool {
    exists|ms: Seq<TxModel>, ios: Seq<LinkIo<E>>, rs: Seq<Result<TxPoll, Error<E>>>|
        {
            &&& #[trigger] tx_io_run(ms, ios, rs)
            &&& ms[0] == tx_queued(m0, kind, seq)
            &&& ms.last() == m1
            &&& tx_run_calls(ios) == cs
            &&& tx_drove(rs, Err::<(), Error<E>>(e))
        }
}

/// A stop-and-wait transfer that failed with `e` in `m1`: the DATA sends
/// of the chain completed, then the send of the next byte or of FINISH
/// failed with the calls `cs`; or `u64::MAX` bytes were sent and the
/// transfer gave up with `Timeout` before the next.
pub open spec fn transfer_failed<E>(
    ts: Seq<TxModel>,
    data: Seq<u8>,
    css: Seq<Seq<LinkCall>>,
    cs: Seq<LinkCall>,
    m1: TxModel,
    e: Error<E>,
) -> bool {
    &&& data_runs::<E>(ts, data, css)
    &&& {
        ||| failed_run::<E>(ts.last(), FlightKind::Finish, ts.last().seq, m1, cs, e)
        ||| exists|b: u8| #[trigger] failed_run::<E>(ts.last(), FlightKind::Data(b), ts.last().seq, m1, cs, e)
        ||| e == Error::<E>::Timeout && data.len() == u64::MAX && cs.len() == 0 && m1 == ts.last()
    }
}

/// One more DATA send extends the runs, and its calls follow the others.
proof fn lemma_data_runs_push<E>(
    ts: Seq<TxModel>,
    data: Seq<u8>,
    css: Seq<Seq<LinkCall>>,
    m: TxModel,
    b: u8,
    c: Seq<LinkCall>,
)
    requires
        data_runs::<E>(ts, data, css),
        ts.len() == data.len() + 1,
        send_run::<E>(ts.last(), FlightKind::Data(b), ts.last().seq, m, c),
    ensures
        data_runs::<E>(ts.push(m), data.push(b), css.push(c)),
        css.push(c).flatten_alt() == css.flatten_alt() + c,
{
    let ts2 = ts.push(m);
    let d2 = data.push(b);
    let c2 = css.push(c);
    assert forall|i: int| 0 <= i < d2.len() implies #[trigger] send_run::<E>(
        ts2[i],
        FlightKind::Data(d2[i]),
        ts2[i].seq,
        ts2[i + 1],
        c2[i],
    ) by {
        if i < data.len() {
            assert(send_run::<E>(ts[i], FlightKind::Data(data[i]), ts[i].seq, ts[i + 1], css[i]));
            assert(ts2[i] == ts[i] && ts2[i + 1] == ts[i + 1] && d2[i] == data[i] && c2[i] == css[i]);
        } else {
            assert(ts2[i] == ts.last() && ts2[i + 1] == m && d2[i] == b && c2[i] == c);
        }
    }
    assert(c2.drop_last() =~= css);
}

/// One more acknowledged send extends the chain.
proof fn lemma_acked_sends_push<E>(ts: Seq<TxModel>, data: Seq<u8>, m: TxModel, b: u8)
    requires
        acked_sends::<E>(ts, data),
        acked_send::<E>(ts.last(), m, b),
    ensures
        acked_sends::<E>(ts.push(m), data.push(b)),
{
    let ts2 = ts.push(m);
    let d2 = data.push(b);
    assert forall|i: int| 0 <= i < d2.len() implies #[trigger] acked_send::<E>(ts2[i], ts2[i + 1], d2[i]) by {
        if i < data.len() {
            assert(ts2[i] == ts[i] && ts2[i + 1] == ts[i + 1] && d2[i] == data[i]);
        } else {
            assert(ts2[i] == ts.last() && ts2[i + 1] == m && d2[i] == b);
        }
    }
}

/// Drains `src` through a stop-and-wait sender, one acknowledged byte at a
/// time, then FINISH. Returns how many bytes were acknowledged.
///
/// Stops with `Protocol(Timeout)` after `u64::MAX` source bytes.
pub fn send_all<T: ByteTransport, S: ByteSource>(tx: &mut Sender<T>, src: &mut S) -> (r: Result<
    u64,
    StreamError<T::Error, S::Error>,
>)
    requires
        old(tx).wf(),
    ensures
        final(tx).wf(),
        r matches Ok(n) ==> {
            &&& final(tx).model().state is Finished
            &&& final(tx).model().seq == seq_add(old(tx).model().seq, n as nat)
            &&& exists|ts: Seq<TxModel>, data: Seq<u8>, css: Seq<Seq<LinkCall>>, fc: Seq<LinkCall>|
                {
                    &&& #[trigger] transfer_runs::<T::Error>(ts, data, css, fc, final(tx).model())
                    &&& acked_sends::<T::Error>(ts, data)
                    &&& data.len() == n
                    &&& ts[0] == old(tx).model()
                    &&& acked_finish::<T::Error>(ts.last(), final(tx).model())
                    &&& (T::keeps_calls() ==> final(tx).link().calls() == old(tx).link().calls() + css.flatten_alt() + fc)
                    &&& (S::keeps_reads() ==> final(src).reads() == old(src).reads() + some_bytes(data).push(None))
                }
        },
        r is Err ==> exists|ts: Seq<TxModel>, data: Seq<u8>|
            {
                &&& #[trigger] acked_sends::<T::Error>(ts, data)
                &&& ts[0] == old(tx).model()
                &&& (S::keeps_reads() ==> final(src).reads().take((old(src).reads().len() + data.len()) as int) == old(src).reads()
                    + some_bytes(data))
                &&& (S::keeps_reads() ==> final(src).reads().len() <= old(src).reads().len() + data.len() + if r matches Err(
                    StreamError::Application(_),
                ) {
                    0int
                } else {
                    1int
                })
            },
        r == Err::<u64, StreamError<T::Error, S::Error>>(StreamError::Protocol(Error::NotIdle))
            ==> !Sender::<T>::spec_can_offer(old(tx).model()) && final(tx).model() == old(
            tx,
        ).model(),
        !Sender::<T>::spec_can_offer(old(tx).model()) ==> final(tx).model() == old(tx).model() && (
        r == Err::<u64, StreamError<T::Error, S::Error>>(StreamError::Protocol(Error::NotIdle))
            || r matches Err(StreamError::Application(_))),
        r matches Err(StreamError::Protocol(e)) ==> e is NotIdle || tx_stopped(
            final(tx).model(),
            e,
        ) || (e is Timeout && final(tx).model().seq == seq_add(
            old(tx).model().seq,
            u64::MAX as nat,
        )),
        r matches Err(StreamError::Protocol(e)) ==> e is NotIdle || exists|
            ts: Seq<TxModel>,
            data: Seq<u8>,
            css: Seq<Seq<LinkCall>>,
            cs: Seq<LinkCall>,
        |
            {
                &&& #[trigger] transfer_failed::<T::Error>(ts, data, css, cs, final(tx).model(), e)
                &&& acked_sends::<T::Error>(ts, data)
                &&& ts[0] == old(tx).model()
                &&& (T::keeps_calls() ==> final(tx).link().calls() == old(tx).link().calls() + css.flatten_alt() + cs)
            },
{
    let mut n: u64 = 0;
    let ghost s0 = old(tx).model().seq;
    let ghost mut ts: Seq<TxModel> = seq![tx.model()];
    let ghost mut data: Seq<u8> = Seq::empty();
    let ghost mut css: Seq<Seq<LinkCall>> = Seq::empty();
    assert((T::keeps_calls() ==> old(tx).link().calls() + css.flatten_alt() =~= old(tx).link().calls()));
    loop
        invariant
            data_runs::<T::Error>(ts, data, css),
            (T::keeps_calls() ==> tx.link().calls() == old(tx).link().calls() + css.flatten_alt()),
            tx.wf(),
            s0 == old(tx).model().seq,
            tx.model().seq == seq_add(s0, n as nat),
            acked_sends::<T::Error>(ts, data),
            data.len() == n,
            (S::keeps_reads() ==> src.reads() == old(src).reads() + some_bytes(data)),
            ts[0] == old(tx).model(),
            ts.last() == tx.model(),
            n == 0 ==> tx.model() == old(tx).model(),
            n > 0 ==> Sender::<T>::spec_can_offer(tx.model()),
            n > 0 ==> Sender::<T>::spec_can_offer(old(tx).model()),
        decreases u64::MAX - n,
    {
        let byte = match src.read_byte() {
            Err(e) => {
                assert((S::keeps_reads() ==> src.reads().take((old(src).reads().len() + data.len()) as int) =~= src.reads()));
                return Err(StreamError::Application(e));
            },
            Ok(b) => b,
        };
        assert((S::keeps_reads() ==> src.reads().take((old(src).reads().len() + data.len()) as int) =~= old(src).reads() + some_bytes(
            data,
        )));
        match byte {
            Some(byte) => {
                if n == u64::MAX {
                    assert(transfer_failed::<T::Error>(ts, data, css, Seq::empty(), tx.model(), Error::Timeout));
                    assert((T::keeps_calls() ==> tx.link().calls() == old(tx).link().calls() + css.flatten_alt() + Seq::<LinkCall>::empty()));
                    return Err(StreamError::Protocol(Error::Timeout));
                }
                let ghost before = tx.model();
                let ghost c_before = tx.link().calls();
                match tx.send_byte(byte) {
                    Err(e) => {
                        proof {
                            if !(e is NotIdle) {
                                let (ms_k, ios_k, rs_k) = choose|
                                    ms: Seq<TxModel>,
                                    ios: Seq<LinkIo<T::Error>>,
                                    rs: Seq<Result<TxPoll, Error<T::Error>>>,
                                |
                                    {
                                        &&& #[trigger] tx_io_run(ms, ios, rs)
                                        &&& ms[0] == tx_queued(before, FlightKind::Data(byte), before.seq)
                                        &&& ms.last() == tx.model()
                                        &&& (T::keeps_calls() ==> tx.link().calls() == c_before + tx_run_calls(ios))
                                        &&& tx_drove(rs, Err::<(), Error<T::Error>>(e))
                                    };
                                let cs = tx_run_calls(ios_k);
                                assert(failed_run::<T::Error>(before, FlightKind::Data(byte), before.seq, tx.model(), cs, e));
                                assert(transfer_failed::<T::Error>(ts, data, css, cs, tx.model(), e));
                            }
                        }
                        return Err(StreamError::Protocol(e));
                    },
                    Ok(()) => {},
                }
                assert(seq_add(s0, (n + 1) as nat) == seq_next(seq_add(s0, n as nat)));
                proof {
                    let (ms_k, ios_k, rs_k) = choose|
                        ms: Seq<TxModel>,
                        ios: Seq<LinkIo<T::Error>>,
                        rs: Seq<Result<TxPoll, Error<T::Error>>>,
                    |
                        {
                            &&& #[trigger] tx_io_run(ms, ios, rs)
                            &&& ms[0] == tx_queued(before, FlightKind::Data(byte), before.seq)
                            &&& ms.last() == tx.model()
                            &&& (T::keeps_calls() ==> tx.link().calls() == c_before + tx_run_calls(ios))
                            &&& tx_drove(rs, Ok::<(), Error<T::Error>>(()))
                        };
                    let cs_k = tx_run_calls(ios_k);
                    assert(send_run::<T::Error>(before, FlightKind::Data(byte), before.seq, tx.model(), cs_k));
                    lemma_data_runs_push::<T::Error>(ts, data, css, tx.model(), byte, cs_k);
                    css = css.push(cs_k);
                    lemma_acked_sends_push::<T::Error>(ts, data, tx.model(), byte);
                    lemma_some_bytes_push(data, byte);
                    ts = ts.push(tx.model());
                    data = data.push(byte);
                }
                n = n + 1;
            },
            None => {
                let ghost before = tx.model();
                let ghost c_before = tx.link().calls();
                match tx.send_finish() {
                    Err(e) => {
                        proof {
                            if !(e is NotIdle) {
                                let (ms_k, ios_k, rs_k) = choose|
                                    ms: Seq<TxModel>,
                                    ios: Seq<LinkIo<T::Error>>,
                                    rs: Seq<Result<TxPoll, Error<T::Error>>>,
                                |
                                    {
                                        &&& #[trigger] tx_io_run(ms, ios, rs)
                                        &&& ms[0] == tx_queued(before, FlightKind::Finish, before.seq)
                                        &&& ms.last() == tx.model()
                                        &&& (T::keeps_calls() ==> tx.link().calls() == c_before + tx_run_calls(ios))
                                        &&& tx_drove(rs, Err::<(), Error<T::Error>>(e))
                                    };
                                let cs = tx_run_calls(ios_k);
                                assert(failed_run::<T::Error>(before, FlightKind::Finish, before.seq, tx.model(), cs, e));
                                assert(transfer_failed::<T::Error>(ts, data, css, cs, tx.model(), e));
                            }
                        }
                        return Err(StreamError::Protocol(e));
                    },
                    Ok(()) => {},
                }
                proof {
                    let (ms_k, ios_k, rs_k) = choose|
                        ms: Seq<TxModel>,
                        ios: Seq<LinkIo<T::Error>>,
                        rs: Seq<Result<TxPoll, Error<T::Error>>>,
                    |
                        {
                            &&& #[trigger] tx_io_run(ms, ios, rs)
                            &&& ms[0] == tx_queued(before, FlightKind::Finish, before.seq)
                            &&& ms.last() == tx.model()
                            &&& (T::keeps_calls() ==> tx.link().calls() == c_before + tx_run_calls(ios))
                            &&& tx_drove(rs, Ok::<(), Error<T::Error>>(()))
                        };
                    let fc = tx_run_calls(ios_k);
                    assert(send_run::<T::Error>(before, FlightKind::Finish, before.seq, tx.model(), fc));
                    assert(transfer_runs::<T::Error>(ts, data, css, fc, tx.model()));
                    assert((T::keeps_calls() ==> tx.link().calls() == old(tx).link().calls() + css.flatten_alt() + fc));
                }
                assert(acked_sends::<T::Error>(ts, data));
                assert((S::keeps_reads() ==> src.reads() == old(src).reads() + some_bytes(data).push(None)));
                return Ok(n);
            },
        }
    }
}

/// Sends a borrowed slice through a stop-and-wait sender, then FINISH.
/// Returns how many bytes were acknowledged: all of them.
pub fn send_bytes<T: ByteTransport>(tx: &mut Sender<T>, bytes: &[u8]) -> (r: Result<
    u64,
    Error<T::Error>,
>)
    requires
        old(tx).wf(),
    ensures
        final(tx).wf(),
        r matches Ok(n) ==> {
            &&& n == bytes@.len()
            &&& final(tx).model().state is Finished
            &&& final(tx).model().seq == seq_add(old(tx).model().seq, bytes@.len())
            &&& exists|ts: Seq<TxModel>, css: Seq<Seq<LinkCall>>, fc: Seq<LinkCall>|
                {
                    &&& #[trigger] transfer_runs::<T::Error>(ts, bytes@, css, fc, final(tx).model())
                    &&& acked_sends::<T::Error>(ts, bytes@)
                    &&& ts[0] == old(tx).model()
                    &&& acked_finish::<T::Error>(ts.last(), final(tx).model())
                    &&& (T::keeps_calls() ==> final(tx).link().calls() == old(tx).link().calls() + css.flatten_alt() + fc)
                }
        },
        r == Err::<u64, Error<T::Error>>(Error::NotIdle) <==> !Sender::<T>::spec_can_offer(
            old(tx).model(),
        ),
        !Sender::<T>::spec_can_offer(old(tx).model()) ==> final(tx).model() == old(tx).model(),
        r is Err && !(r->Err_0 is NotIdle) ==> tx_stopped(final(tx).model(), r->Err_0),
        r matches Err(e) ==> e is NotIdle || exists|
            ts: Seq<TxModel>,
            k: nat,
            css: Seq<Seq<LinkCall>>,
            cs: Seq<LinkCall>,
        |
            {
                &&& #[trigger] transfer_failed::<T::Error>(ts, bytes@.take(k as int), css, cs, final(tx).model(), e)
                &&& k <= bytes@.len()
                &&& acked_sends::<T::Error>(ts, bytes@.take(k as int))
                &&& ts[0] == old(tx).model()
                &&& (T::keeps_calls() ==> final(tx).link().calls() == old(tx).link().calls() + css.flatten_alt() + cs)
            },
{
    let total: usize = bytes.len();
    let mut src = SliceSource::new(bytes);
    let mut n: u64 = 0;
    let ghost s0 = old(tx).model().seq;
    let ghost mut ts: Seq<TxModel> = seq![tx.model()];
    let ghost mut css: Seq<Seq<LinkCall>> = Seq::empty();
    assert((T::keeps_calls() ==> old(tx).link().calls() + css.flatten_alt() =~= old(tx).link().calls()));
    while src.remaining() > 0
        invariant
            data_runs::<T::Error>(ts, bytes@.take(n as int), css),
            (T::keeps_calls() ==> tx.link().calls() == old(tx).link().calls() + css.flatten_alt()),
            tx.wf(),
            s0 == old(tx).model().seq,
            total == bytes@.len(),
            n + src.rest().len() == total,
            tx.model().seq == seq_add(s0, n as nat),
            src.rest() == bytes@.skip(n as int),
            acked_sends::<T::Error>(ts, bytes@.take(n as int)),
            ts[0] == old(tx).model(),
            ts.last() == tx.model(),
            n == 0 ==> tx.model() == old(tx).model(),
            n > 0 ==> Sender::<T>::spec_can_offer(tx.model()),
            n > 0 ==> Sender::<T>::spec_can_offer(old(tx).model()),
        decreases src.rest().len(),
    {
        let byte = match src.next_byte() {
            Some(b) => b,
            None => 0,
        };
        assert(byte == bytes@[n as int]);
        let ghost before = tx.model();
        let ghost c_before = tx.link().calls();
        match tx.send_byte(byte) {
            Err(e) => {
                proof {
                    if !(e is NotIdle) {
                        let (ms_k, ios_k, rs_k) = choose|
                            ms: Seq<TxModel>,
                            ios: Seq<LinkIo<T::Error>>,
                            rs: Seq<Result<TxPoll, Error<T::Error>>>,
                        |
                            {
                                &&& #[trigger] tx_io_run(ms, ios, rs)
                                &&& ms[0] == tx_queued(before, FlightKind::Data(byte), before.seq)
                                &&& ms.last() == tx.model()
                                &&& (T::keeps_calls() ==> tx.link().calls() == c_before + tx_run_calls(ios))
                                &&& tx_drove(rs, Err::<(), Error<T::Error>>(e))
                            };
                        let cs = tx_run_calls(ios_k);
                        assert(failed_run::<T::Error>(before, FlightKind::Data(byte), before.seq, tx.model(), cs, e));
                        assert(transfer_failed::<T::Error>(ts, bytes@.take(n as int), css, cs, tx.model(), e));
                    }
                }
                return Err(e);
            },
            Ok(()) => {},
        }
        assert(seq_add(s0, (n + 1) as nat) == seq_next(seq_add(s0, n as nat)));
        proof {
            let (ms_k, ios_k, rs_k) = choose|
                ms: Seq<TxModel>,
                ios: Seq<LinkIo<T::Error>>,
                rs: Seq<Result<TxPoll, Error<T::Error>>>,
            |
                {
                    &&& #[trigger] tx_io_run(ms, ios, rs)
                    &&& ms[0] == tx_queued(before, FlightKind::Data(byte), before.seq)
                    &&& ms.last() == tx.model()
                    &&& (T::keeps_calls() ==> tx.link().calls() == c_before + tx_run_calls(ios))
                    &&& tx_drove(rs, Ok::<(), Error<T::Error>>(()))
                };
            let cs_k = tx_run_calls(ios_k);
            assert(send_run::<T::Error>(before, FlightKind::Data(byte), before.seq, tx.model(), cs_k));
            lemma_data_runs_push::<T::Error>(ts, bytes@.take(n as int), css, tx.model(), byte, cs_k);
            css = css.push(cs_k);
            lemma_acked_sends_push::<T::Error>(ts, bytes@.take(n as int), tx.model(), byte);
            assert(bytes@.take(n as int).push(byte) =~= bytes@.take(n + 1));
            assert(src.rest() =~= bytes@.skip(n + 1));
            ts = ts.push(tx.model());
        }
        n = n + 1;
    }
    assert(bytes@.take(n as int) =~= bytes@);
    let ghost before = tx.model();
    let ghost c_before = tx.link().calls();
    match tx.send_finish() {
        Err(e) => {
            proof {
                if !(e is NotIdle) {
                    let (ms_k, ios_k, rs_k) = choose|
                        ms: Seq<TxModel>,
                        ios: Seq<LinkIo<T::Error>>,
                        rs: Seq<Result<TxPoll, Error<T::Error>>>,
                    |
                        {
                            &&& #[trigger] tx_io_run(ms, ios, rs)
                            &&& ms[0] == tx_queued(before, FlightKind::Finish, before.seq)
                            &&& ms.last() == tx.model()
                            &&& (T::keeps_calls() ==> tx.link().calls() == c_before + tx_run_calls(ios))
                            &&& tx_drove(rs, Err::<(), Error<T::Error>>(e))
                        };
                    let cs = tx_run_calls(ios_k);
                    assert(failed_run::<T::Error>(before, FlightKind::Finish, before.seq, tx.model(), cs, e));
                    assert(transfer_failed::<T::Error>(ts, bytes@.take(n as int), css, cs, tx.model(), e));
                }
            }
            return Err(e);
        },
        Ok(()) => {},
    }
    proof {
        let (ms_k, ios_k, rs_k) = choose|
            ms: Seq<TxModel>,
            ios: Seq<LinkIo<T::Error>>,
            rs: Seq<Result<TxPoll, Error<T::Error>>>,
        |
            {
                &&& #[trigger] tx_io_run(ms, ios, rs)
                &&& ms[0] == tx_queued(before, FlightKind::Finish, before.seq)
                &&& ms.last() == tx.model()
                &&& (T::keeps_calls() ==> tx.link().calls() == c_before + tx_run_calls(ios))
                &&& tx_drove(rs, Ok::<(), Error<T::Error>>(()))
            };
        let fc = tx_run_calls(ios_k);
        assert(send_run::<T::Error>(before, FlightKind::Finish, before.seq, tx.model(), fc));
        assert(transfer_runs::<T::Error>(ts, bytes@, css, fc, tx.model()));
        assert((T::keeps_calls() ==> tx.link().calls() == old(tx).link().calls() + css.flatten_alt() + fc));
    }
    Ok(n)
}

/// The errors a windowed transfer can stop with, and what each leaves:
/// `NotIdle` only when the sender refuses an offer, being finished, failed,
/// or holding START or FINISH; `RetriesExhausted` only leaving it failed;
/// a transport error, `Timeout` or `IdleBudgetExhausted` whatever the
/// state (the trace says which event each came from); and no other error.
pub open spec fn wtx_stream_stopped<E>(m: WTxModel, e: Error<E>) -> bool {
    match e {
        Error::NotIdle => m.state is Finished || m.state is Failed || first_index(
            m.slots,
            session_slot(),
        ) is Some,
        Error::RetriesExhausted => m.state is Failed,
        Error::Transport(_) | Error::Timeout | Error::IdleBudgetExhausted => true,
        _ => false,
    }
}

/// The idle streak of a windowed send loop after the events `evs`, from
/// `idle`: a queued byte or an ACK starts it over, and any other answer of
/// a poll counts against the budget.
pub open spec fn wsend_idle<E>(limit: Option<u32>, idle: u32, evs: Seq<WTxEvent<E>>) -> u32
    decreases evs.len(),
{
    if evs.len() == 0 {
        idle
    } else {
        let prev = wsend_idle(limit, idle, evs.drop_last());
        match evs.last() {
            WTxEvent::Offer(_) => 0,
            WTxEvent::Poll(_, Ok(TxPoll::Acked)) => 0,
            WTxEvent::Poll(_, Ok(_)) => ticked_idle(limit, prev),
            _ => prev,
        }
    }
}

/// Drains `src` through a windowed sender, then FINISH.
pub fn send_all_windowed<T: ByteTransport, S: ByteSource, const N: usize>(
    tx: &mut WindowedSender<T, N>,
    src: &mut S,
) -> (r: Result<u64, StreamError<T::Error, S::Error>>)
    requires
        old(tx).wf(),
    ensures
        final(tx).wf(),
        r is Ok ==> final(tx).model().state is Finished || (final(tx).model().state is Idle
            && final(tx).model().next_seq == 0),
        r matches Err(StreamError::Protocol(e)) ==> wtx_stream_stopped(final(tx).model(), e),
        old(tx).model().state is Failed ==> final(tx).model() == old(tx).model() && (r matches Err(
            StreamError::Application(_),
        ) || r == Err::<u64, StreamError<T::Error, S::Error>>(
            StreamError::Protocol(Error::NotIdle),
        ) || r == Err::<u64, StreamError<T::Error, S::Error>>(
            StreamError::Protocol(Error::RetriesExhausted),
        )),
        exists|ms: Seq<WTxModel>, evs: Seq<WTxEvent<T::Error>>|
            {
                &&& #[trigger] wtx_trace(ms, evs)
                &&& ms[0] == old(tx).model()
                &&& ms.last() == final(tx).model()
                &&& (T::keeps_calls() ==> final(tx).link().calls() == old(tx).link().calls() + wtx_trace_calls(evs))
                &&& (S::keeps_reads() ==> final(src).reads().take(
                    (old(src).reads().len() + wtx_trace_offers(evs).len()) as int,
                ) == old(src).reads() + some_bytes(wtx_trace_offers(evs)))
                &&& r matches Ok(n) ==> {
                    &&& n == sat_count(wtx_trace_offers(evs).len())
                    &&& (S::keeps_reads() ==> final(src).reads() == old(src).reads() + some_bytes(wtx_trace_offers(evs)).push(None))
                    &&& evs.len() > 0
                    &&& evs.last() matches WTxEvent::Poll(_, Ok(TxPoll::TransferDone | TxPoll::SessionReady))
                }
                &&& (S::keeps_reads() ==> match r {
                    Err(StreamError::Application(_)) => final(src).reads().len() == old(src).reads().len()
                        + wtx_trace_offers(evs).len(),
                    Err(_) => final(src).reads().len() <= old(src).reads().len() + wtx_trace_offers(evs).len()
                        + 1,
                    Ok(_) => true,
                })
                &&& r == Err::<u64, StreamError<T::Error, S::Error>>(StreamError::Protocol(Error::Timeout))
                    ==> 2 * evs.len() + 1 >= u64::MAX
                &&& r == Err::<u64, StreamError<T::Error, S::Error>>(StreamError::Protocol(Error::Timeout))
                    ==> (S::keeps_reads() ==> evs.len() + final(src).reads().len() >= u64::MAX + old(
                    src,
                ).reads().len())
                &&& r == Err::<u64, StreamError<T::Error, S::Error>>(
                    StreamError::Protocol(Error::IdleBudgetExhausted),
                ) ==> evs.len() > 0 && (evs.last() matches WTxEvent::Poll(_, Ok(p)) && p != TxPoll::Acked)
                    && tick_runs_out(Some(1_000_000u32), wsend_idle(Some(1_000_000u32), 0, evs.drop_last()))
                &&& (r matches Err(StreamError::Protocol(Error::Transport(_) | Error::RetriesExhausted)))
                    ==> evs.len() > 0 && (evs.last() matches WTxEvent::Poll(_, Err(e))
                    && r == Err::<u64, StreamError<T::Error, S::Error>>(StreamError::Protocol(e)))
            },
{
    send_all_windowed_budgeted(tx, src, IdleBudget::default_budget())
}

/// [`send_all_windowed`] with an [`IdleBudget`] on the polls made while the
/// window is full or draining.
///
/// Stops with `Protocol(Timeout)` after `u64::MAX` steps.
pub fn send_all_windowed_budgeted<T: ByteTransport, S: ByteSource, const N: usize>(
    tx: &mut WindowedSender<T, N>,
    src: &mut S,
    budget: IdleBudget,
) -> (r: Result<u64, StreamError<T::Error, S::Error>>)
    requires
        old(tx).wf(),
    ensures
        final(tx).wf(),
        r is Ok ==> final(tx).model().state is Finished || (final(tx).model().state is Idle
            && final(tx).model().next_seq == 0),
        r matches Err(StreamError::Protocol(e)) ==> wtx_stream_stopped(final(tx).model(), e),
        old(tx).model().state is Failed ==> final(tx).model() == old(tx).model() && (r matches Err(
            StreamError::Application(_),
        ) || r == Err::<u64, StreamError<T::Error, S::Error>>(
            StreamError::Protocol(Error::NotIdle),
        ) || r == Err::<u64, StreamError<T::Error, S::Error>>(
            StreamError::Protocol(Error::RetriesExhausted),
        )),
        r == Err::<u64, StreamError<T::Error, S::Error>>(StreamError::Protocol(Error::IdleBudgetExhausted))
            ==> budget.limit() is Some,
        exists|ms: Seq<WTxModel>, evs: Seq<WTxEvent<T::Error>>|
            {
                &&& #[trigger] wtx_trace(ms, evs)
                &&& ms[0] == old(tx).model()
                &&& ms.last() == final(tx).model()
                &&& (T::keeps_calls() ==> final(tx).link().calls() == old(tx).link().calls() + wtx_trace_calls(evs))
                &&& (S::keeps_reads() ==> final(src).reads().take(
                    (old(src).reads().len() + wtx_trace_offers(evs).len()) as int,
                ) == old(src).reads() + some_bytes(wtx_trace_offers(evs)))
                &&& r matches Ok(n) ==> {
                    &&& n == sat_count(wtx_trace_offers(evs).len())
                    &&& (S::keeps_reads() ==> final(src).reads() == old(src).reads() + some_bytes(wtx_trace_offers(evs)).push(None))
                    &&& evs.len() > 0
                    &&& evs.last() matches WTxEvent::Poll(_, Ok(TxPoll::TransferDone | TxPoll::SessionReady))
                }
                &&& (S::keeps_reads() ==> match r {
                    Err(StreamError::Application(_)) => final(src).reads().len() == old(src).reads().len()
                        + wtx_trace_offers(evs).len(),
                    Err(_) => final(src).reads().len() <= old(src).reads().len() + wtx_trace_offers(evs).len()
                        + 1,
                    Ok(_) => true,
                })
                &&& r == Err::<u64, StreamError<T::Error, S::Error>>(StreamError::Protocol(Error::Timeout))
                    ==> 2 * evs.len() + 1 >= u64::MAX
                &&& r == Err::<u64, StreamError<T::Error, S::Error>>(StreamError::Protocol(Error::Timeout))
                    ==> (S::keeps_reads() ==> evs.len() + final(src).reads().len() >= u64::MAX + old(
                    src,
                ).reads().len())
                &&& r == Err::<u64, StreamError<T::Error, S::Error>>(
                    StreamError::Protocol(Error::IdleBudgetExhausted),
                ) ==> evs.len() > 0 && (evs.last() matches WTxEvent::Poll(_, Ok(p)) && p != TxPoll::Acked)
                    && tick_runs_out(budget.limit(), wsend_idle(budget.limit(), budget.idle(), evs.drop_last()))
                &&& (r matches Err(StreamError::Protocol(Error::Transport(_) | Error::RetriesExhausted)))
                    ==> evs.len() > 0 && (evs.last() matches WTxEvent::Poll(_, Err(e))
                    && r == Err::<u64, StreamError<T::Error, S::Error>>(StreamError::Protocol(e)))
            },
{
    let mut idle_budget = budget;
    let ghost limit0 = budget.limit();
    let mut n: u64 = 0;
    let mut steps: u64 = u64::MAX;
    let ghost mut data: Seq<u8> = Seq::empty();
    let ghost mut ms: Seq<WTxModel> = seq![tx.model()];
    let ghost mut evs: Seq<WTxEvent<T::Error>> = Seq::empty();
    assert((S::keeps_reads() ==> old(src).reads() + some_bytes(data) =~= old(src).reads()));
    assert((T::keeps_calls() ==> old(tx).link().calls() + wtx_trace_calls(evs) =~= old(tx).link().calls()));
    assert(wtx_trace_offers(evs) =~= data);
    loop
        invariant_except_break
            wtx_trace(ms, evs),
            ms[0] == old(tx).model(),
            ms.last() == tx.model(),
            (T::keeps_calls() ==> tx.link().calls() == old(tx).link().calls() + wtx_trace_calls(evs)),
            data == wtx_trace_offers(evs),
            (S::keeps_reads() ==> evs.len() + src.reads().len() + steps >= u64::MAX + old(src).reads().len()),
            u64::MAX - steps <= 2 * evs.len(),
            idle_budget.idle() == wsend_idle(budget.limit(), budget.idle(), evs),
            tx.wf(),
            old(tx).model().state is Failed ==> tx.model() == old(tx).model() && steps == u64::MAX,
            (S::keeps_reads() ==> src.reads() == old(src).reads() + some_bytes(data)),
            n == sat_count(data.len()),
            idle_budget.limit() == budget.limit(),
        ensures
            wtx_trace(ms, evs),
            ms[0] == old(tx).model(),
            ms.last() == tx.model(),
            (T::keeps_calls() ==> tx.link().calls() == old(tx).link().calls() + wtx_trace_calls(evs)),
            data == wtx_trace_offers(evs),
            (S::keeps_reads() ==> evs.len() + src.reads().len() + steps >= u64::MAX + old(src).reads().len()),
            u64::MAX - steps <= 2 * evs.len() + 1,
            idle_budget.idle() == wsend_idle(budget.limit(), budget.idle(), evs),
            tx.wf(),
            old(tx).model().state is Failed ==> tx.model() == old(tx).model() && steps == u64::MAX
                - 1,
            (S::keeps_reads() ==> src.reads() == old(src).reads() + some_bytes(data).push(None)),
            n == sat_count(data.len()),
            idle_budget.limit() == budget.limit(),
        decreases steps,
    {
        if steps == 0 {
            assert((S::keeps_reads() ==> src.reads().take((old(src).reads().len() + data.len()) as int) =~= src.reads()));
            return Err(StreamError::Protocol(Error::Timeout));
        }
        steps = steps - 1;
        let byte = match src.read_byte() {
            Err(e) => {
                assert((S::keeps_reads() ==> src.reads().take((old(src).reads().len() + data.len()) as int) =~= src.reads()));
                return Err(StreamError::Application(e));
            },
            Ok(None) => break,
            Ok(Some(b)) => b,
        };
        assert((S::keeps_reads() ==> src.reads().take((old(src).reads().len() + data.len()) as int) =~= old(src).reads()
            + some_bytes(data)));
        let ghost outer = steps;
        loop
            invariant_except_break
                (S::keeps_reads() ==> src.reads() == old(src).reads() + some_bytes(data).push(Some(byte))),
                (S::keeps_reads() ==> src.reads().take((old(src).reads().len() + data.len()) as int) == old(src).reads()
                    + some_bytes(data)),
                n == sat_count(data.len()),
            invariant
                wtx_trace(ms, evs),
                ms[0] == old(tx).model(),
                ms.last() == tx.model(),
                (T::keeps_calls() ==> tx.link().calls() == old(tx).link().calls() + wtx_trace_calls(evs)),
                data == wtx_trace_offers(evs),
                (S::keeps_reads() ==> evs.len() + src.reads().len() + steps >= u64::MAX + old(src).reads().len()),
                u64::MAX - steps <= 2 * evs.len() + 1,
                idle_budget.idle() == wsend_idle(budget.limit(), budget.idle(), evs),
                tx.wf(),
                steps <= outer,
                old(tx).model().state is Failed ==> tx.model() == old(tx).model() && steps
                    == outer && outer == u64::MAX - 1,
                idle_budget.limit() == budget.limit(),
            ensures
                wtx_trace(ms, evs),
                ms[0] == old(tx).model(),
                ms.last() == tx.model(),
                (T::keeps_calls() ==> tx.link().calls() == old(tx).link().calls() + wtx_trace_calls(evs)),
                data == wtx_trace_offers(evs),
                (S::keeps_reads() ==> evs.len() + src.reads().len() + steps >= u64::MAX + old(src).reads().len()),
                u64::MAX - steps <= 2 * evs.len(),
                idle_budget.idle() == wsend_idle(budget.limit(), budget.idle(), evs),
                tx.wf(),
                steps <= outer,
                !(old(tx).model().state is Failed),
                (S::keeps_reads() ==> src.reads() == old(src).reads() + some_bytes(data)),
                n == sat_count(data.len()),
            decreases steps,
        {
            if steps == 0 {
                return Err(StreamError::Protocol(Error::Timeout));
            }
            steps = steps - 1;
            let ghost before = tx.model();
            proof {
                tx.lemma_window_len();
            }
            match tx.offer(byte) {
                Ok(()) => {
                    n = if n == u64::MAX { u64::MAX } else { n + 1 };
                    idle_budget.reset();
                    proof {
                        lemma_some_bytes_push(data, byte);
                        lemma_wtx_trace_push(ms, evs, WTxEvent::Offer(byte), tx.model());
                        lemma_wsend_idle_push(budget.limit(), budget.idle(), evs, WTxEvent::Offer(byte));
                        ms = ms.push(tx.model());
                        evs = evs.push(WTxEvent::Offer(byte));
                        data = data.push(byte);
                    }
                    break;
                },
                Err(Error::WindowFull) => {
                    let ghost before = tx.model();
                    let ghost c0 = tx.link().calls();
                    let p = tx.poll();
                    proof {
                        lemma_wtx_step_outcomes::<T::Error>(before);
                        let io = choose|io: LinkIo<T::Error>|
                            wtx_io_fits(before, io) && #[trigger] wtx_step(before, io) == (tx.model(), p)
                                && (T::keeps_calls() ==> tx.link().calls() == c0 + link_calls(io));
                        lemma_wtx_trace_push(ms, evs, WTxEvent::Poll(io, p), tx.model());
            lemma_wsend_idle_push(budget.limit(), budget.idle(), evs, WTxEvent::Poll(io, p));
                        lemma_wsend_idle_push(budget.limit(), budget.idle(), evs, WTxEvent::Poll(io, p));
                        ms = ms.push(tx.model());
                        evs = evs.push(WTxEvent::Poll(io, p));
                    }
                    let p = match p {
                        Err(e) => return Err(StreamError::Protocol(e)),
                        Ok(p) => p,
                    };
                    match p {
                        TxPoll::Acked => idle_budget.reset(),
                        TxPoll::Aborted => return Err(StreamError::Protocol(Error::Aborted)),
                        _ => {
                            match idle_budget.tick() {
                                Err(e) => return Err(StreamError::Protocol(e)),
                                Ok(()) => {},
                            }
                        },
                    }
                },
                Err(e) => return Err(StreamError::Protocol(e)),
            }
        }
    }
    while tx.outstanding() > 0
        invariant_except_break
            idle_budget.idle() == wsend_idle(budget.limit(), budget.idle(), evs),
        invariant
            wtx_trace(ms, evs),
            ms[0] == old(tx).model(),
            ms.last() == tx.model(),
            (T::keeps_calls() ==> tx.link().calls() == old(tx).link().calls() + wtx_trace_calls(evs)),
            data == wtx_trace_offers(evs),
            (S::keeps_reads() ==> evs.len() + src.reads().len() + steps >= u64::MAX + old(src).reads().len()),
            u64::MAX - steps <= 2 * evs.len() + 1,
            tx.wf(),
            (S::keeps_reads() ==> src.reads() == old(src).reads() + some_bytes(data).push(None)),
            n == sat_count(data.len()),
            idle_budget.limit() == budget.limit(),
            old(tx).model().state is Failed ==> tx.model() == old(tx).model() && steps == u64::MAX
                - 1,
        decreases steps,
    {
        if steps == 0 {
            return Err(StreamError::Protocol(Error::Timeout));
        }
        steps = steps - 1;
        let ghost before = tx.model();
        let ghost c0 = tx.link().calls();
        let p = tx.poll();
        proof {
            lemma_wtx_step_outcomes::<T::Error>(before);
            let io = choose|io: LinkIo<T::Error>|
                wtx_io_fits(before, io) && #[trigger] wtx_step(before, io) == (tx.model(), p)
                    && (T::keeps_calls() ==> tx.link().calls() == c0 + link_calls(io));
            lemma_wtx_trace_push(ms, evs, WTxEvent::Poll(io, p), tx.model());
            lemma_wsend_idle_push(budget.limit(), budget.idle(), evs, WTxEvent::Poll(io, p));
            ms = ms.push(tx.model());
            evs = evs.push(WTxEvent::Poll(io, p));
        }
        let p = match p {
            Err(e) => return Err(StreamError::Protocol(e)),
            Ok(p) => p,
        };
        match p {
            TxPoll::Acked => idle_budget.reset(),
            TxPoll::Pending => {
                match idle_budget.tick() {
                    Err(e) => return Err(StreamError::Protocol(e)),
                    Ok(()) => {},
                }
            },
            TxPoll::Aborted => return Err(StreamError::Protocol(Error::Aborted)),
            TxPoll::SessionReady | TxPoll::TransferDone => break,
        }
    }
    assert((S::keeps_reads() ==> src.reads().take((old(src).reads().len() + data.len()) as int) =~= old(src).reads()
        + some_bytes(data)));
    let ghost before = tx.model();
    let ghost c0 = tx.link().calls();
    let fin = tx.send_finish();
    proof {
        let (ms2, evs2) = choose|ms2: Seq<WTxModel>, evs2: Seq<WTxEvent<T::Error>>|
            {
                &&& #[trigger] wtx_trace(ms2, evs2)
                &&& ms2[0] == before
                &&& ms2.last() == tx.model()
                &&& (T::keeps_calls() ==> tx.link().calls() == c0 + wtx_trace_calls(evs2))
                &&& wtx_trace_offers(evs2) == Seq::<u8>::empty()
                &&& fin is Ok ==> evs2.len() > 0 && (evs2.last() matches WTxEvent::Poll(
                    _,
                    Ok(TxPoll::TransferDone | TxPoll::SessionReady),
                ))
                &&& fin == Err::<(), Error<T::Error>>(Error::Timeout) ==> evs2.len() >= u64::MAX
                &&& (fin matches Err(Error::Transport(_) | Error::RetriesExhausted)) ==> evs2.len() > 0
                    && (evs2.last() matches WTxEvent::Poll(_, Err(e)) && fin == Err::<(), Error<T::Error>>(e))
            };
        lemma_wtx_trace_append(ms, evs, ms2, evs2);
        assert(data + Seq::<u8>::empty() =~= data);
        assert(evs2.len() > 0 ==> (evs + evs2).last() == evs2.last()) by {
            if evs2.len() > 0 {
                assert((evs + evs2)[evs.len() + evs2.len() - 1] == evs2[evs2.len() - 1]);
            }
        }
        ms = ms + ms2.drop_first();
        evs = evs + evs2;
    }
    match fin {
        Err(e) => return Err(StreamError::Protocol(e)),
        Ok(()) => {},
    }
    Ok(n)
}

/// Writes every delivered byte into `sink` until FINISH, with the default
/// idle budget.
pub fn recv_all<T: ByteTransport, K: ByteSink>(
    rx: &mut Receiver<T>,
    sink: &mut K,
) -> (r: Result<u64, StreamError<T::Error, K::Error>>)
    requires
        old(rx).wf(),
    ensures
        final(rx).wf(),
        r is Ok ==> final(rx).model().state is Finished,
        exists|ms: Seq<RxModel>, ios: Seq<RxIo<T::Error>>, rs: Seq<Result<PollOutcome, Error<T::Error>>>|
            {
                &&& #[trigger] rx_io_run(ms, ios, rs)
                &&& ms[0] == old(rx).model()
                &&& ms.last() == final(rx).model()
                &&& (T::keeps_calls() ==> final(rx).link().calls() == old(rx).link().calls() + rx_run_calls(ios))
                &&& (K::keeps_accepted() ==> final(sink).accepted() == old(sink).accepted() + recv_sunk(
                    rs,
                    r matches Err(StreamError::Application(_)),
                ))
                &&& recv_result(Some(1_000_000u32), 0, rs, r)
            },
{
    recv_all_budgeted(rx, sink, IdleBudget::default_budget())
}

/// [`recv_all`] with an [`IdleBudget`], so a silent peer cannot hang the loop.
///
/// Stops with `Protocol(Timeout)` after `u64::MAX` polls.
pub fn recv_all_budgeted<T: ByteTransport, K: ByteSink>(
    rx: &mut Receiver<T>,
    sink: &mut K,
    budget: IdleBudget,
) -> (r: Result<u64, StreamError<T::Error, K::Error>>)
    requires
        old(rx).wf(),
    ensures
        final(rx).wf(),
        r is Ok ==> final(rx).model().state is Finished,
        exists|ms: Seq<RxModel>, ios: Seq<RxIo<T::Error>>, rs: Seq<Result<PollOutcome, Error<T::Error>>>|
            {
                &&& #[trigger] rx_io_run(ms, ios, rs)
                &&& ms[0] == old(rx).model()
                &&& ms.last() == final(rx).model()
                &&& (T::keeps_calls() ==> final(rx).link().calls() == old(rx).link().calls() + rx_run_calls(ios))
                &&& (K::keeps_accepted() ==> final(sink).accepted() == old(sink).accepted() + recv_sunk(
                    rs,
                    r matches Err(StreamError::Application(_)),
                ))
                &&& recv_result(budget.limit(), budget.idle(), rs, r)
            },
{
    let ghost limit0 = budget.limit();
    let ghost idle0 = budget.idle();
    let mut idle_budget = budget;
    let mut n: u64 = 0;
    let mut steps: u64 = u64::MAX;
    let ghost mut ms: Seq<RxModel> = seq![rx.model()];
    let ghost mut ios: Seq<RxIo<T::Error>> = Seq::empty();
    let ghost mut rs: Seq<Result<PollOutcome, Error<T::Error>>> = Seq::empty();
    assert(rx_run_calls(ios) =~= Seq::<crate::transport::LinkCall>::empty());
    assert((T::keeps_calls() ==> old(rx).link().calls() + rx_run_calls(ios) =~= old(rx).link().calls()));
    assert((K::keeps_accepted() ==> old(sink).accepted() + delivered_bytes(rs) =~= old(sink).accepted()));
    loop
        invariant
            rx.wf(),
            rx_io_run(ms, ios, rs),
            ms[0] == old(rx).model(),
            ms.last() == rx.model(),
            (T::keeps_calls() ==> rx.link().calls() == old(rx).link().calls() + rx_run_calls(ios)),
            (K::keeps_accepted() ==> sink.accepted() == old(sink).accepted() + delivered_bytes(rs)),
            delivered_bytes(rs).len() == n,
            n <= rs.len(),
            rs.len() + steps == u64::MAX,
            limit0 == budget.limit(),
            idle0 == budget.idle(),
            idle_budget.limit() == limit0,
            idle_budget.idle() == recv_idle(limit0, idle0, rs),
            recv_went_on(limit0, idle0, rs),
        decreases steps,
    {
        if steps == 0 {
            return Err(StreamError::Protocol(Error::Timeout));
        }
        steps = steps - 1;
        let ghost prev = rx.model();
        let ghost c0 = rx.link().calls();
        let ghost rs0 = rs;
        let ghost a0 = sink.accepted();
        let polled = rx.poll();
        let ghost io = choose|io: RxIo<T::Error>|
            rx_io_fits(prev, io) && #[trigger] rx_step(prev, io) == (rx.model(), polled)
                && (T::keeps_calls() ==> rx.link().calls() == c0 + rx_link_calls(io));
        proof {
            lemma_rx_io_run_push(ms, ios, rs, io, rx.model(), polled);
            lemma_recv_last(limit0, idle0, rs, polled);
            ms = ms.push(rx.model());
            ios = ios.push(io);
            rs = rs.push(polled);
        }
        let o = match polled {
            Err(e) => return Err(StreamError::Protocol(e)),
            Ok(o) => o,
        };
        match o {
            PollOutcome::Delivered(byte) => {
                match sink.write_byte(byte) {
                    Err(e) => return Err(StreamError::Application(e)),
                    Ok(()) => {},
                }
                n = n + 1;
                idle_budget.reset();
                proof {
                    lemma_recv_went_on_push(limit0, idle0, rs0, polled);
                }
            },
            PollOutcome::TransferFinished => return Ok(n),
            PollOutcome::Aborted => return Err(StreamError::Protocol(Error::Aborted)),
            PollOutcome::Started | PollOutcome::DuplicateIgnored | PollOutcome::Rejected
            | PollOutcome::CrcRejected => {
                idle_budget.reset();
                proof {
                    lemma_recv_went_on_push(limit0, idle0, rs0, polled);
                }
            },
            PollOutcome::Pending => {
                match idle_budget.tick() {
                    Err(e) => return Err(StreamError::Protocol(e)),
                    Ok(()) => {},
                }
                proof {
                    lemma_recv_went_on_push(limit0, idle0, rs0, polled);
                }
            },
        }
    }
}

/// Windowed counterpart of [`recv_all`].
pub fn recv_all_windowed<T: ByteTransport, K: ByteSink, const N: usize>(
    rx: &mut WindowedReceiver<T, N>,
    sink: &mut K,
) -> (r: Result<u64, StreamError<T::Error, K::Error>>)
    requires
        old(rx).wf(),
    ensures
        final(rx).wf(),
        r is Ok ==> final(rx).model().state is Finished,
        exists|ms: Seq<WRxModel>, ios: Seq<RxIo<T::Error>>, rs: Seq<Result<PollOutcome, Error<T::Error>>>|
            {
                &&& #[trigger] wrx_io_run(ms, ios, rs)
                &&& ms[0] == old(rx).model()
                &&& ms.last() == final(rx).model()
                &&& (T::keeps_calls() ==> final(rx).link().calls() == old(rx).link().calls() + rx_run_calls(ios))
                &&& (K::keeps_accepted() ==> final(sink).accepted() == old(sink).accepted() + recv_sunk(
                    rs,
                    r matches Err(StreamError::Application(_)),
                ))
                &&& recv_result(Some(1_000_000u32), 0, rs, r)
            },
{
    recv_all_windowed_budgeted(rx, sink, IdleBudget::default_budget())
}

/// [`recv_all_windowed`] with an [`IdleBudget`].
///
/// Stops with `Protocol(Timeout)` after `u64::MAX` polls.
pub fn recv_all_windowed_budgeted<T: ByteTransport, K: ByteSink, const N: usize>(
    rx: &mut WindowedReceiver<T, N>,
    sink: &mut K,
    budget: IdleBudget,
) -> (r: Result<u64, StreamError<T::Error, K::Error>>)
    requires
        old(rx).wf(),
    ensures
        final(rx).wf(),
        r is Ok ==> final(rx).model().state is Finished,
        exists|ms: Seq<WRxModel>, ios: Seq<RxIo<T::Error>>, rs: Seq<Result<PollOutcome, Error<T::Error>>>|
            {
                &&& #[trigger] wrx_io_run(ms, ios, rs)
                &&& ms[0] == old(rx).model()
                &&& ms.last() == final(rx).model()
                &&& (T::keeps_calls() ==> final(rx).link().calls() == old(rx).link().calls() + rx_run_calls(ios))
                &&& (K::keeps_accepted() ==> final(sink).accepted() == old(sink).accepted() + recv_sunk(
                    rs,
                    r matches Err(StreamError::Application(_)),
                ))
                &&& recv_result(budget.limit(), budget.idle(), rs, r)
            },
{
    let ghost limit0 = budget.limit();
    let ghost idle0 = budget.idle();
    let mut idle_budget = budget;
    let mut n: u64 = 0;
    let mut steps: u64 = u64::MAX;
    let ghost mut ms: Seq<WRxModel> = seq![rx.model()];
    let ghost mut ios: Seq<RxIo<T::Error>> = Seq::empty();
    let ghost mut rs: Seq<Result<PollOutcome, Error<T::Error>>> = Seq::empty();
    assert(rx_run_calls(ios) =~= Seq::<crate::transport::LinkCall>::empty());
    assert((T::keeps_calls() ==> old(rx).link().calls() + rx_run_calls(ios) =~= old(rx).link().calls()));
    assert((K::keeps_accepted() ==> old(sink).accepted() + delivered_bytes(rs) =~= old(sink).accepted()));
    loop
        invariant
            rx.wf(),
            wrx_io_run(ms, ios, rs),
            ms[0] == old(rx).model(),
            ms.last() == rx.model(),
            (T::keeps_calls() ==> rx.link().calls() == old(rx).link().calls() + rx_run_calls(ios)),
            (K::keeps_accepted() ==> sink.accepted() == old(sink).accepted() + delivered_bytes(rs)),
            delivered_bytes(rs).len() == n,
            n <= rs.len(),
            rs.len() + steps == u64::MAX,
            limit0 == budget.limit(),
            idle0 == budget.idle(),
            idle_budget.limit() == limit0,
            idle_budget.idle() == recv_idle(limit0, idle0, rs),
            recv_went_on(limit0, idle0, rs),
        decreases steps,
    {
        if steps == 0 {
            return Err(StreamError::Protocol(Error::Timeout));
        }
        steps = steps - 1;
        let ghost prev = rx.model();
        let ghost c0 = rx.link().calls();
        let ghost rs0 = rs;
        let ghost a0 = sink.accepted();
        let polled = rx.poll();
        let ghost io = choose|io: RxIo<T::Error>|
            wrx_io_fits(prev, io) && #[trigger] wrx_step(prev, io) == (rx.model(), polled)
                && (T::keeps_calls() ==> rx.link().calls() == c0 + rx_link_calls(io));
        proof {
            lemma_wrx_io_run_push(ms, ios, rs, io, rx.model(), polled);
            lemma_recv_last(limit0, idle0, rs, polled);
            ms = ms.push(rx.model());
            ios = ios.push(io);
            rs = rs.push(polled);
        }
        let o = match polled {
            Err(e) => return Err(StreamError::Protocol(e)),
            Ok(o) => o,
        };
        match o {
            PollOutcome::Delivered(byte) => {
                match sink.write_byte(byte) {
                    Err(e) => return Err(StreamError::Application(e)),
                    Ok(()) => {},
                }
                n = n + 1;
                idle_budget.reset();
                proof {
                    lemma_recv_went_on_push(limit0, idle0, rs0, polled);
                }
            },
            PollOutcome::TransferFinished => return Ok(n),
            PollOutcome::Aborted => return Err(StreamError::Protocol(Error::Aborted)),
            PollOutcome::Started | PollOutcome::DuplicateIgnored | PollOutcome::Rejected
            | PollOutcome::CrcRejected => {
                idle_budget.reset();
                proof {
                    lemma_recv_went_on_push(limit0, idle0, rs0, polled);
                }
            },
            PollOutcome::Pending => {
                match idle_budget.tick() {
                    Err(e) => return Err(StreamError::Protocol(e)),
                    Ok(()) => {},
                }
                proof {
                    lemma_recv_went_on_push(limit0, idle0, rs0, polled);
                }
            },
        }
    }
}

/// Receives into a borrowed slice until FINISH, with the default idle
/// budget; returns the filled prefix. The bytes past it keep their values.
///
/// Fails with `Application(SliceFull)` when a byte arrives for a full
/// slice.
pub fn recv_bytes<'a, T: ByteTransport>(rx: &mut Receiver<T>, buf: &'a mut [u8]) -> (r: Result<
    &'a [u8],
    StreamError<T::Error, SliceFull>,
>)
    requires
        old(rx).wf(),
    ensures
        final(rx).wf(),
        r is Ok ==> final(rx).model().state is Finished,
        exists|ms: Seq<RxModel>, ios: Seq<RxIo<T::Error>>, rs: Seq<Result<PollOutcome, Error<T::Error>>>|
            {
                &&& #[trigger] rx_io_run(ms, ios, rs)
                &&& ms[0] == old(rx).model()
                &&& ms.last() == final(rx).model()
                &&& (T::keeps_calls() ==> final(rx).link().calls() == old(rx).link().calls() + rx_run_calls(ios))
                &&& match r {
                    Ok(w) => {
                        &&& recv_finished(Some(1_000_000u32), 0, rs)
                        &&& w@ == delivered_bytes(rs)
                        &&& final(buf)@ == w@ + old(buf)@.skip(w@.len() as int)
                    },
                    Err(StreamError::Application(_)) => {
                        &&& recv_failed(Some(1_000_000u32), 0, rs, r->Err_0)
                        &&& delivered_bytes(rs.drop_last()).len() == old(buf)@.len()
                        &&& final(buf)@ == delivered_bytes(rs.drop_last())
                    },
                    Err(e) => {
                        &&& recv_failed(Some(1_000_000u32), 0, rs, e)
                        &&& delivered_bytes(rs).len() <= old(buf)@.len()
                        &&& final(buf)@ == delivered_bytes(rs) + old(buf)@.skip(
                            delivered_bytes(rs).len() as int,
                        )
                    },
                }
            },
{
    let ghost b0 = buf@;
    let mut budget = IdleBudget::default_budget();
    let ghost limit0 = budget.limit();
    let ghost idle0 = budget.idle();
    let ghost mut ms: Seq<RxModel> = seq![rx.model()];
    let ghost mut ios: Seq<RxIo<T::Error>> = Seq::empty();
    let ghost mut rs: Seq<Result<PollOutcome, Error<T::Error>>> = Seq::empty();
    let mut pos: usize = 0;
    let mut steps: u64 = u64::MAX;
    assert(rx_run_calls(ios) =~= Seq::<crate::transport::LinkCall>::empty());
    assert((T::keeps_calls() ==> old(rx).link().calls() + rx_run_calls(ios) =~= old(rx).link().calls()));
    loop
        invariant
            rx.wf(),
            pos <= buf@.len(),
            buf@.len() == b0.len(),
            b0 == old(buf)@,
            buf@ == delivered_bytes(rs) + b0.skip(pos as int),
            delivered_bytes(rs).len() == pos,
            rx_io_run(ms, ios, rs),
            ms[0] == old(rx).model(),
            ms.last() == rx.model(),
            (T::keeps_calls() ==> rx.link().calls() == old(rx).link().calls() + rx_run_calls(ios)),
            rs.len() + steps == u64::MAX,
            limit0 == Some(1_000_000u32),
            idle0 == 0,
            budget.limit() == limit0,
            budget.idle() == recv_idle(limit0, idle0, rs),
            recv_went_on(limit0, idle0, rs),
        decreases steps,
    {
        if steps == 0 {
            return Err(StreamError::Protocol(Error::Timeout));
        }
        steps = steps - 1;
        let ghost prev = rx.model();
        let ghost c0 = rx.link().calls();
        let ghost rs0 = rs;
        let polled = rx.poll();
        let ghost io = choose|io: RxIo<T::Error>|
            rx_io_fits(prev, io) && #[trigger] rx_step(prev, io) == (rx.model(), polled)
                && (T::keeps_calls() ==> rx.link().calls() == c0 + rx_link_calls(io));
        proof {
            lemma_rx_io_run_push(ms, ios, rs, io, rx.model(), polled);
            lemma_recv_last(limit0, idle0, rs, polled);
            ms = ms.push(rx.model());
            ios = ios.push(io);
            rs = rs.push(polled);
        }
        let o = match polled {
            Err(e) => return Err(StreamError::Protocol(e)),
            Ok(o) => o,
        };
        match o {
            PollOutcome::Delivered(byte) => {
                if pos >= buf.len() {
                    assert(b0.skip(pos as int) =~= Seq::<u8>::empty());
                    assert(buf@ =~= delivered_bytes(rs0));
                    return Err(StreamError::Application(SliceFull));
                }
                let ghost before = buf@;
                buf[pos] = byte;
                assert(buf@ =~= delivered_bytes(rs) + b0.skip(pos + 1)) by {
                    assert(b0.skip(pos as int).drop_first() =~= b0.skip(pos + 1));
                    assert(before == delivered_bytes(rs0) + b0.skip(pos as int));
                }
                pos = pos + 1;
                budget.reset();
                proof {
                    lemma_recv_went_on_push(limit0, idle0, rs0, polled);
                }
            },
            PollOutcome::TransferFinished => {
                let done: &'a [u8] = buf;
                let w = &done[0..pos];
                assert(w@ =~= delivered_bytes(rs)) by {
                    assert(done@.take(pos as int) =~= delivered_bytes(rs));
                }
                return Ok(w);
            },
            PollOutcome::Aborted => return Err(StreamError::Protocol(Error::Aborted)),
            PollOutcome::Started | PollOutcome::DuplicateIgnored | PollOutcome::Rejected
            | PollOutcome::CrcRejected => {
                budget.reset();
                proof {
                    lemma_recv_went_on_push(limit0, idle0, rs0, polled);
                }
            },
            PollOutcome::Pending => {
                match budget.tick() {
                    Err(e) => return Err(StreamError::Protocol(e)),
                    Ok(()) => {},
                }
                proof {
                    lemma_recv_went_on_push(limit0, idle0, rs0, polled);
                }
            },
        }
    }
}

} // verus!
