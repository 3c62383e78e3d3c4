//! How a sender and a receiver agree on one byte.
//!
//! Senders and receivers are specified one poll at a time ([`tx_step`],
//! [`rx_step`], and their windowed forms). This module follows one DATA
//! byte across both ends, stop-and-wait and windowed: the bytes the sender
//! hands to its transport, read back by the receiver, deliver that byte;
//! the ACK the receiver writes, read back by the sender, completes the
//! send.

use vstd::prelude::*;
use crate::error::Error;
use crate::protocol::frame::{lemma_decode_encode, spec_encode, FrameType};
use crate::protocol::sequence::seq_next;
use crate::rx::{
    ack_bytes, rx_closed, rx_inv, rx_io_fits, rx_step, PollOutcome, RxIo, RxModel, RxState,
};
use crate::tx::{new_flight, tx_io_fits, tx_step, FlightKind, InFlight, LinkIo, TxModel, TxPoll};
use crate::window::rx::{
    lemma_wrx_drain, wrx_closed, wrx_io_fits, wrx_step, WPendingAction, WRxModel,
};
use crate::window::tx::{
    count_some, holds_seq, lemma_count_pos, lemma_first_index, unwritten, wants_retransmit,
    wtx_io_fits, wtx_step, TxSlot, WTxModel,
};
use crate::window::MAX_WINDOW;

verus! {

/// The sender after polls whose writes handed over `bytes` and succeeded.
pub open spec fn tx_after_writes<E>(m: TxModel, bytes: Seq<u8>) -> TxModel
    decreases bytes.len(),
{
    if bytes.len() == 0 {
        m
    } else {
        tx_step::<E>(
            tx_after_writes::<E>(m, bytes.drop_last()),
            LinkIo::Wrote(bytes.last(), Ok(())),
        ).0
    }
}

/// The sender after polls that read `bytes`, one per poll.
pub open spec fn tx_after_reads<E>(m: TxModel, bytes: Seq<u8>) -> TxModel
    decreases bytes.len(),
{
    if bytes.len() == 0 {
        m
    } else {
        tx_step::<E>(
            tx_after_reads::<E>(m, bytes.drop_last()),
            LinkIo::Read(Ok(Some(bytes.last()))),
        ).0
    }
}

/// The receiver after the polls `ios`.
pub open spec fn rx_after<E>(m: RxModel, ios: Seq<RxIo<E>>) -> RxModel
    decreases ios.len(),
{
    if ios.len() == 0 {
        m
    } else {
        rx_step(rx_after(m, ios.drop_last()), ios.last()).0
    }
}

/// The receiver's side of one exchange: four polls read the frame `w`, the
/// last of them also writing the first byte of the reply `a`; three more
/// write the rest of `a`.
pub open spec fn rx_exchange_io<E>(w: Seq<u8>, a: Seq<u8>) -> Seq<RxIo<E>> {
    seq![
        RxIo { read: Some(Ok(Some(w[0]))), wrote: None },
        RxIo { read: Some(Ok(Some(w[1]))), wrote: None },
        RxIo { read: Some(Ok(Some(w[2]))), wrote: None },
        RxIo { read: Some(Ok(Some(w[3]))), wrote: Some((a[0], Ok(()))) },
        RxIo { read: None, wrote: Some((a[1], Ok(()))) },
        RxIo { read: None, wrote: Some((a[2], Ok(()))) },
        RxIo { read: None, wrote: Some((a[3], Ok(()))) },
    ]
}

/// One byte crosses a link. A sender that has just offered DATA `b` at
/// sequence `s` hands its transport, over four polls, exactly the frame
/// `DATA(s, b)`. A receiver that expects `s` and reads those four bytes
/// writes back exactly `ACK(s)` over the next polls, and the poll that
/// writes its last byte delivers `b` and moves on to `s + 1`; no earlier
/// poll delivers anything. The sender, reading that ACK, reports `Acked`
/// on its last byte (and `Pending` before), and is then idle at `s + 1`.
pub proof fn lemma_data_exchange<E>(mt: TxModel, mr: RxModel, b: u8)
    requires
        mt.flight == Some(new_flight(FlightKind::Data(b), mt.seq, mt.policy)),
        mt.out.len() == 0,
        mt.reply.len() == 0,
        !(mt.state is Failed),
        rx_inv(mr),
        mr.out.len() == 0,
        mr.reply.len() == 0,
        !rx_closed(mr),
        mr.expected == mt.seq,
    ensures
        ({
            let s = mt.seq;
            let w = spec_encode((FrameType::Data, s, b));
            let a = ack_bytes(s);
            let rio = rx_exchange_io::<E>(w, a);
            let t = tx_after_writes::<E>(mt, w);
            &&& forall|k: int|
                0 <= k < 4 ==> {
                    let tk = #[trigger] tx_after_writes::<E>(mt, w.take(k));
                    &&& tx_io_fits(tk, LinkIo::<E>::Wrote(w[k], Ok(())))
                    &&& tx_step(tk, LinkIo::<E>::Wrote(w[k], Ok(()))).1 == Ok::<
                        TxPoll,
                        Error<E>,
                    >(TxPoll::Pending)
                }
            &&& forall|k: int|
                0 <= k < 7 ==> {
                    let rk = #[trigger] rx_after(mr, rio.take(k));
                    &&& rx_io_fits(rk, rio[k])
                    &&& rx_step(rk, rio[k]).1 == if k == 6 {
                        Ok::<PollOutcome, Error<E>>(PollOutcome::Delivered(b))
                    } else {
                        Ok::<PollOutcome, Error<E>>(PollOutcome::Pending)
                    }
                }
            &&& rx_after(mr, rio).expected == seq_next(s)
            &&& forall|k: int|
                0 <= k < 4 ==> {
                    let tk = #[trigger] tx_after_reads::<E>(t, a.take(k));
                    &&& tx_io_fits(tk, LinkIo::<E>::Read(Ok(Some(a[k]))))
                    &&& tx_step(tk, LinkIo::<E>::Read(Ok(Some(a[k])))).1 == if k == 3 {
                        Ok::<TxPoll, Error<E>>(TxPoll::Acked)
                    } else {
                        Ok::<TxPoll, Error<E>>(TxPoll::Pending)
                    }
                }
            &&& tx_after_reads::<E>(t, a).seq == seq_next(s)
            &&& tx_after_reads::<E>(t, a).state is Idle
            &&& tx_after_reads::<E>(t, a).flight is None
        }),
{
    let w = spec_encode((FrameType::Data, mt.seq, b));
    lemma_sender_writes::<E>(mt, b);
    lemma_receiver_answers::<E>(mr, b);
    lemma_sender_reads_ack::<E>(tx_after_writes::<E>(mt, w), mt, b);
}

/// The sender's four writes: the frame `DATA(s, b)`, then waiting.
proof fn lemma_sender_writes<E>(mt: TxModel, b: u8)
    requires
        mt.flight == Some(new_flight(FlightKind::Data(b), mt.seq, mt.policy)),
        mt.out.len() == 0,
        mt.reply.len() == 0,
        !(mt.state is Failed),
    ensures
        ({
            let w = spec_encode((FrameType::Data, mt.seq, b));
            let t = tx_after_writes::<E>(mt, w);
            &&& forall|k: int|
                0 <= k < 4 ==> {
                    let tk = #[trigger] tx_after_writes::<E>(mt, w.take(k));
                    &&& tx_io_fits(tk, LinkIo::<E>::Wrote(w[k], Ok(())))
                    &&& tx_step(tk, LinkIo::<E>::Wrote(w[k], Ok(()))).1 == Ok::<
                        TxPoll,
                        Error<E>,
                    >(TxPoll::Pending)
                }
            &&& t.flight == Some(InFlight { waiting: true, empty_ticks: 0, ..mt.flight.unwrap() })
            &&& t.reply.len() == 0
            &&& t.out.len() == 0
            &&& t.seq == mt.seq
            &&& !(t.state is Failed)
        }),
{
    let w = spec_encode((FrameType::Data, mt.seq, b));
    let io0 = LinkIo::<E>::Wrote(w[0], Ok(()));
    let io1 = LinkIo::<E>::Wrote(w[1], Ok(()));
    let io2 = LinkIo::<E>::Wrote(w[2], Ok(()));
    let io3 = LinkIo::<E>::Wrote(w[3], Ok(()));
    assert(w.take(0) =~= Seq::<u8>::empty());
    assert(w.take(1).drop_last() =~= w.take(0));
    assert(w.take(2).drop_last() =~= w.take(1));
    assert(w.take(3).drop_last() =~= w.take(2));
    assert(w.take(4).drop_last() =~= w.take(3));
    assert(w.take(4) =~= w);
    let t0 = mt;
    assert(tx_after_writes::<E>(mt, w.take(0)) == t0);
    let t1 = tx_step(t0, io0).0;
    assert(tx_after_writes::<E>(mt, w.take(1)) == t1);
    assert(t1.out =~= w.drop_first());
    let t2 = tx_step(t1, io1).0;
    assert(tx_after_writes::<E>(mt, w.take(2)) == t2);
    assert(t2.out =~= w.drop_first().drop_first());
    let t3 = tx_step(t2, io2).0;
    assert(tx_after_writes::<E>(mt, w.take(3)) == t3);
    assert(t3.out =~= seq![w[3]]);
    let t4 = tx_step(t3, io3).0;
    assert(tx_after_writes::<E>(mt, w.take(4)) == t4);
    assert forall|k: int|
        0 <= k < 4 implies {
            let tk = #[trigger] tx_after_writes::<E>(mt, w.take(k));
            &&& tx_io_fits(tk, LinkIo::<E>::Wrote(w[k], Ok(())))
            &&& tx_step(tk, LinkIo::<E>::Wrote(w[k], Ok(()))).1 == Ok::<TxPoll, Error<E>>(
                TxPoll::Pending,
            )
        } by {
        if k == 0 {
        } else if k == 1 {
        } else if k == 2 {
        } else {
        }
    }
}

/// The receiver's seven polls: it reads `DATA(s, b)`, writes `ACK(s)`, and
/// delivers `b` on the last write.
proof fn lemma_receiver_answers<E>(mr: RxModel, b: u8)
    requires
        rx_inv(mr),
        mr.out.len() == 0,
        mr.reply.len() == 0,
        !rx_closed(mr),
    ensures
        ({
            let s = mr.expected;
            let w = spec_encode((FrameType::Data, s, b));
            let a = ack_bytes(s);
            let rio = rx_exchange_io::<E>(w, a);
            &&& forall|k: int|
                0 <= k < 7 ==> {
                    let rk = #[trigger] rx_after(mr, rio.take(k));
                    &&& rx_io_fits(rk, rio[k])
                    &&& rx_step(rk, rio[k]).1 == if k == 6 {
                        Ok::<PollOutcome, Error<E>>(PollOutcome::Delivered(b))
                    } else {
                        Ok::<PollOutcome, Error<E>>(PollOutcome::Pending)
                    }
                }
            &&& rx_after(mr, rio).expected == seq_next(s)
        }),
{
    let s = mr.expected;
    let w = spec_encode((FrameType::Data, s, b));
    let a = ack_bytes(s);
    lemma_decode_encode((FrameType::Data, s, b));
    let rio = rx_exchange_io::<E>(w, a);
    assert(rio.take(0) =~= Seq::<RxIo<E>>::empty());
    assert(rio.take(1).drop_last() =~= rio.take(0));
    assert(rio.take(2).drop_last() =~= rio.take(1));
    assert(rio.take(3).drop_last() =~= rio.take(2));
    assert(rio.take(4).drop_last() =~= rio.take(3));
    assert(rio.take(5).drop_last() =~= rio.take(4));
    assert(rio.take(6).drop_last() =~= rio.take(5));
    assert(rio.take(7).drop_last() =~= rio.take(6));
    assert(rio.take(7) =~= rio);
    let r0 = mr;
    assert(rx_after(mr, rio.take(0)) == r0);
    let r1 = rx_step(r0, rio[0]).0;
    assert(rx_after(mr, rio.take(1)) == r1);
    assert(r1.reply =~= seq![w[0]]);
    let r2 = rx_step(r1, rio[1]).0;
    assert(rx_after(mr, rio.take(2)) == r2);
    assert(r2.reply =~= seq![w[0], w[1]]);
    let r3 = rx_step(r2, rio[2]).0;
    assert(rx_after(mr, rio.take(3)) == r3);
    assert(r3.reply =~= seq![w[0], w[1], w[2]]);
    assert(r3.reply.push(w[3]) =~= w);
    let r4 = rx_step(r3, rio[3]).0;
    assert(rx_after(mr, rio.take(4)) == r4);
    assert(r4.out =~= a.drop_first());
    let r5 = rx_step(r4, rio[4]).0;
    assert(rx_after(mr, rio.take(5)) == r5);
    assert(r5.out =~= a.drop_first().drop_first());
    let r6 = rx_step(r5, rio[5]).0;
    assert(rx_after(mr, rio.take(6)) == r6);
    assert(r6.out =~= seq![a[3]]);
    let r7 = rx_step(r6, rio[6]).0;
    assert(rx_after(mr, rio.take(7)) == r7);
    assert forall|k: int|
        0 <= k < 7 implies {
            let rk = #[trigger] rx_after(mr, rio.take(k));
            &&& rx_io_fits(rk, rio[k])
            &&& rx_step(rk, rio[k]).1 == if k == 6 {
                Ok::<PollOutcome, Error<E>>(PollOutcome::Delivered(b))
            } else {
                Ok::<PollOutcome, Error<E>>(PollOutcome::Pending)
            }
        } by {
        if k == 0 {
        } else if k == 1 {
        } else if k == 2 {
        } else if k == 3 {
        } else if k == 4 {
        } else if k == 5 {
        } else {
        }
    }
}

/// The sender's four reads of `ACK(s)`: `Acked` on the last, then idle at
/// `s + 1`.
proof fn lemma_sender_reads_ack<E>(t: TxModel, mt: TxModel, b: u8)
    requires
        t.flight == Some(InFlight { waiting: true, empty_ticks: 0, ..mt.flight.unwrap() }),
        mt.flight == Some(new_flight(FlightKind::Data(b), mt.seq, mt.policy)),
        t.reply.len() == 0,
        t.out.len() == 0,
        t.seq == mt.seq,
        !(t.state is Failed),
    ensures
        ({
            let a = ack_bytes(t.seq);
            &&& forall|k: int|
                0 <= k < 4 ==> {
                    let tk = #[trigger] tx_after_reads::<E>(t, a.take(k));
                    &&& tx_io_fits(tk, LinkIo::<E>::Read(Ok(Some(a[k]))))
                    &&& tx_step(tk, LinkIo::<E>::Read(Ok(Some(a[k])))).1 == if k == 3 {
                        Ok::<TxPoll, Error<E>>(TxPoll::Acked)
                    } else {
                        Ok::<TxPoll, Error<E>>(TxPoll::Pending)
                    }
                }
            &&& tx_after_reads::<E>(t, a).seq == seq_next(t.seq)
            &&& tx_after_reads::<E>(t, a).state is Idle
            &&& tx_after_reads::<E>(t, a).flight is None
        }),
{
    let a = ack_bytes(t.seq);
    lemma_decode_encode((FrameType::Ack, t.seq, 0u8));
    assert(a.take(0) =~= Seq::<u8>::empty());
    assert(a.take(1).drop_last() =~= a.take(0));
    assert(a.take(2).drop_last() =~= a.take(1));
    assert(a.take(3).drop_last() =~= a.take(2));
    assert(a.take(4).drop_last() =~= a.take(3));
    assert(a.take(4) =~= a);
    let u0 = t;
    assert(tx_after_reads::<E>(t, a.take(0)) == u0);
    let u1 = tx_step(u0, LinkIo::<E>::Read(Ok(Some(a[0])))).0;
    assert(tx_after_reads::<E>(t, a.take(1)) == u1);
    assert(u1.reply =~= seq![a[0]]);
    let u2 = tx_step(u1, LinkIo::<E>::Read(Ok(Some(a[1])))).0;
    assert(tx_after_reads::<E>(t, a.take(2)) == u2);
    assert(u2.reply =~= seq![a[0], a[1]]);
    let u3 = tx_step(u2, LinkIo::<E>::Read(Ok(Some(a[2])))).0;
    assert(tx_after_reads::<E>(t, a.take(3)) == u3);
    assert(u3.reply =~= seq![a[0], a[1], a[2]]);
    assert(u3.reply.push(a[3]) =~= a);
    let u4 = tx_step(u3, LinkIo::<E>::Read(Ok(Some(a[3])))).0;
    assert(tx_after_reads::<E>(t, a.take(4)) == u4);
    assert forall|k: int|
        0 <= k < 4 implies {
            let tk = #[trigger] tx_after_reads::<E>(t, a.take(k));
            &&& tx_io_fits(tk, LinkIo::<E>::Read(Ok(Some(a[k]))))
            &&& tx_step(tk, LinkIo::<E>::Read(Ok(Some(a[k])))).1 == if k == 3 {
                Ok::<TxPoll, Error<E>>(TxPoll::Acked)
            } else {
                Ok::<TxPoll, Error<E>>(TxPoll::Pending)
            }
        } by {
        if k == 0 {
        } else if k == 1 {
        } else if k == 2 {
        } else {
        }
    }
}

/// The windowed sender after polls whose writes handed over `bytes` and
/// succeeded.
pub open spec fn wtx_after_writes<E>(m: WTxModel, bytes: Seq<u8>) -> WTxModel
    decreases bytes.len(),
{
    if bytes.len() == 0 {
        m
    } else {
        wtx_step::<E>(
            wtx_after_writes::<E>(m, bytes.drop_last()),
            LinkIo::Wrote(bytes.last(), Ok(())),
        ).0
    }
}

/// The windowed sender after polls that read `bytes`, one per poll.
pub open spec fn wtx_after_reads<E>(m: WTxModel, bytes: Seq<u8>) -> WTxModel
    decreases bytes.len(),
{
    if bytes.len() == 0 {
        m
    } else {
        wtx_step::<E>(
            wtx_after_reads::<E>(m, bytes.drop_last()),
            LinkIo::Read(Ok(Some(bytes.last()))),
        ).0
    }
}

/// The windowed receiver after the polls `ios`.
pub open spec fn wrx_after<E>(m: WRxModel, ios: Seq<RxIo<E>>) -> WRxModel
    decreases ios.len(),
{
    if ios.len() == 0 {
        m
    } else {
        wrx_step(wrx_after(m, ios.drop_last()), ios.last()).0
    }
}

/// One byte crosses a windowed link. A windowed sender whose only
/// occupied slot (the first) holds DATA `b` at sequence `s`, not yet
/// written, hands its transport exactly `DATA(s, b)` over four polls. A
/// windowed receiver that expects `s`, with an empty reorder buffer and
/// nothing waiting to be delivered, reads those bytes, writes back exactly
/// `ACK(s)`, and delivers `b` on the poll that writes its last byte (and
/// nothing before), moving on to `s + 1`. The sender, reading that ACK,
/// reports `Acked` on its last byte (and `Pending` before); its window is
/// then empty and it is idle.
pub proof fn lemma_windowed_data_exchange<E>(mt: WTxModel, mr: WRxModel, s: u8, b: u8)
    requires
        mt.slots.len() > 0,
        mt.slots[0] matches Some(sl) && sl.kind is Data && sl.seq == s && sl.payload == b
            && !sl.written && !sl.needs_retransmit,
        forall|k: int| 1 <= k < mt.slots.len() ==> #[trigger] mt.slots[k] is None,
        mt.out.len() == 0,
        mt.reply.len() == 0,
        !(mt.state is Failed),
        mr.buf.len() > 0,
        forall|k: int| 0 <= k < mr.buf.len() ==> #[trigger] mr.buf[k] is None,
        mr.emit_at == mr.emit_len,
        0 < mr.emit.len() <= MAX_WINDOW,
        mr.out.len() == 0,
        mr.reply.len() == 0,
        !wrx_closed(mr),
        mr.expected == s,
    ensures
        ({
            let w = spec_encode((FrameType::Data, s, b));
            let a = ack_bytes(s);
            let rio = rx_exchange_io::<E>(w, a);
            let t = wtx_after_writes::<E>(mt, w);
            &&& forall|k: int|
                0 <= k < 4 ==> {
                    let tk = #[trigger] wtx_after_writes::<E>(mt, w.take(k));
                    &&& wtx_io_fits(tk, LinkIo::<E>::Wrote(w[k], Ok(())))
                    &&& wtx_step(tk, LinkIo::<E>::Wrote(w[k], Ok(()))).1 == Ok::<
                        TxPoll,
                        Error<E>,
                    >(TxPoll::Pending)
                }
            &&& forall|k: int|
                0 <= k < 7 ==> {
                    let rk = #[trigger] wrx_after(mr, rio.take(k));
                    &&& wrx_io_fits(rk, rio[k])
                    &&& wrx_step(rk, rio[k]).1 == if k == 6 {
                        Ok::<PollOutcome, Error<E>>(PollOutcome::Delivered(b))
                    } else {
                        Ok::<PollOutcome, Error<E>>(PollOutcome::Pending)
                    }
                }
            &&& wrx_after(mr, rio).expected == seq_next(s)
            &&& forall|k: int|
                0 <= k < 4 ==> {
                    let tk = #[trigger] wtx_after_reads::<E>(t, a.take(k));
                    &&& wtx_io_fits(tk, LinkIo::<E>::Read(Ok(Some(a[k]))))
                    &&& wtx_step(tk, LinkIo::<E>::Read(Ok(Some(a[k])))).1 == if k == 3 {
                        Ok::<TxPoll, Error<E>>(TxPoll::Acked)
                    } else {
                        Ok::<TxPoll, Error<E>>(TxPoll::Pending)
                    }
                }
            &&& count_some(wtx_after_reads::<E>(t, a).slots) == 0
            &&& wtx_after_reads::<E>(t, a).state is Idle
        }),
{
    let w = spec_encode((FrameType::Data, s, b));
    lemma_windowed_sender_writes::<E>(mt, s, b);
    lemma_windowed_receiver_answers::<E>(mr, b);
    lemma_windowed_sender_reads_ack::<E>(wtx_after_writes::<E>(mt, w), s);
}

/// No occupied slot, no count.
proof fn lemma_count_zero(sl: Seq<Option<TxSlot>>)
    requires
        forall|k: int| 0 <= k < sl.len() ==> #[trigger] sl[k] is None,
    ensures
        count_some(sl) == 0,
    decreases sl.len(),
{
    if sl.len() > 0 {
        let p = sl.drop_last();
        assert forall|k: int| 0 <= k < p.len() implies #[trigger] p[k] is None by {
            assert(p[k] == sl[k]);
        }
        lemma_count_zero(p);
    }
}

/// The windowed sender's four writes: the frame `DATA(s, b)`, then the
/// slot is marked written and the sender waits.
proof fn lemma_windowed_sender_writes<E>(mt: WTxModel, s: u8, b: u8)
    requires
        mt.slots.len() > 0,
        mt.slots[0] matches Some(sl) && sl.kind is Data && sl.seq == s && sl.payload == b
            && !sl.written && !sl.needs_retransmit,
        forall|k: int| 1 <= k < mt.slots.len() ==> #[trigger] mt.slots[k] is None,
        mt.out.len() == 0,
        mt.reply.len() == 0,
        !(mt.state is Failed),
    ensures
        ({
            let w = spec_encode((FrameType::Data, s, b));
            let t = wtx_after_writes::<E>(mt, w);
            &&& forall|k: int|
                0 <= k < 4 ==> {
                    let tk = #[trigger] wtx_after_writes::<E>(mt, w.take(k));
                    &&& wtx_io_fits(tk, LinkIo::<E>::Wrote(w[k], Ok(())))
                    &&& wtx_step(tk, LinkIo::<E>::Wrote(w[k], Ok(()))).1 == Ok::<
                        TxPoll,
                        Error<E>,
                    >(TxPoll::Pending)
                }
            &&& t.slots.len() == mt.slots.len()
            &&& t.slots[0] matches Some(sl) && sl.kind is Data && sl.seq == s && sl.written
                && !sl.needs_retransmit
            &&& forall|k: int| 1 <= k < t.slots.len() ==> #[trigger] t.slots[k] is None
            &&& t.out.len() == 0
            &&& t.reply.len() == 0
            &&& t.state is WaitingAck
        }),
{
    let w = spec_encode((FrameType::Data, s, b));
    let sl = mt.slots[0].unwrap();
    let io0 = LinkIo::<E>::Wrote(w[0], Ok(()));
    let io1 = LinkIo::<E>::Wrote(w[1], Ok(()));
    let io2 = LinkIo::<E>::Wrote(w[2], Ok(()));
    let io3 = LinkIo::<E>::Wrote(w[3], Ok(()));
    lemma_count_pos(mt.slots, 0);
    lemma_first_index(mt.slots, wants_retransmit(), mt.slots.len() as int);
    lemma_first_index(mt.slots, unwritten(), 0);
    assert(w.take(0) =~= Seq::<u8>::empty());
    assert(w.take(1).drop_last() =~= w.take(0));
    assert(w.take(2).drop_last() =~= w.take(1));
    assert(w.take(3).drop_last() =~= w.take(2));
    assert(w.take(4).drop_last() =~= w.take(3));
    assert(w.take(4) =~= w);
    let t0 = mt;
    assert(wtx_after_writes::<E>(mt, w.take(0)) == t0);
    let t1 = wtx_step(t0, io0).0;
    assert(wtx_after_writes::<E>(mt, w.take(1)) == t1);
    assert(t1.out =~= w.drop_first());
    assert(t1.writing == Some(0usize));
    let t2 = wtx_step(t1, io1).0;
    assert(wtx_after_writes::<E>(mt, w.take(2)) == t2);
    assert(t2.out =~= w.drop_first().drop_first());
    let t3 = wtx_step(t2, io2).0;
    assert(wtx_after_writes::<E>(mt, w.take(3)) == t3);
    assert(t3.out =~= seq![w[3]]);
    assert(t3.slots == mt.slots && t3.writing == Some(0usize));
    let t4 = wtx_step(t3, io3).0;
    assert(wtx_after_writes::<E>(mt, w.take(4)) == t4);
    let written = mt.slots.update(
        0,
        Some(TxSlot { written: true, needs_retransmit: false, empty_ticks: 0, ..sl }),
    );
    assert(t4.slots == written);
    lemma_count_pos(written, 0);
    assert forall|k: int| 1 <= k < t4.slots.len() implies #[trigger] t4.slots[k] is None by {
        assert(t4.slots[k] == mt.slots[k]);
    }
    assert forall|k: int|
        0 <= k < 4 implies {
            let tk = #[trigger] wtx_after_writes::<E>(mt, w.take(k));
            &&& wtx_io_fits(tk, LinkIo::<E>::Wrote(w[k], Ok(())))
            &&& wtx_step(tk, LinkIo::<E>::Wrote(w[k], Ok(()))).1 == Ok::<TxPoll, Error<E>>(
                TxPoll::Pending,
            )
        } by {
        if k == 0 {
        } else if k == 1 {
        } else if k == 2 {
        } else {
        }
    }
}

/// A windowed receiver poll that reads one byte of an unfinished frame.
proof fn lemma_wrx_read_step<E>(m: WRxModel, x: u8)
    requires
        m.emit_at >= m.emit_len,
        m.out.len() == 0,
        m.reply.len() < 3,
    ensures
        ({
            let io = RxIo::<E> { read: Some(Ok(Some(x))), wrote: None };
            &&& wrx_io_fits(m, io)
            &&& wrx_step(m, io) == (
                WRxModel {
                    reply: m.reply.push(x),
                    state: RxState::Receiving,
                    emit_at: 0,
                    emit_len: 0,
                    ..m
                },
                Ok::<PollOutcome, Error<E>>(PollOutcome::Pending),
            )
        }),
{
}

/// A windowed receiver poll that writes one reply byte, not the last.
proof fn lemma_wrx_write_step<E>(m: WRxModel, x: u8)
    requires
        m.emit_at >= m.emit_len,
        m.out.len() > 1,
        m.out[0] == x,
    ensures
        ({
            let io = RxIo::<E> { read: None, wrote: Some((x, Ok(()))) };
            &&& wrx_io_fits(m, io)
            &&& wrx_step(m, io) == (
                WRxModel {
                    out: m.out.drop_first(),
                    state: RxState::Acknowledging,
                    emit_at: 0,
                    emit_len: 0,
                    ..m
                },
                Ok::<PollOutcome, Error<E>>(PollOutcome::Pending),
            )
        }),
{
}

/// The windowed receiver's poll that reads the last byte of `DATA(s, b)`
/// at the expected sequence: the byte goes to the head of the reorder
/// buffer, the ACK is begun and its first byte written.
proof fn lemma_wrx_completes_data<E>(m: WRxModel, b: u8, x: u8)
    requires
        m.emit_at >= m.emit_len,
        m.out.len() == 0,
        m.reply.len() == 3,
        m.reply.push(x) == spec_encode((FrameType::Data, m.expected, b)),
        !wrx_closed(m),
        m.buf.len() > 0,
        m.buf[0] is None,
    ensures
        ({
            let a = ack_bytes(m.expected);
            let io = RxIo::<E> { read: Some(Ok(Some(x))), wrote: Some((a[0], Ok(()))) };
            &&& wrx_io_fits(m, io)
            &&& wrx_step(m, io) == (
                WRxModel {
                    reply: Seq::empty(),
                    out: a.drop_first(),
                    pending: Some(WPendingAction::Drain),
                    buf: m.buf.update(0, Some(b)),
                    state: RxState::Acknowledging,
                    emit_at: 0,
                    emit_len: 0,
                    ..m
                },
                Ok::<PollOutcome, Error<E>>(PollOutcome::Pending),
            )
        }),
{
    lemma_decode_encode((FrameType::Data, m.expected, b));
    assert(crate::protocol::sequence::seq_dist(m.expected, m.expected) == 0);
}

/// The windowed receiver's seven polls: it reads `DATA(s, b)` into the
/// head of its reorder buffer, writes `ACK(s)`, and delivers `b` on the
/// last write.
#[verifier::spinoff_prover]
#[verifier::rlimit(40)]
proof fn lemma_windowed_receiver_answers<E>(mr: WRxModel, b: u8)
    requires
        mr.buf.len() > 0,
        forall|k: int| 0 <= k < mr.buf.len() ==> #[trigger] mr.buf[k] is None,
        mr.emit_at == mr.emit_len,
        0 < mr.emit.len() <= MAX_WINDOW,
        mr.out.len() == 0,
        mr.reply.len() == 0,
        !wrx_closed(mr),
    ensures
        ({
            let s = mr.expected;
            let w = spec_encode((FrameType::Data, s, b));
            let a = ack_bytes(s);
            let rio = rx_exchange_io::<E>(w, a);
            &&& forall|k: int|
                0 <= k < 7 ==> {
                    let rk = #[trigger] wrx_after(mr, rio.take(k));
                    &&& wrx_io_fits(rk, rio[k])
                    &&& wrx_step(rk, rio[k]).1 == if k == 6 {
                        Ok::<PollOutcome, Error<E>>(PollOutcome::Delivered(b))
                    } else {
                        Ok::<PollOutcome, Error<E>>(PollOutcome::Pending)
                    }
                }
            &&& wrx_after(mr, rio).expected == seq_next(s)
        }),
{
    let s = mr.expected;
    let w = spec_encode((FrameType::Data, s, b));
    let a = ack_bytes(s);
    let rio = rx_exchange_io::<E>(w, a);
    assert(w.len() == 4 && a.len() == 4);
    assert(rio.take(0) =~= Seq::<RxIo<E>>::empty());
    assert(rio.take(1).drop_last() =~= rio.take(0));
    assert(rio.take(2).drop_last() =~= rio.take(1));
    assert(rio.take(3).drop_last() =~= rio.take(2));
    assert(rio.take(4).drop_last() =~= rio.take(3));
    assert(rio.take(5).drop_last() =~= rio.take(4));
    assert(rio.take(6).drop_last() =~= rio.take(5));
    assert(rio.take(7).drop_last() =~= rio.take(6));
    assert(rio.take(7) =~= rio);
    let r0 = mr;
    assert(wrx_after(mr, rio.take(0)) == r0);
    lemma_wrx_read_step::<E>(r0, w[0]);
    let r1 = wrx_step(r0, rio[0]).0;
    assert(wrx_after(mr, rio.take(1)) == r1);
    lemma_wrx_read_step::<E>(r1, w[1]);
    let r2 = wrx_step(r1, rio[1]).0;
    assert(wrx_after(mr, rio.take(2)) == r2);
    lemma_wrx_read_step::<E>(r2, w[2]);
    let r3 = wrx_step(r2, rio[2]).0;
    assert(wrx_after(mr, rio.take(3)) == r3);
    assert(r3.reply =~= seq![w[0], w[1], w[2]]);
    assert(r3.reply.push(w[3]) =~= w);
    lemma_wrx_completes_data::<E>(r3, b, w[3]);
    let r4 = wrx_step(r3, rio[3]).0;
    assert(wrx_after(mr, rio.take(4)) == r4);
    assert(r4.out[0] == a[1]);
    lemma_wrx_write_step::<E>(r4, a[1]);
    let r5 = wrx_step(r4, rio[4]).0;
    assert(wrx_after(mr, rio.take(5)) == r5);
    assert(r5.out[0] == a[2]);
    lemma_wrx_write_step::<E>(r5, a[2]);
    let r6 = wrx_step(r5, rio[5]).0;
    assert(wrx_after(mr, rio.take(6)) == r6);
    assert(r6.out =~= seq![a[3]]);
    assert forall|k: int| 1 <= k < r6.buf.len() implies #[trigger] r6.buf[k] is None by {
        assert(r6.buf[k] == mr.buf[k]);
    }
    lemma_wrx_last_write_delivers::<E>(r6, b, a[3]);
    let r7 = wrx_step(r6, rio[6]).0;
    assert(wrx_after(mr, rio.take(7)) == r7);
    assert forall|k: int|
        0 <= k < 7 implies {
            let rk = #[trigger] wrx_after(mr, rio.take(k));
            &&& wrx_io_fits(rk, rio[k])
            &&& wrx_step(rk, rio[k]).1 == if k == 6 {
                Ok::<PollOutcome, Error<E>>(PollOutcome::Delivered(b))
            } else {
                Ok::<PollOutcome, Error<E>>(PollOutcome::Pending)
            }
        } by {
        if k == 0 {
        } else if k == 1 {
        } else if k == 2 {
        } else if k == 3 {
        } else if k == 4 {
        } else if k == 5 {
        } else {
        }
    }
}

/// The poll that writes the last byte of the ACK drains the head of the
/// reorder buffer and delivers it.
proof fn lemma_wrx_last_write_delivers<E>(r: WRxModel, b: u8, x: u8)
    requires
        r.out == seq![x],
        r.pending == Some(WPendingAction::Drain),
        r.buf.len() > 0,
        r.buf[0] == Some(b),
        forall|k: int| 1 <= k < r.buf.len() ==> #[trigger] r.buf[k] is None,
        r.emit_at == 0,
        r.emit_len == 0,
        0 < r.emit.len() <= MAX_WINDOW,
    ensures
        ({
            let io = RxIo::<E> { read: None, wrote: Some((x, Ok(()))) };
            &&& wrx_io_fits(r, io)
            &&& wrx_step(r, io).1 == Ok::<PollOutcome, Error<E>>(PollOutcome::Delivered(b))
            &&& wrx_step(r, io).0.expected == seq_next(r.expected)
        }),
{
    let m1 = WRxModel { out: r.out.drop_first(), pending: None, ..r };
    assert(crate::window::rx::filled_prefix(m1.buf.drop_first()) == 0);
    assert(crate::window::rx::filled_prefix(m1.buf) == 1);
    lemma_wrx_drain(m1, m1.buf.len());
    let d = crate::window::rx::wrx_drain(m1, m1.buf.len());
    assert(d.emit.subrange(0, d.emit_len as int) =~= seq![b]) by {
        assert(crate::window::rx::run_bytes(m1.buf, 1) =~= seq![b]);
        assert(m1.emit.subrange(0, 0) =~= Seq::<u8>::empty());
    }
    assert(d.emit_len == 1);
    assert(d.emit.subrange(0, 1)[0] == d.emit[0]);
    assert(d.emit[0] == b);
}

/// The windowed sender's four reads of `ACK(s)`: `Acked` on the last,
/// then an empty window and an idle sender.
proof fn lemma_windowed_sender_reads_ack<E>(t: WTxModel, s: u8)
    requires
        t.slots.len() > 0,
        t.slots[0] matches Some(sl) && sl.kind is Data && sl.seq == s && sl.written
            && !sl.needs_retransmit,
        forall|k: int| 1 <= k < t.slots.len() ==> #[trigger] t.slots[k] is None,
        t.out.len() == 0,
        t.reply.len() == 0,
        t.state is WaitingAck,
    ensures
        ({
            let a = ack_bytes(s);
            &&& forall|k: int|
                0 <= k < 4 ==> {
                    let tk = #[trigger] wtx_after_reads::<E>(t, a.take(k));
                    &&& wtx_io_fits(tk, LinkIo::<E>::Read(Ok(Some(a[k]))))
                    &&& wtx_step(tk, LinkIo::<E>::Read(Ok(Some(a[k])))).1 == if k == 3 {
                        Ok::<TxPoll, Error<E>>(TxPoll::Acked)
                    } else {
                        Ok::<TxPoll, Error<E>>(TxPoll::Pending)
                    }
                }
            &&& count_some(wtx_after_reads::<E>(t, a).slots) == 0
            &&& wtx_after_reads::<E>(t, a).state is Idle
        }),
{
    let a = ack_bytes(s);
    lemma_decode_encode((FrameType::Ack, s, 0u8));
    lemma_count_pos(t.slots, 0);
    lemma_first_index(t.slots, wants_retransmit(), t.slots.len() as int);
    lemma_first_index(t.slots, unwritten(), t.slots.len() as int);
    lemma_first_index(t.slots, holds_seq(s), 0);
    let emptied = t.slots.update(0, None);
    lemma_count_zero(emptied);
    assert(a.take(0) =~= Seq::<u8>::empty());
    assert(a.take(1).drop_last() =~= a.take(0));
    assert(a.take(2).drop_last() =~= a.take(1));
    assert(a.take(3).drop_last() =~= a.take(2));
    assert(a.take(4).drop_last() =~= a.take(3));
    assert(a.take(4) =~= a);
    let u0 = t;
    assert(wtx_after_reads::<E>(t, a.take(0)) == u0);
    let u1 = wtx_step(u0, LinkIo::<E>::Read(Ok(Some(a[0])))).0;
    assert(wtx_after_reads::<E>(t, a.take(1)) == u1);
    assert(u1.reply =~= seq![a[0]]);
    let u2 = wtx_step(u1, LinkIo::<E>::Read(Ok(Some(a[1])))).0;
    assert(wtx_after_reads::<E>(t, a.take(2)) == u2);
    assert(u2.reply =~= seq![a[0], a[1]]);
    let u3 = wtx_step(u2, LinkIo::<E>::Read(Ok(Some(a[2])))).0;
    assert(wtx_after_reads::<E>(t, a.take(3)) == u3);
    assert(u3.reply =~= seq![a[0], a[1], a[2]]);
    assert(u3.reply.push(a[3]) =~= a);
    assert(u3.slots == t.slots);
    let u4 = wtx_step(u3, LinkIo::<E>::Read(Ok(Some(a[3])))).0;
    assert(wtx_after_reads::<E>(t, a.take(4)) == u4);
    assert(u4.slots == emptied);
    assert forall|k: int|
        0 <= k < 4 implies {
            let tk = #[trigger] wtx_after_reads::<E>(t, a.take(k));
            &&& wtx_io_fits(tk, LinkIo::<E>::Read(Ok(Some(a[k]))))
            &&& wtx_step(tk, LinkIo::<E>::Read(Ok(Some(a[k])))).1 == if k == 3 {
                Ok::<TxPoll, Error<E>>(TxPoll::Acked)
            } else {
                Ok::<TxPoll, Error<E>>(TxPoll::Pending)
            }
        } by {
        if k == 0 {
        } else if k == 1 {
        } else if k == 2 {
        } else {
        }
    }
}

} // verus!
