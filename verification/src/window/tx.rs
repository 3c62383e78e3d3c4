//! Heapless selective-repeat sender: `[Option<TxSlot>; N]`, `1 <= N <= 8`.

use vstd::prelude::*;
use crate::error::Error;
use crate::protocol::frame::{spec_decode, spec_encode, Frame, FrameType, FrameView};
use crate::protocol::sequence::{seq_dist, seq_next, seq_prev};
use crate::protocol::{FrameAssembler, OutBuf, Sequence};
use crate::timeout::RetryPolicy;
use crate::transport::{ByteTransport, LinkCall};
use crate::tx::{link_calls, LinkIo, TxPoll, TxState};
use super::MAX_WINDOW;

verus! {

/// What a window slot carries.
#[derive(Debug, Clone, Copy, PartialEq, Eq, Structural)]
pub enum SlotKind {
    /// One payload byte.
    Data,
    /// Session start.
    Start,
    /// Session finish.
    Finish,
}

/// One frame held by the send window.
#[derive(Debug, Clone, Copy, PartialEq, Eq, Structural)]
pub struct TxSlot {
    /// What the frame is.
    pub kind: SlotKind,
    /// Its sequence number.
    pub seq: u8,
    /// Its payload byte (0 for control frames).
    pub payload: u8,
    /// Retransmissions still allowed.
    pub retries_left: u8,
    /// It has been written to the wire at least once.
    pub written: bool,
    /// It must be written again (NACK or timeout).
    pub needs_retransmit: bool,
    /// Consecutive empty reads since it was last written.
    pub empty_ticks: u16,
}

/// The windowed sender's state apart from its transport.
pub struct WTxModel {
    /// Sequence the next offered DATA byte will carry.
    pub next_seq: u8,
    /// The window slots, in slot order.
    pub slots: Seq<Option<TxSlot>>,
    /// Coarse state.
    pub state: TxState,
    /// Retry policy.
    pub policy: RetryPolicy,
    /// Bytes of an incoming reply accumulated so far.
    pub reply: Seq<u8>,
    /// Bytes of the outgoing frame not yet written.
    pub out: Seq<u8>,
    /// The slot whose frame is being written.
    pub writing: Option<usize>,
}

/// Number of occupied slots.
pub open spec fn count_some(s: Seq<Option<TxSlot>>) -> nat
    decreases s.len(),
{
    if s.len() == 0 {
        0
    } else {
        count_some(s.drop_last()) + if s.last() is Some { 1nat } else { 0nat }
    }
}

/// Index of the first slot satisfying `p`.
pub open spec fn first_index(s: Seq<Option<TxSlot>>, p: spec_fn(Option<TxSlot>) -> bool) -> Option<int>
    decreases s.len(),
{
    if s.len() == 0 {
        None
    } else if p(s[0]) {
        Some(0)
    } else {
        match first_index(s.drop_first(), p) {
            Some(i) => Some(i + 1),
            None => None,
        }
    }
}

/// A free slot.
pub open spec fn is_free() -> spec_fn(Option<TxSlot>) -> bool {
    |o: Option<TxSlot>| o is None
}

/// A slot holding sequence `seq`.
pub open spec fn holds_seq(seq: u8) -> spec_fn(Option<TxSlot>) -> bool {
    |o: Option<TxSlot>| o matches Some(sl) && sl.seq == seq
}

/// A slot that must be written again.
pub open spec fn wants_retransmit() -> spec_fn(Option<TxSlot>) -> bool {
    |o: Option<TxSlot>| o matches Some(sl) && sl.needs_retransmit
}

/// A slot never written yet.
pub open spec fn unwritten() -> spec_fn(Option<TxSlot>) -> bool {
    |o: Option<TxSlot>| o matches Some(sl) && !sl.written
}

/// A slot holding START or FINISH.
pub open spec fn session_slot() -> spec_fn(Option<TxSlot>) -> bool {
    |o: Option<TxSlot>| o matches Some(sl) && (sl.kind is Start || sl.kind is Finish)
}

/// One step of the scan for the oldest unacknowledged sequence.
pub open spec fn oldest_step(acc: Option<u8>, o: Option<TxSlot>, n: nat) -> Option<u8> {
    match o {
        None => acc,
        Some(sl) => Some(
            match acc {
                None => sl.seq,
                Some(base) => if seq_dist(sl.seq, base) as nat <= n {
                    base
                } else {
                    sl.seq
                },
            },
        ),
    }
}

/// The oldest unacknowledged sequence in the window, scanning slot order.
pub open spec fn oldest_of(s: Seq<Option<TxSlot>>, n: nat) -> Option<u8>
    decreases s.len(),
{
    if s.len() == 0 {
        None
    } else {
        oldest_step(oldest_of(s.drop_last(), n), s.last(), n)
    }
}

/// `seq` lies inside `[oldest, oldest + n)`, or nothing is outstanding.
pub open spec fn in_send_window(s: Seq<Option<TxSlot>>, seq: u8, n: nat) -> bool {
    match oldest_of(s, n) {
        None => true,
        Some(base) => (seq_dist(seq, base) as nat) < n,
    }
}

/// Every slot empty.
pub open spec fn no_slots(n: nat) -> Seq<Option<TxSlot>> {
    Seq::new(n, |k: int| None)
}

/// The wire content of a slot's frame.
pub open spec fn slot_frame(sl: TxSlot) -> FrameView {
    match sl.kind {
        SlotKind::Data => (FrameType::Data, sl.seq, sl.payload),
        SlotKind::Start => (FrameType::Start, 0u8, 0u8),
        SlotKind::Finish => (FrameType::Finish, sl.seq, 0u8),
    }
}

/// The coarse state after the window changed: idle when empty.
pub open spec fn idle_or_waiting(s: Seq<Option<TxSlot>>) -> TxState {
    if count_some(s) == 0 { TxState::Idle } else { TxState::WaitingAck }
}

/// The slot to write next: a retransmission first, else the first new frame.
pub open spec fn next_to_write(s: Seq<Option<TxSlot>>) -> Option<int> {
    match first_index(s, wants_retransmit()) {
        Some(i) => Some(i),
        None => first_index(s, unwritten()),
    }
}

/// Puts a fresh frame in the first free slot.
pub open spec fn wtx_insert<E>(m: WTxModel, kind: SlotKind, seq: u8, payload: u8) -> (
    WTxModel,
    Result<(), Error<E>>,
) {
    match first_index(m.slots, is_free()) {
        None => (m, Err(Error::WindowFull)),
        Some(i) => (
            WTxModel {
                slots: m.slots.update(
                    i,
                    Some(
                        TxSlot {
                            kind,
                            seq,
                            payload,
                            retries_left: m.policy.max_retries,
                            written: false,
                            needs_retransmit: false,
                            empty_ticks: 0,
                        },
                    ),
                ),
                state: TxState::Sending,
                ..m
            },
            Ok(()),
        ),
    }
}

/// A frame's last byte was written.
pub open spec fn wtx_finish_write(m: WTxModel) -> WTxModel {
    let slots = match m.writing {
        Some(i) => if (i as int) < m.slots.len() && m.slots[i as int] is Some {
            let sl = m.slots[i as int].unwrap();
            m.slots.update(
                i as int,
                Some(TxSlot { written: true, needs_retransmit: false, empty_ticks: 0, ..sl }),
            )
        } else {
            m.slots
        },
        None => m.slots,
    };
    WTxModel { slots, writing: None, reply: Seq::empty(), state: idle_or_waiting(slots), ..m }
}

/// An ACK for `seq` arrived.
pub open spec fn wtx_on_ack<E>(m: WTxModel, seq: u8) -> (WTxModel, Result<TxPoll, Error<E>>) {
    match first_index(m.slots, holds_seq(seq)) {
        None => (m, Ok(TxPoll::Pending)),
        Some(i) => {
            let sl = m.slots[i].unwrap();
            if !sl.written {
                (m, Ok(TxPoll::Pending))
            } else {
                let slots = m.slots.update(i, None);
                match sl.kind {
                    SlotKind::Data => (
                        WTxModel { slots, state: idle_or_waiting(slots), ..m },
                        Ok(TxPoll::Acked),
                    ),
                    SlotKind::Start => (
                        WTxModel { slots, next_seq: 0, state: TxState::Idle, ..m },
                        Ok(TxPoll::SessionReady),
                    ),
                    SlotKind::Finish => (
                        WTxModel { slots, state: TxState::Finished, ..m },
                        Ok(TxPoll::TransferDone),
                    ),
                }
            }
        },
    }
}

/// A NACK for `seq` arrived.
pub open spec fn wtx_on_nack<E>(m: WTxModel, seq: u8) -> (WTxModel, Result<TxPoll, Error<E>>) {
    match first_index(m.slots, holds_seq(seq)) {
        None => (m, Ok(TxPoll::Pending)),
        Some(i) => {
            let sl = m.slots[i].unwrap();
            if !sl.written {
                (m, Ok(TxPoll::Pending))
            } else if sl.retries_left == 0 {
                (
                    WTxModel { slots: no_slots(m.slots.len()), state: TxState::Failed, ..m },
                    Err(Error::RetriesExhausted),
                )
            } else {
                (
                    WTxModel {
                        slots: m.slots.update(
                            i,
                            Some(
                                TxSlot {
                                    retries_left: (sl.retries_left - 1) as u8,
                                    needs_retransmit: true,
                                    empty_ticks: 0,
                                    ..sl
                                },
                            ),
                        ),
                        state: TxState::Retrying,
                        ..m
                    },
                    Ok(TxPoll::Pending),
                )
            }
        },
    }
}

/// Empty read: every written slot not awaiting retransmission ticks, from
/// slot `i` on; one that reaches the timeout is retransmitted, or the
/// window fails if its retries are spent.
pub open spec fn wtx_tick_from<E>(m: WTxModel, i: nat) -> (WTxModel, Result<TxPoll, Error<E>>)
    decreases m.slots.len() - i,
{
    if i >= m.slots.len() {
        (m, Ok(TxPoll::Pending))
    } else {
        match m.slots[i as int] {
            None => wtx_tick_from(m, i + 1),
            Some(sl) => if m.writing == Some(i as usize) || !sl.written || sl.needs_retransmit {
                wtx_tick_from(m, i + 1)
            } else {
                let ticks = if sl.empty_ticks == u16::MAX { u16::MAX } else { (sl.empty_ticks + 1) as u16 };
                if ticks < m.policy.timeout_ticks {
                    wtx_tick_from(
                        WTxModel {
                            slots: m.slots.update(i as int, Some(TxSlot { empty_ticks: ticks, ..sl })),
                            ..m
                        },
                        i + 1,
                    )
                } else if sl.retries_left == 0 {
                    (
                        WTxModel { slots: no_slots(m.slots.len()), state: TxState::Failed, ..m },
                        Err(Error::RetriesExhausted),
                    )
                } else {
                    wtx_tick_from(
                        WTxModel {
                            slots: m.slots.update(
                                i as int,
                                Some(
                                    TxSlot {
                                        retries_left: (sl.retries_left - 1) as u8,
                                        needs_retransmit: true,
                                        empty_ticks: 0,
                                        ..sl
                                    },
                                ),
                            ),
                            state: TxState::Retrying,
                            ..m
                        },
                        i + 1,
                    )
                }
            },
        }
    }
}

/// One reply byte arrived.
pub open spec fn wtx_on_byte<E>(m: WTxModel, b: u8) -> (WTxModel, Result<TxPoll, Error<E>>) {
    let bytes = m.reply.push(b);
    if m.reply.len() < 3 {
        (WTxModel { reply: bytes, ..m }, Ok(TxPoll::Pending))
    } else {
        let m2 = WTxModel { reply: Seq::empty(), ..m };
        match spec_decode(bytes) {
            Err(_) => (m2, Ok(TxPoll::Pending)),
            Ok(v) => if v.0 is Ack {
                wtx_on_ack(m2, v.1)
            } else if v.0 is Nack {
                wtx_on_nack(m2, v.1)
            } else {
                (m2, Ok(TxPoll::Pending))
            },
        }
    }
}

/// A windowed poll answers without touching the transport.
pub open spec fn wtx_settled(m: WTxModel) -> bool {
    m.state is Failed || (m.state is Finished && count_some(m.slots) == 0)
}

/// Which transport call one windowed poll makes; a write hands over the
/// next byte of the frame being written, or the first byte of the next
/// frame to write.
pub open spec fn wtx_io_fits<E>(m: WTxModel, io: LinkIo<E>) -> bool {
    if wtx_settled(m) {
        io is Nothing
    } else if m.out.len() > 0 {
        io matches LinkIo::Wrote(b, _) && b == m.out[0]
    } else if next_to_write(m.slots) is Some {
        io matches LinkIo::Wrote(b, _) && b == spec_encode(
            slot_frame(m.slots[next_to_write(m.slots).unwrap()].unwrap()),
        )[0]
    } else {
        io is Read
    }
}

/// One windowed sender poll.
pub open spec fn wtx_step<E>(m: WTxModel, io: LinkIo<E>) -> (WTxModel, Result<TxPoll, Error<E>>) {
    if m.state is Failed {
        (m, Err(Error::RetriesExhausted))
    } else if m.state is Finished && count_some(m.slots) == 0 {
        (m, Ok(TxPoll::TransferDone))
    } else if m.out.len() > 0 {
        match io {
            LinkIo::Wrote(_, Err(e)) => (m, Err(Error::Transport(e))),
            _ => {
                let m1 = WTxModel { out: m.out.drop_first(), ..m };
                if m1.out.len() == 0 {
                    (wtx_finish_write(m1), Ok(TxPoll::Pending))
                } else {
                    (m1, Ok(TxPoll::Pending))
                }
            },
        }
    } else {
        match next_to_write(m.slots) {
            Some(i) => {
                let loaded = WTxModel {
                    out: spec_encode(slot_frame(m.slots[i].unwrap())),
                    writing: Some(i as usize),
                    state: TxState::Sending,
                    ..m
                };
                match io {
                    LinkIo::Wrote(_, Err(e)) => (loaded, Err(Error::Transport(e))),
                    _ => (WTxModel { out: loaded.out.drop_first(), ..loaded }, Ok(TxPoll::Pending)),
                }
            },
            None => match io {
                LinkIo::Read(Err(e)) => (m, Err(Error::Transport(e))),
                LinkIo::Read(Ok(Some(b))) => wtx_on_byte(m, b),
                _ => wtx_tick_from(m, 0),
            },
        }
    }
}

/// `first_index` finds the first position whose slot satisfies `p`.
pub proof fn lemma_first_index(s: Seq<Option<TxSlot>>, p: spec_fn(Option<TxSlot>) -> bool, i: int)
    requires
        0 <= i <= s.len(),
        forall|j: int| 0 <= j < i ==> !p(#[trigger] s[j]),
    ensures
        i < s.len() && p(s[i]) ==> first_index(s, p) == Some(i),
        i == s.len() ==> first_index(s, p) is None,
    decreases s.len(),
{
    if s.len() > 0 {
        if i > 0 {
            let t = s.drop_first();
            assert forall|j: int| 0 <= j < i - 1 implies !p(#[trigger] t[j]) by {
                assert(t[j] == s[j + 1]);
            }
            lemma_first_index(t, p, i - 1);
        }
    }
}

/// `first_index` only ever names a slot satisfying `p`, preceded by none.
pub proof fn lemma_first_index_sound(s: Seq<Option<TxSlot>>, p: spec_fn(Option<TxSlot>) -> bool)
    ensures
        first_index(s, p) matches Some(i) ==> 0 <= i < s.len() && p(s[i]) && forall|j: int|
            0 <= j < i ==> !p(#[trigger] s[j]),
        first_index(s, p) is None ==> forall|j: int| 0 <= j < s.len() ==> !p(#[trigger] s[j]),
    decreases s.len(),
{
    if s.len() > 0 {
        let t = s.drop_first();
        lemma_first_index_sound(t, p);
        assert forall|j: int| 0 < j < s.len() implies s[j] == #[trigger] t[j - 1] by {}
        if !p(s[0]) {
            match first_index(t, p) {
                Some(k) => {
                    assert forall|j: int| 0 <= j < k + 1 implies !p(#[trigger] s[j]) by {
                        if j > 0 {
                            assert(s[j] == t[j - 1]);
                        }
                    }
                },
                None => {
                    assert forall|j: int| 0 <= j < s.len() implies !p(#[trigger] s[j]) by {
                        if j > 0 {
                            assert(s[j] == t[j - 1]);
                        }
                    }
                },
            }
        }
    }
}

/// A window with an occupied slot has a nonzero count.
pub proof fn lemma_count_pos(s: Seq<Option<TxSlot>>, i: int)
    requires
        0 <= i < s.len(),
        s[i] is Some,
    ensures
        count_some(s) > 0,
    decreases s.len(),
{
    if i < s.len() - 1 {
        lemma_count_pos(s.drop_last(), i);
    }
}

/// The occupied-slot count never exceeds the number of slots.
pub proof fn lemma_count_bound(s: Seq<Option<TxSlot>>)
    ensures
        count_some(s) <= s.len(),
    decreases s.len(),
{
    if s.len() > 0 {
        lemma_count_bound(s.drop_last());
    }
}

/// An empty read only ever ticks, retransmits or fails the window: it never
/// reports progress, and it keeps the next sequence.
pub proof fn lemma_wtx_tick_from<E>(m: WTxModel, i: nat)
    ensures
        ({
            let (m2, r) = wtx_tick_from::<E>(m, i);
            &&& (r == Ok::<TxPoll, Error<E>>(TxPoll::Pending) || r == Err::<TxPoll, Error<E>>(
                Error::RetriesExhausted,
            ))
            &&& m2.next_seq == m.next_seq
            &&& m2.slots.len() == m.slots.len()
            &&& (r is Ok ==> m2.state == m.state || m2.state is Retrying)
            &&& (r is Err ==> m2.state is Failed)
        }),
    decreases m.slots.len() - i,
{
    if i < m.slots.len() {
        match m.slots[i as int] {
            None => lemma_wtx_tick_from::<E>(m, i + 1),
            Some(sl) => if m.writing == Some(i as usize) || !sl.written || sl.needs_retransmit {
                lemma_wtx_tick_from::<E>(m, i + 1);
            } else {
                let ticks = if sl.empty_ticks == u16::MAX { u16::MAX } else { (sl.empty_ticks + 1) as u16 };
                if ticks < m.policy.timeout_ticks {
                    lemma_wtx_tick_from::<E>(
                        WTxModel {
                            slots: m.slots.update(i as int, Some(TxSlot { empty_ticks: ticks, ..sl })),
                            ..m
                        },
                        i + 1,
                    );
                } else if sl.retries_left == 0 {
                } else {
                    let m3 = WTxModel {
                        slots: m.slots.update(
                            i as int,
                            Some(
                                TxSlot {
                                    retries_left: (sl.retries_left - 1) as u8,
                                    needs_retransmit: true,
                                    empty_ticks: 0,
                                    ..sl
                                },
                            ),
                        ),
                        state: TxState::Retrying,
                        ..m
                    };
                    lemma_wtx_tick_from::<E>(m3, i + 1);
                }
            },
        }
    }
}

/// One step of a windowed sender seen from outside: a frame queued, or a
/// poll.
pub enum WTxEvent<E> {
    /// `offer` queued DATA carrying this byte.
    Offer(u8),
    /// `offer_start` queued START.
    Start,
    /// `offer_finish` queued FINISH.
    Finish,
    /// A poll whose transport call answered `io` and that returned `r`.
    Poll(LinkIo<E>, Result<TxPoll, Error<E>>),
}

/// `offer` accepts a DATA byte in state `m`.
pub open spec fn wtx_can_offer(m: WTxModel) -> bool {
    &&& !(m.state is Finished || m.state is Failed || first_index(m.slots, session_slot()) is Some)
    &&& in_send_window(m.slots, m.next_seq, m.slots.len())
    &&& first_index(m.slots, is_free()) is Some
}

/// The event `ev` took the sender from `m` to `m2`.
pub open spec fn wtx_event_step<E>(m: WTxModel, ev: WTxEvent<E>, m2: WTxModel) -> bool {
    match ev {
        WTxEvent::Offer(b) => wtx_can_offer(m) && m2 == (WTxModel {
            next_seq: seq_next(m.next_seq),
            ..wtx_insert::<E>(m, SlotKind::Data, m.next_seq, b).0
        }),
        WTxEvent::Start => count_some(m.slots) == 0 && m.out.len() == 0 && m2 == (WTxModel {
            next_seq: 0,
            slots: no_slots(m.slots.len()).update(
                0,
                Some(
                    TxSlot {
                        kind: SlotKind::Start,
                        seq: 0,
                        payload: 0,
                        retries_left: m.policy.max_retries,
                        written: false,
                        needs_retransmit: false,
                        empty_ticks: 0,
                    },
                ),
            ),
            state: TxState::Sending,
            ..m
        }),
        WTxEvent::Finish => !(m.state is Finished || m.state is Failed) && count_some(m.slots) == 0
            && (m2, Ok::<(), Error<E>>(())) == wtx_insert::<E>(m, SlotKind::Finish, m.next_seq, 0),
        WTxEvent::Poll(io, r) => wtx_io_fits(m, io) && wtx_step(m, io) == (m2, r),
    }
}

/// A trace of a windowed sender: `ms[i]` is the state before event `i` and
/// `ms[i + 1]` the state after it.
pub open spec fn wtx_trace<E>(ms: Seq<WTxModel>, evs: Seq<WTxEvent<E>>) -> bool {
    &&& ms.len() == evs.len() + 1
    &&& forall|i: int| 0 <= i < evs.len() ==> #[trigger] wtx_event_step(ms[i], evs[i], ms[i + 1])
}

/// The transport calls one event made.
pub open spec fn wtx_event_calls<E>(ev: WTxEvent<E>) -> Seq<LinkCall> {
    match ev {
        WTxEvent::Poll(io, _) => link_calls(io),
        _ => Seq::empty(),
    }
}

/// The transport calls of a trace, in order.
pub open spec fn wtx_trace_calls<E>(evs: Seq<WTxEvent<E>>) -> Seq<LinkCall>
    decreases evs.len(),
{
    if evs.len() == 0 {
        Seq::empty()
    } else {
        wtx_trace_calls(evs.drop_last()) + wtx_event_calls(evs.last())
    }
}

/// The DATA bytes a trace queued, in order.
pub open spec fn wtx_trace_offers<E>(evs: Seq<WTxEvent<E>>) -> Seq<u8>
    decreases evs.len(),
{
    if evs.len() == 0 {
        Seq::empty()
    } else {
        wtx_trace_offers(evs.drop_last()) + match evs.last() {
            WTxEvent::Offer(b) => seq![b],
            _ => Seq::empty(),
        }
    }
}

/// A trace extended by one more event is still a trace.
pub proof fn lemma_wtx_trace_push<E>(ms: Seq<WTxModel>, evs: Seq<WTxEvent<E>>, ev: WTxEvent<E>, m2: WTxModel)
    requires
        wtx_trace(ms, evs),
        wtx_event_step(ms.last(), ev, m2),
    ensures
        wtx_trace(ms.push(m2), evs.push(ev)),
        wtx_trace_calls(evs.push(ev)) == wtx_trace_calls(evs) + wtx_event_calls(ev),
        wtx_trace_offers(evs.push(ev)) == wtx_trace_offers(evs) + match ev {
            WTxEvent::Offer(b) => seq![b],
            _ => Seq::empty(),
        },
        evs.push(ev).last() == ev,
{
    let ms2 = ms.push(m2);
    let e2 = evs.push(ev);
    assert forall|i: int| 0 <= i < e2.len() implies #[trigger] wtx_event_step(ms2[i], e2[i], ms2[i + 1]) by {
        if i < evs.len() {
            assert(wtx_event_step(ms[i], evs[i], ms[i + 1]));
            assert(ms2[i] == ms[i] && ms2[i + 1] == ms[i + 1] && e2[i] == evs[i]);
        } else {
            assert(ms2[i] == ms.last() && ms2[i + 1] == m2 && e2[i] == ev);
        }
    }
    assert(e2.drop_last() =~= evs);
}

/// A trace followed by another from where it ended is a trace.
pub proof fn lemma_wtx_trace_append<E>(
    ms: Seq<WTxModel>,
    evs: Seq<WTxEvent<E>>,
    ms2: Seq<WTxModel>,
    evs2: Seq<WTxEvent<E>>,
)
    requires
        wtx_trace(ms, evs),
        wtx_trace(ms2, evs2),
        ms2[0] == ms.last(),
    ensures
        wtx_trace(ms + ms2.drop_first(), evs + evs2),
        wtx_trace_calls(evs + evs2) == wtx_trace_calls(evs) + wtx_trace_calls(evs2),
        wtx_trace_offers(evs + evs2) == wtx_trace_offers(evs) + wtx_trace_offers(evs2),
        (ms + ms2.drop_first())[0] == ms[0],
        (ms + ms2.drop_first()).last() == ms2.last(),
    decreases evs2.len(),
{
    if evs2.len() == 0 {
        assert(ms + ms2.drop_first() =~= ms);
        assert(evs + evs2 =~= evs);
    } else {
        let k = evs2.len() - 1;
        let msa = ms2.drop_last();
        let eva = evs2.drop_last();
        assert forall|i: int| 0 <= i < eva.len() implies #[trigger] wtx_event_step(msa[i], eva[i], msa[i + 1]) by {
            assert(wtx_event_step(ms2[i], evs2[i], ms2[i + 1]));
        }
        lemma_wtx_trace_append(ms, evs, msa, eva);
        assert(wtx_event_step(ms2[k], evs2[k], ms2[k + 1]));
        let msb = ms + msa.drop_first();
        assert(msb.last() == ms2[k]);
        lemma_wtx_trace_push(msb, evs + eva, evs2[k], ms2[k + 1]);
        assert(msb.push(ms2[k + 1]) =~= ms + ms2.drop_first());
        assert((evs + eva).push(evs2[k]) =~= evs + evs2);
        assert(evs2.drop_last() =~= eva);
    }
}

/// Emptying an occupied slot drops the count by exactly one.
proof fn lemma_count_free(s: Seq<Option<TxSlot>>, i: int)
    requires
        0 <= i < s.len(),
        s[i] is Some,
    ensures
        count_some(s.update(i, None)) + 1 == count_some(s),
    decreases s.len(),
{
    let u = s.update(i, None);
    if i == s.len() - 1 {
        assert(u.drop_last() =~= s.drop_last());
    } else {
        assert(u.drop_last() =~= s.drop_last().update(i, None));
        lemma_count_free(s.drop_last(), i);
    }
}

/// Replacing an occupied slot by another occupied one keeps the count.
proof fn lemma_count_replace(s: Seq<Option<TxSlot>>, i: int, v: TxSlot)
    requires
        0 <= i < s.len(),
        s[i] is Some,
    ensures
        count_some(s.update(i, Some(v))) == count_some(s),
    decreases s.len(),
{
    let u = s.update(i, Some(v));
    if i == s.len() - 1 {
        assert(u.drop_last() =~= s.drop_last());
    } else {
        assert(u.drop_last() =~= s.drop_last().update(i, Some(v)));
        lemma_count_replace(s.drop_last(), i, v);
    }
}

/// An empty window has no occupied slot.
proof fn lemma_count_none(n: nat)
    ensures
        count_some(no_slots(n)) == 0,
    decreases n,
{
    if n > 0 {
        assert(no_slots(n).drop_last() =~= no_slots((n - 1) as nat));
        lemma_count_none((n - 1) as nat);
    }
}

/// An empty read keeps every occupied slot occupied, or fails the window
/// and empties it.
proof fn lemma_wtx_tick_count<E>(m: WTxModel, i: nat)
    ensures
        ({
            let (m2, r) = wtx_tick_from::<E>(m, i);
            &&& r is Ok ==> count_some(m2.slots) == count_some(m.slots)
            &&& r is Err ==> count_some(m2.slots) == 0
        }),
    decreases m.slots.len() - i,
{
    if i < m.slots.len() {
        match m.slots[i as int] {
            None => lemma_wtx_tick_count::<E>(m, i + 1),
            Some(sl) => if m.writing == Some(i as usize) || !sl.written || sl.needs_retransmit {
                lemma_wtx_tick_count::<E>(m, i + 1);
            } else {
                let ticks = if sl.empty_ticks == u16::MAX { u16::MAX } else { (sl.empty_ticks + 1) as u16 };
                if ticks < m.policy.timeout_ticks {
                    let v = TxSlot { empty_ticks: ticks, ..sl };
                    lemma_count_replace(m.slots, i as int, v);
                    lemma_wtx_tick_count::<E>(WTxModel { slots: m.slots.update(i as int, Some(v)), ..m }, i + 1);
                } else if sl.retries_left == 0 {
                    lemma_count_none(m.slots.len());
                } else {
                    let v = TxSlot {
                        retries_left: (sl.retries_left - 1) as u8,
                        needs_retransmit: true,
                        empty_ticks: 0,
                        ..sl
                    };
                    lemma_count_replace(m.slots, i as int, v);
                    lemma_wtx_tick_count::<E>(
                        WTxModel { slots: m.slots.update(i as int, Some(v)), state: TxState::Retrying, ..m },
                        i + 1,
                    );
                }
            },
        }
    }
}

/// How the number of outstanding frames moves over one windowed poll from
/// `m` that left `res`: an ACK of DATA or START, or of FINISH, frees
/// exactly one slot; giving up empties the window; every other poll leaves
/// the number as it was.
pub open spec fn wtx_count_step<E>(m: WTxModel, res: (WTxModel, Result<TxPoll, Error<E>>)) -> bool {
    let (m2, r) = res;
    &&& (r == Ok::<TxPoll, Error<E>>(TxPoll::Acked) || r == Ok::<TxPoll, Error<E>>(TxPoll::SessionReady))
        ==> count_some(m2.slots) + 1 == count_some(m.slots)
    &&& r == Ok::<TxPoll, Error<E>>(TxPoll::TransferDone) ==> count_some(m2.slots) + 1 == count_some(
        m.slots,
    ) || (count_some(m2.slots) == 0 && count_some(m.slots) == 0)
    &&& (r == Ok::<TxPoll, Error<E>>(TxPoll::Pending) || r matches Err(Error::Transport(_)))
        ==> count_some(m2.slots) == count_some(m.slots)
    &&& r == Err::<TxPoll, Error<E>>(Error::RetriesExhausted) && !(m.state is Failed) ==> count_some(
        m2.slots,
    ) == 0
}

/// Slot accounting of one windowed poll, as [`wtx_count_step`] states it.
pub proof fn lemma_wtx_step_count<E>(m: WTxModel, io: LinkIo<E>)
    ensures
        wtx_count_step(m, wtx_step(m, io)),
{
    lemma_wtx_tick_count::<E>(m, 0);
    if wtx_settled(m) {
        assert(wtx_count_step(m, wtx_step(m, io)));
    } else if m.out.len() > 0 {
        let m1 = WTxModel { out: m.out.drop_first(), ..m };
        match m1.writing {
            Some(i) => if (i as int) < m1.slots.len() && m1.slots[i as int] is Some {
                let sl = m1.slots[i as int].unwrap();
                lemma_count_replace(
                    m1.slots,
                    i as int,
                    TxSlot { written: true, needs_retransmit: false, empty_ticks: 0, ..sl },
                );
            },
            None => {},
        }
        assert(wtx_count_step(m, wtx_step(m, io)));
    } else if next_to_write(m.slots) is Some {
        assert(wtx_count_step(m, wtx_step(m, io)));
    } else {
        match io {
            LinkIo::Read(Ok(Some(b))) => {
                if m.reply.len() >= 3 {
                    let mm = WTxModel { reply: Seq::empty(), ..m };
                    match spec_decode(m.reply.push(b)) {
                        Ok(v) => {
                            lemma_first_index_sound(m.slots, holds_seq(v.1));
                            if v.0 is Ack || v.0 is Nack {
                                match first_index(m.slots, holds_seq(v.1)) {
                                    Some(i) => {
                                        let sl = m.slots[i].unwrap();
                                        lemma_count_free(m.slots, i);
                                        if sl.retries_left > 0 {
                                            lemma_count_replace(
                                                m.slots,
                                                i,
                                                TxSlot {
                                                    retries_left: (sl.retries_left - 1) as u8,
                                                    needs_retransmit: true,
                                                    empty_ticks: 0,
                                                    ..sl
                                                },
                                            );
                                        }
                                        lemma_count_none(m.slots.len());
                                    },
                                    None => {},
                                }
                            }
                            assert(wtx_step(m, io) == wtx_on_byte::<E>(m, b));
                            assert(wtx_count_step(m, wtx_step(m, io)));
                        },
                        Err(_) => {
                            assert(wtx_count_step(m, wtx_step(m, io)));
                        },
                    }
                } else {
                    assert(wtx_count_step(m, wtx_step(m, io)));
                }
            },
            _ => {
                lemma_wtx_tick_from::<E>(m, 0);
                assert(wtx_count_step(m, wtx_step(m, io)));
            },
        }
    }

}

/// An empty window of at least one slot has a free slot.
pub proof fn lemma_free_when_empty(s: Seq<Option<TxSlot>>)
    requires
        s.len() > 0,
        count_some(s) == 0,
    ensures
        first_index(s, is_free()) is Some,
{
    lemma_first_index_sound(s, is_free());
    if first_index(s, is_free()) is None {
        assert(!is_free()(s[0]));
        lemma_count_pos(s, 0);
    }
}

/// One windowed poll keeps the window's size: there are as many slots
/// after it as before, so the count of outstanding frames stays between
/// zero and that size.
pub proof fn lemma_wtx_step_keeps_window<E>(m: WTxModel, io: LinkIo<E>)
    ensures
        wtx_step(m, io).0.slots.len() == m.slots.len(),
        count_some(wtx_step(m, io).0.slots) <= m.slots.len(),
{
    lemma_wtx_tick_from::<E>(m, 0);
    match io {
        LinkIo::Read(Ok(Some(b))) => {
            match spec_decode(m.reply.push(b)) {
                Ok(v) => lemma_first_index_sound(m.slots, holds_seq(v.1)),
                Err(_) => {},
            }
        },
        _ => {},
    }
    let m2 = wtx_step(m, io).0;
    lemma_count_bound(m2.slots);
}

/// An ACK frees exactly the written slot that carries its sequence: when
/// the byte read completes an ACK for `seq`, and slot `i` is the first to
/// hold `seq` and has been written, the poll empties slot `i`, leaves every
/// other slot as it was, and the outstanding count drops by one.
pub proof fn lemma_wtx_ack_frees_its_slot<E>(m: WTxModel, b: u8, seq: u8, i: int)
    requires
        !wtx_settled(m),
        m.out.len() == 0,
        next_to_write(m.slots) is None,
        m.reply.len() == 3,
        spec_decode(m.reply.push(b)) matches Ok(v) && v.0 is Ack && v.1 == seq,
        first_index(m.slots, holds_seq(seq)) == Some(i),
        m.slots[i] matches Some(sl) && sl.written,
    ensures
        wtx_step(m, LinkIo::<E>::Read(Ok(Some(b)))).0.slots == m.slots.update(i, None),
        count_some(wtx_step(m, LinkIo::<E>::Read(Ok(Some(b)))).0.slots) + 1 == count_some(m.slots),
{
    lemma_first_index_sound(m.slots, holds_seq(seq));
    lemma_count_free(m.slots, i);
}

/// The byte `b` completed an ACK that freed the written DATA slot carrying
/// its sequence, the first slot to carry it, leaving `m2`'s window as `m`'s
/// with that slot emptied and the next sequence unchanged.
pub open spec fn wtx_acked_data(m: WTxModel, b: u8, m2: WTxModel) -> bool {
    &&& m.reply.len() >= 3
    &&& spec_decode(m.reply.push(b)) matches Ok(v) && v.0 is Ack && (first_index(
        m.slots,
        holds_seq(v.1),
    ) matches Some(i) && 0 <= i < m.slots.len() && (m.slots[i] matches Some(sl) && sl.seq == v.1
        && sl.written && sl.kind is Data) && m2.slots == m.slots.update(i, None))
    &&& m2.next_seq == m.next_seq
}

/// A windowed poll reports `Acked` only for an ACK that frees the written
/// DATA slot carrying the ACK's sequence: that slot, and no other, is
/// emptied, the outstanding count drops by one, and the next sequence stays.
pub proof fn lemma_wtx_acked<E>(m: WTxModel, io: LinkIo<E>)
    ensures
        wtx_step(m, io).1 == Ok::<TxPoll, Error<E>>(TxPoll::Acked) ==> {
            &&& io matches LinkIo::Read(Ok(Some(b))) && wtx_acked_data(m, b, wtx_step(m, io).0)
            &&& count_some(wtx_step(m, io).0.slots) + 1 == count_some(m.slots)
        },
{
    lemma_wtx_step_count(m, io);
    lemma_wtx_tick_from::<E>(m, 0);
    if !wtx_settled(m) && m.out.len() == 0 && next_to_write(m.slots) is None {
        if let LinkIo::Read(Ok(Some(b))) = io {
            if m.reply.len() >= 3 {
                if let Ok(v) = spec_decode(m.reply.push(b)) {
                    lemma_first_index_sound(m.slots, holds_seq(v.1));
                    let m1 = WTxModel { reply: Seq::empty(), ..m };
                    assert(wtx_step(m, io) == wtx_on_byte::<E>(m, b));
                    if v.0 is Ack {
                        assert(wtx_on_byte::<E>(m, b) == wtx_on_ack::<E>(m1, v.1));
                        if let Some(i) = first_index(m.slots, holds_seq(v.1)) {
                            assert(holds_seq(v.1)(m.slots[i]));
                        }
                    } else if v.0 is Nack {
                        assert(wtx_on_byte::<E>(m, b) == wtx_on_nack::<E>(m1, v.1));
                    }
                }
            }
        }
    }
}

/// How one poll may change a window slot: free it; keep its retries, never
/// newly marking it for retransmission; or spend exactly one retry and mark
/// it for retransmission. The frame it holds never changes.
pub open spec fn slot_poll_change(o1: Option<TxSlot>, o2: Option<TxSlot>) -> bool {
    match o2 {
        None => true,
        Some(s2) => o1 matches Some(s1) && s2.kind == s1.kind && s2.seq == s1.seq && s2.payload
            == s1.payload && ((s2.retries_left == s1.retries_left && (s2.needs_retransmit
            ==> s1.needs_retransmit)) || (s2.retries_left + 1 == s1.retries_left
            && s2.needs_retransmit)),
    }
}

/// The empty-read scan changes each slot as [`slot_poll_change`] allows,
/// and leaves the slots before `i` alone (or empties them all).
proof fn lemma_wtx_tick_slots<E>(m: WTxModel, i: nat)
    ensures
        ({
            let m2 = wtx_tick_from::<E>(m, i).0;
            forall|j: int|
                0 <= j < m.slots.len() ==> slot_poll_change(m.slots[j], #[trigger] m2.slots[j]) && (j < i
                    ==> m2.slots[j] == m.slots[j] || m2.slots[j] is None)
        }),
    decreases m.slots.len() - i,
{
    lemma_wtx_tick_from::<E>(m, i);
    if i < m.slots.len() {
        match m.slots[i as int] {
            None => lemma_wtx_tick_slots::<E>(m, i + 1),
            Some(sl) => if m.writing == Some(i as usize) || !sl.written || sl.needs_retransmit {
                lemma_wtx_tick_slots::<E>(m, i + 1);
            } else {
                let ticks = if sl.empty_ticks == u16::MAX { u16::MAX } else { (sl.empty_ticks + 1) as u16 };
                if ticks < m.policy.timeout_ticks {
                    let m3 = WTxModel {
                        slots: m.slots.update(i as int, Some(TxSlot { empty_ticks: ticks, ..sl })),
                        ..m
                    };
                    lemma_wtx_tick_slots::<E>(m3, i + 1);
                    let m2 = wtx_tick_from::<E>(m, i).0;
                    assert(m2 == wtx_tick_from::<E>(m3, i + 1).0);
                    assert forall|j: int| 0 <= j < m.slots.len() implies slot_poll_change(
                        m.slots[j],
                        #[trigger] m2.slots[j],
                    ) && (j < i ==> m2.slots[j] == m.slots[j] || m2.slots[j] is None) by {
                        assert(slot_poll_change(m3.slots[j], m2.slots[j]));
                    }
                } else if sl.retries_left == 0 {
                } else {
                    let m3 = WTxModel {
                        slots: m.slots.update(
                            i as int,
                            Some(
                                TxSlot {
                                    retries_left: (sl.retries_left - 1) as u8,
                                    needs_retransmit: true,
                                    empty_ticks: 0,
                                    ..sl
                                },
                            ),
                        ),
                        state: TxState::Retrying,
                        ..m
                    };
                    lemma_wtx_tick_slots::<E>(m3, i + 1);
                    let m2 = wtx_tick_from::<E>(m, i).0;
                    assert(m2 == wtx_tick_from::<E>(m3, i + 1).0);
                    assert forall|j: int| 0 <= j < m.slots.len() implies slot_poll_change(
                        m.slots[j],
                        #[trigger] m2.slots[j],
                    ) && (j < i ==> m2.slots[j] == m.slots[j] || m2.slots[j] is None) by {
                        assert(slot_poll_change(m3.slots[j], m2.slots[j]));
                    }
                }
            },
        }
    }
}

/// A windowed poll never gives a frame back a retry: every slot is freed,
/// keeps its retries without being newly marked for retransmission, or
/// spends exactly one retry and is marked for retransmission; the frame a
/// slot holds never changes. So each NACK and each timeout costs its frame
/// one retry, and no frame is retransmitted more than `max_retries` times.
pub proof fn lemma_wtx_retry_spending<E>(m: WTxModel, io: LinkIo<E>)
    ensures
        wtx_step(m, io).0.slots.len() == m.slots.len(),
        forall|j: int|
            0 <= j < m.slots.len() ==> slot_poll_change(m.slots[j], #[trigger] wtx_step(m, io).0.slots[j]),
{
    lemma_wtx_step_keeps_window(m, io);
    lemma_wtx_tick_slots::<E>(m, 0);
    let m2 = wtx_step(m, io).0;
    if !wtx_settled(m) && m.out.len() == 0 && next_to_write(m.slots) is None {
        if let LinkIo::Read(Ok(Some(b))) = io {
            if m.reply.len() >= 3 {
                if let Ok(v) = spec_decode(m.reply.push(b)) {
                    lemma_first_index_sound(m.slots, holds_seq(v.1));
                }
            }
        }
    }
    assert forall|j: int| 0 <= j < m.slots.len() implies slot_poll_change(m.slots[j], #[trigger] m2.slots[j]) by {
        if !wtx_settled(m) && m.out.len() > 0 {
            let m1 = WTxModel { out: m.out.drop_first(), ..m };
            if m1.out.len() == 0 && !(io matches LinkIo::Wrote(_, Err(_))) {
                assert(m2.slots == wtx_finish_write(m1).slots);
            }
        }
    }
}

/// A NACK for a written frame costs it exactly one retry: with retries left
/// the poll answers `Pending`, marks that slot, and only that slot, for
/// retransmission with one retry less; with none left the window gives up
/// with `RetriesExhausted`.
pub proof fn lemma_wtx_nack_spends_retry<E>(m: WTxModel, b: u8, i: int)
    requires
        !wtx_settled(m),
        m.out.len() == 0,
        next_to_write(m.slots) is None,
        m.reply.len() == 3,
        spec_decode(m.reply.push(b)) matches Ok(v) && v.0 is Nack && first_index(m.slots, holds_seq(v.1))
            == Some(i),
        m.slots[i] matches Some(sl) && sl.written,
    ensures
        ({
            let sl = m.slots[i]->Some_0;
            let (m2, r) = wtx_step(m, LinkIo::<E>::Read(Ok(Some(b))));
            &&& sl.retries_left > 0 ==> {
                &&& r == Ok::<TxPoll, Error<E>>(TxPoll::Pending)
                &&& m2.slots[i] matches Some(s2) && s2.retries_left + 1 == sl.retries_left
                    && s2.needs_retransmit && s2.seq == sl.seq && s2.kind == sl.kind && s2.payload == sl.payload
                &&& forall|j: int| 0 <= j < m.slots.len() && j != i ==> #[trigger] m2.slots[j] == m.slots[j]
            }
            &&& sl.retries_left == 0 ==> r == Err::<TxPoll, Error<E>>(Error::RetriesExhausted)
                && m2.state is Failed
        }),
{
    lemma_first_index_sound(m.slots, holds_seq(spec_decode(m.reply.push(b))->Ok_0.1));
}

/// A stray ACK or NACK, for a sequence that no written slot carries first,
/// changes nothing: the poll reports `Pending` and only the reply buffer,
/// now consumed, is cleared.
pub proof fn lemma_wtx_stray_reply<E>(m: WTxModel, b: u8)
    requires
        !wtx_settled(m),
        m.out.len() == 0,
        next_to_write(m.slots) is None,
        m.reply.len() == 3,
        spec_decode(m.reply.push(b)) matches Ok(v) && (v.0 is Ack || v.0 is Nack) && match first_index(
            m.slots,
            holds_seq(v.1),
        ) {
            None => true,
            Some(i) => !m.slots[i]->Some_0.written,
        },
    ensures
        wtx_step(m, LinkIo::<E>::Read(Ok(Some(b)))) == (
            WTxModel { reply: Seq::empty(), ..m },
            Ok::<TxPoll, Error<E>>(TxPoll::Pending),
        ),
{
}

/// What each windowed poll outcome says of the state it leaves: START
/// acknowledged leaves the sender idle at sequence 0; FINISH acknowledged
/// (or a finished, empty window) leaves it finished; every other outcome
/// keeps the next sequence. A windowed poll never reports `Aborted`; it
/// fails with `RetriesExhausted` only leaving the sender failed, and a
/// failed sender stays as it is and fails so again.
pub proof fn lemma_wtx_step_outcomes<E>(m: WTxModel)
    ensures
        forall|io: LinkIo<E>| wtx_step_facts(m, #[trigger] wtx_step::<E>(m, io)),
{
    assert forall|io: LinkIo<E>| wtx_step_facts(m, #[trigger] wtx_step::<E>(m, io)) by {
        lemma_wtx_tick_from::<E>(m, 0);
    }
}

/// The facts [`lemma_wtx_step_outcomes`] states of one step's result.
pub open spec fn wtx_step_facts<E>(m: WTxModel, res: (WTxModel, Result<TxPoll, Error<E>>)) -> bool {
    let (m2, r) = res;
    &&& (r == Ok::<TxPoll, Error<E>>(TxPoll::SessionReady) ==> m2.state is Idle && m2.next_seq == 0)
    &&& (r == Ok::<TxPoll, Error<E>>(TxPoll::TransferDone) ==> m2.state is Finished)
    &&& (r != Ok::<TxPoll, Error<E>>(TxPoll::SessionReady) ==> m2.next_seq == m.next_seq)
    &&& (r != Ok::<TxPoll, Error<E>>(TxPoll::Aborted))
    &&& (r is Err ==> r matches Err(Error::Transport(_) | Error::RetriesExhausted))
    &&& (r == Err::<TxPoll, Error<E>>(Error::RetriesExhausted) ==> m2.state is Failed)
    &&& (m.state is Failed ==> m2 == m && r == Err::<TxPoll, Error<E>>(Error::RetriesExhausted))
}

/// A selective-repeat sender with a compile-time window of `N` frames.
pub struct WindowedSender<T: ByteTransport, const N: usize> {
    transport: T,
    next_seq: Sequence,
    slots: [Option<TxSlot>; N],
    state: TxState,
    retry_policy: RetryPolicy,
    assembler: FrameAssembler,
    out: OutBuf,
    writing: Option<usize>,
}

impl<T: ByteTransport, const N: usize> WindowedSender<T, N> {
    /// The sender's state apart from its transport.
    pub closed spec fn model(&self) -> WTxModel {
        WTxModel {
            next_seq: self.next_seq@,
            slots: self.slots@,
            state: self.state,
            policy: self.retry_policy,
            reply: self.assembler@,
            out: self.out@,
            writing: self.writing,
        }
    }

    /// Internal consistency, kept by every operation.
    pub closed spec fn wf(&self) -> bool {
        &&& self.assembler.wf()
        &&& 1 <= N <= MAX_WINDOW
    }

    /// The transport the sender writes to and reads from.
    pub closed spec fn link(&self) -> T {
        self.transport
    }

    /// The sender has `N` slots.
    pub proof fn lemma_window_len(&self)
        ensures
            self.model().slots.len() == N,
    {
    }

    /// A windowed sender with the default retry policy.
    pub fn new(transport: T) -> (s: Self)
        requires
            1 <= N <= MAX_WINDOW,
        ensures
            s.wf(),
            s.link() == transport,
            s.model() == (WTxModel {
                next_seq: 0,
                slots: no_slots(N as nat),
                state: TxState::Idle,
                policy: RetryPolicy::spec_default(),
                reply: Seq::empty(),
                out: Seq::empty(),
                writing: None,
            }),
    {
        Self::with_policy(transport, RetryPolicy::default())
    }

    /// A windowed sender with an explicit retry policy.
    pub fn with_policy(transport: T, retry_policy: RetryPolicy) -> (s: Self)
        requires
            1 <= N <= MAX_WINDOW,
        ensures
            s.wf(),
            s.link() == transport,
            s.model() == (WTxModel {
                next_seq: 0,
                slots: no_slots(N as nat),
                state: TxState::Idle,
                policy: retry_policy,
                reply: Seq::empty(),
                out: Seq::empty(),
                writing: None,
            }),
    {
        let s = WindowedSender {
            transport,
            next_seq: Sequence::new(),
            slots: [None; N],
            state: TxState::Idle,
            retry_policy,
            assembler: FrameAssembler::new(),
            out: OutBuf::empty(),
            writing: None,
        };
        assert(s.slots@ =~= no_slots(N as nat));
        s
    }

    /// Current coarse state.
    pub fn state(&self) -> (s: TxState)
        ensures
            s == self.model().state,
    {
        self.state
    }

    /// Sequence that the next offered DATA byte will carry.
    pub fn next_seq(&self) -> (s: u8)
        ensures
            s == self.model().next_seq,
    {
        self.next_seq.current()
    }

    /// How many frames the window holds (unacknowledged or not yet written).
    pub fn outstanding(&self) -> (n: usize)
        ensures
            n == count_some(self.model().slots),
            n <= N,
    {
        let mut n: usize = 0;
        let mut i: usize = 0;
        while i < N
            invariant
                i <= N,
                self.slots@.len() == N,
                n == count_some(self.slots@.take(i as int)),
                n <= i,
            decreases N - i,
        {
            assert(self.slots@.take(i + 1).drop_last() =~= self.slots@.take(i as int));
            if self.slots[i].is_some() {
                n = n + 1;
            }
            i = i + 1;
        }
        assert(self.slots@.take(N as int) =~= self.slots@);
        n
    }

    /// The window length `N`.
    pub fn window_size(&self) -> (n: usize)
        ensures
            n == N,
    {
        N
    }

    fn find_seq(&self, seq: u8) -> (r: Option<usize>)
        ensures
            r matches Some(i) ==> i < N && first_index(self.slots@, holds_seq(seq)) == Some(i as int),
            r is None ==> first_index(self.slots@, holds_seq(seq)) is None,
    {
        let mut i: usize = 0;
        while i < N
            invariant
                i <= N,
                self.slots@.len() == N,
                forall|j: int| 0 <= j < i ==> !holds_seq(seq)(#[trigger] self.slots@[j]),
            decreases N - i,
        {
            let hit = match self.slots[i] {
                Some(sl) => sl.seq == seq,
                None => false,
            };
            if hit {
                proof {
                    lemma_first_index(self.slots@, holds_seq(seq), i as int);
                }
                return Some(i);
            }
            i = i + 1;
        }
        proof {
            lemma_first_index(self.slots@, holds_seq(seq), N as int);
        }
        None
    }

    fn find_free(&self) -> (r: Option<usize>)
        ensures
            r matches Some(i) ==> i < N && first_index(self.slots@, is_free()) == Some(i as int),
            r is None ==> first_index(self.slots@, is_free()) is None,
    {
        let mut i: usize = 0;
        while i < N
            invariant
                i <= N,
                self.slots@.len() == N,
                forall|j: int| 0 <= j < i ==> !is_free()(#[trigger] self.slots@[j]),
            decreases N - i,
        {
            if self.slots[i].is_none() {
                proof {
                    lemma_first_index(self.slots@, is_free(), i as int);
                }
                return Some(i);
            }
            i = i + 1;
        }
        proof {
            lemma_first_index(self.slots@, is_free(), N as int);
        }
        None
    }

    fn oldest_unacked(&self) -> (r: Option<u8>)
        ensures
            r == oldest_of(self.slots@, N as nat),
    {
        let mut oldest: Option<u8> = None;
        let mut i: usize = 0;
        while i < N
            invariant
                i <= N,
                self.slots@.len() == N,
                oldest == oldest_of(self.slots@.take(i as int), N as nat),
            decreases N - i,
        {
            assert(self.slots@.take(i + 1).drop_last() =~= self.slots@.take(i as int));
            if let Some(sl) = self.slots[i] {
                oldest = Some(
                    match oldest {
                        None => sl.seq,
                        Some(base) => {
                            if (sl.seq.wrapping_sub(base) as usize) <= N {
                                base
                            } else {
                                sl.seq
                            }
                        },
                    },
                );
            }
            i = i + 1;
        }
        assert(self.slots@.take(N as int) =~= self.slots@);
        oldest
    }

    fn seq_in_send_window(&self, seq: u8) -> (b: bool)
        ensures
            b == in_send_window(self.slots@, seq, N as nat),
    {
        match self.oldest_unacked() {
            None => true,
            Some(base) => (seq.wrapping_sub(base) as usize) < N,
        }
    }

    fn has_session_flight(&self) -> (b: bool)
        ensures
            b == first_index(self.slots@, session_slot()) is Some,
    {
        let mut i: usize = 0;
        while i < N
            invariant
                i <= N,
                self.slots@.len() == N,
                forall|j: int| 0 <= j < i ==> !session_slot()(#[trigger] self.slots@[j]),
            decreases N - i,
        {
            let hit = match self.slots[i] {
                Some(sl) => match sl.kind {
                    SlotKind::Start | SlotKind::Finish => true,
                    SlotKind::Data => false,
                },
                None => false,
            };
            if hit {
                proof {
                    lemma_first_index(self.slots@, session_slot(), i as int);
                }
                return true;
            }
            i = i + 1;
        }
        proof {
            lemma_first_index(self.slots@, session_slot(), N as int);
        }
        false
    }

    fn insert(&mut self, kind: SlotKind, seq: u8, payload: u8) -> (r: Result<(), Error<T::Error>>)
        ensures
            final(self).wf() == old(self).wf(),
            final(self).link() == old(self).link(),
            (final(self).model(), r) == wtx_insert::<T::Error>(old(self).model(), kind, seq, payload),
    {
        let i = match self.find_free() {
            Some(i) => i,
            None => return Err(Error::WindowFull),
        };
        self.slots[i] = Some(TxSlot {
            kind,
            seq,
            payload,
            retries_left: self.retry_policy.max_retries,
            written: false,
            needs_retransmit: false,
            empty_ticks: 0,
        });
        self.state = TxState::Sending;
        Ok(())
    }

    /// Opens a session. Allowed from Idle, Finished or Failed, or from any
    /// state once the window is empty and no frame is half-written.
    pub fn offer_start(&mut self) -> (r: Result<(), Error<T::Error>>)
        requires
            old(self).wf(),
        ensures
            final(self).wf(),
            final(self).link() == old(self).link(),
            ({
                let m = old(self).model();
                if count_some(m.slots) == 0 && m.out.len() == 0 {
                    &&& r is Ok
                    &&& final(self).model() == (WTxModel {
                        next_seq: 0,
                        slots: no_slots(N as nat).update(
                            0,
                            Some(
                                TxSlot {
                                    kind: SlotKind::Start,
                                    seq: 0,
                                    payload: 0,
                                    retries_left: m.policy.max_retries,
                                    written: false,
                                    needs_retransmit: false,
                                    empty_ticks: 0,
                                },
                            ),
                        ),
                        state: TxState::Sending,
                        ..m
                    })
                } else {
                    &&& r == Err::<(), Error<T::Error>>(Error::NotIdle)
                    &&& final(self).model() == m
                }
            }),
    {
        if self.outstanding() != 0 || !self.out.is_idle() {
            return Err(Error::NotIdle);
        }
        self.slots = [None; N];
        self.next_seq = Sequence::new();
        self.state = TxState::Sending;
        let ghost m1 = self.model();
        assert(m1.slots =~= no_slots(N as nat));
        proof {
            lemma_first_index(m1.slots, is_free(), 0);
        }
        let r = self.insert(SlotKind::Start, 0, 0);
        r
    }

    /// Queues one DATA byte. Succeeds while `[oldest_unacked, oldest_unacked + N)`
    /// has room, even with other frames still in flight.
    pub fn offer(&mut self, data: u8) -> (r: Result<(), Error<T::Error>>)
        requires
            old(self).wf(),
        ensures
            final(self).wf(),
            final(self).link() == old(self).link(),
            ({
                let m = old(self).model();
                if m.state is Finished || m.state is Failed || first_index(
                    m.slots,
                    session_slot(),
                ) is Some {
                    &&& r == Err::<(), Error<T::Error>>(Error::NotIdle)
                    &&& final(self).model() == m
                } else if !in_send_window(m.slots, m.next_seq, N as nat) || first_index(
                    m.slots,
                    is_free(),
                ) is None {
                    &&& r == Err::<(), Error<T::Error>>(Error::WindowFull)
                    &&& final(self).model() == m
                } else {
                    &&& r is Ok
                    &&& final(self).model() == (WTxModel {
                        next_seq: seq_next(m.next_seq),
                        ..wtx_insert::<T::Error>(m, SlotKind::Data, m.next_seq, data).0
                    })
                }
            }),
    {
        if self.state == TxState::Finished || self.state == TxState::Failed {
            return Err(Error::NotIdle);
        }
        if self.has_session_flight() {
            return Err(Error::NotIdle);
        }
        let seq = self.next_seq.current();
        if !self.seq_in_send_window(seq) || self.find_free().is_none() {
            return Err(Error::WindowFull);
        }
        match self.insert(SlotKind::Data, seq, data) {
            Err(e) => return Err(e),
            Ok(()) => {},
        }
        self.next_seq.advance();
        Ok(())
    }

    /// Queues FINISH at the next unused sequence. The window must be empty.
    pub fn offer_finish(&mut self) -> (r: Result<(), Error<T::Error>>)
        requires
            old(self).wf(),
        ensures
            final(self).wf(),
            final(self).link() == old(self).link(),
            ({
                let m = old(self).model();
                if m.state is Finished || m.state is Failed || count_some(m.slots) != 0 {
                    &&& r == Err::<(), Error<T::Error>>(Error::NotIdle)
                    &&& final(self).model() == m
                } else {
                    (final(self).model(), r) == wtx_insert::<T::Error>(
                        m,
                        SlotKind::Finish,
                        m.next_seq,
                        0,
                    )
                }
            }),
    {
        if self.state == TxState::Finished || self.state == TxState::Failed {
            return Err(Error::NotIdle);
        }
        if self.outstanding() != 0 {
            return Err(Error::NotIdle);
        }
        if self.has_session_flight() {
            proof {
                lemma_first_index_sound(self.slots@, session_slot());
                let k = first_index(self.slots@, session_slot()).unwrap();
                lemma_count_pos(self.slots@, k);
            }
            return Err(Error::NotIdle);
        }
        let seq = self.next_seq.current();
        self.insert(SlotKind::Finish, seq, 0)
    }

    fn next_slot_to_write(&self) -> (r: Option<usize>)
        ensures
            r matches Some(i) ==> i < N && self.slots@[i as int] is Some && next_to_write(
                self.slots@,
            ) == Some(i as int),
            r is None ==> next_to_write(self.slots@) is None,
    {
        let mut first_new: Option<usize> = None;
        let mut i: usize = 0;
        while i < N
            invariant
                i <= N,
                self.slots@.len() == N,
                forall|j: int| 0 <= j < i ==> !wants_retransmit()(#[trigger] self.slots@[j]),
                first_new matches Some(k) ==> k < i && unwritten()(self.slots@[k as int])
                    && forall|j: int| 0 <= j < k ==> !unwritten()(#[trigger] self.slots@[j]),
                first_new is None ==> forall|j: int|
                    0 <= j < i ==> !unwritten()(#[trigger] self.slots@[j]),
            decreases N - i,
        {
            if let Some(s) = self.slots[i] {
                if s.needs_retransmit {
                    proof {
                        lemma_first_index(self.slots@, wants_retransmit(), i as int);
                    }
                    return Some(i);
                }
                if !s.written && first_new.is_none() {
                    first_new = Some(i);
                }
            }
            i = i + 1;
        }
        proof {
            lemma_first_index(self.slots@, wants_retransmit(), N as int);
            match first_new {
                Some(k) => lemma_first_index(self.slots@, unwritten(), k as int),
                None => lemma_first_index(self.slots@, unwritten(), N as int),
            }
        }
        first_new
    }

    fn finish_write(&mut self)
        requires
            old(self).wf(),
        ensures
            final(self).wf(),
            final(self).link() == old(self).link(),
            final(self).model() == wtx_finish_write(old(self).model()),
    {
        let w = self.writing;
        self.writing = None;
        if let Some(i) = w {
            if i < N {
                if let Some(sl) = self.slots[i] {
                    self.slots[i] = Some(TxSlot {
                        written: true,
                        needs_retransmit: false,
                        empty_ticks: 0,
                        ..sl
                    });
                }
            }
        }
        self.assembler.reset();
        self.state = if self.outstanding() == 0 {
            TxState::Idle
        } else {
            TxState::WaitingAck
        };
    }

    fn on_ack(&mut self, seq: u8) -> (r: Result<TxPoll, Error<T::Error>>)
        requires
            old(self).wf(),
        ensures
            final(self).wf(),
            final(self).link() == old(self).link(),
            (final(self).model(), r) == wtx_on_ack::<T::Error>(old(self).model(), seq),
    {
        let i = match self.find_seq(seq) {
            None => return Ok(TxPoll::Pending),
            Some(i) => i,
        };
        proof {
            lemma_first_index_sound(self.slots@, holds_seq(seq));
        }
        let sl = match self.slots[i] {
            None => return Ok(TxPoll::Pending),
            Some(sl) => sl,
        };
        if !sl.written {
            return Ok(TxPoll::Pending);
        }
        self.slots[i] = None;
        match sl.kind {
            SlotKind::Data => {
                self.state = if self.outstanding() == 0 {
                    TxState::Idle
                } else {
                    TxState::WaitingAck
                };
                Ok(TxPoll::Acked)
            },
            SlotKind::Start => {
                self.next_seq = Sequence::new();
                self.state = TxState::Idle;
                Ok(TxPoll::SessionReady)
            },
            SlotKind::Finish => {
                self.state = TxState::Finished;
                Ok(TxPoll::TransferDone)
            },
        }
    }

    fn on_nack(&mut self, seq: u8) -> (r: Result<TxPoll, Error<T::Error>>)
        requires
            old(self).wf(),
        ensures
            final(self).wf(),
            final(self).link() == old(self).link(),
            (final(self).model(), r) == wtx_on_nack::<T::Error>(old(self).model(), seq),
    {
        let i = match self.find_seq(seq) {
            None => return Ok(TxPoll::Pending),
            Some(i) => i,
        };
        proof {
            lemma_first_index_sound(self.slots@, holds_seq(seq));
        }
        let sl = match self.slots[i] {
            None => return Ok(TxPoll::Pending),
            Some(sl) => sl,
        };
        if !sl.written {
            return Ok(TxPoll::Pending);
        }
        if sl.retries_left == 0 {
            self.slots = [None; N];
            self.state = TxState::Failed;
            assert(self.slots@ =~= no_slots(N as nat));
            return Err(Error::RetriesExhausted);
        }
        self.slots[i] = Some(TxSlot {
            retries_left: sl.retries_left - 1,
            needs_retransmit: true,
            empty_ticks: 0,
            ..sl
        });
        self.state = TxState::Retrying;
        Ok(TxPoll::Pending)
    }

    fn tick_timeouts(&mut self) -> (r: Result<TxPoll, Error<T::Error>>)
        requires
            old(self).wf(),
        ensures
            final(self).wf(),
            final(self).link() == old(self).link(),
            (final(self).model(), r) == wtx_tick_from::<T::Error>(old(self).model(), 0),
    {
        let timeout = self.retry_policy.timeout_ticks;
        let writing = self.writing;
        let mut i: usize = 0;
        while i < N
            invariant
                i <= N,
                self.wf(),
                self.link() == old(self).link(),
                self.slots@.len() == N,
                timeout == self.model().policy.timeout_ticks,
                writing == self.model().writing,
                wtx_tick_from::<T::Error>(old(self).model(), 0) == wtx_tick_from::<T::Error>(
                    self.model(),
                    i as nat,
                ),
            decreases N - i,
        {
            let sl = match self.slots[i] {
                None => {
                    i = i + 1;
                    continue;
                },
                Some(sl) => sl,
            };
            if writing == Some(i) || !sl.written || sl.needs_retransmit {
                i = i + 1;
                continue;
            }
            let ticks = if sl.empty_ticks == u16::MAX { u16::MAX } else { sl.empty_ticks + 1 };
            if ticks < timeout {
                self.slots[i] = Some(TxSlot { empty_ticks: ticks, ..sl });
                i = i + 1;
                continue;
            }
            if sl.retries_left == 0 {
                self.slots = [None; N];
                self.state = TxState::Failed;
                assert(self.slots@ =~= no_slots(N as nat));
                return Err(Error::RetriesExhausted);
            }
            self.slots[i] = Some(TxSlot {
                retries_left: sl.retries_left - 1,
                needs_retransmit: true,
                empty_ticks: 0,
                ..sl
            });
            self.state = TxState::Retrying;
            i = i + 1;
        }
        Ok(TxPoll::Pending)
    }

    fn load_slot(&mut self, i: usize)
        requires
            old(self).wf(),
            i < N,
            old(self).model().slots[i as int] is Some,
        ensures
            final(self).wf(),
            final(self).link() == old(self).link(),
            final(self).model() == (WTxModel {
                out: spec_encode(slot_frame(old(self).model().slots[i as int].unwrap())),
                writing: Some(i),
                state: TxState::Sending,
                ..old(self).model()
            }),
    {
        let sl = match self.slots[i] {
            Some(sl) => sl,
            None => return,
        };
        let frame = match sl.kind {
            SlotKind::Data => Frame::data(sl.seq, sl.payload),
            SlotKind::Start => Frame::start(),
            SlotKind::Finish => Frame::finish(sl.seq),
        };
        self.out.load(&frame);
        self.writing = Some(i);
        self.state = TxState::Sending;
    }

    fn poll_io(&mut self) -> (res: (Result<TxPoll, Error<T::Error>>, Ghost<LinkIo<T::Error>>))
        requires
            old(self).wf(),
        ensures
            final(self).wf(),
            wtx_io_fits(old(self).model(), res.1@),
            wtx_step(old(self).model(), res.1@) == (final(self).model(), res.0),
            (T::keeps_calls() ==> final(self).link().calls() == old(self).link().calls() + link_calls(res.1@)),
    {
        if self.state == TxState::Failed {
            return (Err(Error::RetriesExhausted), Ghost(LinkIo::Nothing));
        }
        if self.state == TxState::Finished && self.outstanding() == 0 {
            return (Ok(TxPoll::TransferDone), Ghost(LinkIo::Nothing));
        }
        if !self.out.is_idle() {
            let byte = match self.out.peek() {
                Some(b) => b,
                None => 0,
            };
            let res = self.transport.write_byte(byte);
            let ghost io = LinkIo::Wrote(byte, res);
            match res {
                Err(e) => return (Err(Error::Transport(e)), Ghost(io)),
                Ok(()) => {},
            }
            self.out.commit();
            if self.out.is_idle() {
                self.finish_write();
            }
            return (Ok(TxPoll::Pending), Ghost(io));
        }
        if let Some(i) = self.next_slot_to_write() {
            self.load_slot(i);
            let byte = match self.out.peek() {
                Some(b) => b,
                None => 0,
            };
            let res = self.transport.write_byte(byte);
            let ghost io = LinkIo::Wrote(byte, res);
            match res {
                Err(e) => return (Err(Error::Transport(e)), Ghost(io)),
                Ok(()) => {},
            }
            self.out.commit();
            return (Ok(TxPoll::Pending), Ghost(io));
        }
        let res = self.transport.read_byte();
        let ghost io = LinkIo::Read(res);
        match res {
            Err(e) => (Err(Error::Transport(e)), Ghost(io)),
            Ok(Some(byte)) => {
                let ghost m0 = self.model();
                let pushed = self.assembler.push(byte);
                match pushed {
                    None => {
                        assert(self.model() == WTxModel { reply: m0.reply.push(byte), ..m0 });
                        (Ok(TxPoll::Pending), Ghost(io))
                    },
                    Some(Err(_)) => {
                        assert(self.model() == WTxModel { reply: Seq::empty(), ..m0 });
                        (Ok(TxPoll::Pending), Ghost(io))
                    },
                    Some(Ok(frame)) => {
                        assert(self.model() == WTxModel { reply: Seq::empty(), ..m0 });
                        let r = match frame.frame_type() {
                            FrameType::Ack => self.on_ack(frame.seq()),
                            FrameType::Nack => self.on_nack(frame.seq()),
                            _ => Ok(TxPoll::Pending),
                        };
                        (r, Ghost(io))
                    },
                }
            },
            Ok(None) => (self.tick_timeouts(), Ghost(io)),
        }
    }

    /// One non-blocking step: writes at most one byte, or reads at most one.
    ///
    /// The next state and the result are [`wtx_step`] of the previous state
    /// and of what the transport answered; the byte handed to a write is
    /// the one [`wtx_io_fits`] names, and the calls made on the transport
    /// are exactly those the record lists.
    pub fn poll(&mut self) -> (r: Result<TxPoll, Error<T::Error>>)
        requires
            old(self).wf(),
        ensures
            final(self).wf(),
            exists|io: LinkIo<T::Error>|
                wtx_io_fits(old(self).model(), io) && #[trigger] wtx_step(old(self).model(), io)
                    == (final(self).model(), r) && (T::keeps_calls() ==> final(self).link().calls() == old(
                    self,
                ).link().calls() + link_calls(io)),
    {
        let (r, Ghost(io)) = self.poll_io();
        assert(wtx_io_fits(old(self).model(), io) && wtx_step(old(self).model(), io) == (
        self.model(), r) && (T::keeps_calls() ==> self.link().calls() == old(self).link().calls() + link_calls(io)));
        r
    }

    /// START, then polls until it is acknowledged.
    ///
    /// Gives up with [`Error::Timeout`] after `u64::MAX` polls without an
    /// answer.
    pub fn send_start(&mut self) -> (r: Result<(), Error<T::Error>>)
        requires
            old(self).wf(),
        ensures
            final(self).wf(),
            r is Ok ==> (final(self).model().state is Idle && final(self).model().next_seq == 0)
                || final(self).model().state is Finished,
            r is Err ==> r matches Err(
                Error::NotIdle | Error::Transport(_) | Error::RetriesExhausted | Error::Aborted
                | Error::Timeout,
            ),
            !(count_some(old(self).model().slots) == 0 && old(self).model().out.len() == 0)
                ==> r == Err::<(), Error<T::Error>>(Error::NotIdle) && final(self).model()
                == old(self).model(),
            exists|ms: Seq<WTxModel>, evs: Seq<WTxEvent<T::Error>>|
                {
                    &&& #[trigger] wtx_trace(ms, evs)
                    &&& ms[0] == old(self).model()
                    &&& ms.last() == final(self).model()
                    &&& (T::keeps_calls() ==> final(self).link().calls() == old(self).link().calls() + wtx_trace_calls(evs))
                    &&& wtx_trace_offers(evs) == Seq::<u8>::empty()
                    &&& r is Ok ==> evs.len() > 0 && evs.last() matches WTxEvent::Poll(
                        _,
                        Ok(TxPoll::SessionReady | TxPoll::TransferDone),
                    )
                },
    {
        let ghost mut ms: Seq<WTxModel> = seq![self.model()];
        let ghost mut evs: Seq<WTxEvent<T::Error>> = Seq::empty();
        assert((T::keeps_calls() ==> old(self).link().calls() + wtx_trace_calls(evs) =~= old(self).link().calls()));
        proof {
            self.lemma_window_len();
        }
        match self.offer_start() {
            Err(e) => {
                assert(wtx_trace(ms, evs));
                return Err(e);
            },
            Ok(()) => {},
        }
        proof {
            lemma_wtx_trace_push(ms, evs, WTxEvent::Start, self.model());
            ms = ms.push(self.model());
            evs = evs.push(WTxEvent::Start);
            assert(wtx_trace_offers(evs) =~= Seq::<u8>::empty());
        }
        let ghost m0 = old(self).model();
        let mut budget: u64 = u64::MAX;
        loop
            invariant
                self.wf(),
                m0 == old(self).model(),
                count_some(m0.slots) == 0 && m0.out.len() == 0,
                wtx_trace(ms, evs),
                ms[0] == old(self).model(),
                ms.last() == self.model(),
                (T::keeps_calls() ==> self.link().calls() == old(self).link().calls() + wtx_trace_calls(evs)),
                wtx_trace_offers(evs) == Seq::<u8>::empty(),
            decreases budget,
        {
            if budget == 0 {
                return Err(Error::Timeout);
            }
            budget = budget - 1;
            let ghost before = self.model();
            let ghost c0 = self.link().calls();
            let p = self.poll();
            proof {
                lemma_wtx_step_outcomes::<T::Error>(before);
                let io = choose|io: LinkIo<T::Error>|
                    wtx_io_fits(before, io) && #[trigger] wtx_step(before, io) == (self.model(), p)
                        && (T::keeps_calls() ==> self.link().calls() == c0 + link_calls(io));
                lemma_wtx_trace_push(ms, evs, WTxEvent::Poll(io, p), self.model());
                ms = ms.push(self.model());
                evs = evs.push(WTxEvent::Poll(io, p));
            }
            match p {
                Err(e) => return Err(e),
                Ok(TxPoll::Pending) | Ok(TxPoll::Acked) => {},
                Ok(TxPoll::SessionReady) | Ok(TxPoll::TransferDone) => {
                    return Ok(());
                },
                Ok(TxPoll::Aborted) => return Err(Error::Aborted),
            }
        }
    }

    /// Offers one DATA byte (polling while the window is full), then polls
    /// until that byte is acknowledged.
    ///
    /// Gives up with [`Error::Timeout`] after `u64::MAX` polls in either
    /// phase.
    pub fn send_byte(&mut self, data: u8) -> (r: Result<(), Error<T::Error>>)
        requires
            old(self).wf(),
        ensures
            final(self).wf(),
            r is Ok ==> first_index(
                final(self).model().slots,
                holds_seq(seq_prev(final(self).model().next_seq)),
            ) is None || final(self).model().state is Idle || final(self).model().state is Finished,
            r is Err ==> r matches Err(
                Error::NotIdle | Error::Transport(_) | Error::RetriesExhausted | Error::Aborted
                | Error::Timeout,
            ),
            exists|ms: Seq<WTxModel>, evs: Seq<WTxEvent<T::Error>>|
                {
                    &&& #[trigger] wtx_trace(ms, evs)
                    &&& ms[0] == old(self).model()
                    &&& ms.last() == final(self).model()
                    &&& (T::keeps_calls() ==> final(self).link().calls() == old(self).link().calls() + wtx_trace_calls(evs))
                    &&& (wtx_trace_offers(evs) == seq![data] || (r is Err && wtx_trace_offers(evs) == Seq::<u8>::empty()))
                    &&& r is Ok ==> evs.len() > 0 && evs.last() matches WTxEvent::Poll(
                        _,
                        Ok(TxPoll::Acked | TxPoll::SessionReady | TxPoll::TransferDone),
                    )
                },
    {
        let ghost mut ms: Seq<WTxModel> = seq![self.model()];
        let ghost mut evs: Seq<WTxEvent<T::Error>> = Seq::empty();
        assert((T::keeps_calls() ==> old(self).link().calls() + wtx_trace_calls(evs) =~= old(self).link().calls()));
        assert(wtx_trace_offers(evs) =~= Seq::<u8>::empty());
        let mut budget: u64 = u64::MAX;
        loop
            invariant_except_break
                wtx_trace_offers(evs) == Seq::<u8>::empty(),
            invariant
                self.wf(),
                wtx_trace(ms, evs),
                ms[0] == old(self).model(),
                ms.last() == self.model(),
                (T::keeps_calls() ==> self.link().calls() == old(self).link().calls() + wtx_trace_calls(evs)),
            ensures
                self.wf(),
                wtx_trace(ms, evs),
                ms[0] == old(self).model(),
                ms.last() == self.model(),
                (T::keeps_calls() ==> self.link().calls() == old(self).link().calls() + wtx_trace_calls(evs)),
                wtx_trace_offers(evs) == seq![data],
            decreases budget,
        {
            if budget == 0 {
                return Err(Error::Timeout);
            }
            budget = budget - 1;
            let ghost before = self.model();
            proof {
                self.lemma_window_len();
            }
            match self.offer(data) {
                Ok(()) => {
                    proof {
                        lemma_wtx_trace_push(ms, evs, WTxEvent::Offer(data), self.model());
                        ms = ms.push(self.model());
                        evs = evs.push(WTxEvent::Offer(data));
                        assert(wtx_trace_offers(evs) =~= seq![data]);
                    }
                    break;
                },
                Err(Error::WindowFull) => {
                    let ghost before = self.model();
                    let ghost c0 = self.link().calls();
                    let p = self.poll();
                    proof {
                        lemma_wtx_step_outcomes::<T::Error>(before);
                        let io = choose|io: LinkIo<T::Error>|
                            wtx_io_fits(before, io) && #[trigger] wtx_step(before, io) == (self.model(), p)
                                && (T::keeps_calls() ==> self.link().calls() == c0 + link_calls(io));
                        lemma_wtx_trace_push(ms, evs, WTxEvent::Poll(io, p), self.model());
                        ms = ms.push(self.model());
                        evs = evs.push(WTxEvent::Poll(io, p));
                    }
                    match p {
                        Err(e) => return Err(e),
                        Ok(_) => {},
                    }
                },
                Err(e) => return Err(e),
            }
        }
        let seq = self.next_seq.current().wrapping_sub(1);
        let mut budget2: u64 = u64::MAX;
        loop
            invariant
                self.wf(),
                seq == seq_prev(self.model().next_seq),
                wtx_trace(ms, evs),
                ms[0] == old(self).model(),
                ms.last() == self.model(),
                (T::keeps_calls() ==> self.link().calls() == old(self).link().calls() + wtx_trace_calls(evs)),
                wtx_trace_offers(evs) == seq![data],
            decreases budget2,
        {
            if budget2 == 0 {
                return Err(Error::Timeout);
            }
            budget2 = budget2 - 1;
            let ghost before = self.model();
            let ghost c0 = self.link().calls();
            let p = self.poll();
            proof {
                lemma_wtx_step_outcomes::<T::Error>(before);
                let io = choose|io: LinkIo<T::Error>|
                    wtx_io_fits(before, io) && #[trigger] wtx_step(before, io) == (self.model(), p)
                        && (T::keeps_calls() ==> self.link().calls() == c0 + link_calls(io));
                lemma_wtx_trace_push(ms, evs, WTxEvent::Poll(io, p), self.model());
                ms = ms.push(self.model());
                evs = evs.push(WTxEvent::Poll(io, p));
            }
            match p {
                Err(e) => return Err(e),
                Ok(TxPoll::Acked) => {
                    if self.find_seq(seq).is_none() {
                        assert(seq == seq_prev(self.model().next_seq));
                        return Ok(());
                    }
                },
                Ok(TxPoll::Pending) => {},
                Ok(TxPoll::SessionReady) | Ok(TxPoll::TransferDone) => {
                    return Ok(());
                },
                Ok(TxPoll::Aborted) => return Err(Error::Aborted),
            }
        }
    }

    /// FINISH (polling while DATA is still outstanding), then polls until
    /// it is acknowledged.
    ///
    /// Gives up with [`Error::Timeout`] after `u64::MAX` polls in either
    /// phase.
    pub fn send_finish(&mut self) -> (r: Result<(), Error<T::Error>>)
        requires
            old(self).wf(),
        ensures
            final(self).wf(),
            r is Ok ==> final(self).model().state is Finished || (final(self).model().state is Idle
                && final(self).model().next_seq == 0),
            r is Err ==> r matches Err(
                Error::NotIdle | Error::Transport(_) | Error::RetriesExhausted | Error::Timeout,
            ),
            r == Err::<(), Error<T::Error>>(Error::NotIdle) ==> final(self).model().state is Finished
                || final(self).model().state is Failed,
            r == Err::<(), Error<T::Error>>(Error::RetriesExhausted)
                ==> final(self).model().state is Failed,
            old(self).model().state is Failed ==> final(self).model() == old(self).model() && (r
                == Err::<(), Error<T::Error>>(Error::NotIdle) || r == Err::<(), Error<T::Error>>(
                Error::RetriesExhausted,
            )),
            exists|ms: Seq<WTxModel>, evs: Seq<WTxEvent<T::Error>>|
                {
                    &&& #[trigger] wtx_trace(ms, evs)
                    &&& ms[0] == old(self).model()
                    &&& ms.last() == final(self).model()
                    &&& (T::keeps_calls() ==> final(self).link().calls() == old(self).link().calls() + wtx_trace_calls(evs))
                    &&& wtx_trace_offers(evs) == Seq::<u8>::empty()
                    &&& r is Ok ==> evs.len() > 0 && (evs.last() matches WTxEvent::Poll(
                        _,
                        Ok(TxPoll::TransferDone | TxPoll::SessionReady),
                    ))
                    &&& r == Err::<(), Error<T::Error>>(Error::Timeout) ==> evs.len() >= u64::MAX
                    &&& (r matches Err(Error::Transport(_) | Error::RetriesExhausted)) ==> evs.len() > 0
                        && (evs.last() matches WTxEvent::Poll(_, Err(e)) && r == Err::<(), Error<T::Error>>(e))
                },
    {
        let ghost mut ms: Seq<WTxModel> = seq![self.model()];
        let ghost mut evs: Seq<WTxEvent<T::Error>> = Seq::empty();
        assert((T::keeps_calls() ==> old(self).link().calls() + wtx_trace_calls(evs) =~= old(self).link().calls()));
        assert(wtx_trace_offers(evs) =~= Seq::<u8>::empty());
        let mut budget: u64 = u64::MAX;
        loop
            invariant
                self.wf(),
                old(self).model().state is Failed ==> self.model() == old(self).model()
                    && budget == u64::MAX,
                evs.len() + budget >= u64::MAX,
                wtx_trace(ms, evs),
                ms[0] == old(self).model(),
                ms.last() == self.model(),
                (T::keeps_calls() ==> self.link().calls() == old(self).link().calls() + wtx_trace_calls(evs)),
                wtx_trace_offers(evs) == Seq::<u8>::empty(),
            ensures
                self.wf(),
                !(old(self).model().state is Failed),
                wtx_trace(ms, evs),
                ms[0] == old(self).model(),
                ms.last() == self.model(),
                (T::keeps_calls() ==> self.link().calls() == old(self).link().calls() + wtx_trace_calls(evs)),
                wtx_trace_offers(evs) == Seq::<u8>::empty(),
            decreases budget,
        {
            if budget == 0 {
                return Err(Error::Timeout);
            }
            budget = budget - 1;
            let ghost before = self.model();
            proof {
                self.lemma_window_len();
                if count_some(before.slots) == 0 {
                    lemma_free_when_empty(before.slots);
                }
            }
            match self.offer_finish() {
                Ok(()) => {
                    proof {
                        lemma_wtx_trace_push(ms, evs, WTxEvent::Finish, self.model());
                        ms = ms.push(self.model());
                        evs = evs.push(WTxEvent::Finish);
                    }
                    break;
                },
                Err(Error::NotIdle) => {
                    if self.outstanding() > 0 {
                        let ghost before = self.model();
                        let ghost c0 = self.link().calls();
                        let p = self.poll();
                        proof {
                            lemma_wtx_step_outcomes::<T::Error>(before);
                            let io = choose|io: LinkIo<T::Error>|
                                wtx_io_fits(before, io) && #[trigger] wtx_step(before, io) == (self.model(), p)
                                    && (T::keeps_calls() ==> self.link().calls() == c0 + link_calls(io));
                            lemma_wtx_trace_push(ms, evs, WTxEvent::Poll(io, p), self.model());
                            ms = ms.push(self.model());
                            evs = evs.push(WTxEvent::Poll(io, p));
                        }
                        match p {
                            Err(e) => return Err(e),
                            Ok(_) => {},
                        }
                    } else {
                        return Err(Error::NotIdle);
                    }
                },
                Err(e) => return Err(e),
            }
        }
        let mut budget2: u64 = u64::MAX;
        loop
            invariant
                self.wf(),
                !(old(self).model().state is Failed),
                evs.len() + budget2 >= u64::MAX,
                wtx_trace(ms, evs),
                ms[0] == old(self).model(),
                ms.last() == self.model(),
                (T::keeps_calls() ==> self.link().calls() == old(self).link().calls() + wtx_trace_calls(evs)),
                wtx_trace_offers(evs) == Seq::<u8>::empty(),
            decreases budget2,
        {
            if budget2 == 0 {
                return Err(Error::Timeout);
            }
            budget2 = budget2 - 1;
            let ghost before = self.model();
            let ghost c0 = self.link().calls();
            let p = self.poll();
            proof {
                lemma_wtx_step_outcomes::<T::Error>(before);
                let io = choose|io: LinkIo<T::Error>|
                    wtx_io_fits(before, io) && #[trigger] wtx_step(before, io) == (self.model(), p)
                        && (T::keeps_calls() ==> self.link().calls() == c0 + link_calls(io));
                lemma_wtx_trace_push(ms, evs, WTxEvent::Poll(io, p), self.model());
                ms = ms.push(self.model());
                evs = evs.push(WTxEvent::Poll(io, p));
            }
            match p {
                Err(e) => return Err(e),
                Ok(TxPoll::Pending) | Ok(TxPoll::Acked) => {},
                Ok(TxPoll::TransferDone) | Ok(TxPoll::SessionReady) => {
                    return Ok(());
                },
                Ok(TxPoll::Aborted) => return Err(Error::Aborted),
            }
        }
    }

    /// The transport, for inspection.
    pub fn transport(&self) -> (t: &T)
        ensures
            *t == self.link(),
    {
        &self.transport
    }

    /// Returns the underlying transport.
    pub fn release(self) -> (t: T)
        ensures
            t == self.link(),
    {
        self.transport
    }
}

} // verus!
