//! Frame demultiplexing for a link whose one incoming stream feeds both a
//! sender and a receiver: ACK and NACK frames go to the sender's queue,
//! everything else (DATA, START, FINISH, ABORT, and frames that fail to
//! decode) to the receiver's.

use vstd::prelude::*;
use crate::protocol::frame::{spec_decode, spec_encode, lemma_encode_decode, FrameType, FRAME_LEN};
use crate::protocol::FrameAssembler;

verus! {

/// Capacity of each demux queue, in bytes.
pub const RING: usize = 64;

/// A bounded FIFO of bytes on a fixed array.
#[derive(Clone, Copy)]
pub struct Ring {
    buf: [u8; RING],
    head: usize,
    tail: usize,
    len: usize,
}

impl View for Ring {
    type V = Seq<u8>;

    closed spec fn view(&self) -> Seq<u8> {
        Seq::new(self.len as nat, |i: int| self.buf@[(self.head + i) % (RING as int)])
    }
}

/// What pushing a whole frame onto a queue holding `q` gives: every byte
/// when there is room for all, else as many as fit and `false`.
pub open spec fn spec_push_frame(q: Seq<u8>, bytes: Seq<u8>) -> (Seq<u8>, bool) {
    let room = RING - q.len();
    if bytes.len() <= room {
        (q + bytes, true)
    } else {
        (q + bytes.take(room), false)
    }
}

impl Ring {
    /// Internal consistency: positions in range, `tail` just after the
    /// last byte.
    pub closed spec fn wf(&self) -> bool {
        &&& self.head < RING
        &&& self.tail < RING
        &&& self.len <= RING
        &&& self.tail == (self.head + self.len) % (RING as int)
    }

    /// An empty queue.
    pub fn new() -> (r: Ring)
        ensures
            r.wf(),
            r@ == Seq::<u8>::empty(),
    {
        let r = Ring { buf: [0; RING], head: 0, tail: 0, len: 0 };
        assert(r@ =~= Seq::<u8>::empty());
        r
    }

    /// Appends `byte`; `false` (and no change) when full.
    pub fn push(&mut self, byte: u8) -> (ok: bool)
        requires
            old(self).wf(),
        ensures
            final(self).wf(),
            ok == (old(self)@.len() < RING),
            ok ==> final(self)@ == old(self)@.push(byte),
            !ok ==> final(self)@ == old(self)@,
    {
        if self.len == RING {
            return false;
        }
        let ghost before = self@;
        self.buf[self.tail] = byte;
        self.tail = (self.tail + 1) % RING;
        self.len = self.len + 1;
        assert forall|i: int| 0 <= i < self.len implies #[trigger] self@[i] == before.push(byte)[i] by {
            if i < self.len - 1 {
                assert((self.head + i) % 64 != old(self).tail);
            }
        }
        assert(self@ =~= before.push(byte));
        true
    }

    /// Removes and returns the oldest byte, if any.
    pub fn pop(&mut self) -> (r: Option<u8>)
        requires
            old(self).wf(),
        ensures
            final(self).wf(),
            old(self)@.len() == 0 ==> r is None && final(self)@ == old(self)@,
            old(self)@.len() > 0 ==> r == Some(old(self)@[0]) && final(self)@ == old(
                self,
            )@.drop_first(),
    {
        if self.len == 0 {
            return None;
        }
        let byte = self.buf[self.head];
        assert(old(self)@[0] == byte);
        self.head = (self.head + 1) % RING;
        self.len = self.len - 1;
        assert forall|i: int| 0 <= i < self.len implies #[trigger] self@[i] == old(
            self,
        )@.drop_first()[i] by {
            assert(((old(self).head + 1) % 64 + i) % 64 == (old(self).head + (i + 1)) % 64);
        }
        assert(self@ =~= old(self)@.drop_first());
        Some(byte)
    }

    /// Pushes a whole frame, byte by byte, stopping at the first byte that
    /// does not fit.
    pub fn push_frame(&mut self, bytes: [u8; FRAME_LEN]) -> (ok: bool)
        requires
            old(self).wf(),
        ensures
            final(self).wf(),
            (final(self)@, ok) == spec_push_frame(old(self)@, bytes@),
    {
        let mut i: usize = 0;
        while i < FRAME_LEN
            invariant
                i <= FRAME_LEN,
                self.wf(),
                old(self)@.len() + i <= RING,
                self@ == old(self)@ + bytes@.take(i as int),
            decreases FRAME_LEN - i,
        {
            if !self.push(bytes[i]) {
                assert(RING - old(self)@.len() == i);
                return false;
            }
            assert(bytes@.take(i + 1) =~= bytes@.take(i as int).push(bytes[i as int]));
            i = i + 1;
        }
        assert(bytes@.take(4) =~= bytes@);
        true
    }
}

/// Four bytes that decode to an ACK or a NACK.
pub open spec fn is_control_frame(bytes: Seq<u8>) -> bool {
    spec_decode(bytes) matches Ok(v) && (v.0 is Ack || v.0 is Nack)
}

/// The content of a [`Demux`].
pub struct DemuxView {
    /// Bytes of the frame being assembled.
    pub partial: Seq<u8>,
    /// Queued ACK and NACK bytes, for the sender.
    pub control: Seq<u8>,
    /// Queued bytes of every other frame, for the receiver.
    pub payload: Seq<u8>,
}

/// What routing one incoming byte does: a frame completed by it is queued
/// whole on its side; `false` when that queue had no room for all of it.
pub open spec fn spec_route(d: DemuxView, b: u8) -> (DemuxView, bool) {
    if d.partial.len() < 3 {
        (DemuxView { partial: d.partial.push(b), ..d }, true)
    } else {
        let f = d.partial.push(b);
        if is_control_frame(f) {
            let (c, ok) = spec_push_frame(d.control, f);
            (DemuxView { partial: Seq::empty(), control: c, ..d }, ok)
        } else {
            let (p, ok) = spec_push_frame(d.payload, f);
            (DemuxView { partial: Seq::empty(), payload: p, ..d }, ok)
        }
    }
}

/// Routing sorts frames by what they are: the byte that completes a frame
/// queues it for the sender exactly when it decodes to ACK or NACK, and for
/// the receiver otherwise (DATA, START, FINISH, ABORT, and frames that do
/// not decode); the other queue is left alone, and with room for the whole
/// frame all four bytes are queued in order.
pub proof fn lemma_route_sorts(d: DemuxView, b: u8)
    requires
        d.partial.len() == 3,
    ensures
        ({
            let f = d.partial.push(b);
            let (d2, ok) = spec_route(d, b);
            let reply = spec_decode(f) matches Ok(v) && (v.0 is Ack || v.0 is Nack);
            &&& d2.partial == Seq::<u8>::empty()
            &&& reply ==> d2.payload == d.payload && d2.control.take(d.control.len() as int) == d.control
            &&& reply && d.control.len() + 4 <= RING ==> ok && d2.control == d.control + f
            &&& !reply ==> d2.control == d.control && d2.payload.take(d.payload.len() as int) == d.payload
            &&& !reply && d.payload.len() + 4 <= RING ==> ok && d2.payload == d.payload + f
        }),
{
    let f = d.partial.push(b);
    assert((d.control + f).take(d.control.len() as int) =~= d.control);
    assert((d.payload + f).take(d.payload.len() as int) =~= d.payload);
    if d.control.len() < RING {
        assert((d.control + f.take(RING - d.control.len())).take(d.control.len() as int) =~= d.control);
    }
    if d.payload.len() < RING {
        assert((d.payload + f.take(RING - d.payload.len())).take(d.payload.len() as int) =~= d.payload);
    }
}

/// Routing a run of bytes, one at a time, until one fails to fit.
pub open spec fn spec_route_all(d: DemuxView, bs: Seq<u8>) -> (DemuxView, bool)
    decreases bs.len(),
{
    if bs.len() == 0 {
        (d, true)
    } else {
        let (d1, ok) = spec_route(d, bs[0]);
        if !ok {
            (d1, false)
        } else {
            spec_route_all(d1, bs.drop_first())
        }
    }
}

/// Sorts complete frames into the sender's and the receiver's queues.
pub struct Demux {
    assembler: FrameAssembler,
    control: Ring,
    payload: Ring,
}

impl View for Demux {
    type V = DemuxView;

    closed spec fn view(&self) -> DemuxView {
        DemuxView { partial: self.assembler@, control: self.control@, payload: self.payload@ }
    }
}

impl Demux {
    /// Internal consistency of the assembler and both queues.
    pub closed spec fn wf(&self) -> bool {
        self.assembler.wf() && self.control.wf() && self.payload.wf()
    }

    /// The partial frame never reaches four bytes, and a queue never holds
    /// more than [`RING`] bytes.
    pub proof fn lemma_bounds(&self)
        requires
            self.wf(),
        ensures
            self@.partial.len() < 4,
            self@.control.len() <= RING,
            self@.payload.len() <= RING,
    {
        self.assembler.lemma_len();
    }

    /// Nothing assembled, nothing queued.
    pub fn new() -> (d: Demux)
        ensures
            d.wf(),
            d@ == (DemuxView {
                partial: Seq::empty(),
                control: Seq::empty(),
                payload: Seq::empty(),
            }),
    {
        Demux { assembler: FrameAssembler::new(), control: Ring::new(), payload: Ring::new() }
    }

    /// Routes one incoming byte.
    pub fn route(&mut self, byte: u8) -> (ok: bool)
        requires
            old(self).wf(),
        ensures
            final(self).wf(),
            (final(self)@, ok) == spec_route(old(self)@, byte),
    {
        let result = match self.assembler.push(byte) {
            None => return true,
            Some(result) => result,
        };
        let ghost f = old(self)@.partial.push(byte);
        match result {
            Ok(frame) => {
                let bytes = frame.to_bytes();
                proof {
                    lemma_encode_decode(f, frame@);
                    assert(bytes@ =~= f);
                }
                let t = frame.frame_type();
                if t == FrameType::Ack || t == FrameType::Nack {
                    self.control.push_frame(bytes)
                } else {
                    self.payload.push_frame(bytes)
                }
            },
            Err(_) => {
                let bytes = self.assembler.last_bytes();
                self.payload.push_frame(bytes)
            },
        }
    }

    /// Removes the oldest queued control byte, if any.
    pub fn pop_control(&mut self) -> (r: Option<u8>)
        requires
            old(self).wf(),
        ensures
            final(self).wf(),
            old(self)@.control.len() == 0 ==> r is None && final(self)@ == old(self)@,
            old(self)@.control.len() > 0 ==> r == Some(old(self)@.control[0]) && final(self)@ == (
            DemuxView { control: old(self)@.control.drop_first(), ..old(self)@ }),
    {
        self.control.pop()
    }

    /// Removes the oldest queued receiver byte, if any.
    pub fn pop_payload(&mut self) -> (r: Option<u8>)
        requires
            old(self).wf(),
        ensures
            final(self).wf(),
            old(self)@.payload.len() == 0 ==> r is None && final(self)@ == old(self)@,
            old(self)@.payload.len() > 0 ==> r == Some(old(self)@.payload[0]) && final(self)@ == (
            DemuxView { payload: old(self)@.payload.drop_first(), ..old(self)@ }),
    {
        self.payload.pop()
    }
}

/// Routing one more byte after a run that fitted is routing it from
/// where the run left off.
pub proof fn lemma_route_all_push(d: DemuxView, bs: Seq<u8>, b: u8)
    requires
        spec_route_all(d, bs).1,
    ensures
        spec_route_all(d, bs.push(b)) == spec_route(spec_route_all(d, bs).0, b),
    decreases bs.len(),
{
    if bs.len() == 0 {
        assert(bs.push(b).drop_first() =~= Seq::<u8>::empty());
        reveal_with_fuel(spec_route_all, 2);
    } else {
        let (d1, ok) = spec_route(d, bs[0]);
        assert(bs.push(b)[0] == bs[0]);
        assert(bs.push(b).drop_first() =~= bs.drop_first().push(b));
        lemma_route_all_push(d1, bs.drop_first(), b);
    }
}

/// Total free room in both queues, scaled so that each routed byte
/// strictly lowers the measure.
pub open spec fn room_measure(d: DemuxView) -> int {
    8 * ((RING - d.control.len()) + (RING - d.payload.len())) + (3 - d.partial.len())
}

/// A byte that fits lowers the room measure, which stays non-negative.
pub proof fn lemma_route_progress(d: DemuxView, b: u8)
    requires
        d.partial.len() < 4,
        d.control.len() <= RING,
        d.payload.len() <= RING,
        spec_route(d, b).1,
    ensures
        room_measure(spec_route(d, b).0) < room_measure(d),
        room_measure(spec_route(d, b).0) >= 0,
{
}

} // verus!
