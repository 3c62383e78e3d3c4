//! One in-memory duplex wire, two readers on each end.
//!
//! A real UART has one incoming stream. The sender needs ACK and NACK from
//! it; the receiver needs DATA, START, FINISH and ABORT. Each direction of
//! the wire is a lane that demultiplexes whole frames, so that the two
//! readers on one end do not steal each other's bytes.
//!
//! ```text
//! Peer A                         Peer B
//! TX.write --+                 +-- RX.read  (DATA, START, ...)
//! RX.write --+--- a_to_b ------+
//!            |                 +-- TX.read  (ACK, NACK)
//! TX.read  <-+
//! RX.read  <-+--- b_to_a ------+
//!            |                 +-- TX.write / RX.write
//! ```

use vstd::prelude::*;
use crate::transport::demux::{spec_route, Demux, DemuxView, Ring, RING};

verus! {

/// The heapless ring had no room.
#[derive(Debug, Clone, Copy, PartialEq, Eq, Structural)]
pub struct DuplexFull;

/// Why copying a byte stream across a wire stopped early.
#[derive(Debug, Clone, Copy, PartialEq, Eq, Structural)]
pub enum WireCopyError {
    /// The byte source failed.
    Source,
    /// The byte sink failed.
    Sink,
    /// Protocol or transport error (ABORT, retries exhausted).
    Protocol,
    /// Too many polls without progress.
    Stalled,
}

/// The content of one direction of the wire.
pub struct LaneView {
    /// Bytes written and not yet taken in.
    pub wire: Seq<u8>,
    /// The demultiplexer at the reading end.
    pub queues: DemuxView,
}

/// What taking in a lane's written bytes does: each byte leaves the wire
/// and is routed, until the wire is empty or a frame does not fit (the
/// byte that completed it is consumed all the same).
pub open spec fn spec_drain(d: DemuxView, wire: Seq<u8>) -> LaneView
    decreases wire.len(),
{
    if wire.len() == 0 {
        LaneView { wire, queues: d }
    } else {
        let (d1, ok) = spec_route(d, wire[0]);
        if !ok {
            LaneView { wire: wire.drop_first(), queues: d1 }
        } else {
            spec_drain(d1, wire.drop_first())
        }
    }
}

/// One direction of the wire.
pub struct DuplexLane {
    wire: Ring,
    demux: Demux,
}

impl View for DuplexLane {
    type V = LaneView;

    closed spec fn view(&self) -> LaneView {
        LaneView { wire: self.wire@, queues: self.demux@ }
    }
}

impl DuplexLane {
    /// Internal consistency of the ring and the demultiplexer.
    pub closed spec fn wf(&self) -> bool {
        self.wire.wf() && self.demux.wf()
    }

    /// An empty lane.
    pub fn new() -> (l: DuplexLane)
        ensures
            l.wf(),
            l@ == (LaneView {
                wire: Seq::empty(),
                queues: DemuxView {
                    partial: Seq::empty(),
                    control: Seq::empty(),
                    payload: Seq::empty(),
                },
            }),
    {
        DuplexLane { wire: Ring::new(), demux: Demux::new() }
    }

    /// Takes in every written byte, routing each.
    fn ingest(&mut self)
        requires
            old(self).wf(),
        ensures
            final(self).wf(),
            final(self)@ == spec_drain(old(self)@.queues, old(self)@.wire),
    {
        loop
            invariant
                self.wf(),
                spec_drain(self@.queues, self@.wire) == spec_drain(old(self)@.queues, old(self)@.wire),
            decreases self@.wire.len(),
        {
            match self.wire.pop() {
                None => {
                    return;
                },
                Some(b) => {
                    if !self.demux.route(b) {
                        return;
                    }
                },
            }
        }
    }
}

/// The content of a [`DuplexCore`]: A to B, and B to A.
pub struct DuplexView {
    /// Bytes that peer A writes, read by peer B.
    pub a_to_b: LaneView,
    /// Bytes that peer B writes, read by peer A.
    pub b_to_a: LaneView,
}

/// Both directions of an in-memory wire. Every end goes through it: the
/// sharing between the four ends is the caller's.
pub struct DuplexCore {
    a_to_b: DuplexLane,
    b_to_a: DuplexLane,
}

impl View for DuplexCore {
    type V = DuplexView;

    closed spec fn view(&self) -> DuplexView {
        DuplexView { a_to_b: self.a_to_b@, b_to_a: self.b_to_a@ }
    }
}

/// What a read on one end returns from a lane whose queues are `d`.
pub open spec fn spec_take(d: DemuxView, for_tx: bool) -> (DemuxView, Option<u8>) {
    if for_tx {
        if d.control.len() == 0 {
            (d, None)
        } else {
            (DemuxView { control: d.control.drop_first(), ..d }, Some(d.control[0]))
        }
    } else {
        if d.payload.len() == 0 {
            (d, None)
        } else {
            (DemuxView { payload: d.payload.drop_first(), ..d }, Some(d.payload[0]))
        }
    }
}

/// A read on one end: take in the lane, then pop the end's queue.
pub open spec fn spec_read(l: LaneView, for_tx: bool) -> (LaneView, Option<u8>) {
    let drained = spec_drain(l.queues, l.wire);
    let (q, r) = spec_take(drained.queues, for_tx);
    (LaneView { queues: q, ..drained }, r)
}

impl DuplexCore {
    /// Internal consistency of both lanes.
    pub closed spec fn wf(&self) -> bool {
        self.a_to_b.wf() && self.b_to_a.wf()
    }

    /// An empty wire.
    pub fn new() -> (w: DuplexCore)
        ensures
            w.wf(),
            w@.a_to_b.wire == Seq::<u8>::empty(),
            w@.b_to_a.wire == Seq::<u8>::empty(),
            w@.a_to_b.queues == (DemuxView {
                partial: Seq::empty(),
                control: Seq::empty(),
                payload: Seq::empty(),
            }),
            w@.b_to_a.queues == (DemuxView {
                partial: Seq::empty(),
                control: Seq::empty(),
                payload: Seq::empty(),
            }),
    {
        DuplexCore { a_to_b: DuplexLane::new(), b_to_a: DuplexLane::new() }
    }

    /// A write by peer A (`is_a`) or peer B: the byte enters that peer's
    /// outgoing lane, or [`DuplexFull`] when the lane holds [`RING`]
    /// bytes.
    pub fn write(&mut self, is_a: bool, byte: u8) -> (r: Result<(), DuplexFull>)
        requires
            old(self).wf(),
        ensures
            final(self).wf(),
            is_a ==> final(self)@.b_to_a == old(self)@.b_to_a,
            !is_a ==> final(self)@.a_to_b == old(self)@.a_to_b,
            ({
                let lane = if is_a { old(self)@.a_to_b } else { old(self)@.b_to_a };
                let after = if is_a { final(self)@.a_to_b } else { final(self)@.b_to_a };
                if lane.wire.len() < RING {
                    r is Ok && after == (LaneView { wire: lane.wire.push(byte), ..lane })
                } else {
                    r == Err::<(), DuplexFull>(DuplexFull) && after == lane
                }
            }),
    {
        let ok = if is_a {
            self.a_to_b.wire.push(byte)
        } else {
            self.b_to_a.wire.push(byte)
        };
        if ok {
            Ok(())
        } else {
            Err(DuplexFull)
        }
    }

    /// A read by peer A's or peer B's sender end (`for_tx`) or receiver
    /// end: the lane towards that peer is taken in, then the end's queue
    /// is popped. Never fails.
    pub fn read(&mut self, is_a: bool, for_tx: bool) -> (r: Result<Option<u8>, DuplexFull>)
        requires
            old(self).wf(),
        ensures
            final(self).wf(),
            is_a ==> final(self)@.a_to_b == old(self)@.a_to_b,
            !is_a ==> final(self)@.b_to_a == old(self)@.b_to_a,
            ({
                let lane = if is_a { old(self)@.b_to_a } else { old(self)@.a_to_b };
                let after = if is_a { final(self)@.b_to_a } else { final(self)@.a_to_b };
                let (l2, got) = spec_read(lane, for_tx);
                r == Ok::<Option<u8>, DuplexFull>(got) && after == l2
            }),
    {
        let lane = if is_a {
            &mut self.b_to_a
        } else {
            &mut self.a_to_b
        };
        lane.ingest();
        let got = if for_tx {
            lane.demux.pop_control()
        } else {
            lane.demux.pop_payload()
        };
        Ok(got)
    }
}

} // verus!
