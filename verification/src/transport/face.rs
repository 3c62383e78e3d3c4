//! One physical link, two [`ByteTransport`] ends.
//!
//! A UART (or any single incoming stream) cannot be read by both the
//! sender and the receiver: ACK and NACK must reach the sender; DATA,
//! START, FINISH and ABORT the receiver. [`FaceCore`] demultiplexes whole
//! frames read from one port; the two ends that share it ask it for their
//! own queue.
//!
//! Both ends write to the same port. Stop-and-wait keeps them from writing
//! at once in the usual cases (the sender waits for an ACK while the peer
//! only acknowledges). Two initiators streaming DATA over one link at the
//! same time would interleave their bytes.

use vstd::prelude::*;
use super::demux::{
    lemma_route_all_push, lemma_route_progress, room_measure, spec_route, spec_route_all, Demux,
    DemuxView, RING,
};
use super::traits::{ByteTransport, LinkCall};

verus! {

/// Error of a demultiplexed end.
#[derive(Debug, Clone, Copy, PartialEq, Eq)]
pub enum FaceError<E> {
    /// The underlying port failed.
    Port(E),
    /// A demux queue had no room (not with a cooperative poller).
    Full,
}

/// The calls an intake that took in the bytes `read` made on the port:
/// one read for each byte, then the read that ended it, unless a full
/// queue stopped it first: `Some(false)` when the port had nothing more,
/// `Some(true)` when it failed.
pub open spec fn intake_calls(read: Seq<u8>, ended: Option<bool>) -> Seq<LinkCall> {
    read.map_values(|b: u8| LinkCall::Read { got: Some(b), failed: false }) + match ended {
        None => Seq::empty(),
        Some(failed) => seq![LinkCall::Read { got: None, failed }],
    }
}

/// How an intake that returned `r` ended, as [`intake_calls`] counts it.
pub open spec fn intake_end<E, A>(r: Result<A, FaceError<E>>) -> Option<bool> {
    match r {
        Ok(_) => Some(false),
        Err(FaceError::Port(_)) => Some(true),
        Err(FaceError::Full) => None,
    }
}

/// A physical port and the demultiplexer of its incoming frames.
pub struct FaceCore<T: ByteTransport> {
    port: T,
    demux: Demux,
    sent: Ghost<Seq<u8>>,
}

impl<T: ByteTransport> FaceCore<T> {
    /// The port.
    pub closed spec fn spec_port(&self) -> T {
        self.port
    }

    /// The demultiplexer's content.
    pub closed spec fn queues(&self) -> DemuxView {
        self.demux@
    }

    /// Every byte either end has handed to the port's `write_byte`, in
    /// order.
    pub closed spec fn sent(&self) -> Seq<u8> {
        self.sent@
    }

    /// Internal consistency.
    pub closed spec fn wf(&self) -> bool {
        self.demux.wf()
    }

    /// Wraps a physical port, with nothing queued.
    pub fn new(port: T) -> (f: Self)
        ensures
            f.wf(),
            f.spec_port() == port,
            f.sent() == Seq::<u8>::empty(),
            f.queues() == (DemuxView {
                partial: Seq::empty(),
                control: Seq::empty(),
                payload: Seq::empty(),
            }),
    {
        FaceCore { port, demux: Demux::new(), sent: Ghost(Seq::empty()) }
    }

    /// The wrapped port.
    pub fn port(&self) -> (p: &T)
        ensures
            *p == self.spec_port(),
    {
        &self.port
    }

    /// The wrapped port, mutably (to reconfigure it, say).
    pub fn port_mut(&mut self) -> (p: &mut T)
        ensures
            *p == old(self).spec_port(),
            final(self).spec_port() == *final(p),
            final(self).queues() == old(self).queues(),
            final(self).sent() == old(self).sent(),
            final(self).wf() == old(self).wf(),
    {
        &mut self.port
    }

    /// Reads the port until it has nothing more, routing every byte read;
    /// stops early when the port fails or a queue is full.
    pub fn ingest(&mut self) -> (r: Result<(), FaceError<T::Error>>)
        requires
            old(self).wf(),
        ensures
            final(self).wf(),
            final(self).sent() == old(self).sent(),
            exists|read: Seq<u8>|
                {
                    let (d, ok) = #[trigger] spec_route_all(old(self).queues(), read);
                    &&& final(self).queues() == d
                    &&& (r is Err && r->Err_0 is Full) <==> !ok
                    &&& (T::keeps_calls() ==> final(self).spec_port().calls() == old(self).spec_port().calls()
                        + intake_calls(read, intake_end(r)))
                },
    {
        let ghost d0 = self.demux@;
        let ghost mut read: Seq<u8> = Seq::empty();
        assert((T::keeps_calls() ==> old(self).port.calls() + intake_calls(read, None) =~= old(self).port.calls()));
        loop
            invariant
                self.wf(),
                spec_route_all(d0, read) == (self.demux@, true),
                d0 == old(self).queues(),
                self.sent@ == old(self).sent@,
                (T::keeps_calls() ==> self.port.calls() == old(self).port.calls() + intake_calls(read, None)),
            decreases room_measure(self.demux@),
        {
            proof {
                self.demux.lemma_bounds();
            }
            let ghost c0 = self.port.calls();
            let got = self.port.read_byte();
            proof {
                assert(intake_calls(read, Some(false)) =~= intake_calls(read, None).push(
                    LinkCall::Read { got: None, failed: false },
                ));
                assert(intake_calls(read, Some(true)) =~= intake_calls(read, None).push(
                    LinkCall::Read { got: None, failed: true },
                ));
            }
            match got {
                Ok(None) => {
                    return Ok(());
                },
                Ok(Some(byte)) => {
                    proof {
                        lemma_route_all_push(d0, read, byte);
                        assert(intake_calls(read.push(byte), None) =~= intake_calls(read, None).push(
                            LinkCall::Read { got: Some(byte), failed: false },
                        ));
                    }
                    let ghost before = self.demux@;
                    let ok = self.demux.route(byte);
                    proof {
                        read = read.push(byte);
                    }
                    if !ok {
                        return Err(FaceError::Full);
                    }
                    proof {
                        lemma_route_progress(before, byte);
                    }
                },
                Err(e) => {
                    return Err(FaceError::Port(e));
                },
            }
        }
    }

    /// The sender's read: takes in what the port has, then hands out the
    /// next queued ACK or NACK byte.
    pub fn read_control(&mut self) -> (r: Result<Option<u8>, FaceError<T::Error>>)
        requires
            old(self).wf(),
        ensures
            final(self).wf(),
            final(self).sent() == old(self).sent(),
            exists|read: Seq<u8>|
                {
                    let (d, ok) = #[trigger] spec_route_all(old(self).queues(), read);
                    &&& if !ok {
                        r == Err::<Option<u8>, FaceError<T::Error>>(FaceError::Full)
                            && final(self).queues() == d
                    } else if r is Err {
                        r->Err_0 is Port && final(self).queues() == d
                    } else if d.control.len() == 0 {
                        r == Ok::<Option<u8>, FaceError<T::Error>>(None) && final(self).queues()
                            == d
                    } else {
                        r == Ok::<Option<u8>, FaceError<T::Error>>(Some(d.control[0]))
                            && final(self).queues() == (DemuxView {
                            control: d.control.drop_first(),
                            ..d
                        })
                    }
                    &&& (T::keeps_calls() ==> final(self).spec_port().calls() == old(self).spec_port().calls()
                        + intake_calls(read, intake_end(r)))
                },
    {
        match self.ingest() {
            Ok(()) => {},
            Err(e) => return Err(e),
        }
        Ok(self.demux.pop_control())
    }

    /// The receiver's read: takes in what the port has, then hands out the
    /// next queued byte of any other frame.
    pub fn read_payload(&mut self) -> (r: Result<Option<u8>, FaceError<T::Error>>)
        requires
            old(self).wf(),
        ensures
            final(self).wf(),
            final(self).sent() == old(self).sent(),
            exists|read: Seq<u8>|
                {
                    let (d, ok) = #[trigger] spec_route_all(old(self).queues(), read);
                    &&& if !ok {
                        r == Err::<Option<u8>, FaceError<T::Error>>(FaceError::Full)
                            && final(self).queues() == d
                    } else if r is Err {
                        r->Err_0 is Port && final(self).queues() == d
                    } else if d.payload.len() == 0 {
                        r == Ok::<Option<u8>, FaceError<T::Error>>(None) && final(self).queues()
                            == d
                    } else {
                        r == Ok::<Option<u8>, FaceError<T::Error>>(Some(d.payload[0]))
                            && final(self).queues() == (DemuxView {
                            payload: d.payload.drop_first(),
                            ..d
                        })
                    }
                    &&& (T::keeps_calls() ==> final(self).spec_port().calls() == old(self).spec_port().calls()
                        + intake_calls(read, intake_end(r)))
                },
    {
        match self.ingest() {
            Ok(()) => {},
            Err(e) => return Err(e),
        }
        Ok(self.demux.pop_payload())
    }

    /// Either end's write: the byte goes straight to the port.
    pub fn write_byte(&mut self, byte: u8) -> (r: Result<(), FaceError<T::Error>>)
        ensures
            final(self).wf() == old(self).wf(),
            final(self).queues() == old(self).queues(),
            final(self).sent() == old(self).sent().push(byte),
            r is Err ==> r->Err_0 is Port,
            (T::keeps_calls() ==> final(self).spec_port().calls() == old(self).spec_port().calls().push(
                LinkCall::Write { byte, accepted: r is Ok },
            )),
    {
        self.sent = Ghost(self.sent@.push(byte));
        match self.port.write_byte(byte) {
            Ok(()) => Ok(()),
            Err(e) => Err(FaceError::Port(e)),
        }
    }
}

} // verus!
