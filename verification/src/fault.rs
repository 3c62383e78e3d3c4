//! Fault injection: a heapless wrapper that deliberately damages the wire.
//!
//! Not a production transport. It exists so that the protocol can be shown
//! to survive loss, corruption and delay before it meets real hardware.

use vstd::prelude::*;
use crate::transport::{read_call, write_call, ByteTransport, LinkCall};

verus! {

/// When to drop or corrupt bytes or frames. A period of 0 means never.
#[derive(Debug, Clone, Copy, PartialEq, Eq, Structural)]
pub struct FaultPolicy {
    /// Drop the first `n` units (frames, or bytes without frame
    /// granularity), then stop dropping for this reason.
    pub drop_first: u32,
    /// Drop every `n`th unit (counted from 1).
    pub drop_every: u32,
    /// Corrupt the first `n` units.
    pub corrupt_first: u32,
    /// Corrupt every `n`th unit (the CRC byte of a frame is flipped; a
    /// lone byte has its low bit flipped).
    pub corrupt_every: u32,
    /// Count in units of four-byte frames.
    pub frame_granularity: bool,
}

/// `count` is a positive multiple of a nonzero period `every`.
pub open spec fn spec_hits(count: u32, every: u32) -> bool {
    every != 0 && count != 0 && count % every == 0
}

/// The unit numbered `count` is dropped under `p`.
pub open spec fn spec_should_drop(p: FaultPolicy, count: u32) -> bool {
    (p.drop_first != 0 && count <= p.drop_first) || spec_hits(count, p.drop_every)
}

/// The unit numbered `count` is corrupted under `p`.
pub open spec fn spec_should_corrupt(p: FaultPolicy, count: u32) -> bool {
    (p.corrupt_first != 0 && count <= p.corrupt_first) || spec_hits(count, p.corrupt_every)
}

/// The next unit count: one more, saturating.
pub open spec fn bump(n: u32) -> u32 {
    if n == u32::MAX {
        n
    } else {
        (n + 1) as u32
    }
}

/// What happens to a complete frame numbered `count`: dropped (`None`),
/// or passed with its CRC byte flipped when corrupted.
pub open spec fn spec_fault_frame(p: FaultPolicy, count: u32, frame: Seq<u8>) -> Option<Seq<u8>> {
    if spec_should_drop(p, count) {
        None
    } else if spec_should_corrupt(p, count) {
        Some(frame.update(3, frame[3] ^ 0xff))
    } else {
        Some(frame)
    }
}

impl FaultPolicy {
    /// A policy with only these fields set.
    pub open spec fn spec_with(drop_first: u32, drop_every: u32, corrupt_first: u32, corrupt_every: u32) -> FaultPolicy {
        FaultPolicy { drop_first, drop_every, corrupt_first, corrupt_every, frame_granularity: true }
    }

    /// A clean wire.
    pub fn none() -> (p: FaultPolicy)
        ensures
            p == FaultPolicy::spec_with(0, 0, 0, 0),
    {
        FaultPolicy {
            drop_first: 0,
            drop_every: 0,
            corrupt_first: 0,
            corrupt_every: 0,
            frame_granularity: true,
        }
    }

    /// Drop the first `n` frames, then pass everything.
    pub fn drop_first(n: u32) -> (p: FaultPolicy)
        ensures
            p == FaultPolicy::spec_with(n, 0, 0, 0),
    {
        FaultPolicy {
            drop_first: n,
            drop_every: 0,
            corrupt_first: 0,
            corrupt_every: 0,
            frame_granularity: true,
        }
    }

    /// Drop every `n`th frame (2: drop frames 2, 4, 6, ...).
    pub fn drop_every(n: u32) -> (p: FaultPolicy)
        ensures
            p == FaultPolicy::spec_with(0, n, 0, 0),
    {
        FaultPolicy {
            drop_first: 0,
            drop_every: n,
            corrupt_first: 0,
            corrupt_every: 0,
            frame_granularity: true,
        }
    }

    /// Break the CRC of the first `n` frames, then pass clean frames.
    pub fn corrupt_first(n: u32) -> (p: FaultPolicy)
        ensures
            p == FaultPolicy::spec_with(0, 0, n, 0),
    {
        FaultPolicy {
            drop_first: 0,
            drop_every: 0,
            corrupt_first: n,
            corrupt_every: 0,
            frame_granularity: true,
        }
    }

    /// Break the CRC of every `n`th frame.
    pub fn corrupt_every(n: u32) -> (p: FaultPolicy)
        ensures
            p == FaultPolicy::spec_with(0, 0, 0, n),
    {
        FaultPolicy {
            drop_first: 0,
            drop_every: 0,
            corrupt_first: 0,
            corrupt_every: n,
            frame_granularity: true,
        }
    }

    fn hits(count: u32, every: u32) -> (b: bool)
        ensures
            b == spec_hits(count, every),
    {
        every != 0 && count != 0 && count % every == 0
    }

    fn should_drop(self, count: u32) -> (b: bool)
        ensures
            b == spec_should_drop(self, count),
    {
        (self.drop_first != 0 && count <= self.drop_first) || Self::hits(count, self.drop_every)
    }

    fn should_corrupt(self, count: u32) -> (b: bool)
        ensures
            b == spec_should_corrupt(self, count),
    {
        (self.corrupt_first != 0 && count <= self.corrupt_first) || Self::hits(
            count,
            self.corrupt_every,
        )
    }
}

impl Default for FaultPolicy {
    fn default() -> (p: FaultPolicy)
        ensures
            p == FaultPolicy::spec_with(0, 0, 0, 0),
    {
        Self::none()
    }
}

/// The state of a [`FaultyTransport`] apart from the wrapped transport.
pub struct FaultView {
    /// Applied to outgoing bytes.
    pub write_policy: FaultPolicy,
    /// Applied to incoming bytes.
    pub read_policy: FaultPolicy,
    /// Write units counted so far.
    pub writes: u32,
    /// Read bytes counted so far.
    pub reads: u32,
    /// Bytes of the frame being collected.
    pub pending: Seq<u8>,
    /// Reads to answer `Ok(None)` before passing the stream.
    pub hold_reads: u32,
    /// Reads answered `Ok(None)` so far for that reason.
    pub held: u32,
    /// Every byte handed to the wrapped transport's `write_byte`, in order.
    pub sent: Seq<u8>,
}

/// What one `read_byte` does, given what the wrapped transport answered
/// (`None` when it was not asked).
pub open spec fn spec_read_step<E>(v: FaultView, inner: Option<Result<Option<u8>, E>>) -> (
    FaultView,
    Result<Option<u8>, E>,
) {
    if v.held < v.hold_reads {
        (FaultView { held: bump(v.held), ..v }, Ok(None))
    } else {
        match inner {
            Some(Ok(Some(b))) => {
                let n = bump(v.reads);
                let v2 = FaultView { reads: n, ..v };
                if spec_should_drop(v.read_policy, n) {
                    (v2, Ok(None))
                } else if spec_should_corrupt(v.read_policy, n) {
                    (v2, Ok(Some(b ^ 1u8)))
                } else {
                    (v2, Ok(Some(b)))
                }
            },
            Some(Ok(None)) => (v, Ok(None)),
            Some(Err(e)) => (v, Err(e)),
            None => (v, Ok(None)),
        }
    }
}

/// Wraps a [`ByteTransport`] and applies a [`FaultPolicy`] on write and on
/// read. Write faults are frame-buffered (four bytes), so that a lost DATA
/// is a lost frame, not a torn one, unless frame granularity is off.
pub struct FaultyTransport<T> {
    inner: T,
    write_policy: FaultPolicy,
    read_policy: FaultPolicy,
    writes: u32,
    reads: u32,
    write_buf: [u8; 4],
    write_fill: usize,
    hold_reads: u32,
    held: u32,
    sent: Ghost<Seq<u8>>,
    log: Ghost<Seq<LinkCall>>,
}

impl<T> View for FaultyTransport<T> {
    type V = FaultView;

    closed spec fn view(&self) -> FaultView {
        FaultView {
            write_policy: self.write_policy,
            read_policy: self.read_policy,
            writes: self.writes,
            reads: self.reads,
            pending: self.write_buf@.take(self.write_fill as int),
            hold_reads: self.hold_reads,
            held: self.held,
            sent: self.sent@,
        }
    }
}

impl<T> FaultyTransport<T> {
    /// The buffered frame never holds four bytes between calls.
    pub closed spec fn wf(&self) -> bool {
        self.write_fill < 4
    }

    /// The wrapped transport.
    pub closed spec fn spec_inner(&self) -> T {
        self.inner
    }

    /// Applies `write_policy` to outgoing bytes and `read_policy` to
    /// incoming ones.
    pub fn new(inner: T, write_policy: FaultPolicy, read_policy: FaultPolicy) -> (f: Self)
        ensures
            f.wf(),
            f.spec_inner() == inner,
            f@ == (FaultView {
                write_policy,
                read_policy,
                writes: 0,
                reads: 0,
                pending: Seq::empty(),
                hold_reads: 0,
                held: 0,
                sent: Seq::empty(),
            }),
    {
        let f = FaultyTransport {
            inner,
            write_policy,
            read_policy,
            writes: 0,
            reads: 0,
            write_buf: [0; 4],
            write_fill: 0,
            hold_reads: 0,
            held: 0,
            sent: Ghost(Seq::empty()),
            log: Ghost(Seq::empty()),
        };
        assert(f@.pending =~= Seq::<u8>::empty());
        f
    }

    /// Delays the first `n` reads (`Ok(None)`), then passes the stream.
    pub fn with_read_hold(self, n: u32) -> (f: Self)
        ensures
            f.wf() == self.wf(),
            f.spec_inner() == self.spec_inner(),
            f@ == (FaultView { hold_reads: n, ..self@ }),
    {
        let mut s = self;
        s.hold_reads = n;
        s
    }

    /// Faults only on writes (DATA from a sender, ACK from a receiver).
    pub fn on_write(inner: T, write_policy: FaultPolicy) -> (f: Self)
        ensures
            f.wf(),
            f.spec_inner() == inner,
            f@ == (FaultView {
                write_policy,
                read_policy: FaultPolicy::spec_with(0, 0, 0, 0),
                writes: 0,
                reads: 0,
                pending: Seq::empty(),
                hold_reads: 0,
                held: 0,
                sent: Seq::empty(),
            }),
    {
        Self::new(inner, write_policy, FaultPolicy::none())
    }

    /// The wrapped transport.
    pub fn inner(&self) -> (t: &T)
        ensures
            *t == self.spec_inner(),
    {
        &self.inner
    }

    /// The wrapped transport, mutably.
    pub fn inner_mut(&mut self) -> (t: &mut T)
        ensures
            *t == old(self).spec_inner(),
            final(self).spec_inner() == *final(t),
            final(self)@ == old(self)@,
            final(self).wf() == old(self).wf(),
    {
        &mut self.inner
    }

    /// How many write units (frames or bytes) have been counted.
    pub fn writes(&self) -> (n: u32)
        ensures
            n == self@.writes,
    {
        self.writes
    }
}

/// The write calls that handing `bytes` over one by one makes, each
/// accepted but the last, which is accepted when the hand-over ended `r`.
pub open spec fn forwarded_calls<E>(bytes: Seq<u8>, r: Result<(), E>) -> Seq<LinkCall> {
    Seq::new(
        bytes.len(),
        |i: int| LinkCall::Write { byte: bytes[i], accepted: i + 1 < bytes.len() || r is Ok },
    )
}

impl<T: ByteTransport> FaultyTransport<T> {
    /// Hands a whole frame to the wrapped transport, stopping at the first
    /// error; reports how many bytes were handed over.
    fn forward(inner: &mut T, frame: [u8; 4]) -> (r: (Result<(), T::Error>, Ghost<nat>))
        ensures
            1 <= r.1@ <= 4,
            r.0 is Ok ==> r.1@ == 4,
            (T::keeps_calls() ==> final(inner).calls() == old(inner).calls() + forwarded_calls(
                frame@.take(r.1@ as int),
                r.0,
            )),
    {
        let mut i: usize = 0;
        while i < 4
            invariant
                i <= 4,
                (T::keeps_calls() ==> inner.calls() == old(inner).calls() + forwarded_calls(
                    frame@.take(i as int),
                    Ok::<(), T::Error>(()),
                )),
            decreases 4 - i,
        {
            let ghost before = inner.calls();
            let w = inner.write_byte(frame[i]);
            proof {
                assert(frame@.take(i + 1) =~= frame@.take(i as int).push(frame@[i as int]));
                assert(forwarded_calls(frame@.take(i + 1), w) =~= forwarded_calls(
                    frame@.take(i as int),
                    Ok::<(), T::Error>(()),
                ).push(write_call(frame@[i as int], w)));
                assert((T::keeps_calls() ==> inner.calls() =~= old(inner).calls() + forwarded_calls(
                    frame@.take(i + 1),
                    w,
                )));
                if w is Ok {
                    assert(forwarded_calls(frame@.take(i + 1), w) =~= forwarded_calls(
                        frame@.take(i + 1),
                        Ok::<(), T::Error>(()),
                    ));
                }
            }
            match w {
                Ok(()) => {},
                Err(e) => return (Err(e), Ghost((i + 1) as nat)),
            }
            i = i + 1;
        }
        (Ok(()), Ghost(4))
    }

    /// [`ByteTransport::write_byte`] apart from the record of calls.
    ///
    /// Without frame granularity, each byte is counted and dropped,
    /// flipped or passed on its own. With it, bytes are collected until a
    /// frame is complete; the frame is then counted and dropped whole, or
    /// passed with its CRC byte flipped when corrupted, or passed as is.
    fn write_through(&mut self, byte: u8) -> (r: Result<(), T::Error>)
        ensures
            final(self).log@ == old(self).log@,
            (T::keeps_calls() ==> final(self).spec_inner().calls() == old(self).spec_inner().calls()
                + forwarded_calls(final(self)@.sent.skip(old(self)@.sent.len() as int), r)),
            old(self).wf() ==> final(self).wf(),
            !old(self)@.write_policy.frame_granularity ==> {
                let n = bump(old(self)@.writes);
                &&& final(self)@ == (FaultView { writes: n, sent: final(self)@.sent, ..old(self)@ })
                &&& spec_should_drop(old(self)@.write_policy, n) ==> r is Ok
                    && final(self).spec_inner() == old(self).spec_inner() && final(self)@.sent
                    == old(self)@.sent
                &&& !spec_should_drop(old(self)@.write_policy, n) ==> final(self)@.sent == old(
                    self,
                )@.sent.push(
                    if spec_should_corrupt(old(self)@.write_policy, n) {
                        byte ^ 1u8
                    } else {
                        byte
                    },
                )
            },
            old(self).wf() && old(self)@.write_policy.frame_granularity && old(self)@.pending.len()
                < 3 ==> r is Ok
                && final(self)@ == (FaultView {
                pending: old(self)@.pending.push(byte),
                ..old(self)@
            }) && final(self).spec_inner() == old(self).spec_inner(),
            old(self).wf() && old(self)@.write_policy.frame_granularity && old(self)@.pending.len()
                == 3 ==> {
                let n = bump(old(self)@.writes);
                &&& final(self)@ == (FaultView {
                    writes: n,
                    pending: Seq::empty(),
                    sent: final(self)@.sent,
                    ..old(self)@
                })
                &&& (match spec_fault_frame(
                    old(self)@.write_policy,
                    n,
                    old(self)@.pending.push(byte),
                ) {
                    None => r is Ok && final(self).spec_inner() == old(self).spec_inner()
                        && final(self)@.sent == old(self)@.sent,
                    Some(f) => (r is Ok ==> final(self)@.sent == old(self)@.sent + f) && (r is Err
                        ==> old(self)@.sent.len() < final(self)@.sent.len() <= old(self)@.sent.len()
                        + 4 && final(self)@.sent == old(self)@.sent + f.take(
                        final(self)@.sent.len() - old(self)@.sent.len(),
                    )),
                })
            },
    {
        if !self.write_policy.frame_granularity {
            self.writes = self.writes.saturating_add(1);
            if self.write_policy.should_drop(self.writes) {
                return Ok(());
            }
            let out = if self.write_policy.should_corrupt(self.writes) {
                byte ^ 0x01
            } else {
                byte
            };
            self.sent = Ghost(self.sent@.push(out));
            return self.inner.write_byte(out);
        }
        if self.write_fill < 3 {
            self.write_buf[self.write_fill] = byte;
            self.write_fill = self.write_fill + 1;
            assert(self@.pending =~= old(self)@.pending.push(byte));
            return Ok(());
        }
        assert(old(self).wf() ==> self.write_fill == 3);
        let mut frame = self.write_buf;
        frame[3] = byte;
        assert(old(self).wf() ==> frame@ =~= old(self)@.pending.push(byte));
        self.write_fill = 0;
        assert(self@.pending =~= Seq::<u8>::empty());
        self.writes = self.writes.saturating_add(1);
        if self.write_policy.should_drop(self.writes) {
            return Ok(());
        }
        let ghost whole = frame@;
        if self.write_policy.should_corrupt(self.writes) {
            frame[3] = frame[3] ^ 0xFF;
            assert(frame@ =~= whole.update(3, whole[3] ^ 0xff));
        }
        assert(old(self).wf() ==> spec_fault_frame(
            old(self)@.write_policy,
            self.writes,
            old(self)@.pending.push(byte),
        ) == Some(frame@));
        let (r, Ghost(k)) = Self::forward(&mut self.inner, frame);
        let ghost s0 = self.sent@;
        self.sent = Ghost(s0 + frame@.take(k as int));
        proof {
            if k == 4 {
                assert(frame@.take(4) =~= frame@);
            }
        }
        r
    }


    /// Holds the first reads, then passes the wrapped stream with the read
    /// policy applied byte by byte.
    fn read_through(&mut self) -> (r: Result<Option<u8>, T::Error>)
        ensures
            final(self).log@ == old(self).log@,
            final(self).wf() == old(self).wf(),
            exists|inner: Option<Result<Option<u8>, T::Error>>|
                (old(self)@.held < old(self)@.hold_reads <==> inner is None) && #[trigger] spec_read_step(
                    old(self)@,
                    inner,
                ) == (final(self)@, r) && (T::keeps_calls() ==> final(self).spec_inner().calls() == old(
                    self,
                ).spec_inner().calls() + match inner {
                    Some(a) => seq![read_call(a)],
                    None => Seq::empty(),
                }),
    {
        if self.held < self.hold_reads {
            self.held = self.held.saturating_add(1);
            assert(spec_read_step::<T::Error>(old(self)@, None) == (self@, Ok::<Option<u8>, T::Error>(None)));
            return Ok(None);
        }
        let got = self.inner.read_byte();
        let ghost answer = Some(got);
        let byte = match got {
            Err(e) => {
                assert(spec_read_step(old(self)@, answer) == (self@, Err::<Option<u8>, T::Error>(e)));
                return Err(e);
            },
            Ok(None) => {
                assert(spec_read_step(old(self)@, answer) == (self@, Ok::<Option<u8>, T::Error>(None)));
                return Ok(None);
            },
            Ok(Some(b)) => b,
        };
        self.reads = self.reads.saturating_add(1);
        if self.read_policy.should_drop(self.reads) {
            assert(spec_read_step(old(self)@, answer) == (self@, Ok::<Option<u8>, T::Error>(None)));
            return Ok(None);
        }
        if self.read_policy.should_corrupt(self.reads) {
            assert(spec_read_step(old(self)@, answer) == (self@, Ok::<Option<u8>, T::Error>(Some(byte ^ 0x01))));
            return Ok(Some(byte ^ 0x01));
        }
        assert(spec_read_step(old(self)@, answer) == (self@, Ok::<Option<u8>, T::Error>(Some(byte))));
        Ok(Some(byte))
    }
}

impl<T: ByteTransport> ByteTransport for FaultyTransport<T> {
    type Error = T::Error;

    open spec fn keeps_calls() -> bool {
        true
    }

    closed spec fn calls(&self) -> Seq<LinkCall> {
        self.log@
    }

    /// Without frame granularity, each byte is counted and dropped,
    /// flipped or passed on its own. With it, bytes are collected until a
    /// frame is complete; the frame is then counted and dropped whole, or
    /// passed with its CRC byte flipped when corrupted, or passed as is.
    fn write_byte(&mut self, byte: u8) -> (r: Result<(), T::Error>)
        ensures
            old(self).wf() ==> final(self).wf(),
            !old(self)@.write_policy.frame_granularity ==> {
                let n = bump(old(self)@.writes);
                &&& final(self)@ == (FaultView { writes: n, sent: final(self)@.sent, ..old(self)@ })
                &&& spec_should_drop(old(self)@.write_policy, n) ==> r is Ok
                    && final(self).spec_inner() == old(self).spec_inner() && final(self)@.sent
                    == old(self)@.sent
                &&& !spec_should_drop(old(self)@.write_policy, n) ==> final(self)@.sent == old(
                    self,
                )@.sent.push(
                    if spec_should_corrupt(old(self)@.write_policy, n) {
                        byte ^ 1u8
                    } else {
                        byte
                    },
                )
            },
            old(self).wf() && old(self)@.write_policy.frame_granularity && old(self)@.pending.len()
                < 3 ==> r is Ok
                && final(self)@ == (FaultView {
                pending: old(self)@.pending.push(byte),
                ..old(self)@
            }) && final(self).spec_inner() == old(self).spec_inner(),
            old(self).wf() && old(self)@.write_policy.frame_granularity && old(self)@.pending.len()
                == 3 ==> {
                let n = bump(old(self)@.writes);
                &&& final(self)@ == (FaultView {
                    writes: n,
                    pending: Seq::empty(),
                    sent: final(self)@.sent,
                    ..old(self)@
                })
                &&& (match spec_fault_frame(
                    old(self)@.write_policy,
                    n,
                    old(self)@.pending.push(byte),
                ) {
                    None => r is Ok && final(self).spec_inner() == old(self).spec_inner()
                        && final(self)@.sent == old(self)@.sent,
                    Some(f) => (r is Ok ==> final(self)@.sent == old(self)@.sent + f) && (r is Err
                        ==> old(self)@.sent.len() < final(self)@.sent.len() <= old(self)@.sent.len()
                        + 4 && final(self)@.sent == old(self)@.sent + f.take(
                        final(self)@.sent.len() - old(self)@.sent.len(),
                    )),
                })
            },
            (T::keeps_calls() ==> final(self).spec_inner().calls() == old(self).spec_inner().calls()
                + forwarded_calls(final(self)@.sent.skip(old(self)@.sent.len() as int), r)),
    {
        let r = self.write_through(byte);
        self.log = Ghost(self.log@.push(write_call(byte, r)));
        r
    }

    /// Holds the first reads, then passes the wrapped stream with the read
    /// policy applied byte by byte.
    fn read_byte(&mut self) -> (r: Result<Option<u8>, T::Error>)
        ensures
            final(self).wf() == old(self).wf(),
            exists|inner: Option<Result<Option<u8>, T::Error>>|
                (old(self)@.held < old(self)@.hold_reads <==> inner is None) && #[trigger] spec_read_step(
                    old(self)@,
                    inner,
                ) == (final(self)@, r) && (T::keeps_calls() ==> final(self).spec_inner().calls() == old(
                    self,
                ).spec_inner().calls() + match inner {
                    Some(a) => seq![read_call(a)],
                    None => Seq::empty(),
                }),
    {
        let r = self.read_through();
        self.log = Ghost(self.log@.push(read_call(r)));
        r
    }
}

} // verus!
