//! [`RxActor`]: one receiver as a cooperative actor.
//!
//! `Receiver::poll` already consumes at most one byte and returns at once
//! when the link is quiet; that is exactly [`Actor::tick`], so this type is
//! a thin wrapper: it buffers nothing, spins on nothing, and leaves the
//! protocol as it is.

use vstd::prelude::*;
use super::actor::{Actor, Tick};
use crate::error::Error;
use crate::rx::{rx_io_fits, rx_link_calls, rx_step, PollOutcome, Receiver, RxIo, RxModel};
use crate::transport::ByteTransport;

verus! {

/// The tick a receiver outcome counts as: a delivered byte is ready
/// output, the end of the session (FINISH or ABORT) is done, and every
/// other wire event is no visible progress.
pub open spec fn tick_of(o: PollOutcome) -> Tick<u8> {
    match o {
        PollOutcome::Delivered(b) => Tick::Ready(b),
        PollOutcome::TransferFinished | PollOutcome::Aborted => Tick::Done,
        _ => Tick::Pending,
    }
}

/// A receiver result taken as an actor result.
pub open spec fn tick_result<E>(r: Result<PollOutcome, Error<E>>) -> Result<Tick<u8>, Error<E>> {
    match r {
        Ok(o) => Ok(tick_of(o)),
        Err(e) => Err(e),
    }
}

/// A [`Receiver`] driven one byte at a time by [`Actor::tick`].
pub struct RxActor<T: ByteTransport> {
    receiver: Receiver<T>,
}

impl<T: ByteTransport> RxActor<T> {
    /// The wrapped receiver's state.
    pub closed spec fn model(&self) -> RxModel {
        self.receiver.model()
    }

    /// The wrapped receiver's transport.
    pub closed spec fn link(&self) -> T {
        self.receiver.link()
    }

    /// Wraps a fresh receiver over `transport`.
    pub fn new(transport: T) -> (a: Self)
        ensures
            a.ready(),
            a.link() == transport,
            a.model() == (RxModel {
                expected: 0,
                state: crate::rx::RxState::Idle,
                reply: Seq::empty(),
                out: Seq::empty(),
                pending: None,
                finish: None,
                aborted: false,
            }),
    {
        RxActor { receiver: Receiver::new(transport) }
    }

    /// Wraps an already-constructed receiver.
    pub fn from_receiver(receiver: Receiver<T>) -> (a: Self)
        ensures
            a.ready() == receiver.wf(),
            a.model() == receiver.model(),
            a.link() == receiver.link(),
    {
        RxActor { receiver }
    }

    /// The inner receiver.
    pub fn receiver(&self) -> (r: &Receiver<T>)
        ensures
            r.model() == self.model(),
            r.link() == self.link(),
            r.wf() == self.ready(),
    {
        &self.receiver
    }

    /// The inner receiver, mutably.
    pub fn receiver_mut(&mut self) -> (r: &mut Receiver<T>)
        ensures
            r.model() == old(self).model(),
            r.link() == old(self).link(),
            r.wf() == old(self).ready(),
            final(self).model() == final(r).model(),
            final(self).link() == final(r).link(),
            final(self).ready() == final(r).wf(),
    {
        &mut self.receiver
    }

    /// Unwraps the receiver.
    pub fn into_receiver(self) -> (r: Receiver<T>)
        ensures
            r.model() == self.model(),
            r.link() == self.link(),
            r.wf() == self.ready(),
    {
        self.receiver
    }
}

impl<T: ByteTransport> Actor for RxActor<T> {
    type Error = Error<T::Error>;
    type Output = u8;

    closed spec fn ready(&self) -> bool {
        self.receiver.wf()
    }

    /// One receiver poll, reported as a tick: the poll's step, with the
    /// calls it made on the transport.
    open spec fn stepped(&self, after: Self, r: Result<Tick<u8>, Error<T::Error>>) -> bool {
        exists|io: RxIo<T::Error>|
            rx_io_fits(self.model(), io) && {
                let (m, pr) = #[trigger] rx_step(self.model(), io);
                &&& after.model() == m
                &&& r == tick_result(pr)
                &&& (T::keeps_calls() ==> after.link().calls() == self.link().calls() + rx_link_calls(io))
            }
    }

    /// Polls the receiver once and reports its outcome as a tick.
    fn tick(&mut self) -> (r: Result<Tick<u8>, Error<T::Error>>)
        ensures
            exists|io: RxIo<T::Error>|
                rx_io_fits(old(self).model(), io) && {
                    let (m, pr) = #[trigger] rx_step(old(self).model(), io);
                    final(self).model() == m && r == tick_result(pr)
                },
    {
        let o = match self.receiver.poll() {
            Ok(o) => o,
            Err(e) => return Err(e),
        };
        Ok(
            match o {
                PollOutcome::Delivered(byte) => Tick::Ready(byte),
                PollOutcome::TransferFinished | PollOutcome::Aborted => Tick::Done,
                PollOutcome::Pending | PollOutcome::DuplicateIgnored | PollOutcome::Rejected
                | PollOutcome::CrcRejected | PollOutcome::Started => Tick::Pending,
            },
        )
    }
}

} // verus!
