//! The decisions of a stop-and-wait copy of a byte stream across a wire,
//! apart from the two pumps that carry it.
//!
//! Each round the caller: reads the source when [`CopyState::wants_byte`],
//! offers what [`CopyState::next_offer`] names when the sending pump is
//! idle, polls the sending pump, polls the receiving pump, writes a
//! received byte to the sink, and ends the round. The copy succeeds when
//! the receiving pump reports the transfer completed, and gives up as
//! stalled after [`COPY_ROUNDS`] rounds.

use vstd::prelude::*;
use crate::error::Error;
use super::duplex::WireCopyError;
use super::link::PumpEvent;

verus! {

/// Rounds a copy may take before it gives up as stalled.
pub const COPY_ROUNDS: u32 = 1_000_000;

/// What the sending pump is asked to offer.
#[derive(Debug, Clone, Copy, PartialEq, Eq, Structural)]
pub enum CopyOffer {
    /// The next byte of the source.
    Byte(u8),
    /// FINISH, once the source is exhausted.
    Finish,
}

/// What the caller does after the receiving pump's poll.
#[derive(Debug, Clone, Copy, PartialEq, Eq, Structural)]
pub enum CopyStep {
    /// Go on with the round.
    Continue,
    /// Write this byte to the sink, then report with [`CopyState::on_sink`].
    Deliver(u8),
    /// The copy is complete: this many bytes reached the sink.
    Done(usize),
    /// The copy failed.
    Failed(WireCopyError),
}

/// The state of a copy.
pub struct CopyView {
    /// A source byte read and not yet offered.
    pub hold: Option<u8>,
    /// The source has no more bytes.
    pub exhausted: bool,
    /// FINISH was accepted by the sending pump.
    pub finish_offered: bool,
    /// Bytes written to the sink (saturating).
    pub n: usize,
    /// Rounds ended so far.
    pub rounds: u32,
}

/// The bookkeeping of one copy.
#[derive(Debug, Clone, Copy, PartialEq, Eq, Structural)]
pub struct CopyState {
    hold: Option<u8>,
    exhausted: bool,
    finish_offered: bool,
    n: usize,
    rounds: u32,
}

impl View for CopyState {
    type V = CopyView;

    closed spec fn view(&self) -> CopyView {
        CopyView {
            hold: self.hold,
            exhausted: self.exhausted,
            finish_offered: self.finish_offered,
            n: self.n,
            rounds: self.rounds,
        }
    }
}

/// The offer a copy wants when the sending pump is idle: the held byte
/// first, then FINISH once the source is exhausted; nothing while the pump
/// is busy.
pub open spec fn spec_copy_offer(c: CopyView, sender_idle: bool) -> Option<CopyOffer> {
    if !sender_idle {
        None
    } else if c.hold is Some {
        Some(CopyOffer::Byte(c.hold->0))
    } else if c.exhausted && !c.finish_offered {
        Some(CopyOffer::Finish)
    } else {
        None
    }
}

/// What the receiving pump's poll `r` asks of the caller.
pub open spec fn spec_receiver_step<E>(c: CopyView, r: Result<PumpEvent, E>) -> CopyStep {
    match r {
        Ok(PumpEvent::Received(b)) => CopyStep::Deliver(b),
        Ok(PumpEvent::Completed) => CopyStep::Done(c.n),
        Ok(PumpEvent::Aborted) | Err(_) => CopyStep::Failed(WireCopyError::Protocol),
        Ok(_) => CopyStep::Continue,
    }
}

impl CopyState {
    /// A copy that has read nothing yet.
    pub fn new() -> (c: CopyState)
        ensures
            c@ == (CopyView { hold: None, exhausted: false, finish_offered: false, n: 0, rounds: 0 }),
    {
        CopyState { hold: None, exhausted: false, finish_offered: false, n: 0, rounds: 0 }
    }

    /// The copy's state.
    pub fn state(&self) -> (c: CopyState)
        ensures
            c@ == self@,
    {
        *self
    }

    /// Bytes written to the sink so far.
    pub fn copied(&self) -> (n: usize)
        ensures
            n == self@.n,
    {
        self.n
    }

    /// This round reads the source: nothing is held and it is not exhausted.
    pub fn wants_byte(&self) -> (b: bool)
        ensures
            b == (self@.hold is None && !self@.exhausted),
    {
        self.hold.is_none() && !self.exhausted
    }

    /// What the source's `read_byte` answered: a byte is held, the end
    /// marks it exhausted, and a failure stops the copy.
    pub fn on_source<E>(&mut self, r: Result<Option<u8>, E>) -> (res: Result<(), WireCopyError>)
        ensures
            match r {
                Ok(Some(b)) => res is Ok && final(self)@ == (CopyView { hold: Some(b), ..old(self)@ }),
                Ok(None) => res is Ok && final(self)@ == (CopyView { exhausted: true, ..old(self)@ }),
                Err(_) => res == Err::<(), WireCopyError>(WireCopyError::Source) && final(self)@ == old(
                    self,
                )@,
            },
    {
        match r {
            Ok(Some(b)) => {
                self.hold = Some(b);
                Ok(())
            },
            Ok(None) => {
                self.exhausted = true;
                Ok(())
            },
            Err(_) => Err(WireCopyError::Source),
        }
    }

    /// What to offer the sending pump, given whether its sender is idle.
    pub fn next_offer(&self, sender_idle: bool) -> (o: Option<CopyOffer>)
        ensures
            o == spec_copy_offer(self@, sender_idle),
    {
        if !sender_idle {
            None
        } else if let Some(b) = self.hold {
            Some(CopyOffer::Byte(b))
        } else if self.exhausted && !self.finish_offered {
            Some(CopyOffer::Finish)
        } else {
            None
        }
    }

    /// What the sending pump answered `offer`: an accepted byte is no longer
    /// held (a refused one stays held for the next round); an accepted
    /// FINISH is recorded, a FINISH refused as `NotIdle` is tried again,
    /// and any other refusal of FINISH stops the copy.
    pub fn on_offer<E>(&mut self, offer: CopyOffer, r: Result<(), Error<E>>) -> (res: Result<(), WireCopyError>)
        ensures
            match offer {
                CopyOffer::Byte(_) => res is Ok && final(self)@ == (if r is Ok {
                    CopyView { hold: None, ..old(self)@ }
                } else {
                    old(self)@
                }),
                CopyOffer::Finish => match r {
                    Ok(()) => res is Ok && final(self)@ == (CopyView { finish_offered: true, ..old(self)@ }),
                    Err(Error::NotIdle) => res is Ok && final(self)@ == old(self)@,
                    Err(_) => res == Err::<(), WireCopyError>(WireCopyError::Protocol) && final(self)@
                        == old(self)@,
                },
            },
    {
        match offer {
            CopyOffer::Byte(_) => {
                if r.is_ok() {
                    self.hold = None;
                }
                Ok(())
            },
            CopyOffer::Finish => match r {
                Ok(()) => {
                    self.finish_offered = true;
                    Ok(())
                },
                Err(Error::NotIdle) => Ok(()),
                Err(_) => Err(WireCopyError::Protocol),
            },
        }
    }

    /// What the sending pump's poll answered: an ABORT or an error stops the
    /// copy; anything else goes on.
    pub fn on_sender_poll<E>(&self, r: Result<PumpEvent, E>) -> (res: Result<(), WireCopyError>)
        ensures
            res == (match r {
                Ok(PumpEvent::Aborted) | Err(_) => Err::<(), WireCopyError>(WireCopyError::Protocol),
                Ok(_) => Ok(()),
            }),
    {
        match r {
            Ok(PumpEvent::Aborted) | Err(_) => Err(WireCopyError::Protocol),
            Ok(_) => Ok(()),
        }
    }

    /// What the receiving pump's poll answered, and what the caller does
    /// next.
    pub fn on_receiver_poll<E>(&self, r: Result<PumpEvent, E>) -> (s: CopyStep)
        ensures
            s == spec_receiver_step(self@, r),
    {
        match r {
            Ok(PumpEvent::Received(b)) => CopyStep::Deliver(b),
            Ok(PumpEvent::Completed) => CopyStep::Done(self.n),
            Ok(PumpEvent::Aborted) | Err(_) => CopyStep::Failed(WireCopyError::Protocol),
            Ok(_) => CopyStep::Continue,
        }
    }

    /// What the sink's `write_byte` answered: one more byte copied
    /// (saturating), or the copy stops.
    pub fn on_sink<E>(&mut self, r: Result<(), E>) -> (res: Result<(), WireCopyError>)
        ensures
            r is Ok ==> res is Ok && final(self)@ == (CopyView {
                n: if old(self)@.n == usize::MAX { usize::MAX } else { (old(self)@.n + 1) as usize },
                ..old(self)@
            }),
            r is Err ==> res == Err::<(), WireCopyError>(WireCopyError::Sink) && final(self)@ == old(
                self,
            )@,
    {
        match r {
            Ok(()) => {
                self.n = self.n.saturating_add(1);
                Ok(())
            },
            Err(_) => Err(WireCopyError::Sink),
        }
    }

    /// Ends a round: after [`COPY_ROUNDS`] of them the copy gives up.
    pub fn end_round(&mut self) -> (res: Result<(), WireCopyError>)
        ensures
            old(self)@.rounds + 1 >= COPY_ROUNDS ==> res == Err::<(), WireCopyError>(
                WireCopyError::Stalled,
            ) && final(self)@ == old(self)@,
            old(self)@.rounds + 1 < COPY_ROUNDS ==> res is Ok && final(self)@ == (CopyView {
                rounds: (old(self)@.rounds + 1) as u32,
                ..old(self)@
            }),
    {
        if self.rounds >= COPY_ROUNDS - 1 {
            Err(WireCopyError::Stalled)
        } else {
            self.rounds = self.rounds + 1;
            Ok(())
        }
    }
}

} // verus!
