//! The cooperative-step contract.
//!
//! An [`Actor`] does a bounded, non-blocking unit of work per
//! [`Actor::tick`]. Blocking inside `tick` starves every other actor on
//! the same [`super::System`].

use vstd::prelude::*;

verus! {

/// Outcome of a single cooperative step.
#[derive(Debug, Clone, Copy, PartialEq, Eq)]
pub enum Tick<T> {
    /// No application-visible progress this step; tick again later.
    Pending,
    /// One unit of output is ready (for [`super::RxActor`], one payload
    /// byte).
    Ready(T),
    /// The actor has finished its work and should not be ticked again.
    Done,
}

/// A heapless, non-blocking unit of work that a [`super::System`] can
/// schedule in round-robin.
pub trait Actor: Sized {
    /// Error produced by one tick.
    type Error;
    /// Application-visible value produced by [`Tick::Ready`].
    type Output;

    /// The actor is in a state from which it can take a step. Every value
    /// is, unless an implementation says otherwise.
    open spec fn ready(&self) -> bool {
        true
    }

    /// One step may take the actor from `self` to `after`, answering `r`.
    /// A verified implementation says what its step does; the default
    /// serves implementations written outside the verifier, and says
    /// nothing.
    open spec fn stepped(&self, after: Self, r: Result<Tick<Self::Output>, Self::Error>) -> bool {
        true
    }

    /// Advances one cooperative step. Must return promptly, and leaves the
    /// actor ready for the next step.
    fn tick(&mut self) -> (r: Result<Tick<Self::Output>, Self::Error>)
        requires
            old(self).ready(),
        ensures
            final(self).ready(),
            old(self).stepped(*final(self), r),
    ;
}

} // verus!
