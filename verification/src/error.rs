//! Crate-wide error type.

use vstd::prelude::*;
use crate::protocol::FrameError;

verus! {

/// Errors produced by the TX/RX state machines.
///
/// Generic over `E`, the error type of the underlying byte transport, so a
/// transport failure is carried through as-is.
#[derive(Debug, Clone, Copy, PartialEq, Eq)]
pub enum Error<E> {
    /// The underlying transport returned an error.
    Transport(E),
    /// A received frame failed CRC validation.
    Crc,
    /// A received frame's `TYPE` byte was not a known frame type.
    InvalidFrameType(u8),
    /// A CRC-valid frame broke the control-frame rules.
    InvalidSemantics,
    /// No valid response was seen in time.
    Timeout,
    /// A frame was retransmitted as often as the retry policy allows
    /// without a positive acknowledgement.
    RetriesExhausted,
    /// An outer cooperative loop saw too many consecutive idle polls.
    IdleBudgetExhausted,
    /// An offer was made while the sender could not take a new flight.
    NotIdle,
    /// The send window already holds as many frames as it can.
    WindowFull,
    /// The session was cancelled by ABORT.
    Aborted,
}

/// The crate error a frame decoding error becomes.
pub open spec fn spec_error_from_frame<E>(err: FrameError) -> Error<E> {
    match err {
        FrameError::CrcMismatch { .. } => Error::Crc,
        FrameError::InvalidType(byte) => Error::InvalidFrameType(byte),
        FrameError::InvalidSemantics => Error::InvalidSemantics,
    }
}

impl<E> From<FrameError> for Error<E> {
    fn from(err: FrameError) -> (e: Self) {
        match err {
            FrameError::CrcMismatch { .. } => Error::Crc,
            FrameError::InvalidType(byte) => Error::InvalidFrameType(byte),
            FrameError::InvalidSemantics => Error::InvalidSemantics,
        }
    }
}

impl<E> vstd::std_specs::convert::FromSpecImpl<FrameError> for Error<E> {
    open spec fn obeys_from_spec() -> bool {
        true
    }

    open spec fn from_spec(v: FrameError) -> Error<E> {
        spec_error_from_frame(v)
    }
}

} // verus!
