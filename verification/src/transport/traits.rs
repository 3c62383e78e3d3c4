//! The boundary between the protocol and the hardware.

use vstd::prelude::*;

verus! {

/// One call made on a [`ByteTransport`], with what it answered.
#[derive(Debug, Clone, Copy, PartialEq, Eq, Structural)]
pub enum LinkCall {
    /// `write_byte(byte)`; `accepted` when it returned `Ok`.
    Write { byte: u8, accepted: bool },
    /// `read_byte()`; `got` is the byte an `Ok(Some(..))` carried, and
    /// `failed` is set when it returned `Err`.
    Read { got: Option<u8>, failed: bool },
}

/// The record of one `write_byte(byte)` call that answered `r`.
pub open spec fn write_call<E>(byte: u8, r: Result<(), E>) -> LinkCall {
    LinkCall::Write { byte, accepted: r is Ok }
}

/// The record of one `read_byte()` call that answered `r`.
pub open spec fn read_call<E>(r: Result<Option<u8>, E>) -> LinkCall {
    match r {
        Ok(got) => LinkCall::Read { got, failed: false },
        Err(_) => LinkCall::Read { got: None, failed: true },
    }
}

/// The bytes that the accepted writes among `calls` handed over, in order.
pub open spec fn written_bytes(calls: Seq<LinkCall>) -> Seq<u8>
    decreases calls.len(),
{
    if calls.len() == 0 {
        Seq::empty()
    } else {
        written_bytes(calls.drop_last()) + match calls.last() {
            LinkCall::Write { byte, accepted: true } => seq![byte],
            _ => Seq::empty(),
        }
    }
}

/// The bytes that the reads among `calls` received, in order.
pub open spec fn read_bytes(calls: Seq<LinkCall>) -> Seq<u8>
    decreases calls.len(),
{
    if calls.len() == 0 {
        Seq::empty()
    } else {
        read_bytes(calls.drop_last()) + match calls.last() {
            LinkCall::Read { got: Some(b), .. } => seq![b],
            _ => Seq::empty(),
        }
    }
}

/// A byte-oriented, non-blocking, bidirectional link that the application
/// implements on its UART, SPI, radio or test double.
///
/// `read_byte` returns `Ok(None)` at once when nothing has arrived. An
/// implementation may keep [`ByteTransport::calls`], the record of the
/// calls made on it; nothing else is assumed of what it does, so every
/// contract in this crate holds whatever the transport answers, and what
/// they say of the record holds of every transport that keeps one.
pub trait ByteTransport {
    /// The error type of the underlying link.
    type Error;

    /// Whether this implementation keeps [`ByteTransport::calls`]. Those
    /// written outside the verifier keep no record, and nothing is said of
    /// their calls; a verified implementation that keeps one says so.
    open spec fn keeps_calls() -> bool {
        false
    }

    /// Every call made on this transport so far, in order, with what it
    /// answered, when the implementation keeps that record.
    open spec fn calls(&self) -> Seq<LinkCall> {
        Seq::empty()
    }

    /// Writes a single byte to the link.
    fn write_byte(&mut self, byte: u8) -> (r: Result<(), Self::Error>)
        ensures
            Self::keeps_calls() ==> final(self).calls() == old(self).calls().push(write_call(byte, r)),
    ;

    /// Polls for a single received byte; `Ok(None)` when none is there.
    fn read_byte(&mut self) -> (r: Result<Option<u8>, Self::Error>)
        ensures
            Self::keeps_calls() ==> final(self).calls() == old(self).calls().push(read_call(r)),
    ;
}

/// A read-only source of application bytes (file, flash, sensor buffer).
pub trait ByteSource {
    /// The error type of the source.
    type Error;

    /// Whether this implementation keeps [`ByteSource::reads`]. Those
    /// written outside the verifier keep no record, and nothing is said of
    /// their answers; a verified implementation that keeps one says so.
    open spec fn keeps_reads() -> bool {
        false
    }

    /// Every answer `read_byte` has given so far that was not an error, in
    /// order: `Some` of each byte handed out, `None` for each report of
    /// exhaustion; when the implementation keeps that record.
    open spec fn reads(&self) -> Seq<Option<u8>> {
        Seq::empty()
    }

    /// The next application byte, or `Ok(None)` when exhausted.
    fn read_byte(&mut self) -> (r: Result<Option<u8>, Self::Error>)
        ensures
            Self::keeps_reads() ==> final(self).reads() == match r {
                Ok(x) => old(self).reads().push(x),
                Err(_) => old(self).reads(),
            },
    ;
}

/// A write-only destination for application bytes.
pub trait ByteSink {
    /// The error type of the destination.
    type Error;

    /// Whether this implementation keeps [`ByteSink::accepted`]. Those
    /// written outside the verifier keep no record, and nothing is said of
    /// what they took; a verified implementation that keeps one says so.
    open spec fn keeps_accepted() -> bool {
        false
    }

    /// Every byte this sink has taken so far, in order, when the
    /// implementation keeps that record.
    open spec fn accepted(&self) -> Seq<u8> {
        Seq::empty()
    }

    /// Writes one application byte.
    fn write_byte(&mut self, byte: u8) -> (r: Result<(), Self::Error>)
        ensures
            Self::keeps_accepted() ==> final(self).accepted() == if r is Ok {
                old(self).accepted().push(byte)
            } else {
                old(self).accepted()
            },
    ;
}

} // verus!
