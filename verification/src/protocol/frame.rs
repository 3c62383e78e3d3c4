//! The four-byte wire frame: `TYPE | SEQ | DATA | CRC`.
//!
//! A [`Frame`] is semantically valid by construction: control frames carry
//! `DATA = 0`, and `START` / `ABORT` carry `SEQ = 0`. [`Frame::from_bytes`]
//! checks the type byte, then the CRC, then those semantic rules.

use vstd::prelude::*;
use super::crc::{crc8, spec_crc8};

verus! {

/// Application payload per DATA frame, in bytes.
pub const PAYLOAD_LEN: usize = 1;

/// Size in bytes of a serialized frame.
pub const FRAME_LEN: usize = 4;

/// The role a frame plays on the wire.
#[derive(Debug, Clone, Copy, PartialEq, Eq, Structural)]
pub enum FrameType {
    /// Carries one payload byte (wire byte `0x01`).
    Data,
    /// Positive acknowledgement of a sequence number (`0x02`).
    Ack,
    /// Negative acknowledgement of a sequence number (`0x03`).
    Nack,
    /// Opens a session (`0x04`).
    Start,
    /// Closes a session (`0x05`).
    Finish,
    /// Cancels a session (`0x06`).
    Abort,
}

impl FrameType {
    /// The `TYPE` byte this frame type is written as.
    pub open spec fn spec_byte(self) -> u8 {
        match self {
            FrameType::Data => 0x01,
            FrameType::Ack => 0x02,
            FrameType::Nack => 0x03,
            FrameType::Start => 0x04,
            FrameType::Finish => 0x05,
            FrameType::Abort => 0x06,
        }
    }

    /// The frame type a `TYPE` byte names, if any.
    pub open spec fn spec_from_byte(b: u8) -> Option<FrameType> {
        if b == 0x01 {
            Some(FrameType::Data)
        } else if b == 0x02 {
            Some(FrameType::Ack)
        } else if b == 0x03 {
            Some(FrameType::Nack)
        } else if b == 0x04 {
            Some(FrameType::Start)
        } else if b == 0x05 {
            Some(FrameType::Finish)
        } else if b == 0x06 {
            Some(FrameType::Abort)
        } else {
            None
        }
    }

    /// The `TYPE` byte of this frame type.
    pub fn byte(self) -> (b: u8)
        ensures
            b == self.spec_byte(),
    {
        match self {
            FrameType::Data => 0x01,
            FrameType::Ack => 0x02,
            FrameType::Nack => 0x03,
            FrameType::Start => 0x04,
            FrameType::Finish => 0x05,
            FrameType::Abort => 0x06,
        }
    }

    fn from_u8(byte: u8) -> (r: Option<FrameType>)
        ensures
            r == Self::spec_from_byte(byte),
    {
        match byte {
            0x01 => Some(FrameType::Data),
            0x02 => Some(FrameType::Ack),
            0x03 => Some(FrameType::Nack),
            0x04 => Some(FrameType::Start),
            0x05 => Some(FrameType::Finish),
            0x06 => Some(FrameType::Abort),
            _ => None,
        }
    }

    /// Every type but DATA is a control frame.
    pub open spec fn spec_is_control(self) -> bool {
        !(self is Data)
    }
}

/// Errors that can occur while decoding four raw bytes into a [`Frame`].
#[derive(Debug, Clone, Copy, PartialEq, Eq, Structural)]
pub enum FrameError {
    /// The `TYPE` byte names no known frame type.
    InvalidType(u8),
    /// The `CRC` byte does not match the CRC of `TYPE || SEQ || DATA`.
    CrcMismatch {
        /// The CRC computed locally from the received bytes.
        expected: u8,
        /// The CRC byte actually present in the frame.
        got: u8,
    },
    /// CRC and TYPE were fine, but the frame broke the control-frame rules.
    InvalidSemantics,
}

/// The abstract content of a frame: its type, sequence number and data byte.
pub type FrameView = (FrameType, u8, u8);

/// The control-frame rules: control frames carry `DATA = 0`, and
/// `START` / `ABORT` carry `SEQ = 0`.
pub open spec fn semantics_ok(t: FrameType, seq: u8, data: u8) -> bool {
    &&& (t.spec_is_control() ==> data == 0)
    &&& ((t is Start || t is Abort) ==> seq == 0)
}

/// A frame content obeys the control-frame rules.
pub open spec fn frame_ok(v: FrameView) -> bool {
    semantics_ok(v.0, v.1, v.2)
}

/// The four wire bytes of a frame content.
pub open spec fn spec_encode(v: FrameView) -> Seq<u8> {
    let header = seq![v.0.spec_byte(), v.1, v.2];
    header.push(spec_crc8(header))
}

/// What decoding four wire bytes yields: TYPE first, then CRC, then the
/// control-frame rules.
pub open spec fn spec_decode(b: Seq<u8>) -> Result<FrameView, FrameError>
    recommends
        b.len() == 4,
{
    match FrameType::spec_from_byte(b[0]) {
        None => Err(FrameError::InvalidType(b[0])),
        Some(t) => {
            let expected = spec_crc8(seq![b[0], b[1], b[2]]);
            if expected != b[3] {
                Err(FrameError::CrcMismatch { expected, got: b[3] })
            } else if !semantics_ok(t, b[1], b[2]) {
                Err(FrameError::InvalidSemantics)
            } else {
                Ok((t, b[1], b[2]))
            }
        },
    }
}

/// A single PSICOSE frame. Valid by construction.
#[derive(Debug, Clone, Copy, PartialEq, Eq, Structural)]
pub struct Frame {
    frame_type: FrameType,
    seq: u8,
    data: u8,
}

impl View for Frame {
    type V = FrameView;

    closed spec fn view(&self) -> FrameView {
        (self.frame_type, self.seq, self.data)
    }
}

/// A decoding result agrees with what [`spec_decode`] says of `bytes`.
pub open spec fn decodes_to(bytes: Seq<u8>, r: Result<Frame, FrameError>) -> bool {
    match r {
        Ok(f) => spec_decode(bytes) == Ok::<FrameView, FrameError>(f@),
        Err(e) => spec_decode(bytes) == Err::<FrameView, FrameError>(e),
    }
}

impl Frame {
    /// Two frames with the same content are the same frame.
    pub proof fn lemma_view_injective(a: Frame, b: Frame)
        requires
            a@ == b@,
        ensures
            a == b,
    {
    }

    fn raw(frame_type: FrameType, seq: u8, data: u8) -> (f: Frame)
        ensures
            f@ == (frame_type, seq, data),
    {
        Frame { frame_type, seq, data }
    }

    /// One application payload byte at `seq`.
    pub fn data(seq: u8, byte: u8) -> (f: Frame)
        ensures
            f@ == (FrameType::Data, seq, byte),
            frame_ok(f@),
    {
        Frame::raw(FrameType::Data, seq, byte)
    }

    /// ACK for `seq`. `DATA` is 0.
    pub fn ack(seq: u8) -> (f: Frame)
        ensures
            f@ == (FrameType::Ack, seq, 0u8),
            frame_ok(f@),
    {
        Frame::raw(FrameType::Ack, seq, 0)
    }

    /// NACK for `seq`. `DATA` is 0.
    pub fn nack(seq: u8) -> (f: Frame)
        ensures
            f@ == (FrameType::Nack, seq, 0u8),
            frame_ok(f@),
    {
        Frame::raw(FrameType::Nack, seq, 0)
    }

    /// Session start. `SEQ = 0`, `DATA = 0`.
    pub fn start() -> (f: Frame)
        ensures
            f@ == (FrameType::Start, 0u8, 0u8),
            frame_ok(f@),
    {
        Frame::raw(FrameType::Start, 0, 0)
    }

    /// Session finish at `seq`. `DATA` is 0.
    pub fn finish(seq: u8) -> (f: Frame)
        ensures
            f@ == (FrameType::Finish, seq, 0u8),
            frame_ok(f@),
    {
        Frame::raw(FrameType::Finish, seq, 0)
    }

    /// Session abort. `SEQ = 0`, `DATA = 0`.
    pub fn abort() -> (f: Frame)
        ensures
            f@ == (FrameType::Abort, 0u8, 0u8),
            frame_ok(f@),
    {
        Frame::raw(FrameType::Abort, 0, 0)
    }

    /// The frame's type.
    pub fn frame_type(&self) -> (t: FrameType)
        ensures
            t == self@.0,
    {
        self.frame_type
    }

    /// The frame's sequence number.
    pub fn seq(&self) -> (s: u8)
        ensures
            s == self@.1,
    {
        self.seq
    }

    /// The payload byte. `0x00` on every control frame built here.
    pub fn payload(&self) -> (d: u8)
        ensures
            d == self@.2,
    {
        self.data
    }

    /// Serializes the frame to its four wire bytes.
    pub fn to_bytes(&self) -> (b: [u8; FRAME_LEN])
        ensures
            b@ == spec_encode(self@),
    {
        let t = self.frame_type.byte();
        let header = [t, self.seq, self.data];
        let crc = crc8(&header);
        assert(header@ =~= seq![t, self.seq, self.data]);
        let out = [t, self.seq, self.data, crc];
        assert(out@ =~= spec_encode(self@));
        out
    }

    fn semantics_ok_exec(frame_type: FrameType, seq: u8, data: u8) -> (ok: bool)
        ensures
            ok == semantics_ok(frame_type, seq, data),
    {
        let control = match frame_type {
            FrameType::Data => false,
            _ => true,
        };
        if control && data != 0 {
            return false;
        }
        let zero_seq = match frame_type {
            FrameType::Start | FrameType::Abort => true,
            _ => false,
        };
        if zero_seq && seq != 0 {
            return false;
        }
        true
    }

    /// Parses four wire bytes: TYPE, then CRC, then the control-frame rules.
    pub fn from_bytes(bytes: [u8; FRAME_LEN]) -> (r: Result<Frame, FrameError>)
        ensures
            decodes_to(bytes@, r),
            r matches Ok(f) ==> frame_ok(f@),
    {
        let frame_type = match FrameType::from_u8(bytes[0]) {
            Some(t) => t,
            None => return Err(FrameError::InvalidType(bytes[0])),
        };
        let header = [bytes[0], bytes[1], bytes[2]];
        assert(header@ =~= seq![bytes@[0], bytes@[1], bytes@[2]]);
        let expected = crc8(&header);
        let got = bytes[3];
        if expected != got {
            return Err(FrameError::CrcMismatch { expected, got });
        }
        let seq = bytes[1];
        let data = bytes[2];
        if !Self::semantics_ok_exec(frame_type, seq, data) {
            return Err(FrameError::InvalidSemantics);
        }
        Ok(Frame::raw(frame_type, seq, data))
    }
}

/// Decoding the encoding of any valid frame content gives that content back.
pub proof fn lemma_decode_encode(v: FrameView)
    requires
        frame_ok(v),
    ensures
        spec_decode(spec_encode(v)) == Ok::<FrameView, FrameError>(v),
{
    let e = spec_encode(v);
    assert(seq![e[0], e[1], e[2]] =~= seq![v.0.spec_byte(), v.1, v.2]);
}

/// Every frame built by this module survives a round trip through its wire
/// bytes: `Frame::from_bytes(f.to_bytes()) == Ok(f)`.
pub proof fn lemma_frame_roundtrip(f: Frame, bytes: Seq<u8>, r: Result<Frame, FrameError>)
    requires
        frame_ok(f@),
        bytes == spec_encode(f@),
        decodes_to(bytes, r),
    ensures
        r == Ok::<Frame, FrameError>(f),
{
    lemma_decode_encode(f@);
    if let Ok(g) = r {
        Frame::lemma_view_injective(f, g);
    }
}

/// Decoding is canonical: four bytes that decode to a frame are exactly
/// that frame's encoding, so no two byte patterns mean the same frame.
pub proof fn lemma_encode_decode(bytes: Seq<u8>, v: FrameView)
    requires
        bytes.len() == 4,
        spec_decode(bytes) == Ok::<FrameView, FrameError>(v),
    ensures
        spec_encode(v) =~= bytes,
        frame_ok(v),
{
    let t = FrameType::spec_from_byte(bytes[0]).unwrap();
    assert(t.spec_byte() == bytes[0]);
}

} // verus!
