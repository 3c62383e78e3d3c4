//! Reassembles a [`Frame`] from individually polled bytes.

use vstd::prelude::*;
use super::frame::{decodes_to, Frame, FrameError, FRAME_LEN};

verus! {

/// A fixed-size buffer that fills one byte at a time and yields a decoded
/// [`Frame`] (or a [`FrameError`]) once four bytes have arrived.
#[derive(Debug, Clone, Copy)]
pub struct FrameAssembler {
    buf: [u8; FRAME_LEN],
    filled: usize,
}

impl View for FrameAssembler {
    /// The bytes of the frame accumulated so far.
    type V = Seq<u8>;

    closed spec fn view(&self) -> Seq<u8> {
        self.buf@.take(self.filled as int)
    }
}

impl FrameAssembler {
    /// The assembler's internal consistency: fewer than four bytes held.
    pub closed spec fn wf(&self) -> bool {
        self.filled < FRAME_LEN
    }

    /// A consistent assembler holds fewer than four bytes.
    pub proof fn lemma_len(&self)
        requires
            self.wf(),
        ensures
            self@.len() < 4,
            self.last().len() == 4,
    {
    }

    /// The four bytes of the most recently completed frame.
    pub closed spec fn last(&self) -> Seq<u8> {
        self.buf@
    }

    /// An empty assembler; until a frame completes, the last frame's bytes
    /// read as zeros.
    pub fn new() -> (a: FrameAssembler)
        ensures
            a.wf(),
            a@ == Seq::<u8>::empty(),
            a.last() == seq![0u8, 0u8, 0u8, 0u8],
    {
        let a = FrameAssembler { buf: [0; FRAME_LEN], filled: 0 };
        assert(a.last() =~= seq![0u8, 0u8, 0u8, 0u8]);
        a
    }

    /// Discards any partially accumulated bytes.
    pub fn reset(&mut self)
        ensures
            final(self).wf(),
            final(self)@ == Seq::<u8>::empty(),
            final(self).last() == old(self).last(),
    {
        self.filled = 0;
    }

    /// Feeds one byte. Returns `None` while the frame is incomplete, and
    /// the decoding of the four bytes once complete; either way the
    /// assembler is then empty and ready for the next frame.
    pub fn push(&mut self, byte: u8) -> (r: Option<Result<Frame, FrameError>>)
        requires
            old(self).wf(),
        ensures
            final(self).wf(),
            old(self)@.len() <= 3,
            old(self)@.len() < 3 ==> r is None && final(self)@ == old(self)@.push(byte),
            old(self)@.len() == 3 ==> {
                &&& r matches Some(res)
                &&& decodes_to(old(self)@.push(byte), res)
                &&& final(self)@ == Seq::<u8>::empty()
                &&& final(self).last() == old(self)@.push(byte)
            },
    {
        self.buf[self.filled] = byte;
        self.filled = self.filled + 1;
        if self.filled < FRAME_LEN {
            assert(self@ =~= old(self)@.push(byte));
            return None;
        }
        assert(self.buf@ =~= old(self)@.push(byte));
        let result = Frame::from_bytes(self.buf);
        self.filled = 0;
        Some(result)
    }

    /// The four bytes of the most recently completed frame.
    pub fn last_bytes(&self) -> (b: [u8; FRAME_LEN])
        ensures
            b@ == self.last(),
    {
        self.buf
    }
}

impl Default for FrameAssembler {
    fn default() -> (a: FrameAssembler)
        ensures
            a.wf(),
            a@ == Seq::<u8>::empty(),
            a.last() == seq![0u8, 0u8, 0u8, 0u8],
    {
        FrameAssembler::new()
    }
}

} // verus!
