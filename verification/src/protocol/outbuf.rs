//! One-byte-at-a-time outgoing frame buffer.
//!
//! A failed `write_byte` must not lose a byte: [`OutBuf`] yields the next
//! byte only after the caller has committed the previous one.

use vstd::prelude::*;
use super::frame::{spec_encode, Frame, FrameView, FRAME_LEN};

verus! {

/// Stack buffer for a frame that is being written a byte at a time.
#[derive(Debug, Clone, Copy)]
pub struct OutBuf {
    buf: [u8; FRAME_LEN],
    pos: usize,
}

impl View for OutBuf {
    /// The bytes still to be written, in order.
    type V = Seq<u8>;

    closed spec fn view(&self) -> Seq<u8> {
        if self.pos >= FRAME_LEN {
            Seq::empty()
        } else {
            self.buf@.subrange(self.pos as int, FRAME_LEN as int)
        }
    }
}

impl OutBuf {
    /// Empty: nothing to write.
    pub fn empty() -> (o: OutBuf)
        ensures
            o@ == Seq::<u8>::empty(),
    {
        OutBuf { buf: [0; FRAME_LEN], pos: FRAME_LEN }
    }

    /// True when no frame is in progress.
    pub fn is_idle(&self) -> (idle: bool)
        ensures
            idle == (self@.len() == 0),
    {
        self.pos >= FRAME_LEN
    }

    /// Loads `frame`, starting at its first byte.
    pub fn load(&mut self, frame: &Frame)
        ensures
            final(self)@ == spec_encode(frame@),
    {
        self.buf = frame.to_bytes();
        self.pos = 0;
        assert(self.buf@.subrange(0, 4) =~= self.buf@);
    }

    /// The next byte to write, if any. Does not advance.
    pub fn peek(&self) -> (b: Option<u8>)
        ensures
            b == (if self@.len() == 0 { None } else { Some(self@[0]) }),
    {
        if self.pos >= FRAME_LEN {
            None
        } else {
            Some(self.buf[self.pos])
        }
    }

    /// Drops the first pending byte; call it after that byte was written.
    pub fn commit(&mut self)
        ensures
            final(self)@ == commit_view(old(self)@),
    {
        if self.pos < FRAME_LEN {
            self.pos = self.pos + 1;
            assert(self@ =~= old(self)@.drop_first());
        }
    }
}

/// What one [`OutBuf::commit`] leaves of the pending bytes `v`.
pub open spec fn commit_view(v: Seq<u8>) -> Seq<u8> {
    if v.len() == 0 {
        v
    } else {
        v.drop_first()
    }
}

/// What `k` commits in a row leave of the pending bytes `v`.
pub open spec fn commits(v: Seq<u8>, k: nat) -> Seq<u8>
    decreases k,
{
    if k == 0 {
        v
    } else {
        commit_view(commits(v, (k - 1) as nat))
    }
}

/// A loaded frame comes out byte by byte: after loading the frame `fv` and
/// `k` rounds of peek and commit, the pending bytes are the encoding from
/// position `k` on; for `k < 4` the next peek yields the frame's byte `k`
/// (and yields it again until the next commit), and the buffer is idle
/// exactly when `k >= 4`, after which a commit changes nothing.
pub proof fn lemma_outbuf_rounds(fv: FrameView, k: nat)
    ensures
        commits(spec_encode(fv), k) == spec_encode(fv).skip(if k < 4 { k as int } else { 4 }),
        commits(spec_encode(fv), k).len() == 0 <==> k >= 4,
        k < 4 ==> commits(spec_encode(fv), k)[0] == spec_encode(fv)[k as int],
        k >= 4 ==> commit_view(commits(spec_encode(fv), k)) == commits(spec_encode(fv), k),
    decreases k,
{
    let e = spec_encode(fv);
    if k == 0 {
        assert(e.skip(0) =~= e);
    } else {
        lemma_outbuf_rounds(fv, (k - 1) as nat);
        if k <= 4 {
            assert(e.skip((k - 1) as int).drop_first() =~= e.skip(k as int));
        } else {
            assert(e.skip(4) =~= Seq::<u8>::empty());
        }
    }
}

impl Default for OutBuf {
    fn default() -> (o: OutBuf)
        ensures
            o@ == Seq::<u8>::empty(),
    {
        OutBuf::empty()
    }
}

} // verus!
