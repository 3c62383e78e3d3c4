//! Heapless in-memory transport for tests and examples: fixed arrays
//! only, no allocation.

use vstd::prelude::*;
use crate::transport::{read_bytes, read_call, write_call, written_bytes, ByteTransport, LinkCall};

verus! {

/// Capacity of each direction of a [`MockTransport`].
pub const MOCK_CAP: usize = 64;

/// Concatenates two four-byte frames.
pub fn concat2(a: [u8; 4], b: [u8; 4]) -> (out: [u8; 8])
    ensures
        out@ == a@ + b@,
{
    let out = [a[0], a[1], a[2], a[3], b[0], b[1], b[2], b[3]];
    assert(out@ =~= a@ + b@);
    out
}

/// Concatenates three four-byte frames.
pub fn concat3(a: [u8; 4], b: [u8; 4], c: [u8; 4]) -> (out: [u8; 12])
    ensures
        out@ == a@ + b@ + c@,
{
    let out = [a[0], a[1], a[2], a[3], b[0], b[1], b[2], b[3], c[0], c[1], c[2], c[3]];
    assert(out@ =~= a@ + b@ + c@);
    out
}

/// The outgoing buffer is full. Overflow is an error, never a silent drop.
#[derive(Debug, Clone, Copy, PartialEq, Eq, Structural)]
pub struct MockFull;

/// What a [`MockTransport`] holds: the bytes still to be read, and the
/// bytes written so far.
pub struct MockView {
    /// Bytes `read_byte` will still yield, in order.
    pub incoming: Seq<u8>,
    /// Bytes written so far, in order.
    pub written: Seq<u8>,
}

/// A scripted, single-ended in-memory transport backed by fixed arrays.
pub struct MockTransport {
    incoming: [u8; MOCK_CAP],
    incoming_len: usize,
    incoming_pos: usize,
    written_buf: [u8; MOCK_CAP],
    written_len: usize,
    log: Ghost<Seq<LinkCall>>,
}

impl View for MockTransport {
    type V = MockView;

    closed spec fn view(&self) -> MockView {
        MockView {
            incoming: self.incoming@.subrange(self.incoming_pos as int, self.incoming_len as int),
            written: self.written_buf@.take(self.written_len as int),
        }
    }
}

/// Call `j` of a mock's record answered as a mock does: no read fails, and
/// a write is refused exactly when [`MOCK_CAP`] bytes were already written.
pub open spec fn mock_call_ok(calls: Seq<LinkCall>, j: int) -> bool {
    match calls[j] {
        LinkCall::Read { failed, .. } => !failed,
        LinkCall::Write { accepted, .. } => accepted <==> written_bytes(calls.take(j)).len() < MOCK_CAP,
    }
}

impl MockTransport {
    /// Internal consistency: positions within the buffers, and the record
    /// of calls agrees with both directions.
    #[verifier::type_invariant]
    spec fn wf(&self) -> bool {
        &&& self.incoming_pos <= self.incoming_len <= MOCK_CAP
        &&& self.written_len <= MOCK_CAP
        &&& written_bytes(self.log@) == self.written_buf@.take(self.written_len as int)
        &&& read_bytes(self.log@) == self.incoming@.take(self.incoming_pos as int)
        &&& forall|j: int|
            0 <= j < self.log@.len() && #[trigger] self.log@[j] == (LinkCall::Read {
                got: None,
                failed: false,
            }) ==> read_bytes(self.log@.take(j)).len() == self.incoming_len
        &&& forall|j: int| 0 <= j < self.log@.len() ==> #[trigger] mock_call_ok(self.log@, j)
    }

    /// Every byte this transport was scripted to yield, read or not.
    pub closed spec fn script(&self) -> Seq<u8> {
        self.incoming@.take(self.incoming_len as int)
    }

    /// What the record of calls says of a mock: the written bytes are those
    /// of the accepted writes, the reads received the script in order, a
    /// read came back empty only once the whole script was read, no read
    /// failed, and a write was refused exactly when the buffer was full.
    pub open spec fn replays(&self) -> bool {
        &&& self@.written == written_bytes(self.calls())
        &&& read_bytes(self.calls()) + self@.incoming == self.script()
        &&& forall|j: int|
            0 <= j < self.calls().len() && #[trigger] self.calls()[j] == (LinkCall::Read {
                got: None,
                failed: false,
            }) ==> read_bytes(self.calls().take(j)).len() == self.script().len()
        &&& forall|j: int| 0 <= j < self.calls().len() ==> #[trigger] mock_call_ok(self.calls(), j)
    }

    /// Yields exactly `bytes` from `read_byte`, then `Ok(None)`. Only the
    /// first [`MOCK_CAP`] bytes are kept.
    pub fn with_incoming(bytes: &[u8]) -> (t: MockTransport)
        ensures
            t@.incoming == bytes@.take(
                if bytes@.len() <= MOCK_CAP {
                    bytes@.len() as int
                } else {
                    MOCK_CAP as int
                },
            ),
            t@.written == Seq::<u8>::empty(),
            t.calls() == Seq::<LinkCall>::empty(),
            t.script() == t@.incoming,
            t.replays(),
    {
        let n = if bytes.len() <= MOCK_CAP {
            bytes.len()
        } else {
            MOCK_CAP
        };
        let mut incoming = [0u8; MOCK_CAP];
        let mut i: usize = 0;
        while i < n
            invariant
                i <= n,
                n <= MOCK_CAP,
                n <= bytes@.len(),
                incoming@.len() == MOCK_CAP,
                forall|j: int| 0 <= j < i ==> incoming@[j] == bytes@[j],
            decreases n - i,
        {
            incoming[i] = bytes[i];
            i = i + 1;
        }
        let wb = [0u8; MOCK_CAP];
        assert(written_bytes(Seq::<LinkCall>::empty()) =~= wb@.take(0));
        assert(read_bytes(Seq::<LinkCall>::empty()) =~= incoming@.take(0));
        let t = MockTransport {
            incoming,
            incoming_len: n,
            incoming_pos: 0,
            written_buf: wb,
            written_len: 0,
            log: Ghost(Seq::empty()),
        };
        assert(t@.incoming =~= bytes@.take(n as int));
        assert(t@.written =~= Seq::<u8>::empty());
        assert(t.incoming@.take(0) =~= Seq::<u8>::empty());
        assert(t.written_buf@.take(0) =~= Seq::<u8>::empty());
        assert(t@.incoming =~= t.script());
        assert(Seq::<u8>::empty() + t@.incoming =~= t.script());
        t
    }

    /// Bytes written so far.
    pub fn written(&self) -> (w: &[u8])
        ensures
            w@ == self@.written,
            self.replays(),
    {
        proof {
            use_type_invariant(self);
            assert(self.incoming@.take(self.incoming_pos as int) + self@.incoming =~= self.script());
        }
        let w = self.written_buf.as_slice().split_at(self.written_len).0;
        w
    }
}

/// One more call extends the record: the earlier calls and their prefixes
/// stay, and the written and read bytes grow by what the new call carried.
proof fn lemma_record_push(log: Seq<LinkCall>, c: LinkCall)
    ensures
        log.push(c).drop_last() == log,
        log.push(c).take(log.len() as int) == log,
        forall|j: int| 0 <= j < log.len() ==> #[trigger] log.push(c).take(j) == log.take(j),
        forall|j: int| 0 <= j < log.len() ==> #[trigger] log.push(c)[j] == log[j],
        written_bytes(log.push(c)) == written_bytes(log) + match c {
            LinkCall::Write { byte, accepted: true } => seq![byte],
            _ => Seq::empty(),
        },
        read_bytes(log.push(c)) == read_bytes(log) + match c {
            LinkCall::Read { got: Some(b), .. } => seq![b],
            _ => Seq::empty(),
        },
{
    assert(log.push(c).drop_last() =~= log);
    assert(log.push(c).take(log.len() as int) =~= log);
    assert forall|j: int| 0 <= j < log.len() implies #[trigger] log.push(c).take(j) == log.take(j) by {
        assert(log.push(c).take(j) =~= log.take(j));
    }
}

/// The calls of a record stay answered as a mock does when one more call,
/// itself answered so, is added.
proof fn lemma_mock_calls_push(log: Seq<LinkCall>, c: LinkCall)
    requires
        forall|j: int| 0 <= j < log.len() ==> #[trigger] mock_call_ok(log, j),
        mock_call_ok(log.push(c), log.len() as int),
    ensures
        forall|j: int| 0 <= j < log.push(c).len() ==> #[trigger] mock_call_ok(log.push(c), j),
{
    lemma_record_push(log, c);
    assert forall|j: int| 0 <= j < log.push(c).len() implies #[trigger] mock_call_ok(log.push(c), j) by {
        if j < log.len() {
            assert(mock_call_ok(log, j));
            assert(log.push(c)[j] == log[j]);
            assert(log.push(c).take(j) == log.take(j));
        }
    }
}

impl ByteTransport for MockTransport {
    type Error = MockFull;

    open spec fn keeps_calls() -> bool {
        true
    }

    closed spec fn calls(&self) -> Seq<LinkCall> {
        self.log@
    }

    /// Appends `byte` to the written bytes, or fails when full.
    fn write_byte(&mut self, byte: u8) -> (r: Result<(), MockFull>)
        ensures
            old(self)@.written.len() >= MOCK_CAP ==> r == Err::<(), MockFull>(MockFull)
                && final(self)@ == old(self)@,
            old(self)@.written.len() < MOCK_CAP ==> r is Ok && final(self)@
                == (MockView { written: old(self)@.written.push(byte), ..old(self)@ }),
    {
        proof {
            use_type_invariant(&*self);
        }
        let ghost log0 = self.log@;
        if self.written_len >= MOCK_CAP {
            let ghost c = write_call(byte, Err::<(), MockFull>(MockFull));
            proof {
                lemma_record_push(log0, c);
                lemma_mock_calls_push(log0, c);
            }
            self.log = Ghost(self.log@.push(c));
            return Err(MockFull);
        }
        let ghost c = write_call(byte, Ok::<(), MockFull>(()));
        proof {
            lemma_record_push(log0, c);
            lemma_mock_calls_push(log0, c);
        }
        let mut buf = self.written_buf;
        buf[self.written_len] = byte;
        assert(buf@.take(self.written_len + 1) =~= self.written_buf@.take(
            self.written_len as int,
        ).push(byte));
        assert(written_bytes(log0.push(c)) == buf@.take(self.written_len + 1));
        assert(read_bytes(log0.push(c)) == self.incoming@.take(self.incoming_pos as int));
        assert(forall|j: int|
            0 <= j < log0.push(c).len() && #[trigger] log0.push(c)[j] == (LinkCall::Read {
                got: None,
                failed: false,
            }) ==> read_bytes(log0.push(c).take(j)).len() == self.incoming_len);
        *self = MockTransport {
            incoming: self.incoming,
            incoming_len: self.incoming_len,
            incoming_pos: self.incoming_pos,
            written_buf: buf,
            written_len: self.written_len + 1,
            log: Ghost(log0.push(c)),
        };
        assert(self@.written =~= old(self)@.written.push(byte));
        Ok(())
    }

    /// Yields the next scripted byte, or `Ok(None)` once all are read.
    fn read_byte(&mut self) -> (r: Result<Option<u8>, MockFull>)
        ensures
            old(self)@.incoming.len() == 0 ==> r == Ok::<Option<u8>, MockFull>(
                None,
            ) && final(self)@ == old(self)@,
            old(self)@.incoming.len() > 0 ==> r == Ok::<Option<u8>, MockFull>(
                Some(old(self)@.incoming[0]),
            ) && final(self)@ == (MockView {
                incoming: old(self)@.incoming.drop_first(),
                ..old(self)@
            }),
    {
        proof {
            use_type_invariant(&*self);
        }
        let ghost log0 = self.log@;
        if self.incoming_pos >= self.incoming_len {
            let ghost c = read_call(Ok::<Option<u8>, MockFull>(None));
            proof {
                lemma_record_push(log0, c);
                lemma_mock_calls_push(log0, c);
            }
            self.log = Ghost(self.log@.push(c));
            return Ok(None);
        }
        let byte = self.incoming[self.incoming_pos];
        let ghost c = read_call(Ok::<Option<u8>, MockFull>(Some(byte)));
        proof {
            lemma_record_push(log0, c);
            lemma_mock_calls_push(log0, c);
        }
        assert(self.incoming@.take(self.incoming_pos + 1) =~= self.incoming@.take(
            self.incoming_pos as int,
        ).push(byte));
        assert(written_bytes(log0.push(c)) == self.written_buf@.take(self.written_len as int));
        assert(read_bytes(log0.push(c)) == self.incoming@.take(self.incoming_pos + 1));
        assert(forall|j: int|
            0 <= j < log0.push(c).len() && #[trigger] log0.push(c)[j] == (LinkCall::Read {
                got: None,
                failed: false,
            }) ==> read_bytes(log0.push(c).take(j)).len() == self.incoming_len);
        *self = MockTransport {
            incoming: self.incoming,
            incoming_len: self.incoming_len,
            incoming_pos: self.incoming_pos + 1,
            written_buf: self.written_buf,
            written_len: self.written_len,
            log: Ghost(log0.push(c)),
        };
        assert(self@.incoming =~= old(self)@.incoming.drop_first());
        Ok(Some(byte))
    }
}

} // verus!
