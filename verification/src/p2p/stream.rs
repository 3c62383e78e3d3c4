//! Logical streams, message identity, and fragmentation.
//!
//! Do not confuse the counters:
//!
//! ```text
//! SEQ        u8   transport: which DATA frame this is
//! StreamId   u8   application: which conversation (control, forum, file)
//! MessageId  u16  application: which message inside the stream
//! fragment   u16  application: which piece of that message
//! ```
//!
//! A message longer than a byte is cut by the [`Fragmenter`] into
//! `header + chunk` packets; the transport still only sees the next byte.

use vstd::prelude::*;

verus! {

/// Identifies a logical conversation over one link. Only stream 0 is
/// reserved, for session control.
#[derive(Debug, Clone, Copy, PartialEq, Eq, Structural, PartialOrd, Ord)]
pub struct StreamId(pub u8);

impl StreamId {
    /// Stream 0: session control messages (hello, ping, credit).
    pub fn control() -> (s: StreamId)
        ensures
            s.0 == 0,
    {
        StreamId(0)
    }

    /// An application-defined stream.
    pub fn new(id: u8) -> (s: StreamId)
        ensures
            s.0 == id,
    {
        StreamId(id)
    }

    /// The raw id.
    pub fn raw(self) -> (id: u8)
        ensures
            id == self.0,
    {
        self.0
    }
}

impl From<u8> for StreamId {
    fn from(id: u8) -> (s: StreamId) {
        StreamId(id)
    }
}

impl vstd::std_specs::convert::FromSpecImpl<u8> for StreamId {
    open spec fn obeys_from_spec() -> bool {
        true
    }

    open spec fn from_spec(v: u8) -> StreamId {
        StreamId(v)
    }
}

/// Identifies one message inside a stream. Wraps mod 65536; the
/// transport `SEQ` is a different counter for a different problem.
#[derive(Debug, Clone, Copy, PartialEq, Eq, Structural, PartialOrd, Ord)]
pub struct MessageId(pub u16);

impl MessageId {
    /// A message id chosen by the application.
    pub fn new(id: u16) -> (m: MessageId)
        ensures
            m.0 == id,
    {
        MessageId(id)
    }

    /// The raw id.
    pub fn raw(self) -> (id: u16)
        ensures
            id == self.0,
    {
        self.0
    }

    /// The next id, wrapping mod 65536.
    pub fn next(self) -> (m: MessageId)
        ensures
            m.0 == (self.0 + 1) % 65536,
    {
        MessageId(self.0.wrapping_add(1))
    }
}

impl From<u16> for MessageId {
    fn from(id: u16) -> (m: MessageId) {
        MessageId(id)
    }
}

impl vstd::std_specs::convert::FromSpecImpl<u16> for MessageId {
    open spec fn obeys_from_spec() -> bool {
        true
    }

    open spec fn from_spec(v: u16) -> MessageId {
        MessageId(v)
    }
}

/// Serialized size of a [`MessageHeader`], in payload bytes.
pub const HEADER_LEN: usize = 7;

/// The flag bit that marks the last fragment.
pub const FLAG_LAST: u8 = 0x01;

/// Per-fragment header. Payload bytes, never part of the four-byte frame.
///
/// ```text
/// stream (1) | message id (2) | fragment (2) | flags (1) | len (1)
/// ```
///
/// `flags` bit 0 marks the last fragment; all other bits must be zero.
#[derive(Debug, Clone, Copy, PartialEq, Eq, Structural)]
pub struct MessageHeader {
    /// Which conversation this fragment belongs to.
    pub stream: StreamId,
    /// Which message inside the stream.
    pub message: MessageId,
    /// Fragment index, starting at 0.
    pub fragment: u16,
    /// True on the final fragment of the message.
    pub last: bool,
    /// How many payload bytes follow this header.
    pub len: u8,
}

/// Why a serialized header was rejected.
#[derive(Debug, Clone, Copy, PartialEq, Eq, Structural)]
pub enum HeaderError {
    /// A reserved flag bit was set.
    Flags,
}

/// The seven wire bytes of a header (big-endian ids).
pub open spec fn header_bytes(h: MessageHeader) -> Seq<u8> {
    seq![
        h.stream.0,
        (h.message.0 / 256) as u8,
        (h.message.0 % 256) as u8,
        (h.fragment / 256) as u8,
        (h.fragment % 256) as u8,
        if h.last { 1u8 } else { 0u8 },
        h.len,
    ]
}

/// What parsing seven header bytes yields: only the flag values 0 and 1
/// are accepted.
pub open spec fn spec_header_from_bytes(b: Seq<u8>) -> Result<MessageHeader, HeaderError> {
    if b[5] != 0 && b[5] != 1 {
        Err(HeaderError::Flags)
    } else {
        Ok(
            MessageHeader {
                stream: StreamId(b[0]),
                message: MessageId((b[1] as nat * 256 + b[2] as nat) as u16),
                fragment: (b[3] as nat * 256 + b[4] as nat) as u16,
                last: b[5] == 1,
                len: b[6],
            },
        )
    }
}

/// High byte of a 16-bit value.
fn high_byte(v: u16) -> (b: u8)
    ensures
        b == (v / 256) as u8,
{
    let b = (v >> 8u16) as u8;
    assert(b == (v / 256) as u8) by (bit_vector)
        requires
            b == (v >> 8u16) as u8,
    ;
    b
}

/// Low byte of a 16-bit value.
fn low_byte(v: u16) -> (b: u8)
    ensures
        b == (v % 256) as u8,
{
    let b = (v & 0xffu16) as u8;
    assert(b == (v % 256) as u8) by (bit_vector)
        requires
            b == (v & 0xffu16) as u8,
    ;
    b
}

impl MessageHeader {
    /// Serializes to the seven-byte wire form.
    pub fn to_bytes(&self) -> (b: [u8; HEADER_LEN])
        ensures
            b@ == header_bytes(*self),
    {
        let flags: u8 = if self.last { FLAG_LAST } else { 0 };
        let b = [
            self.stream.raw(),
            high_byte(self.message.raw()),
            low_byte(self.message.raw()),
            high_byte(self.fragment),
            low_byte(self.fragment),
            flags,
            self.len,
        ];
        assert(b@ =~= header_bytes(*self));
        b
    }

    /// Parses the seven-byte wire form. Reserved flag bits are rejected.
    pub fn from_bytes(bytes: [u8; HEADER_LEN]) -> (r: Result<MessageHeader, HeaderError>)
        ensures
            r == spec_header_from_bytes(bytes@),
    {
        let flags = bytes[5];
        if flags & !FLAG_LAST != 0 {
            assert(flags != 0 && flags != 1) by (bit_vector)
                requires
                    flags & !1u8 != 0,
            ;
            return Err(HeaderError::Flags);
        }
        assert(flags == 0 || flags == 1) by (bit_vector)
            requires
                flags & !1u8 == 0,
        ;
        let last = flags & FLAG_LAST != 0;
        assert(last == (flags == 1)) by (bit_vector)
            requires
                flags == 0 || flags == 1,
                last == (flags & 1u8 != 0),
        ;
        let message: u16 = (bytes[1] as u16) * 256 + (bytes[2] as u16);
        let fragment: u16 = (bytes[3] as u16) * 256 + (bytes[4] as u16);
        Ok(
            MessageHeader {
                stream: StreamId::new(bytes[0]),
                message: MessageId::new(message),
                fragment,
                last,
                len: bytes[6],
            },
        )
    }
}

/// Every header survives serialization: parsing its bytes gives it back.
pub proof fn lemma_header_roundtrip(h: MessageHeader)
    ensures
        spec_header_from_bytes(header_bytes(h)) == Ok::<MessageHeader, HeaderError>(h),
{
    let m = h.message.0;
    let g = h.fragment;
    assert(((m / 256) as u8) as nat * 256 + ((m % 256) as u8) as nat == m);
    assert(((g / 256) as u8) as nat * 256 + ((g % 256) as u8) as nat == g);
}

/// Seven bytes that parse serialize back to the same seven bytes.
pub proof fn lemma_header_bytes_roundtrip(b: Seq<u8>)
    requires
        b.len() == 7,
        spec_header_from_bytes(b) is Ok,
    ensures
        header_bytes(spec_header_from_bytes(b)->Ok_0) == b,
{
    let h = spec_header_from_bytes(b)->Ok_0;
    assert(h.message.0 / 256 == b[1]);
    assert(h.message.0 % 256 == b[2]);
    assert(h.fragment / 256 == b[3]);
    assert(h.fragment % 256 == b[4]);
    assert(header_bytes(h) =~= b);
}

/// The state of a [`Fragmenter`].
pub struct FragmenterView {
    /// Stream of every fragment.
    pub stream: StreamId,
    /// Message of every fragment.
    pub message: MessageId,
    /// Bytes not yet emitted.
    pub rest: Seq<u8>,
    /// Index of the next fragment.
    pub fragment: u16,
    /// Largest chunk, `1..=255`.
    pub chunk: nat,
    /// The last fragment was emitted.
    pub done: bool,
}

/// Cuts a caller-owned message into `header + chunk` fragments.
///
/// Borrows the payload; owns nothing.
pub struct Fragmenter<'a> {
    stream: StreamId,
    message: MessageId,
    rest: &'a [u8],
    fragment: u16,
    chunk: usize,
    done: bool,
}

impl<'a> View for Fragmenter<'a> {
    type V = FragmenterView;

    closed spec fn view(&self) -> FragmenterView {
        FragmenterView {
            stream: self.stream,
            message: self.message,
            rest: self.rest@,
            fragment: self.fragment,
            chunk: self.chunk as nat,
            done: self.done,
        }
    }
}

/// The chunks a message `rest` is cut into, `chunk` bytes at a time: every
/// chunk but the last is full, and the last holds what is left, which is
/// everything when `rest` fits in one (an empty message is one empty chunk).
pub open spec fn fragment_chunks(rest: Seq<u8>, chunk: nat) -> Seq<Seq<u8>>
    decreases rest.len(),
{
    if chunk == 0 || rest.len() <= chunk {
        seq![rest]
    } else {
        seq![rest.take(chunk as int)] + fragment_chunks(rest.skip(chunk as int), chunk)
    }
}

/// Cutting a message into fragments loses and adds nothing: the chunks,
/// in order, concatenate to the message; there is one chunk for an empty
/// message and `ceil(len / chunk)` otherwise; every chunk but the last is
/// full, and the last is nonempty unless the message is.
pub proof fn lemma_fragment_chunks(rest: Seq<u8>, chunk: nat)
    requires
        chunk >= 1,
    ensures
        fragment_chunks(rest, chunk).flatten() == rest,
        fragment_chunks(rest, chunk).len() == if rest.len() == 0 {
            1
        } else {
            (rest.len() + chunk - 1) as nat / chunk
        },
        forall|i: int|
            0 <= i < fragment_chunks(rest, chunk).len() - 1 ==> (#[trigger] fragment_chunks(
                rest,
                chunk,
            )[i]).len() == chunk,
        rest.len() > 0 ==> 1 <= fragment_chunks(rest, chunk).last().len() <= chunk,
    decreases rest.len(),
{
    let cs = fragment_chunks(rest, chunk);
    if rest.len() <= chunk {
        assert(cs.drop_first() =~= Seq::<Seq<u8>>::empty());
        assert(Seq::<Seq<u8>>::empty().flatten() =~= Seq::<u8>::empty());
        assert(cs.flatten() == cs.first() + cs.drop_first().flatten());
        assert(cs.flatten() =~= rest);
        if rest.len() > 0 {
            assert((rest.len() + chunk - 1) as nat / chunk == 1) by (nonlinear_arith)
                requires
                    1 <= rest.len() <= chunk,
            ;
        }
    } else {
        let tail = rest.skip(chunk as int);
        lemma_fragment_chunks(tail, chunk);
        let ts = fragment_chunks(tail, chunk);
        assert(cs.drop_first() =~= ts);
        assert(cs.first() == rest.take(chunk as int));
        assert(rest.take(chunk as int) + tail =~= rest);
        assert(cs.flatten() == cs.first() + cs.drop_first().flatten());
        assert((rest.len() + chunk - 1) as nat / chunk == (tail.len() + chunk - 1) as nat / chunk + 1)
            by (nonlinear_arith)
            requires
                tail.len() == rest.len() - chunk,
                tail.len() >= 1,
                chunk >= 1,
        {
            assert(rest.len() + chunk - 1 == (tail.len() + chunk - 1) + chunk);
        }
        assert forall|i: int| 0 <= i < cs.len() - 1 implies (#[trigger] cs[i]).len() == chunk by {
            if i > 0 {
                assert(cs[i] == ts[i - 1]);
            }
        }
        assert(cs.last() == ts.last());
    }
}

/// One `next_fragment` call on a fragmenter in state `v`: the state it
/// leaves and what it returns, the chunk taken by its bytes.
pub open spec fn frag_step(v: FragmenterView) -> (FragmenterView, Option<(MessageHeader, Seq<u8>)>) {
    if v.done {
        (v, None)
    } else {
        let take = if v.chunk <= v.rest.len() {
            v.chunk
        } else {
            v.rest.len()
        };
        (
            FragmenterView {
                rest: v.rest.subrange(take as int, v.rest.len() as int),
                fragment: ((v.fragment + 1) % 65536) as u16,
                done: take == v.rest.len(),
                ..v
            },
            Some(
                (
                    MessageHeader {
                        stream: v.stream,
                        message: v.message,
                        fragment: v.fragment,
                        last: take == v.rest.len(),
                        len: take as u8,
                    },
                    v.rest.subrange(0, take as int),
                ),
            ),
        )
    }
}

/// The state of a fragmenter after `k` calls of `next_fragment` from `v`.
pub open spec fn frag_after(v: FragmenterView, k: nat) -> FragmenterView
    decreases k,
{
    if k == 0 {
        v
    } else {
        frag_step(frag_after(v, (k - 1) as nat)).0
    }
}

/// A full run of a fragmenter: from a new one on `payload`, call `i` of
/// `next_fragment` returns chunk `i` of [`fragment_chunks`] under a header
/// numbered `i` (modulo 65536) that is last exactly for the final chunk,
/// and the call after the final chunk returns `None`.
pub proof fn lemma_fragment_run(stream: StreamId, message: MessageId, payload: Seq<u8>, chunk: nat, i: nat)
    requires
        1 <= chunk <= 255,
        i <= fragment_chunks(payload, chunk).len(),
    ensures
        ({
            let v0 = FragmenterView { stream, message, rest: payload, fragment: 0, chunk, done: false };
            let cs = fragment_chunks(payload, chunk);
            &&& i < cs.len() ==> frag_step(frag_after(v0, i)).1 == Some(
                (
                    MessageHeader {
                        stream,
                        message,
                        fragment: (i % 65536) as u16,
                        last: i == cs.len() - 1,
                        len: cs[i as int].len() as u8,
                    },
                    cs[i as int],
                ),
            )
            &&& i == cs.len() ==> frag_step(frag_after(v0, i)).1 is None
        }),
{
    let v0 = FragmenterView { stream, message, rest: payload, fragment: 0, chunk, done: false };
    let cs = fragment_chunks(payload, chunk);
    lemma_frag_after(v0, i);
    if i < cs.len() {
        let v = frag_after(v0, i);
        lemma_frag_step_chunk(v.rest, chunk);
        assert(cs.skip(i as int)[0] == cs[i as int]);
    }
}

/// `k` more calls on a fragmenter that is done change nothing.
proof fn lemma_frag_after_done(v: FragmenterView, k: nat)
    requires
        v.done,
    ensures
        frag_after(v, k) == v,
    decreases k,
{
    if k > 0 {
        lemma_frag_after_done(v, (k - 1) as nat);
    }
}

/// `a + b` calls are `a` calls, then `b` more.
proof fn lemma_frag_after_split(v: FragmenterView, a: nat, b: nat)
    ensures
        frag_after(v, a + b) == frag_after(frag_after(v, a), b),
    decreases b,
{
    if b > 0 {
        lemma_frag_after_split(v, a, (b - 1) as nat);
    }
}

/// A loop of `next_fragment` calls on a new fragmenter yields the full run.
///
/// When `vs[i]` is the fragmenter before call `i` and `outs[i]` what that
/// call returned (chunks by their bytes), as [`Fragmenter::next_fragment`]
/// states each call, then call `i` returns chunk `i` of
/// [`fragment_chunks`] under a header numbered `i` (modulo 65536) that is
/// last exactly for the final chunk, and every call after the final chunk
/// returns `None`.
pub proof fn lemma_fragment_calls(
    vs: Seq<FragmenterView>,
    outs: Seq<Option<(MessageHeader, Seq<u8>)>>,
    stream: StreamId,
    message: MessageId,
    payload: Seq<u8>,
    chunk: nat,
)
    requires
        1 <= chunk <= 255,
        vs.len() == outs.len() + 1,
        vs[0] == (FragmenterView { stream, message, rest: payload, fragment: 0, chunk, done: false }),
        forall|i: int| 0 <= i < outs.len() ==> (vs[i + 1], outs[i]) == #[trigger] frag_step(vs[i]),
    ensures
        forall|i: int|
            0 <= i < outs.len() ==> #[trigger] outs[i] == if i < fragment_chunks(payload, chunk).len() {
                Some(
                    (
                        MessageHeader {
                            stream,
                            message,
                            fragment: (i % 65536) as u16,
                            last: i == fragment_chunks(payload, chunk).len() - 1,
                            len: fragment_chunks(payload, chunk)[i].len() as u8,
                        },
                        fragment_chunks(payload, chunk)[i],
                    ),
                )
            } else {
                None
            },
{
    let v0 = vs[0];
    let n = fragment_chunks(payload, chunk).len();
    assert forall|i: int| 0 <= i < vs.len() implies #[trigger] vs[i] == frag_after(v0, i as nat) by {
        lemma_frag_calls_upto(vs, outs, i as nat);
    }
    assert forall|i: int| 0 <= i < outs.len() implies #[trigger] outs[i] == if i < n {
        Some(
            (
                MessageHeader {
                    stream,
                    message,
                    fragment: (i % 65536) as u16,
                    last: i == n - 1,
                    len: fragment_chunks(payload, chunk)[i].len() as u8,
                },
                fragment_chunks(payload, chunk)[i],
            ),
        )
    } else {
        None
    } by {
        assert(vs[i] == frag_after(v0, i as nat));
        assert((vs[i + 1], outs[i]) == frag_step(vs[i]));
        if i <= n {
            lemma_fragment_run(stream, message, payload, chunk, i as nat);
        } else {
            lemma_fragment_run(stream, message, payload, chunk, n);
            lemma_frag_after(v0, n);
            lemma_frag_after_split(v0, n, (i - n) as nat);
            lemma_frag_after_done(frag_after(v0, n), (i - n) as nat);
        }
    }
}

/// The fragmenter before call `i` of such a loop is the one `i` calls leave.
proof fn lemma_frag_calls_upto(vs: Seq<FragmenterView>, outs: Seq<Option<(MessageHeader, Seq<u8>)>>, i: nat)
    requires
        vs.len() == outs.len() + 1,
        forall|j: int| 0 <= j < outs.len() ==> (vs[j + 1], outs[j]) == #[trigger] frag_step(vs[j]),
        i < vs.len(),
    ensures
        vs[i as int] == frag_after(vs[0], i),
    decreases i,
{
    if i > 0 {
        lemma_frag_calls_upto(vs, outs, (i - 1) as nat);
        assert((vs[i - 1 + 1], outs[i - 1]) == frag_step(vs[i - 1]));
    }
}

/// After `i` calls on a new fragmenter, still short of the last chunk: the
/// chunks left are those of the message from `i` on, the next number is
/// `i`, and the fragmenter is not done; after all of them it is done.
proof fn lemma_frag_after(v0: FragmenterView, i: nat)
    requires
        1 <= v0.chunk <= 255,
        v0.fragment == 0,
        !v0.done,
        i <= fragment_chunks(v0.rest, v0.chunk).len(),
    ensures
        i < fragment_chunks(v0.rest, v0.chunk).len() ==> {
            let v = frag_after(v0, i);
            &&& fragment_chunks(v.rest, v0.chunk) == fragment_chunks(v0.rest, v0.chunk).skip(i as int)
            &&& v.fragment == (i % 65536) as u16
            &&& !v.done
            &&& v.chunk == v0.chunk
            &&& v.stream == v0.stream
            &&& v.message == v0.message
        },
        i == fragment_chunks(v0.rest, v0.chunk).len() ==> frag_after(v0, i).done,
    decreases i,
{
    let cs = fragment_chunks(v0.rest, v0.chunk);
    if i == 0 {
        assert(cs.skip(0) =~= cs);
        lemma_fragment_chunks(v0.rest, v0.chunk);
    } else {
        lemma_frag_after(v0, (i - 1) as nat);
        let v = frag_after(v0, (i - 1) as nat);
        lemma_frag_step_chunk(v.rest, v0.chunk);
        assert(cs.skip(i - 1).drop_first() =~= cs.skip(i as int));
        assert(((i - 1) % 65536 + 1) % 65536 == i % 65536);
    }
}

/// One call on a fragmenter that is not done takes the first of the
/// chunks left; it is the last call exactly when one chunk was left, and
/// otherwise the chunks left after it are the rest.
proof fn lemma_frag_step_chunk(rest: Seq<u8>, chunk: nat)
    requires
        1 <= chunk,
    ensures
        ({
            let take = if chunk <= rest.len() {
                chunk
            } else {
                rest.len()
            };
            &&& rest.subrange(0, take as int) == fragment_chunks(rest, chunk)[0]
            &&& (take == rest.len() <==> fragment_chunks(rest, chunk).len() == 1)
            &&& take < rest.len() ==> fragment_chunks(rest.subrange(take as int, rest.len() as int), chunk)
                == fragment_chunks(rest, chunk).drop_first()
            &&& fragment_chunks(rest, chunk).len() >= 1
        }),
{
    lemma_fragment_chunks(rest, chunk);
    if chunk < rest.len() {
        lemma_fragment_chunks(rest.skip(chunk as int), chunk);
        assert(rest.subrange(chunk as int, rest.len() as int) =~= rest.skip(chunk as int));
        assert(rest.subrange(0, chunk as int) =~= rest.take(chunk as int));
        assert(fragment_chunks(rest, chunk).drop_first() =~= fragment_chunks(rest.skip(chunk as int), chunk));
    } else {
        assert(rest.subrange(0, rest.len() as int) =~= rest);
    }
}

/// The chunk size a `max_fragment` gives: 0 counts as 1.
pub open spec fn chunk_of(max_fragment: u8) -> nat {
    if max_fragment == 0 {
        1
    } else {
        max_fragment as nat
    }
}

impl<'a> Fragmenter<'a> {
    /// The chunk size stays within `1..=255`.
    pub closed spec fn wf(&self) -> bool {
        1 <= self.chunk <= 255
    }

    /// Fragments `payload` into chunks of at most `max_fragment` bytes
    /// (0 counts as 1). An empty payload still yields exactly one empty,
    /// last fragment, so the receiver sees the message exist.
    pub fn new(stream: StreamId, message: MessageId, payload: &'a [u8], max_fragment: u8) -> (f:
        Fragmenter<'a>)
        ensures
            f.wf(),
            f@ == (FragmenterView {
                stream,
                message,
                rest: payload@,
                fragment: 0,
                chunk: chunk_of(max_fragment),
                done: false,
            }),
    {
        Fragmenter {
            stream,
            message,
            rest: payload,
            fragment: 0,
            chunk: if max_fragment == 0 {
                1
            } else {
                max_fragment as usize
            },
            done: false,
        }
    }

    /// Bytes not yet emitted.
    pub fn remaining(&self) -> (n: usize)
        ensures
            n == self@.rest.len(),
    {
        self.rest.len()
    }

    /// The next `(header, chunk)`, or `None` after the last fragment.
    ///
    /// Each fragment takes the first `min(chunk, rest)` bytes of what is
    /// left; the fragment that leaves nothing is the last one.
    pub fn next_fragment(&mut self) -> (r: Option<(MessageHeader, &'a [u8])>)
        requires
            old(self).wf(),
        ensures
            final(self).wf(),
            old(self)@.done ==> r is None && final(self)@ == old(self)@,
            !old(self)@.done ==> ({
                let take = if old(self)@.chunk <= old(self)@.rest.len() {
                    old(self)@.chunk
                } else {
                    old(self)@.rest.len()
                };
                &&& r matches Some((h, c)) && {
                    &&& c@ == old(self)@.rest.subrange(0, take as int)
                    &&& h == (MessageHeader {
                        stream: old(self)@.stream,
                        message: old(self)@.message,
                        fragment: old(self)@.fragment,
                        last: take == old(self)@.rest.len(),
                        len: take as u8,
                    })
                }
                &&& final(self)@ == (FragmenterView {
                    rest: old(self)@.rest.subrange(take as int, old(self)@.rest.len() as int),
                    fragment: ((old(self)@.fragment + 1) % 65536) as u16,
                    done: take == old(self)@.rest.len(),
                    ..old(self)@
                })
                &&& (final(self)@, match r {
                    Some((h, c)) => Some((h, c@)),
                    None => None,
                }) == frag_step(old(self)@)
                &&& r matches Some((h, c)) && c@ == fragment_chunks(old(self)@.rest, old(self)@.chunk)[0]
                    && (h.last <==> fragment_chunks(old(self)@.rest, old(self)@.chunk).len() == 1)
                    && (!h.last ==> fragment_chunks(final(self)@.rest, old(self)@.chunk)
                    == fragment_chunks(old(self)@.rest, old(self)@.chunk).drop_first())
            }),
    {
        if self.done {
            return None;
        }
        let take = if self.chunk <= self.rest.len() {
            self.chunk
        } else {
            self.rest.len()
        };
        let (chunk, rest) = self.rest.split_at(take);
        self.rest = rest;
        let last = rest.len() == 0;
        self.done = last;
        let header = MessageHeader {
            stream: self.stream,
            message: self.message,
            fragment: self.fragment,
            last,
            len: take as u8,
        };
        self.fragment = self.fragment.wrapping_add(1);
        proof {
            let cs = fragment_chunks(old(self)@.rest, old(self)@.chunk);
            if take < old(self)@.rest.len() {
                lemma_fragment_chunks(rest@, old(self)@.chunk);
                assert(rest@ =~= old(self)@.rest.skip(take as int));
                assert(cs.drop_first() =~= fragment_chunks(rest@, old(self)@.chunk));
                assert(chunk@ =~= old(self)@.rest.take(take as int));
            } else {
                assert(chunk@ =~= old(self)@.rest);
            }
        }
        Some((header, chunk))
    }
}

} // verus!
