# psicose

A heapless framework for reliable byte links, written and proved with Verus.

The wire frame is four bytes, `TYPE | SEQ | DATA | CRC-8`, and carries one
payload byte. Above it:

- `protocol`: CRC-8, frames, sequence numbers, the frame assembler and the
  outgoing byte buffer.
- `tx`, `rx`: the stop-and-wait sender and receiver (START, DATA, FINISH and
  ABORT, each acknowledged; retries on NACK or timeout).
- `window`: the selective-repeat sender and receiver (`1 <= N <= 8`).
- `exchange`: one DATA byte followed across a sender and a receiver, from
  the frame written to the ACK read back.
- `stream`: source-to-sink loops over the sender and receiver.
- `transport`: the `ByteTransport` boundary and the demultiplexer that lets a
  sender and a receiver share one physical port.
- `p2p`: identities, the twelve-byte hello and its negotiation, message
  headers and fragmentation, the peer table, the hello state machine of one
  live neighbor (`LinkState`), the decisions of a stream copy across a wire
  (`CopyState`), and an in-memory duplex wire.
- `actors`: a round-robin scheduler of cooperative actors.
- `fault`: a transport wrapper that drops, corrupts and delays on purpose.
- `aead`: ChaCha20-Poly1305 on application payloads.

Every operation is a small state machine whose contract says exactly how it
moves the model state for every answer the transport may give. A
`ByteTransport` may keep a record of the calls made on it (`calls()`, when
`keeps_calls()`), and every poll states the calls it made on such a
transport: the byte it handed to `write_byte` and what
`read_byte` returned are the ones its step was taken on. The blocking
sends state their whole run of polls and the calls it made. The receive
loops and the windowed send loop state every poll they made, the calls on
the transport, the bytes taken from a `ByteSource` (`reads()`) or handed to
a `ByteSink` (`accepted()`), and which poll or which limit ended them; the
stop-and-wait send loops state the same of every send that completed.
`MockTransport`, `FaultyTransport`, `SliceSource` and `SliceSink` keep
their records. `MockTransport` states that its record replays its script:
reads receive the script in order and never fail, and a write is refused
exactly when its buffer is full.

Laws (proof functions) state what holds across operations, such as that a
receiver delivers a byte only after its ACK is entirely written, that a
selective-repeat receiver delivers each stream position once and in order
whatever order the DATA frames arrive in, that a receiver closed by FINISH
delivers nothing and writes no NACK until a START, that a send on a silent
transport gives up after exactly its retries, that the
frame a sender writes makes a receiver deliver its byte and answer with the
ACK that completes the send, that a handshake leaves both peers established
with the same negotiated configuration, that CRC-8 detects every
single-bit error, that an idle budget runs out exactly on the poll after its
limit, that a windowed `Acked` frees exactly the written DATA slot of the
ACK's sequence, that a loaded frame comes out of its buffer byte by byte,
or that a loop of fragmenter calls yields its message's chunks in order. These laws speak of the model states and
of the transport's record. Transports, sources and sinks implemented
outside the verifier (the adapters in `app/`, the test doubles in `tests/`)
keep no record: the model steps stated for them still hold for whatever
they answer, and nothing is claimed of a record they do not keep.

Not here: the cooperative pump that drives a sender and a receiver on one
link, and what is built on it (`PeerLink` with its pump,
`Node::connect`/`accept`, `establish`, `send_message`, `DuplexWire::copy`,
session statistics). Their code is not part of this project's sources.
`LinkState` holds the decisions of a live link without the pump: what to
offer next, what each pump event does to the link and the peer table, and
the window limit the pump must run with (1 during the hello, then the
agreed `max_window` when both peers announce the window feature).
`CopyState` likewise holds the decisions of copying a byte stream across a
wire, for the caller that drives the two pumps.

`src/` is the verified library; `tests/` runs it; `app/` holds the adapters
for `embedded-io` drivers and the shared-ownership wrappers around the
verified demultiplexing cores.
