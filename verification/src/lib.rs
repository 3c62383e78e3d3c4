//! PSICOSE: a heapless framework for reliable byte links.
//!
//! The wire frame is four bytes: `TYPE | SEQ | DATA | CRC`. Above it sit a
//! stop-and-wait sender and receiver, a selective-repeat window, byte-stream
//! helpers, a cooperative scheduler, fault injection, authenticated
//! encryption of payloads, and a small peer-to-peer session layer.
#![allow(unused_imports)]

pub mod actors;
pub mod aead;
pub mod error;
pub mod exchange;
pub mod fault;
pub mod p2p;
pub mod prelude;
pub mod protocol;
pub mod rx;
pub mod stream;
pub mod test_support;
pub mod timeout;
pub mod transport;
pub mod tx;
pub mod window;

pub use aead::{
    open, open_from, seal, seal_to, sealed_len, AeadError, KEY_LEN, NONCE_LEN, TAG_LEN,
};
pub use error::Error;
pub use p2p::{
    Capabilities, DuplexCore, DuplexFull, Fragmenter, HandshakeError, HeaderError, MessageHeader,
    MessageId, Node, PeerEntry, PeerId, PeerSession, PeerTable, SessionConfig, SessionState,
    StreamId, TableError, WireCopyError, HEADER_LEN, HELLO_LEN, MAX_PEERS, PROTOCOL_VERSION,
};
pub use protocol::{
    crc8, Frame, FrameAssembler, FrameError, FrameType, Sequence, CRC8_POLY, FRAME_LEN,
    PAYLOAD_LEN,
};
pub use rx::{PollOutcome, Receiver, RxState};
pub use stream::{
    recv_all, recv_all_budgeted, recv_all_windowed, recv_all_windowed_budgeted, recv_bytes,
    send_all, send_all_windowed, send_all_windowed_budgeted, send_bytes, SliceFull, SliceSink,
    SliceSource, StreamError,
};
pub use timeout::{IdleBudget, RetryPolicy};
pub use transport::{ByteSink, ByteSource, ByteTransport, FaceCore, FaceError};
pub use tx::{Sender, TxPoll, TxState};
pub use window::{W8Receiver, W8Sender, WindowedReceiver, WindowedSender, MAX_WINDOW};
