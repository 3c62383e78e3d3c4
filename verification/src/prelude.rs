//! The names most applications need, in one import.

pub use crate::{
    ByteSink, ByteSource, ByteTransport, Capabilities, DuplexCore, Error, FaceCore, FaceError,
    Fragmenter, Frame, IdleBudget, MessageHeader, MessageId, Node, PeerId, PeerSession, PeerTable,
    PollOutcome, Receiver, RetryPolicy, Sender, SessionConfig, SessionState, SliceSink,
    SliceSource, StreamId, TableError, TxState, W8Receiver, W8Sender, WindowedReceiver,
    WindowedSender, WireCopyError, HEADER_LEN, HELLO_LEN,
};
