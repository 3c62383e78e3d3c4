//! The peer-to-peer layer: identities, sessions and the hello handshake,
//! message fragmentation, and the neighbor table.
//!
//! Nothing here enters the four-byte frame: identities, hellos, headers and
//! fragments are ordinary payload bytes.

pub mod copy;
pub mod duplex;
pub mod link;
pub mod node;
pub mod peer;
pub mod session;
pub mod stream;
pub mod table;

pub use peer::PeerId;
pub use session::{
    Capabilities, HandshakeError, PeerSession, SessionConfig, SessionState, HELLO_LEN,
    PROTOCOL_VERSION,
};
pub use stream::{
    Fragmenter, HeaderError, MessageHeader, MessageId, StreamId, HEADER_LEN,
};
pub use table::{PeerEntry, PeerTable, TableError, MAX_PEERS};
pub use node::Node;
pub use duplex::{DuplexCore, DuplexFull, WireCopyError};
pub use link::{LinkError, LinkEvent, LinkOffer, LinkState, PumpEvent};
pub use copy::{CopyOffer, CopyState, CopyStep, COPY_ROUNDS};
