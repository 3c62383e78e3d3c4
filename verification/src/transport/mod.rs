//! Transport-layer traits.

pub mod demux;
pub mod face;
pub mod traits;

pub use traits::{read_bytes, read_call, write_call, written_bytes, ByteSink, ByteSource, ByteTransport, LinkCall};
pub use face::{FaceCore, FaceError};
