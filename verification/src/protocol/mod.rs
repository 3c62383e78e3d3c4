//! Wire-level building blocks: frames, CRC-8 and sequence numbers.

pub mod assembler;
pub mod crc;
pub mod frame;
pub mod outbuf;
pub mod sequence;

pub use assembler::FrameAssembler;
pub use crc::{crc8, CRC8_POLY};
pub use frame::{Frame, FrameError, FrameType, FRAME_LEN, PAYLOAD_LEN};
pub use outbuf::OutBuf;
pub use sequence::Sequence;
