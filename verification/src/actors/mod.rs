//! Cooperative orchestration above the wire protocol.
//!
//! The protocol (`frame`, `Sender`, `Receiver`) does not depend on this
//! module. With several links to serve from one thread and no RTOS,
//! register one [`RxActor`] per link on a [`System`] and call
//! [`System::tick`].
//!
//! ```text
//!             System<A, N>   (round-robin)
//!                  | tick()
//!          +-------+-------+
//!          v               v
//!     RxActor<T>       RxActor<T>
//!          |               |
//!     Receiver<T>      Receiver<T>
//! ```
//!
//! `Receiver::poll` is already non-blocking and consumes at most one byte
//! per call: that is the [`Actor::tick`] contract.

pub mod actor;
pub mod rx_actor;
pub mod system;

pub use actor::{Actor, Tick};
pub use rx_actor::RxActor;
pub use system::{ActorId, SpawnError, Step, System};
