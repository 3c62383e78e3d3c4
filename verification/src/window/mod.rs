//! Selective-repeat window (`1 <= N <= 8`), heapless.
//!
//! The wire frame does not change; only DATA uses the window. START and
//! FINISH stay stop-and-wait.

pub mod rx;
pub mod tx;

use vstd::prelude::*;

pub use rx::WindowedReceiver;
pub use tx::WindowedSender;

verus! {

/// Hard ceiling on the window size.
pub const MAX_WINDOW: usize = 8;

/// Window of 8: the PSICOSE-W8 sender.
pub type W8Sender<T> = WindowedSender<T, 8>;

/// Window of 8: the PSICOSE-W8 receiver.
pub type W8Receiver<T> = WindowedReceiver<T, 8>;


} // verus!
