//! Contracts for octet-oriented serial ports.
//!
//! A serial port sends and receives one octet (`u8`) at a time, in order.
//! Each trait here is one capability of such a port: sending or receiving,
//! while blocking, blocking for a bounded time, or never blocking, and
//! through an exclusive handle (`Mut...`) or a shared one (`Immut...`). A
//! port implements the ones that it supports, and code that drives a port
//! asks for the ones that it needs:
//!
//! ```text
//! struct Modem<T> { uart: T }
//!
//! impl<T: MutBlockingTx> Modem<T> {
//!     fn attention(&mut self) -> Result<(), T::Error> {
//!         self.uart.puts(b"AT\n").map_err(|(_sent, e)| e)
//!     }
//! }
//! ```
//!
//! An implementation supplies the single-octet call (`putc`, `getc` and
//! their `_wait` and `_try` forms). The multi-octet call (`puts`, `gets` and
//! theirs) comes with the trait: it makes the single-octet calls in order,
//! stops after the first one that moves no octet, and reports how many did.
//! A port whose calls cannot fail names an error type without values, such
//! as `core::convert::Infallible`.
//!
//! A call that never blocks may move only part of what it is given. Its
//! report is the offset at which the caller goes on later:
//!
//! ```text
//! let mut offset = 0;
//! while offset < data.len() {
//!     offset += uart.puts_try(&data[offset..]).map_err(|(_sent, e)| e)?;
//!     // ... let the port drain ...
//! }
//! ```
//!
//! What each multi-octet call reports, for which outcomes of its
//! single-octet calls, is laid down in [`accounting`], with the laws that
//! follow. A port may state what its single-octet calls do (`may_putc` and
//! the like); the multi-octet calls then carry that statement from call to
//! call. [`loopback`] holds a port in memory that does so.

pub mod accounting;
pub mod exclusive;
pub mod loopback;
pub mod shared;

pub use crate::exclusive::{
    MutBlockingRx, MutBlockingRxWithTimeout, MutBlockingTx, MutBlockingTxWithTimeout,
    MutNonBlockingRx, MutNonBlockingTx,
};
pub use crate::loopback::{Loopback, LoopbackError};
pub use crate::shared::{
    ImmutBlockingRx, ImmutBlockingRxWithTimeout, ImmutBlockingTx, ImmutBlockingTxWithTimeout,
    ImmutNonBlockingRx, ImmutNonBlockingTx,
};

// Short names for the exclusive-access traits.
pub use crate::exclusive::MutBlockingRx as BlockingRx;
pub use crate::exclusive::MutBlockingRxWithTimeout as BlockingRxWithTimeout;
pub use crate::exclusive::MutBlockingTx as BlockingTx;
pub use crate::exclusive::MutBlockingTxWithTimeout as BlockingTxWithTimeout;
pub use crate::exclusive::MutNonBlockingRx as NonBlockingRx;
pub use crate::exclusive::MutNonBlockingTx as NonBlockingTx;
