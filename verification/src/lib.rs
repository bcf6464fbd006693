//! Scatter-reads: one buffer filled from many byte ranges of a file, in the
//! order in which the ranges were given.
//!
//! A request is a [`ReadRangeBuf`]: a list of `(offset, length)` ranges and the
//! buffer that receives their bytes. Four backends fill it:
//!
//! - [`read_ranges`]: one positional read per range;
//! - [`mmap`]: one mapped window that covers the request, copied out of;
//! - [`aio`]: one request descriptor per range on a kernel queue;
//! - [`lio`]: control blocks handed over in batches by a call that waits.
//!
//! The library makes no call into the system. Each backend says what its
//! driver has to do next, and takes what the system answered; the driver
//! makes the call. What a backend decides is stated over the mathematics of
//! [`layout`], and [`laws`] proves that all four come back with the same
//! bytes.

pub mod aio;
pub mod descriptor;
pub mod error;
pub mod laws;
pub mod layout;
pub mod lio;
pub mod mmap;
pub mod read_ranges;

pub use error::ReadError;
pub use read_ranges::{Dropper, ReadRangeBuf, SyncAction, SyncRead};
