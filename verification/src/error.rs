//! The ways in which a scatter-read fails.

use vstd::prelude::*;

verus! {

/// Why a request was given up. The first failure ends the whole request;
/// nothing is retried and no part of the output is handed out.
#[derive(Clone, Copy, Debug, PartialEq, Eq, Structural)]
pub enum ReadError {
    /// The operating system refused a call; the number is its error code,
    /// passed on as it came.
    Os(i32),
    /// A read delivered another number of bytes than its range asked for.
    ShortRead,
    /// The kernel reported on a request that is not outstanding.
    UnknownCompletion,
    /// The window that covers the request cannot be addressed.
    Unmappable,
}

} // verus!
