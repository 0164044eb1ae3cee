//! The error taxonomy shared by every container realization.

use vstd::prelude::*;

verus! {

/// Why a container operation failed.
///
/// `Io` stands for any failure of the underlying storage, including an input
/// that does not fit a block; `Serializer` for an encoding or decoding
/// failure in a conversion adapter; `InvalidId` for an operation that
/// targeted an id that is not currently reserved. `Reserved` is defined but
/// never raised by the core.
#[derive(Clone, Copy, Debug, PartialEq, Eq, Structural)]
pub enum ContainerError {
    Io,
    Serializer,
    InvalidId,
    Reserved,
}

} // verus!
