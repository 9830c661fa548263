use vstd::prelude::*;

verus! {

/// The error kinds of the storage core.
///
/// `OutOfBounds` doubles as a control-flow signal: an iterator advanced past
/// its first or last entry reports it, and the two-level iterator catches it
/// to cross a block boundary. Only when no further block exists does it reach
/// the caller as genuine exhaustion.
#[derive(Clone, Copy, PartialEq, Eq, Structural, Debug)]
pub enum KvsError {
    /// A located block or range yielded no content.
    DataEmpty,
    /// An iterator was advanced past its first or last entry.
    OutOfBounds,
    /// A complete record or block failed to decode.
    DecodeError,
    /// An underlying file or mapping failure, surfaced by the outer layers.
    IOError,
    /// A transport-level response did not match the expected shape.
    NotMatchCmd,
}

} // verus!
