//! The byte link the engine talks through.
use vstd::prelude::*;

verus! {

/// Why a link operation failed.
#[derive(PartialEq, Eq, Structural, Debug, Clone, Copy)]
pub enum LinkError {
    /// Nothing arrived before the link's timeout.
    TimedOut,
    /// The link itself malfunctioned.
    Failed,
}

/// A blocking, half-duplex byte link with a timeout, such as a serial port.
///
/// Callers implement it for their own port. Of an implementation the engine
/// assumes one thing only: a successful `read_exact(n)` returns `n` bytes, as
/// `std::io::Read::read_exact` fills its whole buffer.
pub trait Transport {
    /// Writes all of `buf`.
    fn write_all(&mut self, buf: &[u8]) -> (r: Result<(), LinkError>);

    /// Reads exactly `n` bytes.
    fn read_exact(&mut self, n: usize) -> (r: Result<Vec<u8>, LinkError>)
        ensures
            r matches Ok(v) ==> v@.len() == n,
    ;

    /// Throws away up to `max` bytes that are already waiting, if any.
    fn discard(&mut self, max: usize);
}

} // verus!
