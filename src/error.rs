use vstd::prelude::*;

verus! {

/// Failure kinds of a bootloader exchange.
#[derive(PartialEq, Eq, Structural, Debug, Clone, Copy)]
pub enum Error {
    /// The caller asked for a command the device does not advertise.
    Unsupported,
    /// The caller supplied an invalid address/length combination.
    Address,
    /// Expected bytes never arrived before the link timed out.
    NoReply,
    /// A reply had the right size but failed a semantic check.
    Parse,
    /// The link itself failed.
    Serial,
    /// A reply was shorter or longer than the protocol promised.
    NoComplete,
    /// A definite but negative or unexpected reply byte arrived.
    NoAck,
}

} // verus!
