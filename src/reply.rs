//! Classification and parsing of the bytes the bootloader sends back.
use crate::command::{REPLY_ACK, REPLY_BUSY, REPLY_NACK};
use crate::error::Error;
use vstd::prelude::*;

verus! {

/// What a single reply byte means.
#[derive(PartialEq, Eq, Structural, Debug, Clone, Copy)]
pub enum Reply {
    Ack,
    Nack,
    Busy,
    Unexpected(u8),
}

pub open spec fn reply_of(b: u8) -> Reply {
    if b == REPLY_ACK {
        Reply::Ack
    } else if b == REPLY_NACK {
        Reply::Nack
    } else if b == REPLY_BUSY {
        Reply::Busy
    } else {
        Reply::Unexpected(b)
    }
}

impl Reply {
    /// Classifies one reply byte.
    pub fn classify(b: u8) -> (r: Reply)
        ensures
            r == reply_of(b),
    {
        if b == REPLY_ACK {
            Reply::Ack
        } else if b == REPLY_NACK {
            Reply::Nack
        } else if b == REPLY_BUSY {
            Reply::Busy
        } else {
            Reply::Unexpected(b)
        }
    }
}

/// The error a captured GET reply fails with, if any.
/// A reply is `ACK, n, version, n opcodes, ACK`.
pub open spec fn get_reply_error(r: Seq<u8>) -> Option<Error> {
    if r.len() == 0 {
        Some(Error::NoComplete)
    } else if r[0] != REPLY_ACK {
        Some(Error::NoAck)
    } else if r.len() < 2 {
        Some(Error::NoComplete)
    } else if r.len() != r[1] + 4 {
        Some(Error::NoComplete)
    } else if r.last() != REPLY_ACK {
        Some(Error::Parse)
    } else {
        None
    }
}

/// Version byte of a well-formed GET reply.
pub open spec fn get_reply_version(r: Seq<u8>) -> u8 {
    r[2]
}

/// Supported opcodes listed by a well-formed GET reply.
pub open spec fn get_reply_opcodes(r: Seq<u8>) -> Seq<u8> {
    r.subrange(3, r.len() - 1)
}

/// Parses a complete GET reply into the bootloader version and its supported opcodes.
pub fn parse_get(reply: &[u8]) -> (r: Result<(u8, Vec<u8>), Error>)
    ensures
        match get_reply_error(reply@) {
            Some(e) => r == Err::<(u8, Vec<u8>), Error>(e),
            None => r matches Ok((v, ops)) && v == get_reply_version(reply@) && ops@
                == get_reply_opcodes(reply@),
        },
{
    let n = reply.len();
    if n == 0 {
        return Err(Error::NoComplete);
    }
    if reply[0] != REPLY_ACK {
        return Err(Error::NoAck);
    }
    if n < 2 {
        return Err(Error::NoComplete);
    }
    if n != reply[1] as usize + 4 {
        return Err(Error::NoComplete);
    }
    if reply[n - 1] != REPLY_ACK {
        return Err(Error::Parse);
    }
    let mut ops: Vec<u8> = Vec::new();
    let mut i: usize = 3;
    while i < n - 1
        invariant
            3 <= i <= n - 1,
            n == reply@.len(),
            ops@ == reply@.subrange(3, i as int),
        decreases n - 1 - i,
    {
        ops.push(reply[i]);
        i = i + 1;
        assert(ops@ == reply@.subrange(3, i as int));
    }
    Ok((reply[2], ops))
}

} // verus!
