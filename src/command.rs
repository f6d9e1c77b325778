//! The bootloader's command set and wire codes.
use crate::error::Error;
use vstd::prelude::*;

verus! {

/// Synchronisation byte sent to open a session.
pub const SYNCH: u8 = 0x7F;

/// Frame accepted.
pub const REPLY_ACK: u8 = 0x79;

/// Frame rejected.
pub const REPLY_NACK: u8 = 0x1F;

/// Device busy.
pub const REPLY_BUSY: u8 = 0xAA;

pub const CMD_GET: u8 = 0x00;

pub const CMD_VER: u8 = 0x01;

pub const CMD_PID: u8 = 0x02;

pub const CMD_READ: u8 = 0x11;

pub const CMD_WRITE: u8 = 0x31;

pub const CMD_ERASE: u8 = 0x44;

pub const CMD_GO: u8 = 0x21;

pub const CMD_W_LOCK: u8 = 0x63;

pub const CMD_W_UNLOCK: u8 = 0x73;

pub const CMD_R_LOCK: u8 = 0x82;

pub const CMD_R_UNLOCK: u8 = 0x92;

/// Payload of the full-chip erase.
pub open spec fn erase_all_payload() -> Seq<u8> {
    seq![0xFFu8, 0xFFu8, 0x00u8]
}

/// A bootloader command.
#[derive(PartialEq, Eq, Structural, Debug, Clone, Copy)]
pub enum Command {
    Get,
    GetVersion,
    GetId,
    ReadMemory,
    WriteMemory,
    EraseMemory,
    Go,
    ReadUnlock,
    ReadLock,
    WriteLock,
    WriteUnlock,
}

/// The opcode of each command.
pub open spec fn opcode_of(c: Command) -> u8 {
    match c {
        Command::Get => CMD_GET,
        Command::GetVersion => CMD_VER,
        Command::GetId => CMD_PID,
        Command::ReadMemory => CMD_READ,
        Command::WriteMemory => CMD_WRITE,
        Command::EraseMemory => CMD_ERASE,
        Command::Go => CMD_GO,
        Command::ReadUnlock => CMD_R_UNLOCK,
        Command::ReadLock => CMD_R_LOCK,
        Command::WriteLock => CMD_W_LOCK,
        Command::WriteUnlock => CMD_W_UNLOCK,
    }
}

/// The command an opcode byte names, if any.
pub open spec fn command_of(b: u8) -> Option<Command> {
    if b == CMD_GET {
        Some(Command::Get)
    } else if b == CMD_VER {
        Some(Command::GetVersion)
    } else if b == CMD_PID {
        Some(Command::GetId)
    } else if b == CMD_READ {
        Some(Command::ReadMemory)
    } else if b == CMD_WRITE {
        Some(Command::WriteMemory)
    } else if b == CMD_ERASE {
        Some(Command::EraseMemory)
    } else if b == CMD_GO {
        Some(Command::Go)
    } else if b == CMD_R_UNLOCK {
        Some(Command::ReadUnlock)
    } else if b == CMD_R_LOCK {
        Some(Command::ReadLock)
    } else if b == CMD_W_LOCK {
        Some(Command::WriteLock)
    } else if b == CMD_W_UNLOCK {
        Some(Command::WriteUnlock)
    } else {
        None
    }
}

impl Command {
    /// The byte that names this command on the wire.
    pub fn opcode(self) -> (r: u8)
        ensures
            r == opcode_of(self),
    {
        match self {
            Command::Get => CMD_GET,
            Command::GetVersion => CMD_VER,
            Command::GetId => CMD_PID,
            Command::ReadMemory => CMD_READ,
            Command::WriteMemory => CMD_WRITE,
            Command::EraseMemory => CMD_ERASE,
            Command::Go => CMD_GO,
            Command::ReadUnlock => CMD_R_UNLOCK,
            Command::ReadLock => CMD_R_LOCK,
            Command::WriteLock => CMD_W_LOCK,
            Command::WriteUnlock => CMD_W_UNLOCK,
        }
    }

    /// The command named by `b`, if it names one.
    pub fn from_opcode(b: u8) -> (r: Option<Command>)
        ensures
            r == command_of(b),
    {
        match b {
            CMD_GET => Some(Command::Get),
            CMD_VER => Some(Command::GetVersion),
            CMD_PID => Some(Command::GetId),
            CMD_READ => Some(Command::ReadMemory),
            CMD_WRITE => Some(Command::WriteMemory),
            CMD_ERASE => Some(Command::EraseMemory),
            CMD_GO => Some(Command::Go),
            CMD_R_UNLOCK => Some(Command::ReadUnlock),
            CMD_R_LOCK => Some(Command::ReadLock),
            CMD_W_LOCK => Some(Command::WriteLock),
            CMD_W_UNLOCK => Some(Command::WriteUnlock),
            _ => None,
        }
    }
}

impl From<Command> for u8 {
    fn from(c: Command) -> (r: u8) {
        c.opcode()
    }
}

impl vstd::std_specs::convert::FromSpecImpl<Command> for u8 {
    open spec fn obeys_from_spec() -> bool {
        true
    }

    open spec fn from_spec(c: Command) -> u8 {
        opcode_of(c)
    }
}

/// Decoding a command's opcode gives back that command, so no two commands share an opcode.
pub proof fn lemma_opcode_round_trip(c: Command)
    ensures
        command_of(opcode_of(c)) == Some(c),
{
}

/// Gates a command on the opcodes the device listed in its GET reply: fails
/// with `Unsupported` unless the command's opcode is among them.
pub fn check_supported(supported: &[u8], c: Command) -> (r: Result<(), Error>)
    ensures
        r is Ok <==> supported@.contains(opcode_of(c)),
        r is Err ==> r == Err::<(), Error>(Error::Unsupported),
{
    let op = c.opcode();
    let mut i: usize = 0;
    while i < supported.len()
        invariant
            i <= supported@.len(),
            op == opcode_of(c),
            forall|k: int| 0 <= k < i ==> supported@[k] != op,
        decreases supported@.len() - i,
    {
        if supported[i] == op {
            return Ok(());
        }
        i = i + 1;
    }
    Err(Error::Unsupported)
}

} // verus!
