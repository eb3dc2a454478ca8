//! Byte-level vocabulary of the host link: opcodes, status codes, command
//! frames and little-endian integers.
use vstd::prelude::*;

use crate::sd::SdCardError;

verus! {

/// Opcode of the STATUS command.
pub const CMD_STATUS: u8 = 0x02;

/// Opcode of the READ command.
pub const CMD_READ: u8 = 0x03;

/// Opcode of the WRITE command.
pub const CMD_WRITE: u8 = 0x04;

/// Frame byte that ends a command; inert while a write payload is collected.
pub const CMD_END: u8 = 0xF3;

/// STATUS mode that reports the card state and capacity.
pub const CMD_STATUS_GENERAL: u8 = 0x00;

/// STATUS mode that re-runs the card initialisation.
pub const CMD_STATUS_INIT: u8 = 0x01;

/// Status byte sent back to the host.
#[derive(Clone, Copy, Debug, PartialEq, Eq, Structural)]
pub enum Status {
    Success,
    SerialFault,
    SdFault,
    SdTimeout,
    SdNotReady,
    SdTransportFault,
}

/// Wire value of each status.
pub open spec fn status_code(s: Status) -> u8 {
    match s {
        Status::Success => 0x01,
        Status::SerialFault => 0x80,
        Status::SdFault => 0x81,
        Status::SdTimeout => 0x82,
        Status::SdNotReady => 0x83,
        Status::SdTransportFault => 0x84,
    }
}

/// Status reported for each card error.
pub open spec fn status_of_error(e: SdCardError) -> Status {
    match e {
        SdCardError::SpiError => Status::SdTransportFault,
        SdCardError::Timeout => Status::SdTimeout,
        SdCardError::InvalidResponse => Status::SdFault,
    }
}

impl Status {
    /// The byte that stands for this status on the wire.
    pub fn code(self) -> (r: u8)
        ensures
            r == status_code(self),
    {
        match self {
            Status::Success => 0x01,
            Status::SerialFault => 0x80,
            Status::SdFault => 0x81,
            Status::SdTimeout => 0x82,
            Status::SdNotReady => 0x83,
            Status::SdTransportFault => 0x84,
        }
    }
}

impl From<SdCardError> for Status {
    fn from(t: SdCardError) -> (r: Status)
        ensures
            r == status_of_error(t),
    {
        match t {
            SdCardError::SpiError => Status::SdTransportFault,
            SdCardError::Timeout => Status::SdTimeout,
            SdCardError::InvalidResponse => Status::SdFault,
        }
    }
}

impl vstd::std_specs::convert::FromSpecImpl<SdCardError> for Status {
    open spec fn obeys_from_spec() -> bool {
        true
    }

    open spec fn from_spec(t: SdCardError) -> Status {
        status_of_error(t)
    }
}

/// The eight bytes of `w`, least significant first.
pub open spec fn le_bytes(w: u64) -> Seq<u8> {
    seq![
        w as u8,
        (w >> 8u64) as u8,
        (w >> 16u64) as u8,
        (w >> 24u64) as u8,
        (w >> 32u64) as u8,
        (w >> 40u64) as u8,
        (w >> 48u64) as u8,
        (w >> 56u64) as u8,
    ]
}

/// The integer whose least significant byte comes first in `s`.
pub open spec fn le_value(s: Seq<u8>) -> u64
    recommends
        s.len() >= 8,
{
    (s[0] as u64) | ((s[1] as u64) << 8u64) | ((s[2] as u64) << 16u64) | ((s[3] as u64) << 24u64)
        | ((s[4] as u64) << 32u64) | ((s[5] as u64) << 40u64) | ((s[6] as u64) << 48u64) | ((
    s[7] as u64) << 56u64)
}

/// Decoding the little-endian bytes of a value gives the value back.
pub proof fn lemma_le_value_of_bytes(w: u64)
    ensures
        le_value(le_bytes(w)) == w,
{
    assert(((w as u8) as u64) | ((((w >> 8u64) as u8) as u64) << 8u64) | ((((w >> 16u64) as u8)
        as u64) << 16u64) | ((((w >> 24u64) as u8) as u64) << 24u64) | ((((w >> 32u64) as u8)
        as u64) << 32u64) | ((((w >> 40u64) as u8) as u64) << 40u64) | ((((w >> 48u64) as u8)
        as u64) << 48u64) | ((((w >> 56u64) as u8) as u64) << 56u64) == w) by (bit_vector);
}

/// Encoding the value of eight bytes gives the same bytes back.
pub proof fn lemma_le_bytes_of_value(s: Seq<u8>)
    requires
        s.len() == 8,
    ensures
        le_bytes(le_value(s)) == s,
{
    let b0 = s[0];
    let b1 = s[1];
    let b2 = s[2];
    let b3 = s[3];
    let b4 = s[4];
    let b5 = s[5];
    let b6 = s[6];
    let b7 = s[7];
    let v = le_value(s);
    assert(v == (b0 as u64) | ((b1 as u64) << 8u64) | ((b2 as u64) << 16u64) | ((b3 as u64)
        << 24u64) | ((b4 as u64) << 32u64) | ((b5 as u64) << 40u64) | ((b6 as u64) << 48u64) | ((
    b7 as u64) << 56u64));
    assert(v as u8 == b0 && (v >> 8u64) as u8 == b1 && (v >> 16u64) as u8 == b2 && (v >> 24u64)
        as u8 == b3 && (v >> 32u64) as u8 == b4 && (v >> 40u64) as u8 == b5 && (v >> 48u64) as u8
        == b6 && (v >> 56u64) as u8 == b7) by (bit_vector)
        requires
            v == (b0 as u64) | ((b1 as u64) << 8u64) | ((b2 as u64) << 16u64) | ((b3 as u64)
                << 24u64) | ((b4 as u64) << 32u64) | ((b5 as u64) << 40u64) | ((b6 as u64)
                << 48u64) | ((b7 as u64) << 56u64),
    ;
    assert(le_bytes(v) =~= s);
}

/// Reads a little-endian `u64` from the first eight bytes of `b`.
pub fn read_dword_le(b: &[u8]) -> (r: u64)
    requires
        b@.len() >= 8,
    ensures
        r == le_value(b@),
        le_bytes(r) == b@.subrange(0, 8),
{
    let r = (b[0] as u64) | ((b[1] as u64) << 8u64) | ((b[2] as u64) << 16u64) | ((b[3] as u64)
        << 24u64) | ((b[4] as u64) << 32u64) | ((b[5] as u64) << 40u64) | ((b[6] as u64) << 48u64)
        | ((b[7] as u64) << 56u64);
    proof {
        let s = b@.subrange(0, 8);
        lemma_le_bytes_of_value(s);
        assert(le_value(s) == le_value(b@));
    }
    r
}

/// Appends the little-endian bytes of `w` to `out`.
pub fn push_dword_le(out: &mut Vec<u8>, w: u64)
    ensures
        final(out)@ == old(out)@ + le_bytes(w),
{
    let ghost before = out@;
    out.push(w as u8);
    out.push((w >> 8u64) as u8);
    out.push((w >> 16u64) as u8);
    out.push((w >> 24u64) as u8);
    out.push((w >> 32u64) as u8);
    out.push((w >> 40u64) as u8);
    out.push((w >> 48u64) as u8);
    out.push((w >> 56u64) as u8);
    assert(out@ =~= before + le_bytes(w));
}

/// A request decoded from one command frame.
#[derive(Clone, Copy, Debug, PartialEq, Eq, Structural)]
pub enum Command {
    Status(u8),
    Read(u64),
    Write(u64),
}

/// The command that a frame (terminator excluded) stands for, if any.
pub open spec fn parse_frame(s: Seq<u8>) -> Option<Command> {
    if s.len() == 2 && s[0] == CMD_STATUS {
        Some(Command::Status(s[1]))
    } else if s.len() == 9 && s[0] == CMD_READ {
        Some(Command::Read(le_value(s.subrange(1, 9))))
    } else if s.len() == 9 && s[0] == CMD_WRITE {
        Some(Command::Write(le_value(s.subrange(1, 9))))
    } else {
        None
    }
}

impl Command {
    /// Decodes a frame; a wrong length or an unknown opcode is refused.
    pub fn try_from(bytes: &[u8]) -> (r: Result<Command, ()>)
        ensures
            r matches Ok(c) ==> parse_frame(bytes@) == Some(c),
            r is Err ==> parse_frame(bytes@) is None,
    {
        if bytes.len() == 0 {
            return Err(());
        }
        match bytes[0] {
            CMD_STATUS => {
                if bytes.len() != 2 {
                    return Err(());
                }
                Ok(Command::Status(bytes[1]))
            },
            CMD_READ => {
                if bytes.len() != 9 {
                    return Err(());
                }
                let a = read_dword_le(vstd::slice::slice_subrange(bytes, 1, 9));
                Ok(Command::Read(a))
            },
            CMD_WRITE => {
                if bytes.len() != 9 {
                    return Err(());
                }
                let a = read_dword_le(vstd::slice::slice_subrange(bytes, 1, 9));
                Ok(Command::Write(a))
            },
            _ => Err(()),
        }
    }
}

} // verus!
