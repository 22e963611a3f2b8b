//! Frames: a tick, a player slot and one tagged command.
use vstd::prelude::*;
use crate::cursor::{bits_le, byte_at, bytes_from, Cursor};
use crate::data_tables::{schema_parse_result, DataTable};
use crate::error::DemoError;
use crate::packet::{packet_at, Packet};
use crate::message::messages_match;
use crate::string_tables::{snapshot_result, StringTables};

verus! {

/// The payload of a frame, selected by its command tag.
pub enum Command {
    SignOn(Packet),
    Packet(Packet),
    SyncTick,
    ConsoleCmd(Vec<u8>),
    UserCmd(Vec<u8>),
    DataTables(DataTable),
    /// The last frame of a capture.
    Stop,
    CustomData,
    StringTables(StringTables),
}

/// The tag that selects each command.
pub open spec fn command_tag(c: Command) -> u8 {
    match c {
        Command::SignOn(_) => 1,
        Command::Packet(_) => 2,
        Command::SyncTick => 3,
        Command::ConsoleCmd(_) => 4,
        Command::UserCmd(_) => 5,
        Command::DataTables(_) => 6,
        Command::Stop => 7,
        Command::CustomData => 8,
        Command::StringTables(_) => 9,
    }
}

/// The region of a payload with a 32-bit length at bit `at`, if the length is
/// non-negative and the region is there.
pub open spec fn payload_region(buf: Seq<u8>, at: int) -> Option<Seq<u8>> {
    let n = bits_le(buf, at, 32) as u32 as i32;
    if at + 32 > buf.len() * 8 || n < 0 || at + 32 + 8 * n > buf.len() * 8 {
        None
    } else {
        Some(bytes_from(buf, at + 32).take(n as int))
    }
}

/// Whether a command carries a packet with the messages described.
pub open spec fn packet_payload(c: Command, ms: Seq<crate::message::MessageModel>) -> bool {
    match c {
        Command::SignOn(p) => messages_match(p.messages@, ms),
        Command::Packet(p) => messages_match(p.messages@, ms),
        _ => false,
    }
}

/// What reading the payload of a command with tag `which` at bit `at` gives,
/// with `end` the bit after it.
pub open spec fn command_outcome(
    which: u8,
    r: Result<Command, DemoError>,
    buf: Seq<u8>,
    at: int,
    end: int,
) -> bool {
    &&& (!(1 <= which <= 9) ==> r == Err::<Command, DemoError>(DemoError::UnknownCommand(which))
        && end == at)
    &&& (r matches Ok(c) ==> command_tag(c) == which)
    &&& (which == 3 || which == 7 || which == 8 ==> r.is_ok() && end == at)
    &&& (which == 1 || which == 2 ==> match packet_at(buf, at) {
        Ok((ms, e)) => (r matches Ok(c) && packet_payload(c, ms)) && end == e,
        Err(err) => r == Err::<Command, DemoError>(err),
    })
    &&& (which == 6 ==> (payload_region(buf, at) matches Some(region) ==> match r {
        Ok(Command::DataTables(dt)) => schema_parse_result(Ok::<DataTable, DemoError>(dt), region, 0),
        Ok(_) => false,
        Err(e) => schema_parse_result(Err::<DataTable, DemoError>(e), region, 0),
    }))
    &&& (which == 9 ==> (payload_region(buf, at) matches Some(region) ==> match r {
        Ok(Command::StringTables(st)) => snapshot_result(Ok::<StringTables, DemoError>(st), region, 0),
        Ok(_) => false,
        Err(e) => snapshot_result(Err::<StringTables, DemoError>(e), region, 0),
    }))
    &&& (which == 6 || which == 9 ==> match payload_region(buf, at) {
        Some(region) => r is Ok ==> end == at + 32 + 8 * region.len(),
        None => r is Err,
    })
    &&& (which == 4 ==> {
        let n = bits_le(buf, at, 32) as u32 as i32;
        if at + 32 > buf.len() * 8 {
            r == Err::<Command, DemoError>(DemoError::OutOfBounds)
        } else if n <= 0 {
            r == Err::<Command, DemoError>(DemoError::BadLength)
        } else if at + 32 + 8 * n > buf.len() * 8 {
            r == Err::<Command, DemoError>(DemoError::OutOfBounds)
        } else {
            (r matches Ok(Command::ConsoleCmd(b)) && b@ == bytes_from(buf, at + 32).take(n as int))
                && end == at + 32 + 8 * n
        }
    })
    &&& (which == 5 ==> {
        let n = bits_le(buf, at + 32, 32) as u32 as i32;
        if at + 64 > buf.len() * 8 {
            r == Err::<Command, DemoError>(DemoError::OutOfBounds)
        } else if n < 0 {
            r == Err::<Command, DemoError>(DemoError::BadLength)
        } else if at + 64 + 8 * n > buf.len() * 8 {
            r == Err::<Command, DemoError>(DemoError::OutOfBounds)
        } else {
            (r matches Ok(Command::UserCmd(b)) && b@ == bytes_from(buf, at + 64).take(n as int))
                && end == at + 64 + 8 * n
        }
    })
}

impl Command {
    /// Reads the payload of the command with tag `which`. Tags outside
    /// 1 to 9 are an error; the sync-tick, stop and custom-data commands carry
    /// nothing.
    pub fn new(which: u8, data: &mut Cursor) -> (r: Result<Command, DemoError>)
        requires
            old(data).wf(),
        ensures
            final(data).wf(),
            final(data).buf() == old(data).buf(),
            command_outcome(which, r, old(data).buf(), old(data).pos() as int, final(data).pos() as int),
            !(1 <= which <= 9) || which == 3 || which == 7 || which == 8 ==> old(data).unchanged(
                &*final(data),
            ),
            r matches Ok(Command::ConsoleCmd(b)) ==> {
                let n = bits_le(old(data).buf(), old(data).pos() as int, 32) as u32 as i32;
                &&& n > 0
                &&& b@ == old(data).rest().skip(4).take(n as int)
                &&& old(data).advanced(&*final(data), (32 + 8 * n) as nat)
            },
            r matches Ok(Command::UserCmd(b)) ==> {
                let n = bits_le(old(data).buf(), old(data).pos() as int + 32, 32) as u32 as i32;
                &&& n >= 0
                &&& b@ == old(data).rest().skip(8).take(n as int)
                &&& old(data).advanced(&*final(data), (64 + 8 * n) as nat)
            },
    {
        match which {
            1 => {
                let packet = Packet::parse(data)?;
                Ok(Command::SignOn(packet))
            },
            2 => {
                let packet = Packet::parse(data)?;
                Ok(Command::Packet(packet))
            },
            3 => Ok(Command::SyncTick),
            4 => {
                let length = data.read_i32()?;
                if length <= 0 {
                    return Err(DemoError::BadLength);
                }
                let ghost mid = *data;
                let chunk = data.read_bytes(length as usize)?;
                proof {
                    crate::cursor::lemma_rest_skip(*old(data), mid, 4);
                }
                Ok(Command::ConsoleCmd(chunk))
            },
            5 => {
                let _outgoing_sequence = data.read_i32()?;
                let length = data.read_i32()?;
                if length < 0 {
                    return Err(DemoError::BadLength);
                }
                let ghost mid = *data;
                let chunk = data.read_bytes(length as usize)?;
                proof {
                    crate::cursor::lemma_rest_skip(*old(data), mid, 8);
                }
                Ok(Command::UserCmd(chunk))
            },
            6 => {
                let length = data.read_i32()?;
                if length < 0 {
                    return Err(DemoError::BadLength);
                }
                let mut chunk = data.chunk_bytes(length as usize)?;
                let table = DataTable::parse(&mut chunk)?;
                Ok(Command::DataTables(table))
            },
            7 => Ok(Command::Stop),
            8 => Ok(Command::CustomData),
            9 => {
                let length = data.read_i32()?;
                if length < 0 {
                    return Err(DemoError::BadLength);
                }
                let mut chunk = data.chunk_bytes(length as usize)?;
                let table = StringTables::parse(&mut chunk)?;
                Ok(Command::StringTables(table))
            },
            n => Err(DemoError::UnknownCommand(n)),
        }
    }
}

/// One frame of the capture.
pub struct Frame {
    pub command: Command,
    pub tick_number: u32,
    pub playerslot: i8,
}

/// Whether `f` is the frame whose bytes run from bit `at` to bit `end`.
pub open spec fn frame_read(f: Frame, buf: Seq<u8>, at: int, end: int) -> bool {
    &&& at + 48 <= buf.len() * 8
    &&& command_tag(f.command) == byte_at(buf, at)
    &&& f.tick_number == bits_le(buf, at + 8, 32) as u32
    &&& f.playerslot == bits_le(buf, at + 40, 8) as u8 as i8
    &&& command_outcome(byte_at(buf, at), Ok::<Command, DemoError>(f.command), buf, at + 48, end)
}

impl Frame {
    /// Reads a frame: an 8-bit command tag, a 32-bit tick, an 8-bit signed
    /// player slot, and the command's payload.
    pub fn new(data: &mut Cursor) -> (r: Result<Frame, DemoError>)
        requires
            old(data).wf(),
        ensures
            final(data).wf(),
            final(data).buf() == old(data).buf(),
            r matches Ok(f) ==> frame_read(f, old(data).buf(), old(data).pos() as int, final(data).pos() as int),
            r matches Ok(f) ==> {
                let buf = old(data).buf();
                let at = old(data).pos() as int;
                &&& command_tag(f.command) == byte_at(buf, at)
                &&& f.tick_number == bits_le(buf, at + 8, 32) as u32
                &&& f.playerslot == bits_le(buf, at + 40, 8) as u8 as i8
            },
            ({
                let tag = byte_at(old(data).buf(), old(data).pos() as int);
                old(data).can_read(48) && (tag == 3 || tag == 7 || tag == 8)
            }) ==> (r.is_ok() && old(data).advanced(&*final(data), 48)),
            ({
                let tag = byte_at(old(data).buf(), old(data).pos() as int);
                old(data).can_read(48) && (tag == 1 || tag == 2)
            }) ==> match packet_at(old(data).buf(), old(data).pos() + 48int) {
                Ok((ms, e)) => (r matches Ok(f) && packet_payload(f.command, ms)) && final(data).pos() == e,
                Err(err) => r == Err::<Frame, DemoError>(err),
            },
            old(data).can_read(48) ==> command_outcome(
                byte_at(old(data).buf(), old(data).pos() as int),
                match r {
                    Ok(f) => Ok::<Command, DemoError>(f.command),
                    Err(e) => Err::<Command, DemoError>(e),
                },
                old(data).buf(),
                old(data).pos() + 48int,
                final(data).pos() as int,
            ),
            old(data).can_read(48) && !(1 <= byte_at(old(data).buf(), old(data).pos() as int) <= 9)
                ==> r == Err::<Frame, DemoError>(
                DemoError::UnknownCommand(byte_at(old(data).buf(), old(data).pos() as int)),
            ),
    {
        let which_command = data.read_u8()?;
        let tick_number = data.read_u32()?;
        let playerslot = data.read_i8()?;
        let command = Command::new(which_command, data)?;
        Ok(Frame { command, tick_number, playerslot })
    }

    /// Whether this frame ends the capture.
    pub fn is_last(&self) -> (r: bool)
        ensures
            r == (self.command is Stop),
    {
        match self.command {
            Command::Stop => true,
            _ => false,
        }
    }
}

} // verus!
