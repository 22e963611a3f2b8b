//! Network packets: two fixed view blocks, two sequence numbers, and a
//! length-delimited run of framed messages.
use vstd::prelude::*;
use crate::cursor::{bits_le, Cursor};
use crate::error::DemoError;
use crate::message::{framed_list, messages_match, parse_message, Message, MessageModel};
use crate::cursor::bytes_from;

verus! {

/// Whether the float with bit pattern `b` differs from zero (either sign of
/// zero counts as zero; a NaN does not).
pub open spec fn float_nonzero(b: u32) -> bool {
    b % 0x8000_0000 != 0
}

/// Whether a triple of float bit patterns differs from `(0, 0, 0)`.
pub open spec fn triple_nonzero(t: (u32, u32, u32)) -> bool {
    float_nonzero(t.0) || float_nonzero(t.1) || float_nonzero(t.2)
}

/// The three 32-bit values at bit `p`.
pub open spec fn triple_at(buf: Seq<u8>, p: int) -> (u32, u32, u32) {
    (
        bits_le(buf, p, 32) as u32,
        bits_le(buf, p + 32, 32) as u32,
        bits_le(buf, p + 64, 32) as u32,
    )
}

/// Whether a view block holds the values of the block at bit `at`.
pub open spec fn split_read(s: Split, buf: Seq<u8>, at: int) -> bool {
    &&& s.flags == bits_le(buf, at, 32) as u32 as i32
    &&& s.view_origin == triple_at(buf, at + 32)
    &&& s.view_angles == triple_at(buf, at + 128)
    &&& s.local_view_angles == triple_at(buf, at + 224)
    &&& s.view_origin_2 == triple_at(buf, at + 320)
    &&& s.view_angles_2 == triple_at(buf, at + 416)
    &&& s.local_view_angles_2 == triple_at(buf, at + 512)
}

/// One player's view block; floats are kept as their bit patterns.
pub struct Split {
    pub flags: i32,
    pub view_origin: (u32, u32, u32),
    pub view_angles: (u32, u32, u32),
    pub local_view_angles: (u32, u32, u32),
    pub view_origin_2: (u32, u32, u32),
    pub view_angles_2: (u32, u32, u32),
    pub local_view_angles_2: (u32, u32, u32),
}

/// The size of a view block, in bytes.
pub const SPLIT_BYTES: usize = 76;

/// Reads three 32-bit floats as bit patterns.
fn read_triple_f32(data: &mut Cursor) -> (r: Result<(u32, u32, u32), DemoError>)
    requires
        old(data).wf(),
    ensures
        final(data).wf(),
        final(data).buf() == old(data).buf(),
        old(data).can_read(96) ==> (r == Ok::<(u32, u32, u32), DemoError>(
            triple_at(old(data).buf(), old(data).pos() as int),
        ) && old(data).advanced(&*final(data), 96)),
        !old(data).can_read(96) ==> r == Err::<(u32, u32, u32), DemoError>(DemoError::OutOfBounds),
{
    let a = data.read_f32()?;
    let b = data.read_f32()?;
    let c = data.read_f32()?;
    Ok((a, b, c))
}

impl Split {
    pub open spec fn spec_nonzero(&self) -> bool {
        self.flags != 0 || triple_nonzero(self.view_origin) || triple_nonzero(self.view_angles)
            || triple_nonzero(self.local_view_angles) || triple_nonzero(self.view_origin_2)
            || triple_nonzero(self.view_angles_2) || triple_nonzero(self.local_view_angles_2)
    }

    /// Reads a view block: a flag word and six float triples.
    pub fn parse(data: &mut Cursor) -> (r: Result<Split, DemoError>)
        requires
            old(data).wf(),
        ensures
            final(data).wf(),
            final(data).buf() == old(data).buf(),
            old(data).can_read(8 * SPLIT_BYTES as nat) ==> (r matches Ok(s) && split_read(
                s,
                old(data).buf(),
                old(data).pos() as int,
            ) && old(data).advanced(&*final(data), 8 * SPLIT_BYTES as nat)),
            !old(data).can_read(8 * SPLIT_BYTES as nat) ==> r == Err::<Split, DemoError>(DemoError::OutOfBounds),
    {
        let flags = data.read_i32()?;
        let view_origin = read_triple_f32(data)?;
        let view_angles = read_triple_f32(data)?;
        let local_view_angles = read_triple_f32(data)?;
        let view_origin_2 = read_triple_f32(data)?;
        let view_angles_2 = read_triple_f32(data)?;
        let local_view_angles_2 = read_triple_f32(data)?;
        Ok(Split {
            flags,
            view_origin,
            view_angles,
            local_view_angles,
            view_origin_2,
            view_angles_2,
            local_view_angles_2,
        })
    }

    /// Whether any field differs from zero.
    pub fn is_nonzero(&self) -> (r: bool)
        ensures
            r == self.spec_nonzero(),
    {
        self.flags != 0 || triple_is_nonzero(self.view_origin) || triple_is_nonzero(self.view_angles)
            || triple_is_nonzero(self.local_view_angles) || triple_is_nonzero(self.view_origin_2)
            || triple_is_nonzero(self.view_angles_2) || triple_is_nonzero(self.local_view_angles_2)
    }
}

fn triple_is_nonzero(t: (u32, u32, u32)) -> (r: bool)
    ensures
        r == triple_nonzero(t),
{
    t.0 % 0x8000_0000 != 0 || t.1 % 0x8000_0000 != 0 || t.2 % 0x8000_0000 != 0
}

/// The two view blocks that precede a packet's messages.
pub struct CommandInfo {
    pub u: (Split, Split),
}

impl CommandInfo {
    /// Reads the two view blocks.
    pub fn parse(data: &mut Cursor) -> (r: Result<CommandInfo, DemoError>)
        requires
            old(data).wf(),
        ensures
            final(data).wf(),
            final(data).buf() == old(data).buf(),
            old(data).can_read(16 * SPLIT_BYTES as nat) ==> (r matches Ok(c) && split_read(
                c.u.0,
                old(data).buf(),
                old(data).pos() as int,
            ) && split_read(c.u.1, old(data).buf(), old(data).pos() + 8 * 76int) && old(data).advanced(
                &*final(data),
                16 * SPLIT_BYTES as nat,
            )),
            !old(data).can_read(16 * SPLIT_BYTES as nat) ==> r == Err::<CommandInfo, DemoError>(
                DemoError::OutOfBounds,
            ),
    {
        let a = Split::parse(data)?;
        let b = Split::parse(data)?;
        Ok(CommandInfo { u: (a, b) })
    }

    /// Whether either block has a non-zero field.
    pub fn is_nonzero(&self) -> (r: bool)
        ensures
            r == (self.u.0.spec_nonzero() || self.u.1.spec_nonzero()),
    {
        self.u.0.is_nonzero() || self.u.1.is_nonzero()
    }
}

/// A network packet.
pub struct Packet {
    /// Kept for the layout; observed as all zeros.
    pub command_info: CommandInfo,
    pub seq_nr_in: u32,
    pub seq_nr_out: u32,
    pub messages: Vec<Message>,
}

/// The bytes before a packet's message region: two view blocks, two sequence
/// numbers and the region's length.
pub const PACKET_HEADER_BYTES: usize = 164;

/// What reading a packet at bit `at` gives: the messages framed in its
/// region and the bit after the region.
#[verifier::opaque]
pub open spec fn packet_at(buf: Seq<u8>, at: int) -> Result<(Seq<MessageModel>, int), DemoError> {
    let size = bits_le(buf, at + 8 * 160, 32) as u32 as i32;
    if at + 8 * 164 > buf.len() * 8 {
        Err(DemoError::OutOfBounds)
    } else if size < 0 {
        Err(DemoError::BadLength)
    } else if at + 8 * 164 + 8 * size > buf.len() * 8 {
        Err(DemoError::OutOfBounds)
    } else {
        match framed_list(bytes_from(buf, at + 8 * 164).take(size as int), 0) {
            Err(e) => Err(e),
            Ok(ms) => Ok((ms, at + 8 * 164 + 8 * size)),
        }
    }
}

impl Packet {
    /// Reads a packet: the view blocks, the incoming and outgoing sequence
    /// numbers, a 32-bit region length, and then framed messages until the
    /// region is used up.
    pub fn parse(cursor: &mut Cursor) -> (r: Result<Packet, DemoError>)
        requires
            old(cursor).wf(),
        ensures
            final(cursor).wf(),
            final(cursor).buf() == old(cursor).buf(),
            match packet_at(old(cursor).buf(), old(cursor).pos() as int) {
                Ok((ms, e)) => (r matches Ok(p) && messages_match(p.messages@, ms)) && final(cursor).pos() == e,
                Err(err) => r == Err::<Packet, DemoError>(err),
            },
            r matches Ok(p) ==> {
                let buf = old(cursor).buf();
                let at = old(cursor).pos() as int;
                let size = bits_le(buf, at + 8 * 160, 32) as u32 as i32;
                &&& p.seq_nr_in == bits_le(buf, at + 8 * 152, 32) as u32
                &&& p.seq_nr_out == bits_le(buf, at + 8 * 156, 32) as u32
                &&& size >= 0
                &&& old(cursor).advanced(&*final(cursor), (8 * PACKET_HEADER_BYTES + 8 * size) as nat)
            },
    {
        reveal(packet_at);
        let command_info = CommandInfo::parse(cursor)?;
        let seq_nr_in = cursor.read_u32()?;
        let seq_nr_out = cursor.read_u32()?;
        let chunk_size = cursor.read_i32()?;
        if chunk_size < 0 {
            return Err(DemoError::BadLength);
        }
        let mut chunk = cursor.chunk_bytes(chunk_size as usize)?;
        let mut messages: Vec<Message> = Vec::new();
        let ghost after = *cursor;
        let ghost region = chunk.buf();
        let ghost mut acc: Seq<MessageModel> = Seq::empty();
        proof {
            crate::cursor::lemma_bytes_from_start(chunk.buf());
        }
        while !chunk.is_empty()
            invariant
                chunk.wf(),
                chunk.buf() == region,
                region == bytes_from(old(cursor).buf(), old(cursor).pos() + 8 * 164int).take(chunk_size as int),
                messages_match(messages@, acc),
                match framed_list(region, chunk.pos() as int) {
                    Ok(rest) => framed_list(region, 0) == Ok::<Seq<MessageModel>, DemoError>(acc + rest),
                    Err(err) => framed_list(region, 0) == Err::<Seq<MessageModel>, DemoError>(err),
                },
                *cursor == after,
                after.wf(),
                after.buf() == old(cursor).buf(),
                chunk_size >= 0,
                chunk_size == bits_le(old(cursor).buf(), old(cursor).pos() as int + 8 * 160, 32) as u32 as i32,
                seq_nr_in == bits_le(old(cursor).buf(), old(cursor).pos() as int + 8 * 152, 32) as u32,
                seq_nr_out == bits_le(old(cursor).buf(), old(cursor).pos() as int + 8 * 156, 32) as u32,
                old(cursor).advanced(&after, (8 * PACKET_HEADER_BYTES + 8 * chunk_size) as nat),
            decreases chunk.remaining(),
        {
            proof {
                chunk.lemma_wf_bounds();
            }
            let ghost here = chunk.pos() as int;
            assert(here < region.len() * 8);
            let m = match parse_message(&mut chunk) {
                Ok(m) => m,
                Err(e) => {
                    assert(framed_list(region, here) == Err::<Seq<MessageModel>, DemoError>(e));
                    reveal(packet_at);
                    assert(framed_list(region, 0) == Err::<Seq<MessageModel>, DemoError>(e));
                    proof {
                        after.lemma_wf_bounds();
                    }
                    return Err(e);
                },
            };
            proof {
                chunk.lemma_wf_bounds();
                let (mm, e) = crate::message::framed_at(region, here).unwrap();
                if let Ok(rest) = framed_list(region, chunk.pos() as int) {
                    assert(acc + (seq![mm] + rest) =~= acc.push(mm) + rest);
                }
                acc = acc.push(mm);
            }
            messages.push(m);
        }
        assert(acc + Seq::<MessageModel>::empty() =~= acc);
        Ok(Packet { command_info, seq_nr_in, seq_nr_out, messages })
    }
}

} // verus!
