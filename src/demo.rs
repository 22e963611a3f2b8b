//! The capture as a whole: its fixed header and its frames.
use vstd::prelude::*;
use crate::cursor::{bits_le, byte_at, bytes_from, Cursor};
use crate::error::DemoError;
use crate::frame::{command_tag, frame_read, Frame, Command};
use crate::string_tables::{fits, window_text};

verus! {

/// The signature that opens every capture: `HL2DEMO` and a zero byte.
pub open spec fn magic() -> Seq<u8> {
    seq![0x48u8, 0x4C, 0x32, 0x44, 0x45, 0x4D, 0x4F, 0x00]
}

/// The size of the fixed header, in bytes.
pub const HEADER_BYTES: usize = 1072;

/// The length of each name region of the header, in bytes.
pub const NAME_BYTES: usize = 260;

/// The fixed header of a capture.
pub struct DemoHeader {
    pub demo_protocol: i32,
    pub network_protocol: u32,
    pub server_name: String,
    pub client_name: String,
    pub map_name: String,
    pub game_directory: String,
    /// The length of the capture in seconds, as the bits of a 32-bit float.
    pub playback_time: u32,
    pub ticks: i32,
    pub frames: i32,
    pub sign_on_length: i32,
}

/// The signed 32-bit field at byte `off` of the bytes at bit `at` of `buf`.
pub open spec fn field_i32(buf: Seq<u8>, at: int, off: int) -> i32 {
    bits_le(buf, at + 8 * off, 32) as u32 as i32
}

fn is_magic(b: &Vec<u8>) -> (r: bool)
    ensures
        r == (b@ == magic()),
{
    if b.len() != 8 {
        return false;
    }
    let r = b[0] == 0x48 && b[1] == 0x4C && b[2] == 0x32 && b[3] == 0x44 && b[4] == 0x45 && b[5]
        == 0x4D && b[6] == 0x4F && b[7] == 0x00;
    assert(r ==> b@ =~= magic());
    r
}

/// Whether a header at bit `at` of `buf` reads, and the error that stops it
/// otherwise: the signature must match and each name window be readable text.
#[verifier::opaque]
pub open spec fn header_result(buf: Seq<u8>, at: int) -> Result<(), DemoError> {
    if !fits(buf, at, 64int) {
        Err(DemoError::OutOfBounds)
    } else if bytes_from(buf, at).take(8) != magic() {
        Err(DemoError::BadMagic)
    } else if !fits(buf, at, 8 * 276int) {
        Err(DemoError::OutOfBounds)
    } else if window_text(buf, at + 8 * 16, 260) is None {
        Err(DemoError::BadString)
    } else if !fits(buf, at, 8 * 536int) {
        Err(DemoError::OutOfBounds)
    } else if window_text(buf, at + 8 * 276, 260) is None {
        Err(DemoError::BadString)
    } else if !fits(buf, at, 8 * 796int) {
        Err(DemoError::OutOfBounds)
    } else if window_text(buf, at + 8 * 536, 260) is None {
        Err(DemoError::BadString)
    } else if !fits(buf, at, 8 * 1056int) {
        Err(DemoError::OutOfBounds)
    } else if window_text(buf, at + 8 * 796, 260) is None {
        Err(DemoError::BadString)
    } else if !fits(buf, at, 8 * 1072int) {
        Err(DemoError::OutOfBounds)
    } else {
        Ok(())
    }
}

impl DemoHeader {
    /// Reads the fixed header. The first eight bytes must be the signature.
    pub fn new(data: &mut Cursor) -> (r: Result<DemoHeader, DemoError>)
        requires
            old(data).wf(),
        ensures
            final(data).wf(),
            final(data).buf() == old(data).buf(),
            match header_result(old(data).buf(), old(data).pos() as int) {
                Err(e) => r == Err::<DemoHeader, DemoError>(e),
                Ok(_) => r is Ok,
            },
            r matches Ok(h) ==> {
                let buf = old(data).buf();
                let at = old(data).pos() as int;
                &&& old(data).rest().take(8) == magic()
                &&& h.demo_protocol == field_i32(buf, at, 8)
                &&& h.network_protocol == bits_le(buf, at + 8 * 12, 32) as u32
                &&& window_text(buf, at + 8 * 16, 260) == Some(h.server_name@)
                &&& window_text(buf, at + 8 * 276, 260) == Some(h.client_name@)
                &&& window_text(buf, at + 8 * 536, 260) == Some(h.map_name@)
                &&& window_text(buf, at + 8 * 796, 260) == Some(h.game_directory@)
                &&& h.playback_time == bits_le(buf, at + 8 * 1056, 32) as u32
                &&& h.ticks == field_i32(buf, at, 1060)
                &&& h.frames == field_i32(buf, at, 1064)
                &&& h.sign_on_length == field_i32(buf, at, 1068)
                &&& old(data).advanced(&*final(data), 8 * HEADER_BYTES as nat)
            },
    {
        reveal(header_result);
        let sig = data.read_bytes(8)?;
        if !is_magic(&sig) {
            return Err(DemoError::BadMagic);
        }
        let demo_protocol = data.read_i32()?;
        let network_protocol = data.read_u32()?;
        let server_name = data.read_cstr(NAME_BYTES)?;
        let client_name = data.read_cstr(NAME_BYTES)?;
        let map_name = data.read_cstr(NAME_BYTES)?;
        let game_directory = data.read_cstr(NAME_BYTES)?;
        let playback_time = data.read_f32()?;
        let ticks = data.read_i32()?;
        let frames = data.read_i32()?;
        let sign_on_length = data.read_i32()?;
        Ok(DemoHeader {
            demo_protocol,
            network_protocol,
            server_name,
            client_name,
            map_name,
            game_directory,
            playback_time,
            ticks,
            frames,
            sign_on_length,
        })
    }
}

/// A decoded capture.
pub struct Demo {
    pub header: DemoHeader,
    pub frames: Vec<Frame>,
}

/// Whether the frames end where a capture's frame stream ends: no frame but
/// the last is a stop frame, and there are as many frames as declared unless
/// the last one is a stop frame.
pub open spec fn frames_end_well(frames: Seq<Frame>, declared: i32) -> bool {
    &&& forall|k: int| 0 <= k < frames.len() - 1 ==> !((#[trigger] frames[k]).command is Stop)
    &&& frames.len() <= if declared < 0 { 0 } else { declared as int }
    &&& frames.len() == (if declared < 0 { 0 } else { declared as int }) || (frames.len() > 0
        && frames.last().command is Stop)
}

/// Where the frames at bit `p` are all frames without a payload (sync-tick,
/// stop, custom-data), the number of frames read: up to and including the
/// first stop frame, and at most `n`.
pub open spec fn plain_frames(buf: Seq<u8>, p: int, n: nat) -> Option<nat>
    decreases n,
{
    if n == 0 {
        Some(0)
    } else if !fits(buf, p, 48int) {
        None
    } else {
        let tag = byte_at(buf, p);
        if !(tag == 3 || tag == 7 || tag == 8) {
            None
        } else if tag == 7 {
            Some(1)
        } else {
            match plain_frames(buf, p + 48, (n - 1) as nat) {
                Some(c) => Some(c + 1),
                None => None,
            }
        }
    }
}

/// Whether `ps` are the bits where the frames start, the first at `at`, and
/// each frame is the one whose bytes run to where the next starts.
pub open spec fn frames_chain(frames: Seq<Frame>, buf: Seq<u8>, at: int, ps: Seq<int>) -> bool {
    &&& ps.len() == frames.len() + 1
    &&& ps[0] == at
    &&& forall|k: int| 0 <= k < frames.len() ==> frame_read(#[trigger] frames[k], buf, ps[k], ps[k + 1])
}

/// For a capture whose header reads and whose frames are all without a
/// payload, the number of frames read.
pub open spec fn demo_plain(buf: Seq<u8>, at: int) -> Option<nat> {
    let declared = field_i32(buf, at, 1064);
    if header_result(buf, at) is Ok {
        plain_frames(buf, at + 8 * 1072, if declared < 0 { 0 } else { declared as nat })
    } else {
        None
    }
}

/// Whether each frame carries the tag and tick of the frame bytes at bit `p`,
/// frame `k` at `p + 48 k`.
pub open spec fn plain_frames_match(frames: Seq<Frame>, buf: Seq<u8>, p: int) -> bool {
    forall|k: int| 0 <= k < frames.len() ==> {
        &&& command_tag((#[trigger] frames[k]).command) == byte_at(buf, p + 48 * k)
        &&& frames[k].tick_number == bits_le(buf, p + 48 * k + 8, 32) as u32
    }
}

proof fn lemma_plain_step(buf: Seq<u8>, p: int, n: nat)
    requires
        n >= 1,
        plain_frames(buf, p, n) is Some,
    ensures
        fits(buf, p, 48),
        byte_at(buf, p) == 3 || byte_at(buf, p) == 7 || byte_at(buf, p) == 8,
        byte_at(buf, p) == 7 ==> plain_frames(buf, p, n) == Some(1nat),
        byte_at(buf, p) != 7 ==> (plain_frames(buf, p + 48, (n - 1) as nat) matches Some(c)
            && plain_frames(buf, p, n) == Some(c + 1)),
{
}

impl Demo {
    /// Reads a capture: its header, then frames until a stop frame or until
    /// as many frames as the header declares, whichever comes first.
    #[verifier::rlimit(50)]
    pub fn new(cursor: &mut Cursor) -> (r: Result<Demo, DemoError>)
        requires
            old(cursor).wf(),
        ensures
            final(cursor).wf(),
            r matches Ok(d) ==> frames_end_well(d.frames@, d.header.frames),
            r matches Ok(d) ==> old(cursor).rest().take(8) == magic(),
            r matches Ok(d) ==> d.header.frames == field_i32(
                old(cursor).buf(),
                old(cursor).pos() as int,
                1064,
            ),
            r matches Ok(d) ==> exists|ps: Seq<int>| #[trigger]
                frames_chain(d.frames@, old(cursor).buf(), old(cursor).pos() + 8 * 1072int, ps),
            demo_plain(old(cursor).buf(), old(cursor).pos() as int) matches Some(c) ==> (r matches Ok(
                d,
            ) && d.frames@.len() == c && plain_frames_match(
                d.frames@,
                old(cursor).buf(),
                old(cursor).pos() + 8 * 1072int,
            )),
    {
        let ghost buf = old(cursor).buf();
        let ghost ph: int = old(cursor).pos() + 8 * 1072int;
        let header = DemoHeader::new(cursor)?;
        let ghost plain = demo_plain(buf, old(cursor).pos() as int) is Some;
        let ghost total: nat = if header.frames < 0 { 0 } else { header.frames as nat };
        let mut frames: Vec<Frame> = Vec::new();
        let mut i: i32 = 0;
        let mut stopped = false;
        let ghost mut ps: Seq<int> = seq![ph];
        while i < header.frames && !stopped
            invariant
                frames_chain(frames@, buf, ph, ps),
                ps.last() == cursor.pos() as int,
                cursor.wf(),
                header.frames == field_i32(old(cursor).buf(), old(cursor).pos() as int, 1064),
                0 <= i,
                i <= header.frames || (i == 0 && header.frames < 0),
                frames@.len() == i,
                forall|k: int|
                    0 <= k < frames@.len() - (if stopped { 1int } else { 0int }) ==> !((
                    #[trigger] frames@[k]).command is Stop),
                stopped ==> frames@.len() > 0 && frames@.last().command is Stop,
                cursor.buf() == buf,
                buf == old(cursor).buf(),
                ph == old(cursor).pos() + 8 * 1072int,
                plain == (demo_plain(buf, old(cursor).pos() as int) is Some),
                total == (if header.frames < 0 { 0 } else { header.frames as nat }),
                plain ==> cursor.pos() == ph + 48 * i,
                plain ==> plain_frames_match(frames@, buf, ph),
                plain && !stopped ==> (plain_frames(buf, ph + 48 * i, (total - i) as nat) matches Some(c)
                    && plain_frames(buf, ph, total) == Some((c + i) as nat)),
                plain && stopped ==> plain_frames(buf, ph, total) == Some(i as nat),
            decreases header.frames - i,
        {
            let ghost here = cursor.pos() as int;
            proof {
                if plain {
                    lemma_plain_step(buf, here, (total - i) as nat);
                }
            }
            let frame = match Frame::new(cursor) {
                Ok(f) => f,
                Err(e) => {
                    assert(!plain);
                    return Err(e);
                },
            };
            stopped = frame.is_last();
            let ghost before = frames@;
            let ghost before_ps = ps;
            frames.push(frame);
            i = i + 1;
            proof {
                ps = ps.push(cursor.pos() as int);
                assert forall|k: int| 0 <= k < frames@.len() implies frame_read(
                    #[trigger] frames@[k],
                    buf,
                    ps[k],
                    ps[k + 1],
                ) by {
                    if k < before.len() {
                        assert(frames@[k] == before[k]);
                        assert(ps[k] == before_ps[k] && ps[k + 1] == before_ps[k + 1]);
                    }
                }
            }
            proof {
                if plain {
                    assert(ph + 48 * (i - 1) + 48 == ph + 48 * i);
                    assert forall|k: int| 0 <= k < frames@.len() implies {
                        &&& command_tag((#[trigger] frames@[k]).command) == byte_at(buf, ph + 48 * k)
                        &&& frames@[k].tick_number == bits_le(buf, ph + 48 * k + 8, 32) as u32
                    } by {
                        if k < before.len() {
                            assert(frames@[k] == before[k]);
                        }
                    }
                }
            }
        }
        assert(frames_chain(frames@, buf, ph, ps));
        Ok(Demo { header, frames })
    }
}

} // verus!
