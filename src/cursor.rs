//! A bit-addressed read cursor over an owned byte buffer.
//!
//! Bits are numbered from the least significant bit of the first byte, and
//! multi-bit values are read little-endian: bit `i` of a value read at `p` is
//! stream bit `p + i`.
use vstd::prelude::*;
use bitbuffer::{BitReadBuffer, LittleEndian};
use crate::error::DemoError;

verus! {

/// The largest buffer a cursor may hold: its length in bits, plus a machine
/// word of slack, must fit in `usize`.
pub const MAX_BUFFER_BYTES: usize = usize::MAX / 16;

/// Stream bit `k` of `data`: bit `k % 8` of byte `k / 8`.
pub open spec fn bit_at(data: Seq<u8>, k: int) -> int {
    (data[k / 8] as int / pow2((k % 8) as nat) as int) % 2
}

/// The unsigned little-endian value of the `n` stream bits starting at `pos`.
pub open spec fn bits_le(data: Seq<u8>, pos: int, n: nat) -> int
    decreases n,
{
    if n == 0 {
        0
    } else {
        bit_at(data, pos) + 2 * bits_le(data, pos + 1, (n - 1) as nat)
    }
}

/// The byte made of the eight stream bits starting at `pos`.
pub open spec fn byte_at(data: Seq<u8>, pos: int) -> u8 {
    bits_le(data, pos, 8) as u8
}

/// The whole bytes that can be read from bit `pos` on.
pub open spec fn bytes_from(data: Seq<u8>, pos: int) -> Seq<u8> {
    Seq::new(((data.len() * 8 - pos) / 8) as nat, |i: int| byte_at(data, pos + 8 * i))
}

pub open spec fn pow2(n: nat) -> nat
    decreases n,
{
    if n == 0 {
        1
    } else {
        2 * pow2((n - 1) as nat)
    }
}

proof fn lemma_pow2_pos(n: nat)
    ensures
        pow2(n) >= 1,
    decreases n,
{
    if n > 0 {
        lemma_pow2_pos((n - 1) as nat);
    }
}

proof fn lemma_bit_at_is_bit(data: Seq<u8>, k: int)
    ensures
        0 <= bit_at(data, k) <= 1,
{
    lemma_pow2_pos((k % 8) as nat);
    assert(data[k / 8] as int / pow2((k % 8) as nat) as int >= 0) by (nonlinear_arith)
        requires
            pow2((k % 8) as nat) >= 1,
            data[k / 8] >= 0,
    ;
}

/// `n` bits hold a value below `2^n`.
pub proof fn lemma_bits_le_bound(data: Seq<u8>, pos: int, n: nat)
    ensures
        0 <= bits_le(data, pos, n) < pow2(n),
    decreases n,
{
    if n > 0 {
        lemma_bit_at_is_bit(data, pos);
        lemma_bits_le_bound(data, pos + 1, (n - 1) as nat);
    }
}

proof fn lemma_aligned_bit(data: Seq<u8>, i: int, j: int)
    requires
        0 <= i < data.len(),
        0 <= j < 8,
    ensures
        bit_at(data, 8 * i + j) == (data[i] as int / pow2(j as nat) as int) % 2,
{
    assert((8 * i + j) / 8 == i);
    assert((8 * i + j) % 8 == j);
}

/// The powers of two that the integer widths use.
pub proof fn lemma_pow2_widths()
    ensures
        pow2(1) == 2,
        pow2(2) == 4,
        pow2(3) == 8,
        pow2(4) == 16,
        pow2(5) == 32,
        pow2(6) == 64,
        pow2(7) == 128,
        pow2(8) == 256,
        pow2(16) == 0x1_0000,
        pow2(32) == 0x1_0000_0000,
        pow2(64) == 0x1_0000_0000_0000_0000,
{
    reveal_with_fuel(pow2, 65);
}

/// A byte-aligned run of eight bits is the byte stored there.
pub proof fn lemma_aligned_byte(data: Seq<u8>, i: int)
    requires
        0 <= i < data.len(),
    ensures
        byte_at(data, 8 * i) == data[i],
{
    let b = data[i] as int;
    lemma_pow2_widths();
    assert(pow2(0) == 1);
    lemma_aligned_bit(data, i, 0);
    lemma_aligned_bit(data, i, 1);
    lemma_aligned_bit(data, i, 2);
    lemma_aligned_bit(data, i, 3);
    lemma_aligned_bit(data, i, 4);
    lemma_aligned_bit(data, i, 5);
    lemma_aligned_bit(data, i, 6);
    lemma_aligned_bit(data, i, 7);
    let b0 = bit_at(data, 8 * i);
    let b1 = bit_at(data, 8 * i + 1);
    let b2 = bit_at(data, 8 * i + 2);
    let b3 = bit_at(data, 8 * i + 3);
    let b4 = bit_at(data, 8 * i + 4);
    let b5 = bit_at(data, 8 * i + 5);
    let b6 = bit_at(data, 8 * i + 6);
    let b7 = bit_at(data, 8 * i + 7);
    assert(8 * i + 0 == 8 * i);
    assert(b / 1 == b);
    assert(b0 == b % 2);
    assert(b0 + 2 * (b1 + 2 * (b2 + 2 * (b3 + 2 * (b4 + 2 * (b5 + 2 * (b6 + 2 * b7)))))) == b)
        by (nonlinear_arith)
        requires
            0 <= b < 256,
            b0 == b % 2,
            b1 == (b / 2) % 2,
            b2 == (b / 4) % 2,
            b3 == (b / 8) % 2,
            b4 == (b / 16) % 2,
            b5 == (b / 32) % 2,
            b6 == (b / 64) % 2,
            b7 == (b / 128) % 2,
    ;
    reveal_with_fuel(bits_le, 9);
    assert(bits_le(data, 8 * i + 8, 0) == 0);
    assert(bits_le(data, 8 * i, 8) == b);
}

/// The value of the `n` bits at `pos`, for the widths that the reads use, fits
/// the unsigned type of that width.
pub proof fn lemma_bits_fit(data: Seq<u8>, pos: int, n: nat)
    ensures
        0 <= bits_le(data, pos, n) < pow2(n),
        n == 8 ==> bits_le(data, pos, n) < 0x100,
        n == 16 ==> bits_le(data, pos, n) < 0x1_0000,
        n == 32 ==> bits_le(data, pos, n) < 0x1_0000_0000,
        n == 64 ==> bits_le(data, pos, n) < 0x1_0000_0000_0000_0000,
{
    lemma_bits_le_bound(data, pos, n);
    lemma_pow2_widths();
}

/// Over a buffer read from its start, the readable bytes are the buffer itself.
pub proof fn lemma_bytes_from_start(data: Seq<u8>)
    ensures
        bytes_from(data, 0) == data,
{
    assert forall|i: int| 0 <= i < data.len() implies #[trigger] bytes_from(data, 0)[i]
        == data[i] by {
        lemma_aligned_byte(data, i);
    }
    assert(bytes_from(data, 0) =~= data);
}

/// After moving `k` whole bytes, the bytes left are the earlier ones less
/// the first `k`.
pub proof fn lemma_rest_skip(before: Cursor, after: Cursor, k: nat)
    requires
        before.wf(),
        before.advanced(&after, 8 * k),
    ensures
        after.rest() == before.rest().skip(k as int),
{
    before.lemma_wf_bounds();
    after.lemma_wf_bounds();
    assert(after.rest() =~= before.rest().skip(k as int)) by {
        assert forall|i: int| 0 <= i < after.rest().len() implies after.rest()[i] == before.rest().skip(
            k as int,
        )[i] by {
            assert(before.pos() + 8 * (i + k) == after.pos() + 8 * i);
        }
    }
}

/// Relies on bitbuffer's `BitReadBuffer::read_int` over a little-endian buffer:
/// with at most 64 bits requested, all in bounds, it returns their unsigned value.
#[verifier::external_body]
fn bitbuffer_read_int(data: &Vec<u8>, pos: usize, count: usize) -> (r: Option<u64>)
    requires
        count <= 64,
        pos + count <= data@.len() * 8,
        data@.len() <= MAX_BUFFER_BYTES,
    ensures
        r == Some(bits_le(data@, pos as int, count as nat) as u64),
{
    BitReadBuffer::new(data.as_slice(), LittleEndian).read_int::<u64>(pos, count).ok()
}

/// Relies on bitbuffer's `BitReadBuffer::read_bool`: the stream bit at an
/// in-bounds position.
#[verifier::external_body]
fn bitbuffer_read_bool(data: &Vec<u8>, pos: usize) -> (r: Option<bool>)
    requires
        pos < data@.len() * 8,
        data@.len() <= MAX_BUFFER_BYTES,
    ensures
        r == Some(bit_at(data@, pos as int) == 1),
{
    BitReadBuffer::new(data.as_slice(), LittleEndian).read_bool(pos).ok()
}

/// Relies on bitbuffer's `BitReadBuffer::read_bytes`: the `n` whole bytes that
/// start at an in-bounds bit position, aligned or not.
#[verifier::external_body]
fn bitbuffer_read_bytes(data: &Vec<u8>, pos: usize, n: usize) -> (r: Option<Vec<u8>>)
    requires
        pos + 8 * n <= data@.len() * 8,
        data@.len() <= MAX_BUFFER_BYTES,
    ensures
        r.is_some(),
        r.unwrap()@ == bytes_from(data@, pos as int).take(n as int),
{
    BitReadBuffer::new(data.as_slice(), LittleEndian).read_bytes(pos, n).ok().map(|b| b.into_owned())
}

/// The name of what `String::from_utf8` makes of some bytes: `Some` text where
/// they are valid UTF-8, `None` where they are not.
pub uninterp spec fn utf8_text(b: Seq<u8>) -> Option<Seq<char>>;

/// Whether every byte is ASCII.
pub open spec fn all_ascii(b: Seq<u8>) -> bool {
    forall|i: int| 0 <= i < b.len() ==> #[trigger] b[i] < 0x80
}

/// The text that some bytes encode: ASCII bytes are their own characters,
/// and other bytes decode as `String::from_utf8` decodes them.
pub open spec fn decode_text(b: Seq<u8>) -> Option<Seq<char>> {
    if all_ascii(b) {
        Some(b.map_values(|c: u8| c as char))
    } else {
        utf8_text(b)
    }
}

/// Relies on `String::from_utf8`: the text the bytes encode, if they are
/// valid UTF-8; ASCII bytes are always valid and each is one character.
#[verifier::external_body]
fn from_utf8(b: Vec<u8>) -> (r: Option<String>)
    ensures
        all_ascii(b@) ==> r.is_some() && r.unwrap()@ == b@.map_values(|c: u8| c as char),
        !all_ascii(b@) ==> r.is_none() == utf8_text(b@).is_none(),
        !all_ascii(b@) && r.is_some() ==> utf8_text(b@) == Some(r.unwrap()@),
{
    String::from_utf8(b).ok()
}

/// The text that `b` encodes, if any.
pub(crate) fn text_from_utf8(b: Vec<u8>) -> (r: Option<String>)
    ensures
        r.is_some() ==> decode_text(b@) == Some(r.unwrap()@),
        r.is_none() == decode_text(b@).is_none(),
{
    let ghost bv = b@;
    let r = from_utf8(b);
    proof {
        if all_ascii(bv) {
            assert(decode_text(bv) == Some(bv.map_values(|c: u8| c as char)));
        }
    }
    r
}

/// The bytes before the first zero byte of `b`, or all of `b` if it holds none.
pub open spec fn before_nul(b: Seq<u8>) -> Seq<u8>
    decreases b.len(),
{
    if b.len() == 0 || b[0] == 0 {
        Seq::empty()
    } else {
        seq![b[0]] + before_nul(b.drop_first())
    }
}

/// The index of the first zero byte of `b`, if any.
pub open spec fn first_nul(b: Seq<u8>) -> Option<nat>
    decreases b.len(),
{
    if b.len() == 0 {
        None
    } else if b[0] == 0 {
        Some(0)
    } else {
        match first_nul(b.drop_first()) {
            Some(k) => Some(k + 1),
            None => None,
        }
    }
}

proof fn lemma_nul_scan(b: Seq<u8>, k: int)
    requires
        0 <= k <= b.len(),
        forall|j: int| 0 <= j < k ==> b[j] != 0,
    ensures
        before_nul(b) == b.take(k) + before_nul(b.skip(k)),
        first_nul(b) == match first_nul(b.skip(k)) {
            Some(m) => Some(m + k as nat),
            None => None::<nat>,
        },
    decreases k,
{
    if k > 0 {
        let t = b.drop_first();
        assert forall|j: int| 0 <= j < k - 1 implies t[j] != 0 by {
            assert(t[j] == b[j + 1]);
        }
        lemma_nul_scan(t, k - 1);
        assert(t.skip(k - 1) =~= b.skip(k));
        assert(seq![b[0]] + t.take(k - 1) =~= b.take(k));
    } else {
        assert(b.skip(0) =~= b);
        assert(b.take(0) =~= Seq::<u8>::empty());
    }
}

/// Where `b` holds no zero byte before index `k`, and a zero byte or its end at
/// `k`, the text before the terminator is `b[..k]`.
pub proof fn lemma_nul_at(b: Seq<u8>, k: int)
    requires
        0 <= k <= b.len(),
        forall|j: int| 0 <= j < k ==> b[j] != 0,
        k == b.len() || b[k] == 0,
    ensures
        before_nul(b) == b.take(k),
        first_nul(b) == if k < b.len() { Some(k as nat) } else { None::<nat> },
{
    lemma_nul_scan(b, k);
    assert(before_nul(b.skip(k)) =~= Seq::<u8>::empty());
    assert(b.take(k) + Seq::<u8>::empty() =~= b.take(k));
}

/// What reading a protocol-style variable-length integer makes of the bytes
/// `s`, from byte `k` on: the value and the number of bytes it takes, or the
/// error. Each byte gives seven bits, least significant group first, while its
/// top bit is set; the fifth byte must have its top five bits all clear or all
/// set, and no sixth byte is accepted.
pub open spec fn varint_at(s: Seq<u8>, k: nat) -> Result<(int, nat), DemoError>
    decreases 5 - k,
{
    if k >= s.len() {
        Err(DemoError::OutOfBounds)
    } else if k >= 5 {
        Err(DemoError::VarIntOverflow)
    } else {
        let b = s[k as int];
        if k == 4 && !(b < 0x08 || b >= 0xF8) {
            Err(DemoError::VarIntOverflow)
        } else if b < 0x80 {
            Ok(((b as int) * pow2(7 * k) as int, k + 1))
        } else {
            match varint_at(s, k + 1) {
                Ok((v, n)) => Ok((v + (b as int - 0x80) * pow2(7 * k) as int, n)),
                Err(e) => Err(e),
            }
        }
    }
}

/// A decoded variable-length integer takes at least one byte past `k`.
pub proof fn lemma_varint_len(s: Seq<u8>, k: nat)
    ensures
        varint_at(s, k) matches Ok((v, n)) ==> k < n <= s.len(),
    decreases 5 - k,
{
    if k < 5 && k < s.len() && s[k as int] >= 0x80 {
        lemma_varint_len(s, k + 1);
    }
}

/// Decodes a variable-length integer from the start of `s`.
pub open spec fn varint_decode(s: Seq<u8>) -> Result<(int, nat), DemoError> {
    varint_at(s, 0)
}

/// The shortest variable-length encoding of a non-negative integer.
pub open spec fn varint_encode(n: nat) -> Seq<u8>
    decreases n,
{
    if n < 0x80 {
        seq![n as u8]
    } else {
        seq![(n % 0x80 + 0x80) as u8] + varint_encode(n / 0x80)
    }
}

proof fn lemma_pow2_add(a: nat, b: nat)
    ensures
        pow2(a + b) == pow2(a) * pow2(b),
    decreases a,
{
    if a > 0 {
        lemma_pow2_add((a - 1) as nat, b);
        assert(pow2(a + b) == 2 * pow2((a - 1 + b) as nat));
        assert(pow2(a) == 2 * pow2((a - 1) as nat));
        assert(2 * (pow2((a - 1) as nat) * pow2(b)) == (2 * pow2((a - 1) as nat)) * pow2(b))
            by (nonlinear_arith);
    } else {
        assert(pow2(0) == 1);
        assert(a + b == b);
    }
}

proof fn lemma_varint_step(s: Seq<u8>, k: nat, m: nat)
    requires
        k <= 4,
        m < pow2((31 - 7 * k) as nat),
        k + varint_encode(m).len() <= s.len(),
        s.subrange(k as int, (k + varint_encode(m).len()) as int) == varint_encode(m),
    ensures
        varint_at(s, k) == Ok::<(int, nat), DemoError>(
            ((m * pow2(7 * k)) as int, k + varint_encode(m).len()),
        ),
        varint_encode(m).len() <= 5 - k,
    decreases m,
{
    lemma_pow2_widths();
    let e = varint_encode(m);
    assert(s[k as int] == e[0]);
    if m < 0x80 {
        if k == 4 {
            assert(pow2(3) == 8);
        }
    } else {
        let q = m / 0x80;
        assert(s[k as int] == (m % 0x80 + 0x80) as u8);
        if k == 4 {
            assert(pow2(3) == 8);
            assert(false);
        }
        lemma_pow2_add(7, (31 - 7 * (k + 1)) as nat);
        assert((31 - 7 * k) as nat == 7 + (31 - 7 * (k + 1)) as nat);
        assert(q < pow2((31 - 7 * (k + 1)) as nat)) by (nonlinear_arith)
            requires
                m < pow2(7) * pow2((31 - 7 * (k + 1)) as nat),
                pow2(7) == 128,
                q == m / 0x80,
        ;
        let eq = varint_encode(q);
        assert(e == seq![(m % 0x80 + 0x80) as u8] + eq);
        assert(s.subrange((k + 1) as int, (k + 1 + eq.len()) as int) =~= eq) by {
            assert forall|j: int| 0 <= j < eq.len() implies s.subrange((k + 1) as int, (k + 1 + eq.len()) as int)[j]
                == eq[j] by {
                assert(s.subrange(k as int, (k + e.len()) as int)[j + 1] == e[j + 1]);
            }
        }
        lemma_varint_step(s, k + 1, q);
        lemma_pow2_add(7 * k, 7);
        assert(7 * (k + 1) == 7 * k + 7);
        let p = pow2(7 * k);
        assert(q * pow2(7 * (k + 1)) + (m % 0x80) * p == m * p) by (nonlinear_arith)
            requires
                pow2(7 * (k + 1)) == p * 128,
                q == m / 128,
        ;
    }
}

/// Encoding a non-negative 32-bit integer and decoding it gives the integer
/// back and consumes exactly the encoding, whatever bytes follow it.
pub proof fn lemma_varint_round_trip(n: i32, rest: Seq<u8>)
    requires
        n >= 0,
    ensures
        varint_decode(varint_encode(n as nat) + rest) == Ok::<(int, nat), DemoError>(
            (n as int, varint_encode(n as nat).len()),
        ),
        varint_encode(n as nat).len() <= 5,
{
    lemma_pow2_widths();
    reveal_with_fuel(pow2, 32);
    assert(pow2(0) == 1);
    let e = varint_encode(n as nat);
    let s = e + rest;
    assert(s.subrange(0, e.len() as int) =~= e);
    lemma_varint_step(s, 0, n as nat);
}

/// Encodes a non-negative 32-bit integer as a variable-length integer.
pub fn encode_varint(n: i32) -> (r: Vec<u8>)
    requires
        n >= 0,
    ensures
        r@ == varint_encode(n as nat),
{
    let mut v: u32 = n as u32;
    let mut out: Vec<u8> = Vec::new();
    while v >= 0x80
        invariant
            out@ + varint_encode(v as nat) == varint_encode(n as nat),
        decreases v,
    {
        let b = (v % 0x80 + 0x80) as u8;
        assert(varint_encode(v as nat) == seq![b] + varint_encode((v / 0x80) as nat));
        out.push(b);
        v = v / 0x80;
        assert(out@ + varint_encode(v as nat) =~= varint_encode(n as nat));
    }
    out.push(v as u8);
    assert(out@ =~= varint_encode(n as nat));
    out
}

/// What reading a zero-terminated string at bit `p` gives: its text and the
/// bit after its terminator.
pub open spec fn cstr_at(buf: Seq<u8>, p: int) -> Result<(Seq<char>, int), DemoError> {
    match first_nul(bytes_from(buf, p)) {
        None => Err(DemoError::OutOfBounds),
        Some(k) => match decode_text(bytes_from(buf, p).take(k as int)) {
            None => Err(DemoError::BadString),
            Some(t) => Ok((t, p + 8 * (k + 1))),
        },
    }
}

/// A read cursor: a byte buffer and a position in bits.
pub struct Cursor {
    data: Vec<u8>,
    bit_pos: usize,
}

impl Cursor {
    /// The bytes under the cursor.
    pub closed spec fn buf(&self) -> Seq<u8> {
        self.data@
    }

    /// The read position, in bits.
    pub closed spec fn pos(&self) -> nat {
        self.bit_pos as nat
    }

    pub closed spec fn wf(&self) -> bool {
        &&& self.bit_pos <= self.data@.len() * 8
        &&& self.data@.len() <= MAX_BUFFER_BYTES
    }

    /// The number of bits left to read.
    pub open spec fn remaining(&self) -> nat {
        (self.buf().len() * 8 - self.pos()) as nat
    }

    /// Whether `n` more bits can be read.
    pub open spec fn can_read(&self, n: nat) -> bool {
        self.pos() + n <= self.buf().len() * 8
    }

    /// The whole bytes left to read.
    pub open spec fn rest(&self) -> Seq<u8> {
        bytes_from(self.buf(), self.pos() as int)
    }

    /// The cursor moved on by `n` bits over the same buffer.
    pub open spec fn advanced(&self, next: &Cursor, n: nat) -> bool {
        &&& next.wf()
        &&& next.buf() == self.buf()
        &&& next.pos() == self.pos() + n
    }

    /// The cursor left where it was.
    pub open spec fn unchanged(&self, next: &Cursor) -> bool {
        self.advanced(next, 0)
    }

    pub proof fn lemma_wf_bounds(&self)
        requires
            self.wf(),
        ensures
            self.pos() <= self.buf().len() * 8,
            self.buf().len() <= MAX_BUFFER_BYTES,
    {
    }

    /// A cursor at the start of a buffer that begins with the encoding of a
    /// non-negative `n` reads back `n`, taking exactly the encoding's bytes.
    pub proof fn lemma_read_encoded_varint(&self, n: i32, tail: Seq<u8>)
        requires
            self.wf(),
            self.pos() == 0,
            n >= 0,
            self.buf() == varint_encode(n as nat) + tail,
        ensures
            varint_decode(self.rest()) == Ok::<(int, nat), DemoError>(
                (n as int, varint_encode(n as nat).len()),
            ),
    {
        lemma_bytes_from_start(self.buf());
        lemma_varint_round_trip(n, tail);
    }

    /// A cursor over a copy of `buf`, at bit 0.
    pub fn new(buf: &[u8]) -> (r: Cursor)
        requires
            buf@.len() <= MAX_BUFFER_BYTES,
        ensures
            r.wf(),
            r.buf() == buf@,
            r.pos() == 0,
    {
        Cursor { data: vstd::slice::slice_to_vec(buf), bit_pos: 0 }
    }

    /// The number of bits left to read.
    pub fn remaining_bits(&self) -> (r: usize)
        requires
            self.wf(),
        ensures
            r == self.remaining(),
    {
        self.data.len() * 8 - self.bit_pos
    }

    /// Whether nothing is left to read.
    pub fn is_empty(&self) -> (r: bool)
        requires
            self.wf(),
        ensures
            r == (self.remaining() == 0),
    {
        self.remaining_bits() == 0
    }

    /// Reads `count` bits (at most 64) as an unsigned little-endian value.
    fn read_uint(&mut self, count: usize) -> (r: Result<u64, DemoError>)
        requires
            old(self).wf(),
            count <= 64,
        ensures
            final(self).wf(),
            old(self).can_read(count as nat) ==> {
                &&& r == Ok::<u64, DemoError>(bits_le(old(self).buf(), old(self).pos() as int, count as nat) as u64)
                &&& old(self).advanced(&*final(self), count as nat)
            },
            !old(self).can_read(count as nat) ==> {
                &&& r == Err::<u64, DemoError>(DemoError::OutOfBounds)
                &&& old(self).unchanged(&*final(self))
            },
    {
        if count > self.remaining_bits() {
            return Err(DemoError::OutOfBounds);
        }
        match bitbuffer_read_int(&self.data, self.bit_pos, count) {
            Some(v) => {
                self.bit_pos = self.bit_pos + count;
                Ok(v)
            },
            None => Err(DemoError::OutOfBounds),
        }
    }

    /// Reads an unsigned 8-bit integer.
    pub fn read_u8(&mut self) -> (r: Result<u8, DemoError>)
        requires
            old(self).wf(),
        ensures
            final(self).wf(),
            old(self).can_read(8) ==> {
                &&& r == Ok::<u8, DemoError>(byte_at(old(self).buf(), old(self).pos() as int))
                &&& old(self).advanced(&*final(self), 8)
            },
            !old(self).can_read(8) ==> {
                &&& r == Err::<u8, DemoError>(DemoError::OutOfBounds)
                &&& old(self).unchanged(&*final(self))
            },
    {
        let v = self.read_uint(8)?;
        proof {
            lemma_bits_fit(old(self).buf(), old(self).pos() as int, 8);
        }
        Ok(v as u8)
    }

    /// Reads a signed 8-bit integer.
    pub fn read_i8(&mut self) -> (r: Result<i8, DemoError>)
        requires
            old(self).wf(),
        ensures
            final(self).wf(),
            old(self).can_read(8) ==> {
                &&& r == Ok::<i8, DemoError>((bits_le(old(self).buf(), old(self).pos() as int, 8) as u8) as i8)
                &&& old(self).advanced(&*final(self), 8)
            },
            !old(self).can_read(8) ==> {
                &&& r == Err::<i8, DemoError>(DemoError::OutOfBounds)
                &&& old(self).unchanged(&*final(self))
            },
    {
        let v = self.read_u8()?;
        Ok(#[verifier::truncate] (v as i8))
    }

    /// Reads an unsigned little-endian 16-bit integer.
    pub fn read_u16(&mut self) -> (r: Result<u16, DemoError>)
        requires
            old(self).wf(),
        ensures
            final(self).wf(),
            old(self).can_read(16) ==> {
                &&& r == Ok::<u16, DemoError>(bits_le(old(self).buf(), old(self).pos() as int, 16) as u16)
                &&& old(self).advanced(&*final(self), 16)
            },
            !old(self).can_read(16) ==> {
                &&& r == Err::<u16, DemoError>(DemoError::OutOfBounds)
                &&& old(self).unchanged(&*final(self))
            },
    {
        let v = self.read_uint(16)?;
        proof {
            lemma_bits_fit(old(self).buf(), old(self).pos() as int, 16);
        }
        Ok(v as u16)
    }

    /// Reads a signed little-endian 16-bit integer.
    pub fn read_i16(&mut self) -> (r: Result<i16, DemoError>)
        requires
            old(self).wf(),
        ensures
            final(self).wf(),
            old(self).can_read(16) ==> {
                &&& r == Ok::<i16, DemoError>((bits_le(old(self).buf(), old(self).pos() as int, 16) as u16) as i16)
                &&& old(self).advanced(&*final(self), 16)
            },
            !old(self).can_read(16) ==> {
                &&& r == Err::<i16, DemoError>(DemoError::OutOfBounds)
                &&& old(self).unchanged(&*final(self))
            },
    {
        let v = self.read_u16()?;
        Ok(#[verifier::truncate] (v as i16))
    }

    /// Reads an unsigned little-endian 32-bit integer.
    pub fn read_u32(&mut self) -> (r: Result<u32, DemoError>)
        requires
            old(self).wf(),
        ensures
            final(self).wf(),
            old(self).can_read(32) ==> {
                &&& r == Ok::<u32, DemoError>(bits_le(old(self).buf(), old(self).pos() as int, 32) as u32)
                &&& old(self).advanced(&*final(self), 32)
            },
            !old(self).can_read(32) ==> {
                &&& r == Err::<u32, DemoError>(DemoError::OutOfBounds)
                &&& old(self).unchanged(&*final(self))
            },
    {
        let v = self.read_uint(32)?;
        proof {
            lemma_bits_fit(old(self).buf(), old(self).pos() as int, 32);
        }
        Ok(v as u32)
    }

    /// Reads a signed little-endian 32-bit integer.
    pub fn read_i32(&mut self) -> (r: Result<i32, DemoError>)
        requires
            old(self).wf(),
        ensures
            final(self).wf(),
            old(self).can_read(32) ==> {
                &&& r == Ok::<i32, DemoError>((bits_le(old(self).buf(), old(self).pos() as int, 32) as u32) as i32)
                &&& old(self).advanced(&*final(self), 32)
            },
            !old(self).can_read(32) ==> {
                &&& r == Err::<i32, DemoError>(DemoError::OutOfBounds)
                &&& old(self).unchanged(&*final(self))
            },
    {
        let v = self.read_u32()?;
        Ok(#[verifier::truncate] (v as i32))
    }

    /// Reads a little-endian 32-bit IEEE-754 float, returned as its bit pattern.
    pub fn read_f32(&mut self) -> (r: Result<u32, DemoError>)
        requires
            old(self).wf(),
        ensures
            final(self).wf(),
            old(self).can_read(32) ==> {
                &&& r == Ok::<u32, DemoError>(bits_le(old(self).buf(), old(self).pos() as int, 32) as u32)
                &&& old(self).advanced(&*final(self), 32)
            },
            !old(self).can_read(32) ==> {
                &&& r == Err::<u32, DemoError>(DemoError::OutOfBounds)
                &&& old(self).unchanged(&*final(self))
            },
    {
        self.read_u32()
    }

    /// Reads a signed little-endian 64-bit integer.
    pub fn read_i64(&mut self) -> (r: Result<i64, DemoError>)
        requires
            old(self).wf(),
        ensures
            final(self).wf(),
            old(self).can_read(64) ==> {
                &&& r == Ok::<i64, DemoError>((bits_le(old(self).buf(), old(self).pos() as int, 64) as u64) as i64)
                &&& old(self).advanced(&*final(self), 64)
            },
            !old(self).can_read(64) ==> {
                &&& r == Err::<i64, DemoError>(DemoError::OutOfBounds)
                &&& old(self).unchanged(&*final(self))
            },
    {
        let v = self.read_uint(64)?;
        Ok(#[verifier::truncate] (v as i64))
    }

    /// Reads a single bit as a boolean.
    pub fn read_bit_bool(&mut self) -> (r: Result<bool, DemoError>)
        requires
            old(self).wf(),
        ensures
            final(self).wf(),
            old(self).can_read(1) ==> {
                &&& r == Ok::<bool, DemoError>(bit_at(old(self).buf(), old(self).pos() as int) == 1)
                &&& old(self).advanced(&*final(self), 1)
            },
            !old(self).can_read(1) ==> {
                &&& r == Err::<bool, DemoError>(DemoError::OutOfBounds)
                &&& old(self).unchanged(&*final(self))
            },
    {
        if self.bit_pos >= self.data.len() * 8 {
            return Err(DemoError::OutOfBounds);
        }
        match bitbuffer_read_bool(&self.data, self.bit_pos) {
            Some(b) => {
                self.bit_pos = self.bit_pos + 1;
                Ok(b)
            },
            None => Err(DemoError::OutOfBounds),
        }
    }

    /// Reads a whole byte as a boolean: true iff it is non-zero.
    pub fn read_byte_bool(&mut self) -> (r: Result<bool, DemoError>)
        requires
            old(self).wf(),
        ensures
            final(self).wf(),
            old(self).can_read(8) ==> {
                &&& r == Ok::<bool, DemoError>(byte_at(old(self).buf(), old(self).pos() as int) != 0)
                &&& old(self).advanced(&*final(self), 8)
            },
            !old(self).can_read(8) ==> {
                &&& r == Err::<bool, DemoError>(DemoError::OutOfBounds)
                &&& old(self).unchanged(&*final(self))
            },
    {
        let n = self.read_u8()?;
        Ok(n != 0)
    }

    /// The next `n` whole bytes, without moving.
    fn peek_bytes(&self, n: usize) -> (r: Result<Vec<u8>, DemoError>)
        requires
            self.wf(),
        ensures
            self.can_read(8 * n as nat) ==> (r matches Ok(v) && v@ == self.rest().take(n as int)),
            !self.can_read(8 * n as nat) ==> r == Err::<Vec<u8>, DemoError>(DemoError::OutOfBounds),
    {
        if n > self.remaining_bits() / 8 {
            return Err(DemoError::OutOfBounds);
        }
        match bitbuffer_read_bytes(&self.data, self.bit_pos, n) {
            Some(v) => Ok(v),
            None => Err(DemoError::OutOfBounds),
        }
    }

    /// Reads `n` whole bytes.
    pub fn read_bytes(&mut self, n: usize) -> (r: Result<Vec<u8>, DemoError>)
        requires
            old(self).wf(),
        ensures
            final(self).wf(),
            old(self).can_read(8 * n as nat) ==> {
                &&& r matches Ok(v) && v@ == old(self).rest().take(n as int)
                &&& old(self).advanced(&*final(self), 8 * n as nat)
            },
            !old(self).can_read(8 * n as nat) ==> {
                &&& r == Err::<Vec<u8>, DemoError>(DemoError::OutOfBounds)
                &&& old(self).unchanged(&*final(self))
            },
    {
        let v = self.peek_bytes(n)?;
        self.bit_pos = self.bit_pos + 8 * n;
        Ok(v)
    }

    /// Consumes the next `n` bytes and returns a new cursor over a copy of
    /// them alone, at its start.
    pub fn chunk_bytes(&mut self, n: usize) -> (r: Result<Cursor, DemoError>)
        requires
            old(self).wf(),
        ensures
            final(self).wf(),
            old(self).can_read(8 * n as nat) ==> {
                &&& r matches Ok(c) && c.wf() && c.buf() == old(self).rest().take(n as int) && c.pos() == 0
                &&& old(self).advanced(&*final(self), 8 * n as nat)
            },
            !old(self).can_read(8 * n as nat) ==> {
                &&& r matches Err(e) && e == DemoError::OutOfBounds
                &&& old(self).unchanged(&*final(self))
            },
    {
        let v = self.read_bytes(n)?;
        Ok(Cursor { data: v, bit_pos: 0 })
    }

    /// Reads a string from a window of `length` bytes: the text is what comes
    /// before the first zero byte in the window (all of it if there is none),
    /// and the cursor moves past the whole window.
    pub fn read_cstr(&mut self, length: usize) -> (r: Result<String, DemoError>)
        requires
            old(self).wf(),
        ensures
            final(self).wf(),
            !old(self).can_read(8 * length as nat) ==> {
                &&& r matches Err(e) && e == DemoError::OutOfBounds
                &&& old(self).unchanged(&*final(self))
            },
            old(self).can_read(8 * length as nat) ==> match decode_text(
                before_nul(old(self).rest().take(length as int)),
            ) {
                Some(t) => (r matches Ok(s) && s@ == t && old(self).advanced(
                    &*final(self),
                    8 * length as nat,
                )),
                None => (r matches Err(e) && e == DemoError::BadString && old(self).unchanged(&*final(self))),
            },
    {
        let window = self.peek_bytes(length)?;
        let mut k: usize = 0;
        while k < window.len() && window[k] != 0
            invariant
                k <= window@.len(),
                forall|j: int| 0 <= j < k ==> window@[j] != 0,
            decreases window@.len() - k,
        {
            k = k + 1;
        }
        proof {
            lemma_nul_at(window@, k as int);
        }
        let mut text: Vec<u8> = Vec::new();
        let mut i: usize = 0;
        while i < k
            invariant
                k <= window@.len(),
                i <= k,
                text@ == window@.take(i as int),
            decreases k - i,
        {
            text.push(window[i]);
            i = i + 1;
            assert(text@ =~= window@.take(i as int));
        }
        match text_from_utf8(text) {
            Some(s) => {
                self.bit_pos = self.bit_pos + 8 * length;
                Ok(s)
            },
            None => Err(DemoError::BadString),
        }
    }

    /// Reads the bytes up to the next zero byte and moves past that
    /// terminator. Running out of bytes before a terminator is a bounds error.
    pub fn read_bytes_until_nul(&mut self) -> (r: Result<Vec<u8>, DemoError>)
        requires
            old(self).wf(),
        ensures
            final(self).wf(),
            match first_nul(old(self).rest()) {
                None => (r matches Err(e) && e == DemoError::OutOfBounds && old(self).unchanged(&*final(self))),
                Some(k) => (r matches Ok(b) && b@ == old(self).rest().take(k as int)
                    && old(self).advanced(&*final(self), 8 * (k + 1) as nat)),
            },
            r matches Ok(b) ==> first_nul(old(self).rest()) == Some(b@.len()),
    {
        let start = self.bit_pos;
        let ghost rest = old(self).rest();
        let mut text: Vec<u8> = Vec::new();
        loop
            invariant
                old(self).wf(),
                self.wf(),
                self.data@ == old(self).data@,
                rest == old(self).rest(),
                start == old(self).bit_pos,
                self.bit_pos == start + 8 * text@.len(),
                text@ == rest.take(text@.len() as int),
                text@.len() <= rest.len(),
                forall|j: int| 0 <= j < text@.len() ==> rest[j] != 0,
            decreases rest.len() - text@.len(),
        {
            let ghost i = text@.len();
            if !self.can_read_bits(8) {
                proof {
                    assert(i == rest.len());
                    lemma_nul_at(rest, i as int);
                }
                self.bit_pos = start;
                return Err(DemoError::OutOfBounds);
            }
            let b = self.read_u8()?;
            assert(b == rest[i as int]);
            if b == 0 {
                proof {
                    lemma_nul_at(rest, i as int);
                }
                return Ok(text);
            }
            text.push(b);
            assert(text@ =~= rest.take(text@.len() as int));
        }
    }

    /// Reads a zero-terminated string of any length and moves past its
    /// terminator. Running out of bytes before a terminator is a bounds error;
    /// on any error the cursor does not move.
    pub fn read_cstr_until(&mut self) -> (r: Result<String, DemoError>)
        requires
            old(self).wf(),
        ensures
            final(self).wf(),
            match first_nul(old(self).rest()) {
                None => (r matches Err(e) && e == DemoError::OutOfBounds && old(self).unchanged(&*final(self))),
                Some(k) => match decode_text(old(self).rest().take(k as int)) {
                    Some(t) => (r matches Ok(s) && s@ == t && old(self).advanced(
                        &*final(self),
                        8 * (k + 1) as nat,
                    )),
                    None => (r matches Err(e) && e == DemoError::BadString && old(self).unchanged(
                        &*final(self),
                    )),
                },
            },
    {
        let start = self.bit_pos;
        let bytes = self.read_bytes_until_nul()?;
        match text_from_utf8(bytes) {
            Some(s) => Ok(s),
            None => {
                self.bit_pos = start;
                Err(DemoError::BadString)
            },
        }
    }

    /// Whether `n` more bits can be read.
    pub fn can_read_bits(&self, n: usize) -> (r: bool)
        requires
            self.wf(),
        ensures
            r == self.can_read(n as nat),
    {
        n <= self.remaining_bits()
    }

    /// Reads a variable-length signed 32-bit integer as the protocol frames
    /// it (see [`varint_decode`]). On failure the cursor does not move.
    pub fn read_protobuf_var_int(&mut self) -> (r: Result<i32, DemoError>)
        requires
            old(self).wf(),
        ensures
            final(self).wf(),
            match varint_decode(old(self).rest()) {
                Ok((v, n)) => r == Ok::<i32, DemoError>(v as i32) && old(self).advanced(
                    &*final(self),
                    8 * n,
                ),
                Err(e) => r == Err::<i32, DemoError>(e) && old(self).unchanged(&*final(self)),
            },
            r.is_ok() ==> final(self).pos() >= old(self).pos() + 8,
    {
        proof {
            lemma_varint_len(old(self).rest(), 0);
        }
        let start = self.bit_pos;
        let ghost rest = old(self).rest();
        let mut result: i64 = 0;
        let mut scale: i64 = 1;
        let mut count: usize = 0;
        proof {
            lemma_pow2_widths();
            reveal_with_fuel(pow2, 36);
        }
        loop
            invariant
                old(self).wf(),
                self.wf(),
                self.data@ == old(self).data@,
                rest == old(self).rest(),
                start == old(self).bit_pos,
                count <= 4,
                self.bit_pos == start + 8 * count,
                scale == pow2(7 * count as nat),
                pow2(0) == 1, pow2(7) == 128, pow2(14) == 16384, pow2(21) == 2097152,
                pow2(28) == 268435456,
                0 <= result < scale,
                match varint_at(rest, count as nat) {
                    Ok((v, n)) => varint_decode(rest) == Ok::<(int, nat), DemoError>((v + result, n)),
                    Err(e) => varint_decode(rest) == Err::<(int, nat), DemoError>(e),
                },
            decreases 5 - count,
        {
            if !self.can_read_bits(8) {
                assert(count >= rest.len());
                self.bit_pos = start;
                return Err(DemoError::OutOfBounds);
            }
            let b = self.read_u8()?;
            assert(b == rest[count as int]);
            if count == 4 && !(b < 0x08 || b >= 0xF8) {
                self.bit_pos = start;
                return Err(DemoError::VarIntOverflow);
            }
            let low = (b % 0x80) as i64;
            if b < 0x80 {
                assert(count == 4 ==> b < 8);
                if count == 0 {
                    assert(scale == 1);
                } else if count == 1 {
                    assert(scale == 128);
                } else if count == 2 {
                    assert(scale == 16384);
                } else if count == 3 {
                    assert(scale == 2097152);
                }
                if count == 4 {
                    assert(low * scale <= 7 * scale) by (nonlinear_arith)
                        requires
                            low <= 7,
                            scale >= 0,
                    ;
                } else {
                    assert(low * scale <= 127 * scale) by (nonlinear_arith)
                        requires
                            low <= 127,
                            scale >= 0,
                    ;
                }
                assert(result + low * scale < 0x8000_0000);
                let v = result + low * scale;
                return Ok(v as i32);
            }
            if count == 4 {
                if !self.can_read_bits(8) {
                    assert(varint_at(rest, 5) == Err::<(int, nat), DemoError>(DemoError::OutOfBounds));
                    self.bit_pos = start;
                    return Err(DemoError::OutOfBounds);
                }
                assert(varint_at(rest, 5) == Err::<(int, nat), DemoError>(DemoError::VarIntOverflow));
                self.bit_pos = start;
                return Err(DemoError::VarIntOverflow);
            }
            assert(result + low * scale < scale * 128) by (nonlinear_arith)
                requires
                    0 <= result < scale,
                    0 <= low < 128,
            ;
            result = result + low * scale;
            scale = scale * 128;
            count = count + 1;
        }
    }
}

} // verus!
