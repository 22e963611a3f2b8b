//! Reading the protocol-buffer wire format, as far as the schema-table
//! message needs it.
use vstd::prelude::*;
use crate::cursor::{pow2, text_from_utf8, decode_text};
use crate::error::DemoError;
use crate::send_table::{SendProp, SendPropModel, SendTable, SendTableModel};

verus! {

/// What a LEB128 varint read from byte `k` of `s` gives: its value and the
/// index just past it. At most ten bytes are read, and a tenth byte above 1
/// would overflow 64 bits.
pub open spec fn leb128_at(s: Seq<u8>, k: nat) -> Option<(int, nat)>
    decreases 10 - k,
{
    if k >= 10 || k >= s.len() {
        None
    } else {
        let b = s[k as int];
        if b < 0x80 {
            if k == 9 && b >= 2 {
                None
            } else {
                Some(((b as int) * pow2(7 * k) as int, k + 1))
            }
        } else {
            match leb128_at(s, k + 1) {
                Some((v, n)) => Some((v + (b as int - 0x80) * pow2(7 * k) as int, n)),
                None => None,
            }
        }
    }
}

/// Relies on prost's `encoding::decode_varint`: the LEB128 value at the start
/// of `s` and how many bytes of `s` are left after it, or `None` where the
/// bytes hold no valid varint.
#[verifier::external_body]
fn prost_decode_varint(s: &[u8]) -> (r: Option<(u64, usize)>)
    ensures
        match leb128_at(s@, 0) {
            Some((v, n)) => r == Some((v as u64, (s@.len() - n) as usize)),
            None => r.is_none(),
        },
{
    let mut buf = s;
    match prost::encoding::decode_varint(&mut buf) {
        Ok(v) => Some((v, buf.len())),
        Err(_) => None,
    }
}

proof fn lemma_leb128_len(s: Seq<u8>, k: nat)
    ensures
        leb128_at(s, k) matches Some((v, n)) ==> k < n <= s.len() && v >= 0,
    decreases 10 - k,
{
    if k < 10 && k < s.len() {
        if s[k as int] >= 0x80 {
            lemma_leb128_len(s, k + 1);
            assert((s[k as int] as int - 0x80) * pow2(7 * k) as int >= 0) by (nonlinear_arith)
                requires
                    s[k as int] >= 0x80,
                    pow2(7 * k) >= 0,
            ;
        } else {
            assert((s[k as int] as int) * pow2(7 * k) as int >= 0) by (nonlinear_arith)
                requires
                    pow2(7 * k) >= 0,
            ;
        }
    }
}

/// The varint at byte `p` of `s` and the index after it.
pub open spec fn varint_in(s: Seq<u8>, p: nat) -> Option<(u64, nat)> {
    if p > s.len() {
        None
    } else {
        match leb128_at(s.skip(p as int), 0) {
            Some((v, n)) => Some((v as u64, p + n)),
            None => None,
        }
    }
}

/// A field key at byte `p`: its field number, its wire type and the index
/// after it. Keys above 32 bits, wire types above 5 and field number 0 are
/// invalid.
pub open spec fn key_in(s: Seq<u8>, p: nat) -> Option<(u64, u64, nat)> {
    match varint_in(s, p) {
        Some((k, q)) => if k > 0xFFFF_FFFF || k % 8 > 5 || k / 8 == 0 {
            None
        } else {
            Some((k / 8, k % 8, q))
        },
        None => None,
    }
}

/// The index after `n` more bytes from `p`, if there are that many.
pub open spec fn raw_end(s: Seq<u8>, p: nat, n: int) -> Option<nat> {
    if 0 <= n && p + n <= s.len() {
        Some((p + n) as nat)
    } else {
        None
    }
}

/// The name of how many bytes prost's `skip_field` passes over for a group
/// of field `tag` at the start of `s`, nested groups included.
pub uninterp spec fn group_skip(s: Seq<u8>, tag: u64) -> Option<nat>;

/// The index after a value of wire type `w` of field `tag` at `p`; a group
/// runs to its matching end marker, and a lone end marker is an error.
pub open spec fn skip_in(s: Seq<u8>, p: nat, w: int, tag: u64) -> Option<nat> {
    if w == 0 {
        match varint_in(s, p) {
            Some((_, q)) => Some(q),
            None => None,
        }
    } else if w == 1 {
        raw_end(s, p, 8)
    } else if w == 2 {
        match varint_in(s, p) {
            Some((n, q)) => raw_end(s, q, n as int),
            None => None,
        }
    } else if w == 5 {
        raw_end(s, p, 4)
    } else if w == 3 && p <= s.len() {
        match group_skip(s.skip(p as int), tag) {
            Some(n) => if 0 < n && p + n <= s.len() {
                Some(p + n)
            } else {
                None
            },
            None => None,
        }
    } else {
        None
    }
}

/// Relies on prost's `encoding::decode_key`: a varint key of at most 32 bits
/// whose low three bits are a wire type up to 5 and whose field number is
/// not 0, split into field number and wire type, with how many bytes of `s`
/// are left after it.
#[verifier::external_body]
fn prost_decode_key(s: &[u8]) -> (r: Option<(u64, u64, usize)>)
    ensures
        match leb128_at(s@, 0) {
            Some((k, n)) => if (k as u64) > 0xFFFF_FFFF || (k as u64) % 8 > 5 || (k as u64) / 8 == 0 {
                r.is_none()
            } else {
                r == Some(((k as u64) / 8, (k as u64) % 8, (s@.len() - n) as usize))
            },
            None => r.is_none(),
        },
{
    let mut buf = s;
    match prost::encoding::decode_key(&mut buf) {
        Ok((tag, wire_type)) => Some((tag as u64, wire_type as u64, buf.len())),
        Err(_) => None,
    }
}

/// Relies on prost's `encoding::skip_field`: passes over one value of wire
/// type `wire` of field `tag` at the start of `s`, and gives how many bytes
/// are left: a varint, 8 or 4 bytes, a length and that many bytes, or a group
/// up to its end marker; an end marker on its own is an error.
#[verifier::external_body]
fn prost_skip_field(s: &[u8], wire: u64, tag: u64) -> (r: Option<usize>)
    requires
        wire <= 5,
        1 <= tag <= 0x1FFF_FFFF,
    ensures
        wire == 0 ==> match leb128_at(s@, 0) {
            Some((v, n)) => r == Some((s@.len() - n) as usize),
            None => r.is_none(),
        },
        wire == 1 ==> r == if 8 <= s@.len() { Some((s@.len() - 8) as usize) } else { None },
        wire == 5 ==> r == if 4 <= s@.len() { Some((s@.len() - 4) as usize) } else { None },
        wire == 2 ==> match leb128_at(s@, 0) {
            Some((l, n)) => r == if n + (l as u64) <= s@.len() {
                Some((s@.len() - n - (l as u64)) as usize)
            } else {
                None
            },
            None => r.is_none(),
        },
        wire == 3 ==> r == match group_skip(s@, tag) {
            Some(n) => if 0 < n <= s@.len() { Some((s@.len() - n) as usize) } else { None },
            None => None,
        },
        wire == 4 ==> r.is_none(),
{
    let mut buf = s;
    let wire_type = match prost::encoding::WireType::try_from(wire) {
        Ok(w) => w,
        Err(_) => return None,
    };
    match prost::encoding::skip_field(wire_type, tag as u32, &mut buf, prost::encoding::DecodeContext::default()) {
        Ok(()) => Some(buf.len()),
        Err(_) => None,
    }
}

/// A 32-bit integer field value: a varint cut to its low 32 bits.
pub open spec fn int32_in(s: Seq<u8>, p: nat, w: int) -> Option<(i32, nat)> {
    if w != 0 {
        None
    } else {
        match varint_in(s, p) {
            Some((v, q)) => Some((v as i32, q)),
            None => None,
        }
    }
}

/// A boolean field value: a varint, true iff non-zero.
pub open spec fn bool_in(s: Seq<u8>, p: nat, w: int) -> Option<(bool, nat)> {
    if w != 0 {
        None
    } else {
        match varint_in(s, p) {
            Some((v, q)) => Some((v != 0, q)),
            None => None,
        }
    }
}

/// A length-delimited field value.
pub open spec fn bytes_in(s: Seq<u8>, p: nat, w: int) -> Option<(Seq<u8>, nat)> {
    if w != 2 {
        None
    } else {
        match varint_in(s, p) {
            Some((n, q)) => match raw_end(s, q, n as int) {
                Some(e) => Some((s.subrange(q as int, e as int), e)),
                None => None,
            },
            None => None,
        }
    }
}

/// A string field value: length-delimited UTF-8.
pub open spec fn string_in(s: Seq<u8>, p: nat, w: int) -> Option<(Seq<char>, nat)> {
    match bytes_in(s, p, w) {
        Some((b, e)) => match decode_text(b) {
            Some(t) => Some((t, e)),
            None => None,
        },
        None => None,
    }
}

/// A fixed 32-bit field value, little-endian.
pub open spec fn fixed32_in(s: Seq<u8>, p: nat, w: int) -> Option<(u32, nat)> {
    if w != 5 || p + 4 > s.len() {
        None
    } else {
        Some(
            ((s[p as int] as int + 0x100 * s[p + 1int] + 0x1_0000 * s[p + 2int] + 0x100_0000 * s[p
                + 3int]) as u32, p + 4),
        )
    }
}

/// The varint at byte `pos` of `data`, and the position after it.
fn read_varint(data: &Vec<u8>, pos: usize) -> (r: Result<(u64, usize), DemoError>)
    requires
        pos <= data@.len(),
    ensures
        match varint_in(data@, pos as nat) {
            Some((v, q)) => (r matches Ok((x, p)) && x == v && p == q),
            None => r == Err::<(u64, usize), DemoError>(DemoError::BadMessage),
        },
        r matches Ok((v, p)) ==> pos < p <= data@.len(),
        varint_in(data@, pos as nat) matches Some((v, q)) ==> pos < q <= data@.len(),
{
    let s = vstd::slice::slice_subrange(data.as_slice(), pos, data.len());
    assert(s@ =~= data@.skip(pos as int));
    proof {
        lemma_leb128_len(s@, 0);
    }
    match prost_decode_varint(s) {
        Some((v, left)) => Ok((v, data.len() - left)),
        None => Err(DemoError::BadMessage),
    }
}

/// The `n` bytes at `pos`, and the position after them.
fn read_raw(data: &Vec<u8>, pos: usize, n: u64) -> (r: Result<(Vec<u8>, usize), DemoError>)
    requires
        pos <= data@.len(),
    ensures
        match raw_end(data@, pos as nat, n as int) {
            Some(e) => (r matches Ok((v, p)) && p == e && v@ == data@.subrange(pos as int, e as int)),
            None => r == Err::<(Vec<u8>, usize), DemoError>(DemoError::BadMessage),
        },
{
    if n > (data.len() - pos) as u64 {
        return Err(DemoError::BadMessage);
    }
    let end = pos + n as usize;
    let mut out: Vec<u8> = Vec::new();
    let mut i = pos;
    while i < end
        invariant
            pos <= i <= end <= data@.len(),
            out@ == data@.subrange(pos as int, i as int),
        decreases end - i,
    {
        out.push(data[i]);
        i = i + 1;
        assert(out@ =~= data@.subrange(pos as int, i as int));
    }
    Ok((out, end))
}

/// A field key split into field number and wire type.
fn read_key(data: &Vec<u8>, pos: usize) -> (r: Result<(u64, u64, usize), DemoError>)
    requires
        pos <= data@.len(),
    ensures
        match key_in(data@, pos as nat) {
            Some((f, w, q)) => (r matches Ok((a, b, p)) && a == f && b == w && p == q),
            None => r == Err::<(u64, u64, usize), DemoError>(DemoError::BadMessage),
        },
        r matches Ok((field, wire, p)) ==> pos < p <= data@.len() && wire <= 5 && 1 <= field
            <= 0x1FFF_FFFF,
{
    let s = vstd::slice::slice_subrange(data.as_slice(), pos, data.len());
    assert(s@ =~= data@.skip(pos as int));
    proof {
        lemma_leb128_len(s@, 0);
    }
    match prost_decode_key(s) {
        Some((field, wire, left)) => Ok((field, wire, data.len() - left)),
        None => Err(DemoError::BadMessage),
    }
}

/// The position after a field value of wire type `wire` at `pos`.
fn skip_value(data: &Vec<u8>, pos: usize, wire: u64, field: u64) -> (r: Result<usize, DemoError>)
    requires
        pos <= data@.len(),
        wire <= 5,
        1 <= field <= 0x1FFF_FFFF,
    ensures
        match skip_in(data@, pos as nat, wire as int, field) {
            Some(e) => (r matches Ok(p) && p == e),
            None => r == Err::<usize, DemoError>(DemoError::BadMessage),
        },
        r matches Ok(p) ==> pos <= p <= data@.len(),
{
    let s = vstd::slice::slice_subrange(data.as_slice(), pos, data.len());
    assert(s@ =~= data@.skip(pos as int));
    proof {
        lemma_leb128_len(s@, 0);
    }
    match prost_skip_field(s, wire, field) {
        Some(left) => Ok(data.len() - left),
        None => Err(DemoError::BadMessage),
    }
}

/// A varint field value, as the protocol's 32-bit integer fields keep it.
fn read_int32(data: &Vec<u8>, pos: usize, wire: u64) -> (r: Result<(i32, usize), DemoError>)
    requires
        pos <= data@.len(),
    ensures
        match int32_in(data@, pos as nat, wire as int) {
            Some((v, e)) => (r matches Ok((x, p)) && x == v && p == e),
            None => r == Err::<(i32, usize), DemoError>(DemoError::BadMessage),
        },
        r matches Ok((v, p)) ==> pos < p <= data@.len(),
{
    if wire != 0 {
        return Err(DemoError::BadMessage);
    }
    let (v, p) = read_varint(data, pos)?;
    Ok((#[verifier::truncate] (v as i32), p))
}

/// A varint field value read as a boolean: true iff non-zero.
fn read_bool(data: &Vec<u8>, pos: usize, wire: u64) -> (r: Result<(bool, usize), DemoError>)
    requires
        pos <= data@.len(),
    ensures
        match bool_in(data@, pos as nat, wire as int) {
            Some((v, e)) => (r matches Ok((x, p)) && x == v && p == e),
            None => r == Err::<(bool, usize), DemoError>(DemoError::BadMessage),
        },
        r matches Ok((v, p)) ==> pos < p <= data@.len(),
{
    if wire != 0 {
        return Err(DemoError::BadMessage);
    }
    let (v, p) = read_varint(data, pos)?;
    Ok((v != 0, p))
}

/// A length-delimited field value.
fn read_delimited(data: &Vec<u8>, pos: usize, wire: u64) -> (r: Result<(Vec<u8>, usize), DemoError>)
    requires
        pos <= data@.len(),
    ensures
        match bytes_in(data@, pos as nat, wire as int) {
            Some((b, e)) => (r matches Ok((v, p)) && v@ == b && p == e),
            None => r == Err::<(Vec<u8>, usize), DemoError>(DemoError::BadMessage),
        },
        r matches Ok((v, p)) ==> pos < p <= data@.len(),
{
    if wire != 2 {
        return Err(DemoError::BadMessage);
    }
    let (n, p) = read_varint(data, pos)?;
    read_raw(data, p, n)
}

/// A UTF-8 string field value.
fn read_string(data: &Vec<u8>, pos: usize, wire: u64) -> (r: Result<(String, usize), DemoError>)
    requires
        pos <= data@.len(),
    ensures
        match string_in(data@, pos as nat, wire as int) {
            Some((t, e)) => (r matches Ok((v, p)) && v@ == t && p == e),
            None => r == Err::<(String, usize), DemoError>(DemoError::BadMessage),
        },
        r matches Ok((v, p)) ==> pos < p <= data@.len(),
{
    let (b, p) = read_delimited(data, pos, wire)?;
    match text_from_utf8(b) {
        Some(s) => Ok((s, p)),
        None => Err(DemoError::BadMessage),
    }
}

/// A fixed 32-bit field value, little-endian.
fn read_fixed32(data: &Vec<u8>, pos: usize, wire: u64) -> (r: Result<(u32, usize), DemoError>)
    requires
        pos <= data@.len(),
    ensures
        match fixed32_in(data@, pos as nat, wire as int) {
            Some((v, e)) => (r matches Ok((x, p)) && x == v && p == e),
            None => r == Err::<(u32, usize), DemoError>(DemoError::BadMessage),
        },
        r matches Ok((v, p)) ==> pos < p <= data@.len(),
{
    if wire != 5 {
        return Err(DemoError::BadMessage);
    }
    let (b, p) = read_raw(data, pos, 4)?;
    let v: u32 = b[0] as u32 + 0x100 * b[1] as u32 + 0x1_0000 * b[2] as u32 + 0x100_0000 * b[3] as u32;
    Ok((v, p))
}

/// A descriptor before any field is read: no type (`-1`), empty names and
/// zero numbers.
pub open spec fn empty_prop() -> SendPropModel {
    SendPropModel {
        prop_type: -1i32,
        var_name: Seq::empty(),
        flags: 0,
        priority: 0,
        dt_name: Seq::empty(),
        num_elements: 0,
        low_value: 0,
        high_value: 0,
        num_bits: 0,
    }
}

/// A table before any field is read.
pub open spec fn empty_table() -> SendTableModel {
    SendTableModel {
        is_end: false,
        net_table_name: Seq::empty(),
        needs_decoder: false,
        props: Seq::empty(),
    }
}

/// Reads the value of descriptor field `f` of wire type `w` at `p` into `m`;
/// unknown fields are skipped.
pub open spec fn prop_field(s: Seq<u8>, p: nat, f: int, w: int, m: SendPropModel) -> Option<
    (SendPropModel, nat),
> {
    if f == 1 {
        match int32_in(s, p, w) {
            Some((v, e)) => Some((SendPropModel { prop_type: v, ..m }, e)),
            None => None,
        }
    } else if f == 2 {
        match string_in(s, p, w) {
            Some((v, e)) => Some((SendPropModel { var_name: v, ..m }, e)),
            None => None,
        }
    } else if f == 3 {
        match int32_in(s, p, w) {
            Some((v, e)) => Some((SendPropModel { flags: v, ..m }, e)),
            None => None,
        }
    } else if f == 4 {
        match int32_in(s, p, w) {
            Some((v, e)) => Some((SendPropModel { priority: v, ..m }, e)),
            None => None,
        }
    } else if f == 5 {
        match string_in(s, p, w) {
            Some((v, e)) => Some((SendPropModel { dt_name: v, ..m }, e)),
            None => None,
        }
    } else if f == 6 {
        match int32_in(s, p, w) {
            Some((v, e)) => Some((SendPropModel { num_elements: v, ..m }, e)),
            None => None,
        }
    } else if f == 7 {
        match fixed32_in(s, p, w) {
            Some((v, e)) => Some((SendPropModel { low_value: v, ..m }, e)),
            None => None,
        }
    } else if f == 8 {
        match fixed32_in(s, p, w) {
            Some((v, e)) => Some((SendPropModel { high_value: v, ..m }, e)),
            None => None,
        }
    } else if f == 9 {
        match int32_in(s, p, w) {
            Some((v, e)) => Some((SendPropModel { num_bits: v, ..m }, e)),
            None => None,
        }
    } else {
        match skip_in(s, p, w, f as u64) {
            Some(e) => Some((m, e)),
            None => None,
        }
    }
}

/// The descriptor that the fields of `s` from index `p` on make of `m`; a
/// later field overwrites an earlier one.
pub open spec fn prop_fields(s: Seq<u8>, p: nat, m: SendPropModel) -> Option<SendPropModel>
    decreases s.len() - p,
{
    if p >= s.len() {
        Some(m)
    } else {
        match key_in(s, p) {
            None => None,
            Some((f, w, q)) => match prop_field(s, q, f as int, w as int, m) {
                None => None,
                Some((m2, e)) => if e <= p || e > s.len() {
                    None
                } else {
                    prop_fields(s, e, m2)
                },
            },
        }
    }
}

/// What a descriptor message decodes to.
pub open spec fn decode_prop(s: Seq<u8>) -> Option<SendPropModel> {
    prop_fields(s, 0, empty_prop())
}

/// Reads the value of table field `f` of wire type `w` at `p` into `m`;
/// each descriptor field adds one descriptor.
pub open spec fn table_field(s: Seq<u8>, p: nat, f: int, w: int, m: SendTableModel) -> Option<
    (SendTableModel, nat),
> {
    if f == 1 {
        match bool_in(s, p, w) {
            Some((v, e)) => Some((SendTableModel { is_end: v, ..m }, e)),
            None => None,
        }
    } else if f == 2 {
        match string_in(s, p, w) {
            Some((v, e)) => Some((SendTableModel { net_table_name: v, ..m }, e)),
            None => None,
        }
    } else if f == 3 {
        match bool_in(s, p, w) {
            Some((v, e)) => Some((SendTableModel { needs_decoder: v, ..m }, e)),
            None => None,
        }
    } else if f == 4 {
        match bytes_in(s, p, w) {
            Some((b, e)) => match decode_prop(b) {
                Some(pm) => Some((SendTableModel { props: m.props.push(pm), ..m }, e)),
                None => None,
            },
            None => None,
        }
    } else {
        match skip_in(s, p, w, f as u64) {
            Some(e) => Some((m, e)),
            None => None,
        }
    }
}

/// The table that the fields of `s` from index `p` on make of `m`.
pub open spec fn table_fields(s: Seq<u8>, p: nat, m: SendTableModel) -> Option<SendTableModel>
    decreases s.len() - p,
{
    if p >= s.len() {
        Some(m)
    } else {
        match key_in(s, p) {
            None => None,
            Some((f, w, q)) => match table_field(s, q, f as int, w as int, m) {
                None => None,
                Some((m2, e)) => if e <= p || e > s.len() {
                    None
                } else {
                    table_fields(s, e, m2)
                },
            },
        }
    }
}

/// What a schema-table message decodes to.
pub open spec fn decode_table(s: Seq<u8>) -> Option<SendTableModel> {
    table_fields(s, 0, empty_table())
}

/// Decodes one property descriptor message.
pub(crate) fn decode_send_prop(data: &Vec<u8>) -> (r: Result<SendProp, DemoError>)
    ensures
        match decode_prop(data@) {
            Some(m) => (r matches Ok(p) && p@ == m),
            None => r == Err::<SendProp, DemoError>(DemoError::BadMessage),
        },
{
    let mut prop = SendProp::new(-1, String::new(), 0, String::new());
    let mut pos: usize = 0;
    while pos < data.len()
        invariant
            pos <= data@.len(),
            match prop_fields(data@, pos as nat, prop@) {
                Some(m) => decode_prop(data@) == Some(m),
                None => decode_prop(data@).is_none(),
            },
        decreases data@.len() - pos,
    {
        let (field, wire, p) = read_key(data, pos)?;
        if field == 1 {
            let (v, q) = read_int32(data, p, wire)?;
            prop.prop_type = v;
            pos = q;
        } else if field == 2 {
            let (v, q) = read_string(data, p, wire)?;
            prop.var_name = v;
            pos = q;
        } else if field == 3 {
            let (v, q) = read_int32(data, p, wire)?;
            prop.flags = v;
            pos = q;
        } else if field == 4 {
            let (v, q) = read_int32(data, p, wire)?;
            prop.priority = v;
            pos = q;
        } else if field == 5 {
            let (v, q) = read_string(data, p, wire)?;
            prop.dt_name = v;
            pos = q;
        } else if field == 6 {
            let (v, q) = read_int32(data, p, wire)?;
            prop.num_elements = v;
            pos = q;
        } else if field == 7 {
            let (v, q) = read_fixed32(data, p, wire)?;
            prop.low_value = v;
            pos = q;
        } else if field == 8 {
            let (v, q) = read_fixed32(data, p, wire)?;
            prop.high_value = v;
            pos = q;
        } else if field == 9 {
            let (v, q) = read_int32(data, p, wire)?;
            prop.num_bits = v;
            pos = q;
        } else {
            pos = skip_value(data, p, wire, field)?;
        }
    }
    Ok(prop)
}

/// Decodes one schema-table message.
pub(crate) fn decode_send_table(data: &Vec<u8>) -> (r: Result<SendTable, DemoError>)
    ensures
        match decode_table(data@) {
            Some(m) => (r matches Ok(t) && t@ == m),
            None => r == Err::<SendTable, DemoError>(DemoError::BadMessage),
        },
{
    let mut table = SendTable::new(String::new(), Vec::new());
    assert(table@.props =~= Seq::<SendPropModel>::empty());
    let mut pos: usize = 0;
    while pos < data.len()
        invariant
            pos <= data@.len(),
            match table_fields(data@, pos as nat, table@) {
                Some(m) => decode_table(data@) == Some(m),
                None => decode_table(data@).is_none(),
            },
        decreases data@.len() - pos,
    {
        let (field, wire, p) = read_key(data, pos)?;
        if field == 1 {
            let (v, q) = read_bool(data, p, wire)?;
            table.is_end = v;
            pos = q;
        } else if field == 2 {
            let (v, q) = read_string(data, p, wire)?;
            table.net_table_name = v;
            pos = q;
        } else if field == 3 {
            let (v, q) = read_bool(data, p, wire)?;
            table.needs_decoder = v;
            pos = q;
        } else if field == 4 {
            let (b, q) = read_delimited(data, p, wire)?;
            let prop = decode_send_prop(&b)?;
            let ghost old_props = table.props@;
            table.props.push(prop);
            assert(table@.props =~= old_props.map_values(|p: SendProp| p@).push(prop@));
            pos = q;
        } else {
            pos = skip_value(data, p, wire, field)?;
        }
    }
    Ok(table)
}

} // verus!
