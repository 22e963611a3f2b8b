//! The replicated string tables: a closed set of named sub-formats.
use vstd::prelude::*;
use vstd::string::StringExecFns;
use std::collections::HashMap;
use crate::cursor::{bit_at, bits_le, byte_at, bytes_from, first_nul, decode_text, text_from_utf8, Cursor};
use crate::error::DemoError;

verus! {

broadcast use vstd::std_specs::hash::group_hash_axioms;

/// Whether every byte of `d` is an ASCII digit.
pub open spec fn all_digits(d: Seq<u8>) -> bool {
    forall|i: int| 0 <= i < d.len() ==> 0x30 <= #[trigger] d[i] <= 0x39
}

/// The value of a string of ASCII digits, most significant first.
pub open spec fn digits_value(d: Seq<u8>) -> int
    decreases d.len(),
{
    if d.len() == 0 {
        0
    } else {
        digits_value(d.drop_last()) * 10 + (d.last() - 0x30)
    }
}

/// What a decimal key means as an unsigned 8-bit number: an optional `+`
/// followed by at least one digit, with a value that fits.
pub open spec fn decimal_u8(s: Seq<u8>) -> Option<u8> {
    let d = if s.len() > 0 && s[0] == 0x2B {
        s.drop_first()
    } else {
        s
    };
    if d.len() == 0 || !all_digits(d) || digits_value(d) > 0xFF {
        None
    } else {
        Some(digits_value(d) as u8)
    }
}

/// What a decimal key means as a signed 32-bit number: an optional `+` or
/// `-` followed by at least one digit, with a value that fits.
pub open spec fn decimal_i32(s: Seq<u8>) -> Option<i32> {
    let neg = s.len() > 0 && s[0] == 0x2D;
    let d = if s.len() > 0 && (s[0] == 0x2B || s[0] == 0x2D) {
        s.drop_first()
    } else {
        s
    };
    if d.len() == 0 || !all_digits(d) {
        None
    } else if neg {
        if digits_value(d) > 0x8000_0000 {
            None
        } else {
            Some((-digits_value(d)) as i32)
        }
    } else if digits_value(d) > 0x7FFF_FFFF {
        None
    } else {
        Some(digits_value(d) as i32)
    }
}

/// The digits of `d` from index `from`, or `None` if one is not a digit or
/// the value passes `limit`.
fn digits_upto(d: &Vec<u8>, from: usize, limit: u64) -> (r: Option<u64>)
    requires
        from <= d@.len(),
        limit <= 0xFFFF_FFFF,
    ensures
        ({
            let t = d@.skip(from as int);
            if all_digits(t) && digits_value(t) <= limit {
                r == Some(digits_value(t) as u64)
            } else {
                r.is_none()
            }
        }),
        r matches Some(v) ==> v <= limit && v as int == digits_value(d@.skip(from as int)),
{
    let ghost t = d@.skip(from as int);
    let mut v: u64 = 0;
    let mut i: usize = from;
    while i < d.len()
        invariant
            from <= i <= d@.len(),
            t == d@.skip(from as int),
            all_digits(t.take(i - from)),
            v == digits_value(t.take(i - from)),
            v <= limit,
            limit <= 0xFFFF_FFFF,
        decreases d@.len() - i,
    {
        let c = d[i];
        let ghost pre = t.take(i - from);
        let ghost next = t.take(i + 1 - from);
        assert(next.drop_last() =~= pre);
        assert(next.last() == c);
        if c < 0x30 || c > 0x39 {
            assert(!all_digits(t)) by {
                assert(t[i - from] == c);
            }
            return None;
        }
        let nv = v * 10 + (c - 0x30) as u64;
        if nv > limit {
            proof {
                lemma_digits_grow(t, (i + 1 - from) as int);
            }
            return None;
        }
        v = nv;
        i = i + 1;
        assert(all_digits(t.take(i - from))) by {
            assert forall|k: int| 0 <= k < t.take(i - from).len() implies 0x30 <= #[trigger] t.take(
                i - from,
            )[k] <= 0x39 by {
                if k < pre.len() {
                    assert(t.take(i - from)[k] == pre[k]);
                }
            }
        }
    }
    assert(t.take(i - from) =~= t);
    proof {
        lemma_digits_nonneg(t);
    }
    Some(v)
}

/// A longer run of digits is worth at least as much as its prefix.
proof fn lemma_digits_grow(t: Seq<u8>, n: int)
    requires
        0 <= n <= t.len(),
        all_digits(t.take(n)) || !all_digits(t),
    ensures
        all_digits(t) ==> digits_value(t) >= digits_value(t.take(n)),
    decreases t.len() - n,
{
    if n < t.len() && all_digits(t) {
        assert(all_digits(t.take(n + 1)));
        lemma_digits_grow(t, n + 1);
        assert(t.take(n + 1).drop_last() =~= t.take(n));
        assert(digits_value(t.take(n)) >= 0) by {
            lemma_digits_nonneg(t.take(n));
        }
    }
    if n == t.len() {
        assert(t.take(n) =~= t);
    }
}

proof fn lemma_digits_nonneg(d: Seq<u8>)
    requires
        all_digits(d),
    ensures
        digits_value(d) >= 0,
    decreases d.len(),
{
    if d.len() > 0 {
        assert(all_digits(d.drop_last()));
        lemma_digits_nonneg(d.drop_last());
    }
}

/// Parses a decimal key as an unsigned 8-bit number.
pub fn parse_u8_key(s: &Vec<u8>) -> (r: Result<u8, DemoError>)
    ensures
        match decimal_u8(s@) {
            Some(v) => r == Ok::<u8, DemoError>(v),
            None => r == Err::<u8, DemoError>(DemoError::BadKey),
        },
{
    let from: usize = if s.len() > 0 && s[0] == 0x2B {
        1
    } else {
        0
    };
    proof {
        if from == 1 {
            assert(s@.skip(1) =~= s@.drop_first());
        } else {
            assert(s@.skip(0) =~= s@);
        }
    }
    if from == s.len() {
        return Err(DemoError::BadKey);
    }
    match digits_upto(s, from, 0xFF) {
        Some(v) => Ok(v as u8),
        None => Err(DemoError::BadKey),
    }
}

/// Parses a decimal key as a signed 32-bit number.
pub fn parse_i32_key(s: &Vec<u8>) -> (r: Result<i32, DemoError>)
    ensures
        match decimal_i32(s@) {
            Some(v) => r == Ok::<i32, DemoError>(v),
            None => r == Err::<i32, DemoError>(DemoError::BadKey),
        },
{
    let neg = s.len() > 0 && s[0] == 0x2D;
    let from: usize = if s.len() > 0 && (s[0] == 0x2B || s[0] == 0x2D) {
        1
    } else {
        0
    };
    proof {
        if from == 1 {
            assert(s@.skip(1) =~= s@.drop_first());
        } else {
            assert(s@.skip(0) =~= s@);
        }
    }
    if from == s.len() {
        return Err(DemoError::BadKey);
    }
    if neg {
        match digits_upto(s, from, 0x8000_0000) {
            Some(v) => Ok((0 - v as i64) as i32),
            None => Err(DemoError::BadKey),
        }
    } else {
        match digits_upto(s, from, 0x7FFF_FFFF) {
            Some(v) => Ok(v as i32),
            None => Err(DemoError::BadKey),
        }
    }
}

/// The longest model name a model-precache entry may carry, in bytes.
pub const MAX_MODEL_NAME: usize = 100;

/// The size of a player record, in bytes.
pub const PLAYER_INFO_BYTES: usize = 332;

/// One decoded string table.
pub enum StringTable {
    /// Player records by slot.
    UserInfo(HashMap<u8, PlayerInfo>),
    /// Raw baseline data by entity class id.
    InstanceBaseline(HashMap<i32, Vec<u8>>),
    /// Model names, in table order.
    ModelPrecache(Vec<String>),
}

/// The string tables of one snapshot, in stream order.
pub struct StringTables {
    pub tables: Vec<StringTable>,
}

/// A player's record in the user-info table.
pub struct PlayerInfo {
    pub version: i64,
    pub xuid: i64,
    pub name: String,
    pub user_id: i32,
    pub guid: String,
    pub friends_id: i32,
    pub friends_name: String,
    pub is_fake_player: bool,
    pub is_hltv: bool,
    pub custom_files: [i32; 4],
    pub files_downloaded: u8,
}

/// Whether `n` bits can be read from bit `p` of `buf`.
pub open spec fn fits(buf: Seq<u8>, p: int, n: int) -> bool {
    p + n <= buf.len() * 8
}

/// The text of a string window of `len` bytes at bit `p`: what comes before
/// its first zero byte, if that is valid UTF-8.
pub open spec fn window_text(buf: Seq<u8>, p: int, len: nat) -> Option<Seq<char>> {
    decode_text(crate::cursor::before_nul(bytes_from(buf, p).take(len as int)))
}

/// Whether a player record at bit `at` of `buf` reads, and which error stops
/// it otherwise: the three name windows must be readable text.
#[verifier::opaque]
pub open spec fn record_result(buf: Seq<u8>, at: int) -> Result<(), DemoError> {
    if !fits(buf, at, 8 * 144int) {
        Err(DemoError::OutOfBounds)
    } else if window_text(buf, at + 8 * 16, 128) is None {
        Err(DemoError::BadString)
    } else if !fits(buf, at, 8 * 181int) {
        Err(DemoError::OutOfBounds)
    } else if window_text(buf, at + 8 * 148, 33) is None {
        Err(DemoError::BadString)
    } else if !fits(buf, at, 8 * 313int) {
        Err(DemoError::OutOfBounds)
    } else if window_text(buf, at + 8 * 185, 128) is None {
        Err(DemoError::BadString)
    } else if !fits(buf, at, 8 * 332int) {
        Err(DemoError::OutOfBounds)
    } else {
        Ok(())
    }
}

impl PlayerInfo {
    /// Reads the fixed-layout record of one player from its own region.
    pub fn parse_record(info: &mut Cursor) -> (r: Result<PlayerInfo, DemoError>)
        requires
            old(info).wf(),
        ensures
            final(info).wf(),
            final(info).buf() == old(info).buf(),
            match record_result(old(info).buf(), old(info).pos() as int) {
                Err(e) => r == Err::<PlayerInfo, DemoError>(e),
                Ok(_) => r is Ok,
            },
            r matches Ok(p) ==> {
                let buf = old(info).buf();
                let at = old(info).pos() as int;
                &&& p.version == bits_le(buf, at, 64) as u64 as i64
                &&& p.xuid == bits_le(buf, at + 64, 64) as u64 as i64
                &&& window_text(buf, at + 8 * 16, 128) == Some(p.name@)
                &&& p.user_id == bits_le(buf, at + 8 * 144, 32) as u32 as i32
                &&& window_text(buf, at + 8 * 148, 33) == Some(p.guid@)
                &&& p.friends_id == bits_le(buf, at + 8 * 181, 32) as u32 as i32
                &&& window_text(buf, at + 8 * 185, 128) == Some(p.friends_name@)
                &&& p.is_fake_player == (byte_at(buf, at + 8 * 313) != 0)
                &&& p.is_hltv == (byte_at(buf, at + 8 * 314) != 0)
                &&& p.custom_files[0] == bits_le(buf, at + 8 * 315, 32) as u32 as i32
                &&& p.custom_files[1] == bits_le(buf, at + 8 * 319, 32) as u32 as i32
                &&& p.custom_files[2] == bits_le(buf, at + 8 * 323, 32) as u32 as i32
                &&& p.custom_files[3] == bits_le(buf, at + 8 * 327, 32) as u32 as i32
                &&& p.files_downloaded == byte_at(buf, at + 8 * 331)
                &&& old(info).advanced(&*final(info), 8 * PLAYER_INFO_BYTES as nat)
            },
    {
        reveal(record_result);
        let version = info.read_i64()?;
        let xuid = info.read_i64()?;
        let name = info.read_cstr(128)?;
        let user_id = info.read_i32()?;
        let guid = info.read_cstr(33)?;
        let friends_id = info.read_i32()?;
        let friends_name = info.read_cstr(128)?;
        let is_fake_player = info.read_byte_bool()?;
        let is_hltv = info.read_byte_bool()?;
        let cf1 = info.read_i32()?;
        let cf2 = info.read_i32()?;
        let cf3 = info.read_i32()?;
        let cf4 = info.read_i32()?;
        let files_downloaded = info.read_u8()?;
        Ok(PlayerInfo {
            version,
            xuid,
            name,
            user_id,
            guid,
            friends_id,
            friends_name,
            is_fake_player,
            is_hltv,
            custom_files: [cf1, cf2, cf3, cf4],
            files_downloaded,
        })
    }
}

/// What reading a model-precache entry at bit `p` gives: the name of a
/// present entry (`None` for an absent one) and the bit after the entry.
#[verifier::opaque]
pub open spec fn model_entry(buf: Seq<u8>, p: int) -> Result<(Option<Seq<char>>, int), DemoError> {
    let rest = bytes_from(buf, p);
    match first_nul(rest) {
        None => Err(DemoError::OutOfBounds),
        Some(k) => match decode_text(rest.take(k as int)) {
            None => Err(DemoError::BadString),
            Some(t) => {
                let q = p + 8 * (k + 1);
                if k > MAX_MODEL_NAME {
                    Err(DemoError::ModelNameTooLong)
                } else if !fits(buf, q, 1) {
                    Err(DemoError::OutOfBounds)
                } else if bit_at(buf, q) == 0 {
                    Ok((None, q + 1))
                } else if !fits(buf, q + 1, 16) {
                    Err(DemoError::OutOfBounds)
                } else if bits_le(buf, q + 1, 16) != 0 {
                    Err(DemoError::UnexpectedUserData)
                } else {
                    Ok((Some(t), q + 17))
                }
            },
        },
    }
}

/// What reading an instance-baseline entry at bit `p` gives: the id and data
/// of a present entry (`None` for an absent one) and the bit after it.
#[verifier::opaque]
pub open spec fn baseline_entry(buf: Seq<u8>, p: int) -> Result<
    (Option<(i32, Seq<u8>)>, int),
    DemoError,
> {
    let rest = bytes_from(buf, p);
    match first_nul(rest) {
        None => Err(DemoError::OutOfBounds),
        Some(k) => {
            let q = p + 8 * (k + 1);
            let n = bits_le(buf, q + 1, 16);
            if !fits(buf, q, 1) {
                Err(DemoError::OutOfBounds)
            } else if bit_at(buf, q) == 0 {
                Ok((None, q + 1))
            } else if !fits(buf, q + 1, 16 + 8 * n) {
                Err(DemoError::OutOfBounds)
            } else {
                match decimal_i32(rest.take(k as int)) {
                    None => Err(DemoError::BadKey),
                    Some(id) => Ok((Some((id, bytes_from(buf, q + 17).take(n))), q + 17 + 8 * n)),
                }
            }
        },
    }
}

/// What reading a user-info entry at bit `p` gives: the slot of a present
/// entry (`None` for an absent one) and the bit after it. A present entry's
/// record is read from its own region of the declared length.
#[verifier::opaque]
pub open spec fn userinfo_entry(buf: Seq<u8>, p: int) -> Result<(Option<u8>, int), DemoError> {
    let rest = bytes_from(buf, p);
    match first_nul(rest) {
        None => Err(DemoError::OutOfBounds),
        Some(k) => match decimal_u8(rest.take(k as int)) {
            None => Err(DemoError::BadKey),
            Some(slot) => {
                let q = p + 8 * (k + 1);
                let n = bits_le(buf, q + 1, 16);
                if !fits(buf, q, 1) {
                    Err(DemoError::OutOfBounds)
                } else if bit_at(buf, q) == 0 {
                    Ok((None, q + 1))
                } else if !fits(buf, q + 1, 16 + 8 * n) {
                    Err(DemoError::OutOfBounds)
                } else {
                    match record_result(bytes_from(buf, q + 17).take(n), 0) {
                        Err(e) => Err(e),
                        Ok(_) => Ok((Some(slot), q + 17 + 8 * n)),
                    }
                }
            },
        },
    }
}

pub open spec fn opt_text(x: Option<String>) -> Option<Seq<char>> {
    match x {
        Some(s) => Some(s@),
        None => None,
    }
}

pub open spec fn opt_data(x: Option<(i32, Vec<u8>)>) -> Option<(i32, Seq<u8>)> {
    match x {
        Some((i, d)) => Some((i, d@)),
        None => None,
    }
}

pub open spec fn opt_slot(x: Option<(u8, PlayerInfo)>) -> Option<u8> {
    match x {
        Some((w, _)) => Some(w),
        None => None,
    }
}

/// Reads one model-precache entry: a name of at most [`MAX_MODEL_NAME`]
/// bytes, a presence bit, and for a present entry a 16-bit user-data length
/// that must be zero. An absent entry gives `None`.
pub fn read_model_entry(chunk: &mut Cursor) -> (r: Result<Option<String>, DemoError>)
    requires
        old(chunk).wf(),
    ensures
        final(chunk).wf(),
        final(chunk).buf() == old(chunk).buf(),
        match model_entry(old(chunk).buf(), old(chunk).pos() as int) {
            Ok((o, q)) => (r matches Ok(x) && opt_text(x) == o && final(chunk).pos() == q),
            Err(e) => r == Err::<Option<String>, DemoError>(e),
        },
{
    reveal(model_entry);
    let bytes = chunk.read_bytes_until_nul()?;
    let k = bytes.len();
    proof {
        crate::cursor::lemma_bits_fit(chunk.buf(), (chunk.pos() + 1) as int, 16);
    }
    let name = match text_from_utf8(bytes) {
        Some(s) => s,
        None => {
            return Err(DemoError::BadString);
        },
    };
    if k > MAX_MODEL_NAME {
        return Err(DemoError::ModelNameTooLong);
    }
    if chunk.read_bit_bool()? {
        let user_data_size = chunk.read_u16()?;
        if user_data_size != 0 {
            return Err(DemoError::UnexpectedUserData);
        }
        Ok(Some(name))
    } else {
        Ok(None)
    }
}

/// Reads one instance-baseline entry: a decimal class-id key, a presence
/// bit, and for a present entry a 16-bit length and that many bytes of data.
/// An absent entry gives `None`, and its key is not parsed.
pub fn read_baseline_entry(chunk: &mut Cursor) -> (r: Result<Option<(i32, Vec<u8>)>, DemoError>)
    requires
        old(chunk).wf(),
    ensures
        final(chunk).wf(),
        final(chunk).buf() == old(chunk).buf(),
        match baseline_entry(old(chunk).buf(), old(chunk).pos() as int) {
            Ok((o, q)) => (r matches Ok(x) && opt_data(x) == o && final(chunk).pos() == q),
            Err(e) => r == Err::<Option<(i32, Vec<u8>)>, DemoError>(e),
        },
{
    reveal(baseline_entry);
    let name = chunk.read_bytes_until_nul()?;
    proof {
        crate::cursor::lemma_bits_fit(chunk.buf(), (chunk.pos() + 1) as int, 16);
    }
    if chunk.read_bit_bool()? {
        let user_data_size = chunk.read_u16()?;
        let data = chunk.read_bytes(user_data_size as usize)?;
        let id = parse_i32_key(&name)?;
        Ok(Some((id, data)))
    } else {
        Ok(None)
    }
}

/// Reads one user-info entry: a decimal slot key, a presence bit, and for a
/// present entry a 16-bit length and a player record read from that many
/// bytes. An absent entry gives `None`.
pub fn read_userinfo_entry(chunk: &mut Cursor) -> (r: Result<Option<(u8, PlayerInfo)>, DemoError>)
    requires
        old(chunk).wf(),
    ensures
        final(chunk).wf(),
        final(chunk).buf() == old(chunk).buf(),
        match userinfo_entry(old(chunk).buf(), old(chunk).pos() as int) {
            Ok((o, q)) => (r matches Ok(x) && opt_slot(x) == o && final(chunk).pos() == q),
            Err(e) => r == Err::<Option<(u8, PlayerInfo)>, DemoError>(e),
        },
{
    reveal(userinfo_entry);
    let name = chunk.read_bytes_until_nul()?;
    let which_player = parse_u8_key(&name)?;
    proof {
        crate::cursor::lemma_bits_fit(chunk.buf(), (chunk.pos() + 1) as int, 16);
    }
    if chunk.read_bit_bool()? {
        let user_data_size = chunk.read_u16()?;
        let mut info_chunk = chunk.chunk_bytes(user_data_size as usize)?;
        let info = PlayerInfo::parse_record(&mut info_chunk)?;
        Ok(Some((which_player, info)))
    } else {
        Ok(None)
    }
}

/// The string-table kinds, by the name that introduces them.
pub open spec fn table_kind(name: Seq<char>) -> Option<nat> {
    if name == "userinfo"@ {
        Some(0)
    } else if name == "instancebaseline"@ {
        Some(1)
    } else if name == "modelprecache"@ {
        Some(2)
    } else {
        None
    }
}

/// Whether an entry is present with key `k`.
pub open spec fn keyed<K, V>(e: Option<(K, V)>, k: K) -> bool {
    e matches Some((kk, _)) && kk == k
}

/// Whether one of `entries` is present with key `k`.
pub open spec fn has_entry<V>(entries: Seq<Option<(u8, V)>>, k: u8) -> bool {
    exists|i: int| 0 <= i < entries.len() && keyed(#[trigger] entries[i], k)
}

/// Whether one of `entries` is present with id `k`.
pub open spec fn has_id_entry<V>(entries: Seq<Option<(i32, V)>>, k: i32) -> bool {
    exists|i: int| 0 <= i < entries.len() && keyed(#[trigger] entries[i], k)
}

/// The value of the last present entry with key `k`, if any.
pub open spec fn last_value<K, V>(es: Seq<Option<(K, V)>>, k: K) -> Option<V>
    decreases es.len(),
{
    if es.len() == 0 {
        None
    } else {
        match es.last() {
            Some((kk, v)) => if kk == k {
                Some(v)
            } else {
                last_value(es.drop_last(), k)
            },
            None => last_value(es.drop_last(), k),
        }
    }
}

/// Entries after index `n` that do not carry key `k` do not change which is
/// the last one with it.
proof fn lemma_last_value_prefix<K, V>(es: Seq<Option<(K, V)>>, n: int, k: K)
    requires
        0 <= n <= es.len(),
        forall|i: int| n <= i < es.len() ==> !keyed(#[trigger] es[i], k),
    ensures
        last_value(es, k) == last_value(es.take(n), k),
    decreases es.len() - n,
{
    if n == es.len() {
        assert(es.take(n) =~= es);
    } else {
        assert(!keyed(es[es.len() - 1], k));
        let d = es.drop_last();
        lemma_last_value_prefix(d, n, k);
        assert(d.take(n) =~= es.take(n));
    }
}

/// The map of the present entries by slot; absent entries add nothing, and
/// of two entries with one slot the later is kept.
pub fn collect_player_infos(entries: Vec<Option<(u8, PlayerInfo)>>) -> (m: HashMap<u8, PlayerInfo>)
    ensures
        forall|k: u8| m@.contains_key(k) <==> has_entry(entries@, k),
        forall|k: u8| m@.contains_key(k) ==> last_value(entries@, k) == Some(m@[k]),
        entries@.len() == 0 ==> m@.len() == 0,
{
    let ghost whole = entries@;
    let mut entries = entries;
    let mut mapping: HashMap<u8, PlayerInfo> = HashMap::new();
    while entries.len() > 0
        invariant
            entries@ == whole.take(entries@.len() as int),
            entries@.len() <= whole.len(),
            whole.len() == 0 ==> mapping@.len() == 0,
            forall|k: u8| mapping@.contains_key(k) <==> has_entry(whole.skip(entries@.len() as int), k),
            forall|k: u8| mapping@.contains_key(k) ==> last_value(whole, k) == Some(mapping@[k]),
        decreases entries@.len(),
    {
        let ghost n = entries@.len() as int;
        let e = entries.pop().unwrap();
        assert(e == whole[n - 1]);
        let ghost later = whole.skip(n);
        let ghost now = whole.skip(n - 1);
        assert(now =~= seq![e] + later);
        let ghost before = mapping@;
        let ghost mut key: Option<u8> = None;
        match e {
            Some((k, info)) => {
                proof {
                    key = Some(k);
                    assert(keyed(now[0], k));
                }
                if !mapping.contains_key(&k) {
                    proof {
                        assert forall|i: int| n <= i < whole.len() implies !keyed(#[trigger] whole[i], k) by {
                            if keyed(whole[i], k) {
                                assert(later[i - n] == whole[i]);
                            }
                        }
                        lemma_last_value_prefix(whole, n, k);
                        assert(whole.take(n).drop_last() =~= whole.take(n - 1));
                        assert(whole.take(n).last() == e);
                    }
                    mapping.insert(k, info);
                }
            },
            None => {},
        }
        assert forall|k: u8| mapping@.contains_key(k) <==> (before.contains_key(k) || key == Some(k)) by {}
        assert forall|k: u8| mapping@.contains_key(k) <==> has_entry(now, k) by {
            if key == Some(k) {
                assert(keyed(now[0], k));
            }
            if has_entry(now, k) {
                let i = choose|i: int| 0 <= i < now.len() && keyed(#[trigger] now[i], k);
                if i > 0 {
                    assert(later[i - 1] == now[i]);
                }
            }
            if has_entry(later, k) {
                let i = choose|i: int| 0 <= i < later.len() && keyed(#[trigger] later[i], k);
                assert(now[i + 1] == later[i]);
            }
        }
        assert(entries@ =~= whole.take(entries@.len() as int));
    }
    assert(whole.skip(0) =~= whole);
    mapping
}

/// The map of the present entries by id; absent entries add nothing, and of
/// two entries with one id the later is kept.
pub fn collect_baselines(entries: Vec<Option<(i32, Vec<u8>)>>) -> (m: HashMap<i32, Vec<u8>>)
    ensures
        forall|k: i32| m@.contains_key(k) <==> has_id_entry(entries@, k),
        forall|k: i32| m@.contains_key(k) ==> last_value(entries@, k) == Some(m@[k]),
        entries@.len() == 0 ==> m@.len() == 0,
{
    let ghost whole = entries@;
    let mut entries = entries;
    let mut mapping: HashMap<i32, Vec<u8>> = HashMap::new();
    while entries.len() > 0
        invariant
            entries@ == whole.take(entries@.len() as int),
            entries@.len() <= whole.len(),
            whole.len() == 0 ==> mapping@.len() == 0,
            forall|k: i32| mapping@.contains_key(k) <==> has_id_entry(whole.skip(entries@.len() as int), k),
            forall|k: i32| mapping@.contains_key(k) ==> last_value(whole, k) == Some(mapping@[k]),
        decreases entries@.len(),
    {
        let ghost n = entries@.len() as int;
        let e = entries.pop().unwrap();
        assert(e == whole[n - 1]);
        let ghost later = whole.skip(n);
        let ghost now = whole.skip(n - 1);
        assert(now =~= seq![e] + later);
        let ghost before = mapping@;
        let ghost mut key: Option<i32> = None;
        match e {
            Some((k, data)) => {
                proof {
                    key = Some(k);
                    assert(keyed(now[0], k));
                }
                if !mapping.contains_key(&k) {
                    proof {
                        assert forall|i: int| n <= i < whole.len() implies !keyed(#[trigger] whole[i], k) by {
                            if keyed(whole[i], k) {
                                assert(later[i - n] == whole[i]);
                            }
                        }
                        lemma_last_value_prefix(whole, n, k);
                        assert(whole.take(n).drop_last() =~= whole.take(n - 1));
                        assert(whole.take(n).last() == e);
                    }
                    mapping.insert(k, data);
                }
            },
            None => {},
        }
        assert forall|k: i32| mapping@.contains_key(k) <==> (before.contains_key(k) || key == Some(k)) by {}
        assert forall|k: i32| mapping@.contains_key(k) <==> has_id_entry(now, k) by {
            if key == Some(k) {
                assert(keyed(now[0], k));
            }
            if has_id_entry(now, k) {
                let i = choose|i: int| 0 <= i < now.len() && keyed(#[trigger] now[i], k);
                if i > 0 {
                    assert(later[i - 1] == now[i]);
                }
            }
            if has_id_entry(later, k) {
                let i = choose|i: int| 0 <= i < later.len() && keyed(#[trigger] later[i], k);
                assert(now[i + 1] == later[i]);
            }
        }
        assert(entries@ =~= whole.take(entries@.len() as int));
    }
    assert(whole.skip(0) =~= whole);
    mapping
}

/// The entries of a model-precache table of `n` entries at bit `p`: the names
/// of the present ones in order, and the bit after the table.
pub open spec fn model_entries(buf: Seq<u8>, p: int, n: nat) -> Result<(Seq<Seq<char>>, int), DemoError>
    decreases n,
{
    if n == 0 {
        Ok((Seq::empty(), p))
    } else {
        match model_entry(buf, p) {
            Err(e) => Err(e),
            Ok((o, q)) => match model_entries(buf, q, (n - 1) as nat) {
                Err(e) => Err(e),
                Ok((names, e)) => Ok(
                    (
                        match o {
                            Some(t) => seq![t] + names,
                            None => names,
                        },
                        e,
                    ),
                ),
            },
        }
    }
}

/// The `n` entries of an instance-baseline table at bit `p`, and the bit
/// after the table.
pub open spec fn baseline_entries(buf: Seq<u8>, p: int, n: nat) -> Result<
    (Seq<Option<(i32, Seq<u8>)>>, int),
    DemoError,
>
    decreases n,
{
    if n == 0 {
        Ok((Seq::empty(), p))
    } else {
        match baseline_entry(buf, p) {
            Err(e) => Err(e),
            Ok((o, q)) => match baseline_entries(buf, q, (n - 1) as nat) {
                Err(e) => Err(e),
                Ok((es, e)) => Ok((seq![o] + es, e)),
            },
        }
    }
}

/// The `n` entries of a user-info table at bit `p`, as slots, and the bit
/// after the table.
pub open spec fn userinfo_entries(buf: Seq<u8>, p: int, n: nat) -> Result<(Seq<Option<u8>>, int), DemoError>
    decreases n,
{
    if n == 0 {
        Ok((Seq::empty(), p))
    } else {
        match userinfo_entry(buf, p) {
            Err(e) => Err(e),
            Ok((o, q)) => match userinfo_entries(buf, q, (n - 1) as nat) {
                Err(e) => Err(e),
                Ok((es, e)) => Ok((seq![o] + es, e)),
            },
        }
    }
}

/// Whether slot `k` is among the present entries.
pub open spec fn present_slot(es: Seq<Option<u8>>, k: u8) -> bool {
    exists|i: int| 0 <= i < es.len() && #[trigger] es[i] == Some(k)
}

/// A user-info map holds exactly the slots of the present entries.
pub open spec fn slots_match(m: Map<u8, PlayerInfo>, es: Seq<Option<u8>>) -> bool {
    forall|k: u8| m.contains_key(k) <==> present_slot(es, k)
}

/// A baseline map holds exactly the ids of the present entries.
pub open spec fn ids_match(m: Map<i32, Vec<u8>>, es: Seq<Option<(i32, Seq<u8>)>>) -> bool {
    &&& forall|k: i32| m.contains_key(k) <==> has_id_entry(es, k)
    &&& forall|k: i32| m.contains_key(k) ==> last_value(es, k) == Some(#[trigger] m[k]@)
}

proof fn lemma_last_data(entries: Seq<Option<(i32, Vec<u8>)>>, acc: Seq<Option<(i32, Seq<u8>)>>, k: i32)
    requires
        entries.len() == acc.len(),
        forall|i: int| 0 <= i < entries.len() ==> opt_data(#[trigger] entries[i]) == acc[i],
    ensures
        last_value(acc, k) == match last_value(entries, k) {
            Some(v) => Some(v@),
            None => None::<Seq<u8>>,
        },
    decreases entries.len(),
{
    if entries.len() > 0 {
        let n = entries.len() - 1;
        assert(opt_data(entries[n]) == acc[n]);
        lemma_last_data(entries.drop_last(), acc.drop_last(), k);
    }
}

/// The texts of a list of strings.
pub open spec fn texts(v: Seq<String>) -> Seq<Seq<char>> {
    v.map_values(|s: String| s@)
}

/// What one string table holds, as read from the stream.
pub enum TableModel {
    Slots(Seq<Option<u8>>),
    Baselines(Seq<Option<(i32, Seq<u8>)>>),
    Models(Seq<Seq<char>>),
}

/// What reading one named string table at bit `p` gives, and the bit after
/// it. The name selects the kind; an unknown name is an error.
#[verifier::opaque]
pub open spec fn table_at(buf: Seq<u8>, p: int) -> Result<(TableModel, int), DemoError> {
    let rest = bytes_from(buf, p);
    match first_nul(rest) {
        None => Err(DemoError::OutOfBounds),
        Some(k) => match decode_text(rest.take(k as int)) {
            None => Err(DemoError::BadString),
            Some(t) => {
                let q = p + 8 * (k + 1);
                let n = bits_le(buf, q, 16) as u16 as nat;
                if table_kind(t).is_none() {
                    Err(DemoError::UnknownTable)
                } else if !fits(buf, q, 16) {
                    Err(DemoError::OutOfBounds)
                } else if table_kind(t) == Some(0nat) {
                    match userinfo_entries(buf, q + 16, n) {
                        Ok((es, e)) => Ok((TableModel::Slots(es), e)),
                        Err(e) => Err(e),
                    }
                } else if table_kind(t) == Some(1nat) {
                    match baseline_entries(buf, q + 16, n) {
                        Ok((es, e)) => Ok((TableModel::Baselines(es), e)),
                        Err(e) => Err(e),
                    }
                } else {
                    match model_entries(buf, q + 16, n) {
                        Ok((ns, e)) => Ok((TableModel::Models(ns), e)),
                        Err(e) => Err(e),
                    }
                }
            },
        },
    }
}

/// The `n` tables at bit `p`, and the bit after them.
pub open spec fn tables_at(buf: Seq<u8>, p: int, n: nat) -> Result<(Seq<TableModel>, int), DemoError>
    decreases n,
{
    if n == 0 {
        Ok((Seq::empty(), p))
    } else {
        match table_at(buf, p) {
            Err(e) => Err(e),
            Ok((t, q)) => match tables_at(buf, q, (n - 1) as nat) {
                Err(e) => Err(e),
                Ok((ts, e)) => Ok((seq![t] + ts, e)),
            },
        }
    }
}

/// Whether a decoded table is of the kind, and holds the content, read.
pub open spec fn table_matches(t: StringTable, m: TableModel) -> bool {
    match (t, m) {
        (StringTable::UserInfo(map), TableModel::Slots(es)) => slots_match(map@, es),
        (StringTable::InstanceBaseline(map), TableModel::Baselines(es)) => ids_match(map@, es),
        (StringTable::ModelPrecache(v), TableModel::Models(ns)) => texts(v@) == ns,
        _ => false,
    }
}

impl PlayerInfo {
    /// Reads the user-info table: a 16-bit entry count, then the entries;
    /// present entries are kept by slot, absent ones skipped.
    pub fn parse(chunk: &mut Cursor) -> (r: Result<HashMap<u8, PlayerInfo>, DemoError>)
        requires
            old(chunk).wf(),
        ensures
            final(chunk).wf(),
            final(chunk).buf() == old(chunk).buf(),
            !old(chunk).can_read(16) ==> r == Err::<HashMap<u8, PlayerInfo>, DemoError>(
                DemoError::OutOfBounds,
            ),
            old(chunk).can_read(16) ==> match userinfo_entries(
                old(chunk).buf(),
                old(chunk).pos() + 16int,
                bits_le(old(chunk).buf(), old(chunk).pos() as int, 16) as u16 as nat,
            ) {
                Ok((es, e)) => (r matches Ok(m) && slots_match(m@, es)) && final(chunk).pos() == e,
                Err(err) => r == Err::<HashMap<u8, PlayerInfo>, DemoError>(err),
            },
    {
        let ghost buf = old(chunk).buf();
        let ghost p1: int = old(chunk).pos() + 16int;
        let num_strings = chunk.read_u16()?;
        let ghost total = num_strings as nat;
        let mut entries: Vec<Option<(u8, PlayerInfo)>> = Vec::new();
        let ghost mut acc: Seq<Option<u8>> = Seq::empty();
        let mut n: u16 = 0;
        while n < num_strings
            invariant
                chunk.wf(),
                chunk.buf() == buf,
                buf == old(chunk).buf(),
                p1 == old(chunk).pos() + 16,
                old(chunk).can_read(16),
                num_strings == bits_le(buf, old(chunk).pos() as int, 16) as u16,
                total == num_strings as nat,
                n <= num_strings,
                entries@.len() == n,
                acc.len() == n,
                forall|i: int| 0 <= i < n ==> opt_slot(#[trigger] entries@[i]) == acc[i],
                match userinfo_entries(buf, chunk.pos() as int, (num_strings - n) as nat) {
                    Ok((rest, e)) => userinfo_entries(buf, p1, total) == Ok::<
                        (Seq<Option<u8>>, int),
                        DemoError,
                    >((acc + rest, e)),
                    Err(err) => userinfo_entries(buf, p1, total) == Err::<
                        (Seq<Option<u8>>, int),
                        DemoError,
                    >(err),
                },
            decreases num_strings - n,
        {
            let ghost here = chunk.pos() as int;
            let e = read_userinfo_entry(chunk)?;
            proof {
                if let Ok((rest, end)) = userinfo_entries(buf, chunk.pos() as int, (num_strings - n - 1) as nat) {
                    assert(acc + (seq![opt_slot(e)] + rest) =~= acc.push(opt_slot(e)) + rest);
                }
                acc = acc.push(opt_slot(e));
            }
            entries.push(e);
            n = n + 1;
        }
        assert(acc + Seq::<Option<u8>>::empty() =~= acc);
        let m = collect_player_infos(entries);
        proof {
            assert forall|k: u8| m@.contains_key(k) <==> present_slot(acc, k) by {
                if present_slot(acc, k) {
                    let i = choose|i: int| 0 <= i < acc.len() && #[trigger] acc[i] == Some(k);
                    assert(keyed(entries@[i], k));
                }
                if has_entry(entries@, k) {
                    let i = choose|i: int| 0 <= i < entries@.len() && keyed(#[trigger] entries@[i], k);
                    assert(acc[i] == Some(k));
                }
            }
        }
        Ok(m)
    }
}

/// Reads the instance-baseline table: a 16-bit entry count, then the
/// entries; present entries are kept by id, absent ones skipped.
pub fn parse_instance_baseline(chunk: &mut Cursor) -> (r: Result<HashMap<i32, Vec<u8>>, DemoError>)
    requires
        old(chunk).wf(),
    ensures
        final(chunk).wf(),
        final(chunk).buf() == old(chunk).buf(),
        !old(chunk).can_read(16) ==> r == Err::<HashMap<i32, Vec<u8>>, DemoError>(
            DemoError::OutOfBounds,
        ),
        old(chunk).can_read(16) ==> match baseline_entries(
            old(chunk).buf(),
            old(chunk).pos() + 16int,
            bits_le(old(chunk).buf(), old(chunk).pos() as int, 16) as u16 as nat,
        ) {
            Ok((es, e)) => (r matches Ok(m) && ids_match(m@, es)) && final(chunk).pos() == e,
            Err(err) => r == Err::<HashMap<i32, Vec<u8>>, DemoError>(err),
        },
{
    let ghost buf = old(chunk).buf();
    let ghost p1: int = old(chunk).pos() + 16int;
    let num_strings = chunk.read_u16()?;
    let ghost total = num_strings as nat;
    let mut entries: Vec<Option<(i32, Vec<u8>)>> = Vec::new();
    let ghost mut acc: Seq<Option<(i32, Seq<u8>)>> = Seq::empty();
    let mut n: u16 = 0;
    while n < num_strings
        invariant
            chunk.wf(),
            chunk.buf() == buf,
            buf == old(chunk).buf(),
            p1 == old(chunk).pos() + 16,
            old(chunk).can_read(16),
            num_strings == bits_le(buf, old(chunk).pos() as int, 16) as u16,
            total == num_strings as nat,
            n <= num_strings,
            entries@.len() == n,
            acc.len() == n,
            forall|i: int| 0 <= i < n ==> opt_data(#[trigger] entries@[i]) == acc[i],
            match baseline_entries(buf, chunk.pos() as int, (num_strings - n) as nat) {
                Ok((rest, e)) => baseline_entries(buf, p1, total) == Ok::<
                    (Seq<Option<(i32, Seq<u8>)>>, int),
                    DemoError,
                >((acc + rest, e)),
                Err(err) => baseline_entries(buf, p1, total) == Err::<
                    (Seq<Option<(i32, Seq<u8>)>>, int),
                    DemoError,
                >(err),
            },
        decreases num_strings - n,
    {
        let e = read_baseline_entry(chunk)?;
        proof {
            if let Ok((rest, end)) = baseline_entries(buf, chunk.pos() as int, (num_strings - n - 1) as nat) {
                assert(acc + (seq![opt_data(e)] + rest) =~= acc.push(opt_data(e)) + rest);
            }
            acc = acc.push(opt_data(e));
        }
        entries.push(e);
        n = n + 1;
    }
    assert(acc + Seq::<Option<(i32, Seq<u8>)>>::empty() =~= acc);
    let m = collect_baselines(entries);
    proof {
        assert forall|k: i32| m@.contains_key(k) implies last_value(acc, k) == Some(#[trigger] m@[k]@) by {
            lemma_last_data(entries@, acc, k);
        }
        assert forall|k: i32| m@.contains_key(k) <==> has_id_entry(acc, k) by {
            if has_id_entry(acc, k) {
                let i = choose|i: int| 0 <= i < acc.len() && keyed(#[trigger] acc[i], k);
                assert(keyed(entries@[i], k));
            }
            if has_id_entry(entries@, k) {
                let i = choose|i: int| 0 <= i < entries@.len() && keyed(#[trigger] entries@[i], k);
                assert(keyed(acc[i], k));
            }
        }
    }
    Ok(m)
}

/// Reads the model-precache table: a 16-bit entry count, then the entries;
/// the names of present entries are kept in order.
pub fn parse_model_precache(chunk: &mut Cursor) -> (r: Result<Vec<String>, DemoError>)
    requires
        old(chunk).wf(),
    ensures
        final(chunk).wf(),
        final(chunk).buf() == old(chunk).buf(),
        !old(chunk).can_read(16) ==> r == Err::<Vec<String>, DemoError>(DemoError::OutOfBounds),
        old(chunk).can_read(16) ==> match model_entries(
            old(chunk).buf(),
            old(chunk).pos() + 16int,
            bits_le(old(chunk).buf(), old(chunk).pos() as int, 16) as u16 as nat,
        ) {
            Ok((ns, e)) => (r matches Ok(v) && texts(v@) == ns) && final(chunk).pos() == e,
            Err(err) => r == Err::<Vec<String>, DemoError>(err),
        },
{
    let ghost buf = old(chunk).buf();
    let ghost p1: int = old(chunk).pos() + 16int;
    let num_strings = chunk.read_u16()?;
    let ghost total = num_strings as nat;
    let mut models: Vec<String> = Vec::new();
    let mut n: u16 = 0;
    while n < num_strings
        invariant
            chunk.wf(),
            chunk.buf() == buf,
            buf == old(chunk).buf(),
            p1 == old(chunk).pos() + 16,
            old(chunk).can_read(16),
            num_strings == bits_le(buf, old(chunk).pos() as int, 16) as u16,
            total == num_strings as nat,
            n <= num_strings,
            match model_entries(buf, chunk.pos() as int, (num_strings - n) as nat) {
                Ok((rest, e)) => model_entries(buf, p1, total) == Ok::<(Seq<Seq<char>>, int), DemoError>(
                    (texts(models@) + rest, e),
                ),
                Err(err) => model_entries(buf, p1, total) == Err::<(Seq<Seq<char>>, int), DemoError>(err),
            },
        decreases num_strings - n,
    {
        let ghost before = texts(models@);
        let e = read_model_entry(chunk)?;
        match e {
            Some(name) => {
                let ghost t = name@;
                models.push(name);
                proof {
                    assert(texts(models@) =~= before.push(t));
                    if let Ok((rest, end)) = model_entries(buf, chunk.pos() as int, (num_strings - n - 1) as nat) {
                        assert(before + (seq![t] + rest) =~= before.push(t) + rest);
                    }
                }
            },
            None => {},
        }
        n = n + 1;
    }
    assert(texts(models@) + Seq::<Seq<char>>::empty() =~= texts(models@));
    Ok(models)
}

/// What reading a string-table snapshot at bit `at` gives: an 8-bit table
/// count, then that many tables.
pub open spec fn snapshot_result(r: Result<StringTables, DemoError>, buf: Seq<u8>, at: int) -> bool {
    if !fits(buf, at, 8) {
        r == Err::<StringTables, DemoError>(DemoError::OutOfBounds)
    } else {
        match tables_at(buf, at + 8, byte_at(buf, at) as nat) {
            Ok((ms, e)) => r matches Ok(st) && st.tables@.len() == ms.len() && (forall|i: int|
                0 <= i < ms.len() ==> table_matches(#[trigger] st.tables@[i], ms[i])),
            Err(err) => r == Err::<StringTables, DemoError>(err),
        }
    }
}

impl StringTables {
    /// Reads an 8-bit table count, then that many tables, each introduced by
    /// its name; a name outside the known kinds is an error.
    pub fn parse(chunk: &mut Cursor) -> (r: Result<StringTables, DemoError>)
        requires
            old(chunk).wf(),
        ensures
            final(chunk).wf(),
            snapshot_result(r, old(chunk).buf(), old(chunk).pos() as int),
            !old(chunk).can_read(8) ==> r == Err::<StringTables, DemoError>(DemoError::OutOfBounds),
            old(chunk).can_read(8) ==> match tables_at(
                old(chunk).buf(),
                old(chunk).pos() + 8int,
                byte_at(old(chunk).buf(), old(chunk).pos() as int) as nat,
            ) {
                Ok((ms, e)) => (r matches Ok(st) && st.tables@.len() == ms.len() && (forall|i: int|
                    0 <= i < ms.len() ==> table_matches(#[trigger] st.tables@[i], ms[i])))
                    && final(chunk).pos() == e,
                Err(err) => r == Err::<StringTables, DemoError>(err),
            },
    {
        let ghost buf = old(chunk).buf();
        let ghost p1: int = old(chunk).pos() + 8int;
        let num_tables = chunk.read_u8()?;
        let ghost total = num_tables as nat;
        let user_info = String::from_str("userinfo");
        let instance_baseline = String::from_str("instancebaseline");
        let model_precache = String::from_str("modelprecache");
        let mut tables: Vec<StringTable> = Vec::new();
        let ghost mut acc: Seq<TableModel> = Seq::empty();
        let mut n: u8 = 0;
        while n < num_tables
            invariant
                chunk.wf(),
                chunk.buf() == buf,
                buf == old(chunk).buf(),
                p1 == old(chunk).pos() + 8,
                old(chunk).can_read(8),
                num_tables == byte_at(buf, old(chunk).pos() as int),
                total == num_tables as nat,
                n <= num_tables,
                tables@.len() == n,
                acc.len() == n,
                forall|i: int| 0 <= i < n ==> table_matches(#[trigger] tables@[i], acc[i]),
                user_info@ == "userinfo"@,
                instance_baseline@ == "instancebaseline"@,
                model_precache@ == "modelprecache"@,
                match tables_at(buf, chunk.pos() as int, (num_tables - n) as nat) {
                    Ok((rest, e)) => tables_at(buf, p1, total) == Ok::<(Seq<TableModel>, int), DemoError>(
                        (acc + rest, e),
                    ),
                    Err(err) => tables_at(buf, p1, total) == Err::<(Seq<TableModel>, int), DemoError>(err),
                },
            decreases num_tables - n,
        {
            let ghost here = chunk.pos() as int;
            proof {
                reveal(table_at);
            }
            let table_name = chunk.read_cstr_until()?;
            let ghost q = chunk.pos() as int;
            let ghost mut tm: TableModel = TableModel::Models(Seq::empty());
            let t = if table_name == user_info {
                let m = PlayerInfo::parse(chunk)?;
                proof {
                    if let Ok((es, e)) = userinfo_entries(buf, q + 16, bits_le(buf, q, 16) as u16 as nat) {
                        tm = TableModel::Slots(es);
                    }
                }
                StringTable::UserInfo(m)
            } else if table_name == instance_baseline {
                let m = parse_instance_baseline(chunk)?;
                proof {
                    if let Ok((es, e)) = baseline_entries(buf, q + 16, bits_le(buf, q, 16) as u16 as nat) {
                        tm = TableModel::Baselines(es);
                    }
                }
                StringTable::InstanceBaseline(m)
            } else if table_name == model_precache {
                let v = parse_model_precache(chunk)?;
                proof {
                    if let Ok((ns, e)) = model_entries(buf, q + 16, bits_le(buf, q, 16) as u16 as nat) {
                        tm = TableModel::Models(ns);
                    }
                }
                StringTable::ModelPrecache(v)
            } else {
                return Err(DemoError::UnknownTable);
            };
            proof {
                reveal(table_at);
                assert(table_at(buf, here) == Ok::<(TableModel, int), DemoError>((tm, chunk.pos() as int)));
                assert(table_matches(t, tm));
                if let Ok((rest, end)) = tables_at(buf, chunk.pos() as int, (num_tables - n - 1) as nat) {
                    assert(acc + (seq![tm] + rest) =~= acc.push(tm) + rest);
                }
                acc = acc.push(tm);
            }
            tables.push(t);
            n = n + 1;
        }
        assert(acc + Seq::<TableModel>::empty() =~= acc);
        Ok(StringTables { tables })
    }
}

} // verus!
