use demo_parser::cursor::{encode_varint, Cursor};
use demo_parser::demo::{Demo, DemoHeader};
use demo_parser::error::DemoError;
use demo_parser::frame::{Command, Frame};
use demo_parser::message::{parse_message, Message, NetMessages, SvcMessages};
use demo_parser::packet::{Packet, Split};
use demo_parser::string_tables::{
    parse_i32_key, parse_u8_key, read_baseline_entry, read_model_entry, StringTable, StringTables,
};

/// Writes bits least significant first, as the cursor reads them.
struct Bits {
    bytes: Vec<u8>,
    len: usize,
}

impl Bits {
    fn new() -> Bits {
        Bits { bytes: vec![], len: 0 }
    }
    fn bit(&mut self, b: bool) {
        if self.len % 8 == 0 {
            self.bytes.push(0);
        }
        if b {
            *self.bytes.last_mut().unwrap() |= 1 << (self.len % 8);
        }
        self.len += 1;
    }
    fn uint(&mut self, v: u64, n: usize) {
        for i in 0..n {
            self.bit((v >> i) & 1 == 1);
        }
    }
    fn bytes(&mut self, b: &[u8]) {
        for &x in b {
            self.uint(x as u64, 8);
        }
    }
    fn cstr(&mut self, s: &str) {
        self.bytes(s.as_bytes());
        self.uint(0, 8);
    }
}

fn model_table(name: &str) -> Vec<u8> {
    let mut w = Bits::new();
    w.uint(1, 8);
    w.cstr("modelprecache");
    w.uint(1, 16);
    w.cstr(name);
    w.bit(true);
    w.uint(0, 16);
    w.bytes
}

#[test]
fn model_name_length_limit() {
    let long = "m".repeat(101);
    let mut c = Cursor::new(&model_table(&long));
    assert_eq!(StringTables::parse(&mut c).err(), Some(DemoError::ModelNameTooLong));
    let ok = "m".repeat(100);
    let mut c = Cursor::new(&model_table(&ok));
    let st = StringTables::parse(&mut c).unwrap();
    assert_eq!(st.tables.len(), 1);
    match &st.tables[0] {
        StringTable::ModelPrecache(v) => assert_eq!(v, &vec![ok.clone()]),
        _ => panic!("wrong table kind"),
    }
}

#[test]
fn model_entry_with_user_data_fails() {
    let mut w = Bits::new();
    w.cstr("models/a.mdl");
    w.bit(true);
    w.uint(3, 16);
    let mut c = Cursor::new(&w.bytes);
    assert_eq!(read_model_entry(&mut c), Err(DemoError::UnexpectedUserData));
    let mut w = Bits::new();
    w.cstr("models/a.mdl");
    w.bit(false);
    let mut c = Cursor::new(&w.bytes);
    assert_eq!(read_model_entry(&mut c), Ok(None));
}

#[test]
fn absent_baseline_entry_is_not_inserted() {
    let mut w = Bits::new();
    w.uint(1, 8);
    w.cstr("instancebaseline");
    w.uint(2, 16);
    w.cstr("1");
    w.bit(false);
    w.cstr("2");
    w.bit(true);
    w.uint(3, 16);
    w.bytes(&[9, 8, 7]);
    let mut c = Cursor::new(&w.bytes);
    let st = StringTables::parse(&mut c).unwrap();
    match &st.tables[0] {
        StringTable::InstanceBaseline(m) => {
            assert_eq!(m.len(), 1);
            assert!(!m.contains_key(&1));
            assert_eq!(m.get(&2), Some(&vec![9, 8, 7]));
        }
        _ => panic!("wrong table kind"),
    }
}

#[test]
fn baseline_entry_key_must_be_a_number() {
    let mut w = Bits::new();
    w.cstr("x1");
    w.bit(true);
    w.uint(0, 16);
    let mut c = Cursor::new(&w.bytes);
    assert_eq!(read_baseline_entry(&mut c).err(), Some(DemoError::BadKey));
    let mut w = Bits::new();
    w.cstr("-7");
    w.bit(true);
    w.uint(1, 16);
    w.bytes(&[5]);
    let mut c = Cursor::new(&w.bytes);
    assert_eq!(read_baseline_entry(&mut c), Ok(Some((-7, vec![5]))));
}

#[test]
fn decimal_keys() {
    assert_eq!(parse_u8_key(&b"0".to_vec()), Ok(0));
    assert_eq!(parse_u8_key(&b"+255".to_vec()), Ok(255));
    assert_eq!(parse_u8_key(&b"256".to_vec()), Err(DemoError::BadKey));
    assert_eq!(parse_u8_key(&b"-1".to_vec()), Err(DemoError::BadKey));
    assert_eq!(parse_u8_key(&b"".to_vec()), Err(DemoError::BadKey));
    assert_eq!(parse_u8_key(&b"+".to_vec()), Err(DemoError::BadKey));
    assert_eq!(parse_i32_key(&b"-2147483648".to_vec()), Ok(i32::MIN));
    assert_eq!(parse_i32_key(&b"2147483647".to_vec()), Ok(i32::MAX));
    assert_eq!(parse_i32_key(&b"2147483648".to_vec()), Err(DemoError::BadKey));
    assert_eq!(parse_i32_key(&b"12a".to_vec()), Err(DemoError::BadKey));
}

fn player_record(name: &str) -> Vec<u8> {
    let mut v = Vec::new();
    v.extend(3i64.to_le_bytes());
    v.extend(76561198000000000i64.to_le_bytes());
    let mut n = name.as_bytes().to_vec();
    n.resize(128, 0);
    v.extend(n);
    v.extend(12i32.to_le_bytes());
    let mut g = b"BOT".to_vec();
    g.resize(33, 0);
    v.extend(g);
    v.extend(0i32.to_le_bytes());
    v.extend([0u8; 128]);
    v.push(1);
    v.push(0);
    for cf in [1i32, 2, 3, 4] {
        v.extend(cf.to_le_bytes());
    }
    v.push(9);
    v
}

#[test]
fn user_info_table() {
    let rec = player_record("alice");
    let mut w = Bits::new();
    w.uint(1, 8);
    w.cstr("userinfo");
    w.uint(2, 16);
    w.cstr("3");
    w.bit(true);
    w.uint(rec.len() as u64, 16);
    w.bytes(&rec);
    w.cstr("4");
    w.bit(false);
    let mut c = Cursor::new(&w.bytes);
    let st = StringTables::parse(&mut c).unwrap();
    match &st.tables[0] {
        StringTable::UserInfo(m) => {
            assert_eq!(m.len(), 1);
            let p = m.get(&3).unwrap();
            assert_eq!(p.name, "alice");
            assert_eq!(p.guid, "BOT");
            assert_eq!(p.user_id, 12);
            assert!(p.is_fake_player);
            assert!(!p.is_hltv);
            assert_eq!(p.custom_files, [1, 2, 3, 4]);
            assert_eq!(p.files_downloaded, 9);
            assert_eq!(p.xuid, 76561198000000000);
        }
        _ => panic!("wrong table kind"),
    }
}

#[test]
fn unknown_table_name_fails() {
    let mut w = Bits::new();
    w.uint(1, 8);
    w.cstr("UserInfo");
    let mut c = Cursor::new(&w.bytes);
    assert_eq!(StringTables::parse(&mut c).err(), Some(DemoError::UnknownTable));
}

#[test]
fn message_tags_dispatch() {
    assert_eq!(NetMessages::from_i32(4), Some(NetMessages::NetTick));
    assert_eq!(NetMessages::from_i32(100), Some(NetMessages::NetPlayerAvatarData));
    assert_eq!(NetMessages::from_i32(8), None);
    assert_eq!(SvcMessages::from_i32(9), Some(SvcMessages::SvcSendTable));
    assert_eq!(SvcMessages::from_i32(38), Some(SvcMessages::SvcBroadcastCommand));
    assert_eq!(SvcMessages::from_i32(32), None);
    let mut c = Cursor::new(&[0x04, 0x02, 0xAB, 0xCD]);
    match parse_message(&mut c).unwrap() {
        Message::Net(k, b) => {
            assert_eq!(k, NetMessages::NetTick);
            assert_eq!(b, vec![0xAB, 0xCD]);
        }
        _ => panic!("wrong message kind"),
    }
    let mut c = Cursor::new(&[0x32, 0x00]);
    assert_eq!(parse_message(&mut c).err(), Some(DemoError::UnknownMessage(50)));
    let mut c = Cursor::new(&[0x10, 0x01, 0x00]);
    assert!(matches!(parse_message(&mut c), Ok(Message::Svc(SvcMessages::SvcPrint, _))));
}

fn packet_bytes(messages: &[u8]) -> Vec<u8> {
    let mut v = vec![0u8; 152];
    v.extend(7u32.to_le_bytes());
    v.extend(8u32.to_le_bytes());
    v.extend((messages.len() as i32).to_le_bytes());
    v.extend_from_slice(messages);
    v
}

#[test]
fn packet_reads_messages_until_region_ends() {
    let mut msgs = encode_varint(0);
    msgs.extend(encode_varint(0));
    msgs.extend([0x04, 0x01, 0x08]);
    let buf = packet_bytes(&msgs);
    let mut c = Cursor::new(&buf);
    let p = Packet::parse(&mut c).unwrap();
    assert_eq!(p.seq_nr_in, 7);
    assert_eq!(p.seq_nr_out, 8);
    assert_eq!(p.messages.len(), 2);
    assert!(!p.command_info.is_nonzero());
    assert!(c.is_empty());
}

#[test]
fn split_zero_test_ignores_sign_of_zero() {
    let mut buf = vec![0u8; 76];
    buf[7] = 0x80;
    let mut c = Cursor::new(&buf);
    let s = Split::parse(&mut c).unwrap();
    assert!(!s.is_nonzero());
    buf[6] = 0x80;
    let mut c = Cursor::new(&buf);
    assert!(Split::parse(&mut c).unwrap().is_nonzero());
}

fn header(frames: i32) -> Vec<u8> {
    let mut v = b"HL2DEMO\0".to_vec();
    v.extend(4i32.to_le_bytes());
    v.extend(13000u32.to_le_bytes());
    for name in ["server", "client", "de_dust2", "csgo"] {
        let mut n = name.as_bytes().to_vec();
        n.resize(260, 0);
        v.extend(n);
    }
    v.extend(2.5f32.to_bits().to_le_bytes());
    v.extend(640i32.to_le_bytes());
    v.extend(frames.to_le_bytes());
    v.extend(0i32.to_le_bytes());
    v
}

fn frame(tag: u8, tick: u32) -> Vec<u8> {
    let mut v = vec![tag];
    v.extend(tick.to_le_bytes());
    v.push(0xFF);
    v
}

#[test]
fn demo_stops_at_stop_frame() {
    let mut buf = header(100);
    buf.extend(frame(3, 1));
    buf.extend(frame(7, 2));
    buf.extend(frame(3, 3));
    let mut c = Cursor::new(&buf);
    let d = Demo::new(&mut c).unwrap();
    assert_eq!(d.header.frames, 100);
    assert_eq!(d.frames.len(), 2);
    assert!(matches!(d.frames[0].command, Command::SyncTick));
    assert!(d.frames[1].is_last());
    assert_eq!(d.frames[1].tick_number, 2);
    assert_eq!(d.frames[1].playerslot, -1);
}

#[test]
fn demo_stops_at_declared_count() {
    let mut buf = header(1);
    buf.extend(frame(3, 1));
    buf.extend(frame(3, 2));
    let mut c = Cursor::new(&buf);
    let d = Demo::new(&mut c).unwrap();
    assert_eq!(d.frames.len(), 1);
}

#[test]
fn demo_header_fields() {
    let buf = header(5);
    let mut c = Cursor::new(&buf);
    let h = DemoHeader::new(&mut c).unwrap();
    assert_eq!(h.demo_protocol, 4);
    assert_eq!(h.network_protocol, 13000);
    assert_eq!(h.server_name, "server");
    assert_eq!(h.map_name, "de_dust2");
    assert_eq!(h.game_directory, "csgo");
    assert_eq!(f32::from_bits(h.playback_time), 2.5);
    assert_eq!(h.ticks, 640);
    assert!(c.is_empty());
}

#[test]
fn bad_magic_is_rejected() {
    let mut buf = header(5);
    buf[0] = b'X';
    let mut c = Cursor::new(&buf);
    assert_eq!(DemoHeader::new(&mut c).err(), Some(DemoError::BadMagic));
}

#[test]
fn unknown_command_tag() {
    let mut c = Cursor::new(&frame(10, 1));
    assert_eq!(Frame::new(&mut c).err(), Some(DemoError::UnknownCommand(10)));
}

#[test]
fn console_and_user_commands() {
    let mut buf = 3i32.to_le_bytes().to_vec();
    buf.extend(b"abc");
    let mut c = Cursor::new(&buf);
    match Command::new(4, &mut c).unwrap() {
        Command::ConsoleCmd(b) => assert_eq!(b, b"abc".to_vec()),
        _ => panic!("wrong command"),
    }
    let mut zero = Cursor::new(&0i32.to_le_bytes());
    assert_eq!(Command::new(4, &mut zero).err(), Some(DemoError::BadLength));
    let mut buf = 1i32.to_le_bytes().to_vec();
    buf.extend(2i32.to_le_bytes());
    buf.extend([5, 6]);
    let mut c = Cursor::new(&buf);
    match Command::new(5, &mut c).unwrap() {
        Command::UserCmd(b) => assert_eq!(b, vec![5, 6]),
        _ => panic!("wrong command"),
    }
}
