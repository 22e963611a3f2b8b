use demo_parser::cursor::{encode_varint, Cursor};
use demo_parser::error::DemoError;

#[test]
fn varint_round_trip_boundaries() {
    let values: [i32; 12] = [
        0, 1, 127, 128, 16383, 16384, 2097151, 2097152, 268435455, 268435456, 0x7FFF_FFFE, i32::MAX,
    ];
    for &n in values.iter() {
        let bytes = encode_varint(n);
        let mut c = Cursor::new(&bytes);
        assert_eq!(c.read_protobuf_var_int(), Ok(n), "value {n}");
        assert!(c.is_empty());
    }
}

#[test]
fn varint_encoding_lengths() {
    assert_eq!(encode_varint(0), vec![0x00]);
    assert_eq!(encode_varint(127), vec![0x7F]);
    assert_eq!(encode_varint(128), vec![0x80, 0x01]);
    assert_eq!(encode_varint(16384), vec![0x80, 0x80, 0x01]);
    assert_eq!(encode_varint(i32::MAX), vec![0xFF, 0xFF, 0xFF, 0xFF, 0x07]);
}

#[test]
fn varint_fifth_byte_rule() {
    let mut ok = Cursor::new(&[0x80, 0x80, 0x80, 0x80, 0x07]);
    assert_eq!(ok.read_protobuf_var_int(), Ok(7 << 28));
    let mut bad = Cursor::new(&[0x80, 0x80, 0x80, 0x80, 0x08]);
    assert_eq!(bad.read_protobuf_var_int(), Err(DemoError::VarIntOverflow));
    assert_eq!(bad.remaining_bits(), 40);
    let mut long = Cursor::new(&[0xFF, 0xFF, 0xFF, 0xFF, 0xFF, 0xFF, 0xFF, 0xFF, 0xFF, 0x01]);
    assert_eq!(long.read_protobuf_var_int(), Err(DemoError::VarIntOverflow));
    let mut short = Cursor::new(&[0x80, 0x80]);
    assert_eq!(short.read_protobuf_var_int(), Err(DemoError::OutOfBounds));
    assert_eq!(short.remaining_bits(), 16);
}

#[test]
fn read_past_end_fails_without_moving() {
    let mut c = Cursor::new(&[0x01, 0x02]);
    assert_eq!(c.read_u8(), Ok(1));
    assert_eq!(c.read_u32(), Err(DemoError::OutOfBounds));
    assert_eq!(c.read_u16(), Err(DemoError::OutOfBounds));
    assert_eq!(c.read_i64(), Err(DemoError::OutOfBounds));
    assert_eq!(c.read_bytes(2).err(), Some(DemoError::OutOfBounds));
    assert_eq!(c.read_cstr(2).err(), Some(DemoError::OutOfBounds));
    assert!(c.chunk_bytes(2).is_err());
    assert_eq!(c.remaining_bits(), 8);
    assert_eq!(c.read_u8(), Ok(2));
    assert_eq!(c.read_bit_bool(), Err(DemoError::OutOfBounds));
    assert!(c.is_empty());
}

#[test]
fn bounded_string_skips_padding() {
    let mut c = Cursor::new(b"Hi\0\0\0\xAA");
    assert_eq!(c.read_cstr(5).unwrap(), "Hi");
    assert_eq!(c.remaining_bits(), 8);
    assert_eq!(c.read_u8(), Ok(0xAA));
}

#[test]
fn bounded_string_stops_at_first_null() {
    let mut c = Cursor::new(b"Hi\0ab!");
    assert_eq!(c.read_cstr(5).unwrap(), "Hi");
    assert_eq!(c.read_u8(), Ok(b'!'));
    let mut full = Cursor::new(b"abcd");
    assert_eq!(full.read_cstr(4).unwrap(), "abcd");
    assert!(full.is_empty());
}

#[test]
fn unbounded_string_moves_past_terminator() {
    let mut c = Cursor::new(b"abc\0x");
    assert_eq!(c.read_cstr_until().unwrap(), "abc");
    assert_eq!(c.remaining_bits(), 8);
    let mut open = Cursor::new(b"abc");
    assert_eq!(open.read_cstr_until().err(), Some(DemoError::OutOfBounds));
    assert_eq!(open.remaining_bits(), 24);
    let mut bad = Cursor::new(&[0xFF, 0x00]);
    assert_eq!(bad.read_cstr_until().err(), Some(DemoError::BadString));
    assert_eq!(bad.remaining_bits(), 16);
}

#[test]
fn little_endian_integers() {
    let mut c = Cursor::new(&[0x01, 0x02, 0x03, 0x04, 0xFF, 0xFE, 0xFF, 0x00]);
    assert_eq!(c.read_u32(), Ok(0x0403_0201));
    assert_eq!(c.read_i8(), Ok(-1));
    assert_eq!(c.read_i16(), Ok(-2));
    assert_eq!(c.read_byte_bool(), Ok(false));
    let mut d = Cursor::new(&[0xFE, 0xFF, 0xFF, 0xFF, 0xFF, 0xFF, 0xFF, 0xFF, 0x00, 0x00, 0x80, 0x3F]);
    assert_eq!(d.read_i64(), Ok(-2));
    assert_eq!(f32::from_bits(d.read_f32().unwrap()), 1.0);
    let mut e = Cursor::new(&[0xFF, 0xFF, 0xFF, 0xFF]);
    assert_eq!(e.read_i32(), Ok(-1));
}

#[test]
fn single_bits_and_unaligned_reads() {
    let mut c = Cursor::new(&[0b0000_0101]);
    assert_eq!(c.read_bit_bool(), Ok(true));
    assert_eq!(c.read_bit_bool(), Ok(false));
    assert_eq!(c.read_bit_bool(), Ok(true));
    assert_eq!(c.remaining_bits(), 5);
    let mut u = Cursor::new(&[0x03, 0x01]);
    assert_eq!(u.read_bit_bool(), Ok(true));
    assert_eq!(u.read_u8(), Ok(129));
    assert_eq!(u.remaining_bits(), 7);
}

#[test]
fn chunk_is_independent() {
    let mut c = Cursor::new(&[1, 2, 3, 4]);
    let mut chunk = c.chunk_bytes(2).unwrap();
    assert_eq!(c.remaining_bits(), 16);
    assert_eq!(chunk.read_u16(), Ok(0x0201));
    assert_eq!(chunk.read_u8(), Err(DemoError::OutOfBounds));
    assert_eq!(c.read_u8(), Ok(3));
    assert_eq!(c.read_bytes(1).unwrap(), vec![4]);
}
