use demo_parser::cursor::{encode_varint, Cursor};
use demo_parser::data_tables::{
    find_by_name, prop_path, DataTable, Prop, PropFlags, PropTypes, ServerClass, FLAG_EXCLUDE,
    FLAG_INSIDE_ARRAY,
};
use demo_parser::error::DemoError;
use demo_parser::send_table::{SendProp, SendTable};

const INT: i32 = 0;
const ARRAY: i32 = 5;
const TABLE: i32 = 6;

fn prop(ty: i32, name: &str, flags: u32, dt: &str) -> SendProp {
    SendProp::new(ty, name.to_string(), flags as i32, dt.to_string())
}

fn table(name: &str, props: Vec<SendProp>) -> SendTable {
    SendTable::new(name.to_string(), props)
}

fn paths(v: &[Prop]) -> Vec<String> {
    v.iter().map(|p| p.path.clone()).collect()
}

fn names(v: &[Prop]) -> Vec<String> {
    v.iter().map(|p| p.inner.var_name.clone()).collect()
}

fn two_tables() -> Vec<SendTable> {
    vec![
        table(
            "DT_A",
            vec![prop(INT, "Foo", FLAG_EXCLUDE, "DT_B"), prop(TABLE, "b", 0, "DT_B")],
        ),
        table("DT_B", vec![prop(INT, "Foo", 0, ""), prop(INT, "Bar", 0, "")]),
    ]
}

#[test]
fn exclude_gathering_two_tables() {
    let tables = two_tables();
    let ex = DataTable::gather_excludes(&tables[0], &tables, tables.len()).unwrap();
    assert_eq!(ex.len(), 1);
    assert_eq!(ex[0].dt_name, "DT_B");
    assert_eq!(ex[0].var_name, "Foo");
    let (props, arrays) =
        ServerClass::gather_props(&tables[1], &tables, &ex, String::new(), tables.len()).unwrap();
    assert_eq!(names(&props), vec!["Bar"]);
    assert!(arrays.is_empty());
    let (props_a, _) =
        ServerClass::gather_props(&tables[0], &tables, &ex, String::new(), tables.len()).unwrap();
    assert_eq!(paths(&props_a), vec!["b.Bar"]);
}

#[test]
fn excludes_only_match_their_own_table() {
    let tables = vec![
        table("DT_A", vec![prop(INT, "Foo", FLAG_EXCLUDE, "DT_C"), prop(TABLE, "b", 0, "DT_B")]),
        table("DT_B", vec![prop(INT, "Foo", 0, "")]),
    ];
    let ex = DataTable::gather_excludes(&tables[0], &tables, 2).unwrap();
    let (props, _) = ServerClass::gather_props(&tables[0], &tables, &ex, String::new(), 2).unwrap();
    assert_eq!(paths(&props), vec!["b.Foo"]);
}

#[test]
fn array_pairs_with_previous_property() {
    let tables = vec![table("DT_T", vec![prop(INT, "X", 0, ""), prop(ARRAY, "ArrayOfX", 0, "")])];
    let (props, arrays) =
        ServerClass::gather_props(&tables[0], &tables, &vec![], String::new(), 1).unwrap();
    assert_eq!(names(&props), vec!["X", "ArrayOfX"]);
    assert_eq!(paths(&props), vec!["X", "ArrayOfX"]);
    assert_eq!(names(&arrays), vec!["X"]);
    assert_eq!(paths(&arrays), vec!["ArrayOfX"]);
}

#[test]
fn inside_array_templates_are_skipped() {
    let tables = vec![table(
        "DT_T",
        vec![prop(INT, "elem", FLAG_INSIDE_ARRAY, ""), prop(ARRAY, "list", 0, "")],
    )];
    let (props, arrays) =
        ServerClass::gather_props(&tables[0], &tables, &vec![], String::new(), 1).unwrap();
    assert_eq!(names(&props), vec!["list"]);
    assert_eq!(names(&arrays), vec!["elem"]);
    assert_eq!(paths(&arrays), vec!["list"]);
}

#[test]
fn array_without_template_is_an_error() {
    let tables = vec![table("DT_T", vec![prop(ARRAY, "list", 0, "")])];
    let r = ServerClass::gather_props(&tables[0], &tables, &vec![], String::new(), 1);
    assert_eq!(r.err(), Some(DemoError::MissingArrayElement));
}

#[test]
fn nested_paths_and_baseclass() {
    let tables = vec![
        table("DT_Player", vec![prop(TABLE, "baseclass", 0, "DT_Base"), prop(TABLE, "m_local", 0, "DT_Local")]),
        table("DT_Base", vec![prop(INT, "m_iHealth", 0, "")]),
        table("DT_Local", vec![prop(INT, "m_fFlags", 0, ""), prop(TABLE, "inner", 0, "DT_Inner")]),
        table("DT_Inner", vec![prop(INT, "m_x", 0, "")]),
    ];
    let (props, _) =
        ServerClass::gather_props(&tables[0], &tables, &vec![], String::new(), 4).unwrap();
    assert_eq!(paths(&props), vec!["m_iHealth", "m_local.m_fFlags", "m_local.inner.m_x"]);
}

#[test]
fn path_joining() {
    let s = |x: &str| x.to_string();
    assert_eq!(prop_path(&s(""), &s("a")), "a");
    assert_eq!(prop_path(&s("p"), &s("a")), "p.a");
    assert_eq!(prop_path(&s("p"), &s("baseclass")), "p");
    assert_eq!(prop_path(&s(""), &s("baseclass")), "");
    assert_eq!(prop_path(&s("p"), &s("")), "p");
}

#[test]
fn cyclic_schema_is_rejected() {
    let tables = vec![
        table("DT_A", vec![prop(TABLE, "b", 0, "DT_B")]),
        table("DT_B", vec![prop(TABLE, "a", 0, "DT_A")]),
    ];
    let r = ServerClass::gather_props(&tables[0], &tables, &vec![], String::new(), 2);
    assert_eq!(r.err(), Some(DemoError::CyclicSchema));
    let e = DataTable::gather_excludes(&tables[0], &tables, 2);
    assert_eq!(e.err(), Some(DemoError::CyclicSchema));
}

#[test]
fn missing_table_is_rejected() {
    let tables = vec![table("DT_A", vec![prop(TABLE, "b", 0, "DT_Nowhere")])];
    let r = ServerClass::gather_props(&tables[0], &tables, &vec![], String::new(), 1);
    assert_eq!(r.err(), Some(DemoError::MissingTable));
    let e = DataTable::gather_excludes(&tables[0], &tables, 1);
    assert_eq!(e.err(), Some(DemoError::MissingTable));
    assert_eq!(find_by_name(&tables, &"DT_A".to_string()), Some(0));
    assert_eq!(find_by_name(&tables, &"DT_B".to_string()), None);
}

#[test]
fn bad_flags_and_types_are_rejected() {
    let flagged = vec![table("DT_A", vec![prop(INT, "x", 0x10_0000, "")])];
    let r = ServerClass::gather_props(&flagged[0], &flagged, &vec![], String::new(), 1);
    assert_eq!(r.err(), Some(DemoError::BadPropFlags));
    let negative = vec![table("DT_A", vec![SendProp::new(INT, "x".to_string(), -1, String::new())])];
    let e = DataTable::gather_excludes(&negative[0], &negative, 1);
    assert_eq!(e.err(), Some(DemoError::BadPropFlags));
    let typed = vec![table("DT_A", vec![prop(9, "x", 0, "")])];
    let r = ServerClass::gather_props(&typed[0], &typed, &vec![], String::new(), 1);
    assert_eq!(r.err(), Some(DemoError::BadPropType));
    let untyped = vec![table("DT_A", vec![prop(-1, "x", 0, "")])];
    let r = ServerClass::gather_props(&untyped[0], &untyped, &vec![], String::new(), 1);
    assert_eq!(r.err(), Some(DemoError::BadPropType));
}

#[test]
fn prop_type_tags() {
    assert_eq!(PropTypes::from_i32(0), Ok(PropTypes::Int));
    assert_eq!(PropTypes::from_i32(5), Ok(PropTypes::Array));
    assert_eq!(PropTypes::from_i32(6), Ok(PropTypes::DataTable));
    assert_eq!(PropTypes::from_i32(8), Ok(PropTypes::NUMSendPropTypes));
    assert_eq!(PropTypes::from_i32(9), Err(DemoError::BadPropType));
    assert_eq!(PropTypes::from_i32(-1), Err(DemoError::BadPropType));
}

#[test]
fn prop_flag_words() {
    assert!(PropFlags::from_bits(0x10_0000).is_none());
    let f = PropFlags::from_bits(0x140).unwrap();
    assert_eq!(f.bits(), 0x140);
    assert!(f.contains(FLAG_EXCLUDE));
    assert!(f.contains(FLAG_INSIDE_ARRAY));
    assert!(!f.contains(demo_parser::data_tables::FLAG_UNSIGNED));
}

#[test]
fn fill_props_sets_lists() {
    let tables = two_tables();
    let mut sc = ServerClass {
        class_id: 0,
        name: "CThing".to_string(),
        owning_name: "DT_A".to_string(),
        props: vec![],
        array_props: vec![],
    };
    let ex = DataTable::gather_excludes(&tables[0], &tables, 2).unwrap();
    sc.fill_props(&ex, &tables).unwrap();
    assert_eq!(paths(&sc.props), vec!["b.Bar"]);
    let mut lost = ServerClass {
        class_id: 1,
        name: "CLost".to_string(),
        owning_name: "DT_Z".to_string(),
        props: vec![],
        array_props: vec![],
    };
    assert_eq!(lost.fill_props(&ex, &tables), Err(DemoError::MissingTable));
}

fn message(tag: i32, body: &[u8]) -> Vec<u8> {
    let mut v = encode_varint(tag);
    v.extend(encode_varint(body.len() as i32));
    v.extend_from_slice(body);
    v
}

fn field_str(field: u8, s: &str) -> Vec<u8> {
    let mut v = vec![(field << 3) | 2, s.len() as u8];
    v.extend_from_slice(s.as_bytes());
    v
}

#[test]
fn data_table_parse_end_to_end() {
    let mut prop_msg = vec![0x08, 0x00];
    prop_msg.extend(field_str(2, "m_x"));
    prop_msg.extend([0x18, 0x01]);
    prop_msg.extend([0x3D, 0x00, 0x00, 0x80, 0x3F]);
    let mut table_msg = field_str(2, "DT_T");
    table_msg.push(0x22);
    table_msg.push(prop_msg.len() as u8);
    table_msg.extend(&prop_msg);
    let mut buf = message(9, &table_msg);
    buf.extend(message(9, &[0x08, 0x01]));
    buf.extend(1i16.to_le_bytes());
    buf.extend(0i16.to_le_bytes());
    buf.extend(b"CThing\0DT_T\0");
    let mut c = Cursor::new(&buf);
    let dt = DataTable::parse(&mut c).unwrap();
    assert!(c.is_empty());
    assert_eq!(dt.data_tables.len(), 1);
    assert_eq!(dt.data_tables[0].net_table_name, "DT_T");
    assert_eq!(dt.data_tables[0].props[0].flags, 1);
    assert_eq!(f32::from_bits(dt.data_tables[0].props[0].low_value), 1.0);
    assert_eq!(dt.server_classes.len(), 1);
    assert_eq!(dt.server_classes[0].name, "CThing");
    assert_eq!(paths(&dt.server_classes[0].props), vec!["m_x"]);
    assert_eq!(dt.service_class_bits, 1);
}

#[test]
fn data_table_rejects_other_messages() {
    let buf = message(4, &[0x08, 0x01]);
    let mut c = Cursor::new(&buf);
    assert_eq!(DataTable::parse(&mut c).err(), Some(DemoError::NotSendTable));
}

#[test]
fn server_class_id_guard() {
    let mut buf = 5i16.to_le_bytes().to_vec();
    buf.extend(b"C\0T\0");
    let mut c = Cursor::new(&buf);
    assert_eq!(ServerClass::parse(&mut c, 4).err(), Some(DemoError::BadClassId));
    let mut ok = Cursor::new(&buf);
    let sc = ServerClass::parse(&mut ok, 5).unwrap();
    assert_eq!(sc.class_id, 5);
    assert_eq!(sc.owning_name, "T");
}

#[test]
fn class_bits_follow_count() {
    let mut buf = message(9, &[0x08, 0x01]);
    buf.extend(0i16.to_le_bytes());
    let mut c = Cursor::new(&buf);
    assert_eq!(DataTable::parse(&mut c).unwrap().service_class_bits, 1);
}

#[test]
fn class_bits_for_three_classes() {
    let mut table_msg = field_str(2, "DT_T");
    table_msg.extend([0x38, 0x05]);
    let mut buf = message(9, &table_msg);
    buf.extend(message(9, &[0x08, 0x01]));
    buf.extend(3i16.to_le_bytes());
    for id in 0i16..3 {
        buf.extend(id.to_le_bytes());
        buf.extend(b"C\0DT_T\0");
    }
    let mut c = Cursor::new(&buf);
    let dt = DataTable::parse(&mut c).unwrap();
    assert_eq!(dt.server_classes.len(), 3);
    assert_eq!(dt.service_class_bits, 2);
    assert!(dt.server_classes[2].props.is_empty());
}

#[test]
fn schema_message_fields_overwrite_and_skip() {
    let mut table_msg = field_str(2, "DT_Old");
    table_msg.extend(field_str(2, "DT_New"));
    table_msg.extend([0x18, 0x01]);
    table_msg.extend([0x29, 1, 2, 3, 4, 5, 6, 7, 8]);
    let buf = message(9, &table_msg);
    let mut c = Cursor::new(&buf);
    match parse_message_for_test(&mut c) {
        Some(t) => {
            assert_eq!(t.net_table_name, "DT_New");
            assert!(t.needs_decoder);
            assert!(!t.is_end);
        }
        None => panic!("not a schema table"),
    }
    let bad = message(9, &[0x12, 0x05, b'a']);
    let mut c = Cursor::new(&bad);
    assert_eq!(demo_parser::message::parse_message(&mut c).err(), Some(DemoError::BadMessage));
}

fn parse_message_for_test(c: &mut Cursor) -> Option<SendTable> {
    match demo_parser::message::parse_message(c) {
        Ok(demo_parser::message::Message::SendTable(t)) => Some(t),
        _ => None,
    }
}

#[test]
fn schema_message_skips_unknown_group() {
    let mut table_msg = field_str(2, "DT_G");
    table_msg.extend([0x3B, 0x08, 0x01, 0x3C]);
    table_msg.extend([0x08, 0x01]);
    let buf = message(9, &table_msg);
    let mut c = Cursor::new(&buf);
    match parse_message_for_test(&mut c) {
        Some(t) => {
            assert_eq!(t.net_table_name, "DT_G");
            assert!(t.is_end);
        }
        None => panic!("not a schema table"),
    }
}
