use bpx_store::container::{Container, Handle};
use bpx_store::error::Error;
use bpx_store::header::FLAG_CHECK_WEAK;
use bpx_store::options::{bpx_create_options_default, bpx_open_options_default, SectionOptions};
use bpx_store::row::{decode_row, encode_cell, encode_row, Column, Row};
use bpx_store::table::{find_column, get_string, put_string, Table};
use bpx_store::value::{Value, ValueType};

fn new_container() -> (Container, Handle) {
    let mut c = Container::create(Vec::new(), &bpx_create_options_default());
    let strings = c
        .section_create(&SectionOptions { ty: 0xFF, flags: FLAG_CHECK_WEAK, compression_threshold: -1 })
        .unwrap();
    (c, strings)
}

fn people(c: &mut Container, strings: Handle) -> Table {
    let mut t = Table::create(c, strings, b"people").unwrap();
    assert_eq!(t.column_create(c, b"id", ValueType::Int32, 0).unwrap(), 0);
    assert_eq!(t.column_create(c, b"flag", ValueType::Boolean, 0).unwrap(), 1);
    assert_eq!(t.column_create(c, b"label", ValueType::String, 8).unwrap(), 2);
    t
}

fn row(id: i32, flag: bool, label: &[u8]) -> Row {
    Row { values: vec![Value::Int32(id), Value::Boolean(flag), Value::String(label.to_vec())], free: false }
}

fn check(r: &Row, id: i32, flag: bool, label: &[u8]) {
    assert_eq!(r.values.len(), 3);
    assert!(matches!(r.values[0], Value::Int32(x) if x == id));
    assert!(matches!(r.values[1], Value::Boolean(x) if x == flag));
    match &r.values[2] {
        Value::String(s) => assert_eq!(s.as_slice(), label),
        other => panic!("unexpected {:?}", other),
    }
    assert!(!r.free);
}

#[test]
fn table_round_trip() {
    let (mut c, strings) = new_container();
    let t = people(&mut c, strings);
    assert_eq!(t.row_size(), 4 + 1 + 8);
    assert_eq!(t.actual_row_size(), 14);
    assert_eq!(t.append(&mut c, &row(1, true, b"abc")).unwrap(), 0);
    assert_eq!(t.append(&mut c, &row(2, false, b"xyz")).unwrap(), 1);
    assert_eq!(t.count(&mut c).unwrap(), 2);
    check(&t.read(&mut c, 0).unwrap(), 1, true, b"abc");
    check(&t.read(&mut c, 1).unwrap(), 2, false, b"xyz");
    assert_eq!(t.read(&mut c, 2).err(), Some(Error::NotFound));
}

#[test]
fn table_survives_save_and_reopen() {
    let (mut c, strings) = new_container();
    let t = people(&mut c, strings);
    t.append(&mut c, &row(1, true, b"abc")).unwrap();
    t.append(&mut c, &row(2, false, b"xyz")).unwrap();
    let data = t.handle();
    c.save().unwrap();
    let mut d = Container::open(c.into_stream(), &bpx_open_options_default()).unwrap();
    let t2 = Table::open(&mut d, data, strings).unwrap();
    assert_eq!(t2.name(), &b"people".to_vec());
    assert_eq!(t2.columns().len(), 3);
    assert_eq!(t2.columns()[2].name, b"label".to_vec());
    assert_eq!(t2.columns()[2].len, 8);
    assert_eq!(t2.column_index(b"flag"), Some(1));
    assert_eq!(t2.column_index(b"missing"), None);
    assert_eq!(t2.count(&mut d).unwrap(), 2);
    check(&t2.read(&mut d, 1).unwrap(), 2, false, b"xyz");
}

#[test]
fn overwrite_and_free_marker() {
    let (mut c, strings) = new_container();
    let t = people(&mut c, strings);
    t.append(&mut c, &row(1, true, b"abc")).unwrap();
    let mut r = row(5, false, b"zz");
    r.free = true;
    t.write(&mut c, &r, 0).unwrap();
    let back = t.read(&mut c, 0).unwrap();
    assert!(back.free);
    assert!(matches!(back.values[0], Value::Int32(5)));
    assert_eq!(t.count(&mut c).unwrap(), 1);
    assert_eq!(t.write(&mut c, &r, 3).err(), Some(Error::NotFound));
}

#[test]
fn schema_is_fixed_once_rows_exist() {
    let (mut c, strings) = new_container();
    let mut t = people(&mut c, strings);
    t.append(&mut c, &row(1, true, b"a")).unwrap();
    assert_eq!(t.column_create(&mut c, b"x", ValueType::UInt8, 0).err(), Some(Error::TableNotEmpty));
    assert_eq!(t.column_remove_at(&mut c, 0).err(), Some(Error::TableNotEmpty));
    assert_eq!(t.column_remove_at(&mut c, 9).err(), Some(Error::ColumnNotFound));
}

#[test]
fn column_removal_before_rows() {
    let (mut c, strings) = new_container();
    let mut t = people(&mut c, strings);
    t.column_remove_at(&mut c, 1).unwrap();
    assert_eq!(t.columns().len(), 2);
    assert_eq!(t.row_size(), 12);
    assert_eq!(t.column_index(b"label"), Some(1));
}

#[test]
fn names_with_zero_bytes_are_refused() {
    let (mut c, strings) = new_container();
    assert_eq!(Table::create(&mut c, strings, b"a\0b").err(), Some(Error::InvalidString));
    assert_eq!(put_string(&mut c, strings, b"x\0").err(), Some(Error::InvalidString));
    let off = put_string(&mut c, strings, b"hello").unwrap();
    assert_eq!(get_string(&mut c, strings, off).unwrap(), b"hello".to_vec());
}

#[test]
fn cells_convert_and_refuse() {
    let col = |ty, len| Column { name: Vec::new(), ty, len };
    let mut out = Vec::new();
    encode_cell(&col(ValueType::Int8, 0), &Value::Int32(300), &mut out).unwrap();
    assert_eq!(out, vec![44]);
    encode_cell(&col(ValueType::Int16, 0), &Value::Int8(-2), &mut out).unwrap();
    assert_eq!(out, vec![44, 0xFE, 0xFF]);
    encode_cell(&col(ValueType::Boolean, 0), &Value::UInt64(9), &mut out).unwrap();
    assert_eq!(out.last(), Some(&1));
    let before = out.clone();
    assert_eq!(encode_cell(&col(ValueType::Int32, 0), &Value::String(b"1".to_vec()), &mut out).err(), Some(Error::TypeError));
    assert_eq!(encode_cell(&col(ValueType::String, 2), &Value::String(b"abc".to_vec()), &mut out).err(), Some(Error::TypeError));
    assert_eq!(encode_cell(&col(ValueType::Float, 0), &Value::Double(0), &mut out).err(), Some(Error::TypeError));
    assert_eq!(out, before);
}

#[test]
fn row_codec_round_trip() {
    let cols = vec![
        Column { name: b"a".to_vec(), ty: ValueType::Int64, len: 0 },
        Column { name: b"b".to_vec(), ty: ValueType::UInt16, len: 0 },
        Column { name: b"c".to_vec(), ty: ValueType::Double, len: 0 },
        Column { name: b"d".to_vec(), ty: ValueType::Null, len: 0 },
    ];
    let r = Row {
        values: vec![Value::Int64(-5), Value::UInt16(65535), Value::Double(1.5f64.to_bits()), Value::Null],
        free: false,
    };
    let bytes = encode_row(&cols, &r).unwrap();
    assert_eq!(bytes.len(), 1 + 8 + 2 + 8);
    assert_eq!(bytes[0], 0);
    assert_eq!(&bytes[1..9], &(-5i64).to_le_bytes());
    let back = decode_row(&cols, &bytes, 0);
    assert!(matches!(back.values[0], Value::Int64(-5)));
    assert!(matches!(back.values[1], Value::UInt16(65535)));
    assert!(matches!(back.values[2], Value::Double(b) if f64::from_bits(b) == 1.5));
    assert!(matches!(back.values[3], Value::Null));
    assert_eq!(encode_row(&cols, &Row { values: vec![], free: false }).err(), Some(Error::TypeError));
    assert_eq!(find_column(&cols, b"c"), Some(2));
}

#[test]
fn value_conversions() {
    assert_eq!(Value::UInt64(u64::MAX).as_i64(), -1);
    assert_eq!(Value::Int8(-1).as_u64(), u64::MAX);
    assert_eq!(Value::Boolean(true).as_i64(), 1);
    assert_eq!(Value::Double(5).as_i64(), 0);
    assert!(Value::Int16(-3).as_bool());
    assert!(!Value::UInt32(0).as_bool());
    assert_eq!(Value::String(b"hi".to_vec()).as_str(), b"hi");
    assert_eq!(Value::Int32(4).as_str(), b"");
    assert_eq!(Value::Float(0).get_type(), ValueType::Float);
    assert_eq!(Value::String(Vec::new()).get_type(), ValueType::String);
}

#[test]
fn blank_rows_match_the_schema() {
    let (mut c, strings) = new_container();
    let t = people(&mut c, strings);
    let r = t.alloc_row();
    assert!(!r.free);
    assert!(matches!(r.values[0], Value::Int32(0)));
    assert!(matches!(r.values[1], Value::Boolean(false)));
    assert!(matches!(&r.values[2], Value::String(s) if s.is_empty()));
    assert_eq!(t.append(&mut c, &r).unwrap(), 0);
    check(&t.read(&mut c, 0).unwrap(), 0, false, b"");
}

#[test]
fn table_needs_distinct_sections() {
    let (mut c, strings) = new_container();
    assert_eq!(Table::open(&mut c, strings, strings).err(), Some(Error::NotFound));
}

#[test]
fn mismatched_rows_leave_the_table_alone() {
    let (mut c, strings) = new_container();
    let t = people(&mut c, strings);
    let bad = Row { values: vec![Value::String(b"x".to_vec()), Value::Boolean(true), Value::Null], free: false };
    assert_eq!(t.append(&mut c, &bad).err(), Some(Error::TypeError));
    assert_eq!(t.write(&mut c, &bad, 0).err(), Some(Error::TypeError));
    assert_eq!(t.count(&mut c).unwrap(), 0);
}
