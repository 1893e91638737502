use bpx_store::error::Error;
use bpx_store::tree::{from_object, to_hex_upper, Content, SdEntry, SdValue};
use bpx_store::value::Value;

fn entry(name: &str, value: SdValue) -> SdEntry {
    SdEntry { name: Some(name.as_bytes().to_vec()), hash: 0, value }
}

#[test]
fn tree_conversion() {
    let object = vec![
        entry("a", SdValue::Int32(1)),
        entry("b", SdValue::Object(vec![entry("c", SdValue::Bool(true))])),
    ];
    let root = from_object(&object).unwrap();
    assert_eq!(root.name, b"root".to_vec());
    let children = match &root.content {
        Content::Composite(ch) => ch,
        _ => panic!("root is not composite"),
    };
    assert_eq!(children.len(), 2);
    assert_eq!(children[0].name, b"a".to_vec());
    assert!(matches!(children[0].content, Content::Scalar(Value::Int32(1))));
    assert_eq!(children[1].name, b"b".to_vec());
    match &children[1].content {
        Content::Composite(inner) => {
            assert_eq!(inner.len(), 1);
            assert_eq!(inner[0].name, b"c".to_vec());
            assert!(matches!(inner[0].content, Content::Scalar(Value::Boolean(true))));
        }
        _ => panic!("b is not composite"),
    }
}

#[test]
fn unnamed_entries_take_their_hash() {
    let object = vec![SdEntry { name: None, hash: 0xBEEF01, value: SdValue::Null }];
    let root = from_object(&object).unwrap();
    match &root.content {
        Content::Composite(ch) => assert_eq!(ch[0].name, b"BEEF01".to_vec()),
        _ => panic!(),
    }
    assert_eq!(to_hex_upper(0), b"0".to_vec());
    assert_eq!(to_hex_upper(255), b"FF".to_vec());
    assert_eq!(to_hex_upper(u64::MAX), b"FFFFFFFFFFFFFFFF".to_vec());
}

#[test]
fn arrays_become_composites() {
    let object = vec![entry(
        "list",
        SdValue::Array(vec![SdValue::Uint8(3), SdValue::Array(vec![]), SdValue::Object(vec![])]),
    )];
    let root = from_object(&object).unwrap();
    let ch = match &root.content {
        Content::Composite(ch) => ch,
        _ => panic!(),
    };
    match &ch[0].content {
        Content::Composite(items) => {
            assert_eq!(items.len(), 3);
            assert_eq!(items[0].name, Vec::<u8>::new());
            assert!(matches!(items[0].content, Content::Scalar(Value::UInt8(3))));
            assert!(matches!(&items[1].content, Content::Composite(v) if v.is_empty()));
            assert_eq!(items[2].name, b"root".to_vec());
        }
        _ => panic!(),
    }
}

#[test]
fn invalid_strings_abort_the_conversion() {
    let object = vec![entry("ok", SdValue::Null), entry("bad", SdValue::String(b"a\0".to_vec()))];
    assert_eq!(from_object(&object).err(), Some(Error::InvalidString));
    let nested = vec![entry("x", SdValue::Array(vec![SdValue::String(b"\0".to_vec())]))];
    assert_eq!(from_object(&nested).err(), Some(Error::InvalidString));
    let bad_name = vec![entry("n\0", SdValue::Null)];
    assert_eq!(from_object(&bad_name).err(), Some(Error::InvalidString));
}
