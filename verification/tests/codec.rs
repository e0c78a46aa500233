use hashio::hash::Hash32;
use hashio::hashio::HashIOError;
use hashio::hashio::IoFault;
use hashio::hashio::ParseFault;
use hashio::hashio_model::{read_prim, read_prims, PrimField, PrimType, PrimValue};
use hashio::vec::read_header;
use hashio::btreemap::{order_hashes, Order};
use hashio::io::{
    write_bytes, write_hash, write_i32, write_i64, write_prefixed, write_u16, write_u32,
    write_u64, write_u8, ByteReader,
};
use hashio::text::{decimal, same_text};
use hashio::value::Value;
use std::rc::Rc;

#[test]
fn digest_of_abc_is_the_known_sha256() {
    let h = Hash32::hash_bytes(b"abc");
    assert_eq!(
        h.as_string(),
        "ba7816bf8f01cfea414140de5dae2223b00361a396177a9cb410ff61f20015ad"
    );
    assert_eq!(Hash32::hash_string("abc"), h);
    assert_eq!(Hash32::try_hash_bytes(b"abc"), Some(h));
}

#[test]
fn digest_of_nothing_is_the_known_sha256() {
    assert_eq!(
        Hash32::hash_bytes(b"").as_string(),
        "e3b0c44298fc1c149afbf4c8996fb92427ae41e4649b934ca495991b7852b855"
    );
}

#[test]
fn none_is_all_zeros_and_renders_as_64_zeros() {
    let none = Hash32::none();
    assert_eq!(none.get_bytes(), [0u8; 32]);
    assert_eq!(none.as_string(), "0".repeat(64));
    assert!(none.same(&Hash32::none()));
    assert!(!none.same(&Hash32::hash_bytes(b"")));
}

#[test]
fn hex_is_lowercase_high_half_first() {
    let mut bytes = [0u8; 32];
    bytes[0] = 0xab;
    bytes[1] = 0x0f;
    bytes[31] = 0xf0;
    let text = Hash32 { bytes }.as_string();
    assert_eq!(text.len(), 64);
    assert!(text.starts_with("ab0f00"));
    assert!(text.ends_with("00f0"));
}

#[test]
fn hashes_order_by_their_bytes() {
    let mut low = [0u8; 32];
    let mut high = [0u8; 32];
    low[31] = 0xff;
    high[0] = 0x01;
    assert!(Hash32 { bytes: low } < Hash32 { bytes: high });
    assert_eq!(order_hashes(&Hash32 { bytes: low }, &Hash32 { bytes: high }), Order::Less);
    assert_eq!(order_hashes(&Hash32 { bytes: high }, &Hash32 { bytes: low }), Order::Greater);
    assert_eq!(order_hashes(&Hash32 { bytes: low }, &Hash32 { bytes: low }), Order::Equal);
}

#[test]
fn a_byte_string_stands_behind_its_length() {
    let mut out = vec![9u8];
    assert!(write_prefixed(&[1, 2, 3], &mut out));
    assert!(write_prefixed(&[], &mut out));
    assert_eq!(out, vec![9, 0, 0, 0, 3, 1, 2, 3, 0, 0, 0, 0]);
    let mut reader = ByteReader::new(&out[1..]);
    assert_eq!(reader.read_prefixed().unwrap(), vec![1, 2, 3]);
    assert_eq!(reader.read_prefixed().unwrap(), Vec::<u8>::new());
    assert_eq!(reader.read_prefixed(), Err(HashIOError::IOError(IoFault::UnexpectedEof)));
    let cut = [0u8, 0, 0, 3, 1, 2];
    let mut reader = ByteReader::new(&cut);
    assert_eq!(reader.read_prefixed(), Err(HashIOError::IOError(IoFault::UnexpectedEof)));
    assert_eq!(reader.read_u32().unwrap(), 3);
}

#[test]
fn numbers_are_written_big_endian() {
    let mut out = Vec::new();
    write_u8(0x7f, &mut out);
    write_u16(0x0102, &mut out);
    write_u32(0x0A0B0C0D, &mut out);
    write_u64(0x0102030405060708, &mut out);
    write_i32(-2, &mut out);
    write_i64(-3, &mut out);
    assert_eq!(
        out,
        vec![
            0x7f, 0x01, 0x02, 0x0A, 0x0B, 0x0C, 0x0D, 0x01, 0x02, 0x03, 0x04, 0x05, 0x06, 0x07,
            0x08, 0xff, 0xff, 0xff, 0xfe, 0xff, 0xff, 0xff, 0xff, 0xff, 0xff, 0xff, 0xfd,
        ]
    );
}

#[test]
fn numbers_are_read_big_endian() {
    let bytes = [
        0x7f, 0x01, 0x02, 0x0A, 0x0B, 0x0C, 0x0D, 0x01, 0x02, 0x03, 0x04, 0x05, 0x06, 0x07, 0x08,
        0xff, 0xff, 0xff, 0xfe, 0xff, 0xff, 0xff, 0xff, 0xff, 0xff, 0xff, 0xfd,
    ];
    let mut reader = ByteReader::new(&bytes);
    assert_eq!(reader.read_u8().unwrap(), 0x7f);
    assert_eq!(reader.read_u16().unwrap(), 0x0102);
    assert_eq!(reader.read_u32().unwrap(), 0x0A0B0C0D);
    assert_eq!(reader.read_u64().unwrap(), 0x0102030405060708);
    assert_eq!(reader.read_i32().unwrap(), -2);
    assert_eq!(reader.read_i64().unwrap(), -3);
    assert_eq!(reader.read_u8(), Err(HashIOError::IOError(IoFault::UnexpectedEof)));
}

#[test]
fn a_short_read_takes_nothing() {
    let bytes = [1u8, 2, 3];
    let mut reader = ByteReader::new(&bytes);
    assert_eq!(reader.read_u32(), Err(HashIOError::IOError(IoFault::UnexpectedEof)));
    assert_eq!(reader.read_hash(), Err(HashIOError::IOError(IoFault::UnexpectedEof)));
    assert_eq!(reader.read_bytes(4), Err(HashIOError::IOError(IoFault::UnexpectedEof)));
    assert_eq!(reader.read_u16().unwrap(), 0x0102);
    assert_eq!(reader.read_bytes(1).unwrap(), vec![3]);
    assert_eq!(reader.read_bytes(0).unwrap(), Vec::<u8>::new());
}

#[test]
fn a_hash_is_written_and_read_as_its_32_bytes() {
    let h = Hash32::hash_bytes(b"abc");
    let mut out = vec![9u8];
    write_hash(&h, &mut out);
    write_bytes(&[7, 7], &mut out);
    assert_eq!(out.len(), 35);
    assert_eq!(&out[1..33], &h.get_bytes()[..]);
    let mut reader = ByteReader::new(&out[1..]);
    assert_eq!(reader.read_hash().unwrap(), h);
    assert_eq!(reader.read_u16().unwrap(), 0x0707);
}

#[test]
fn primitive_values_round_trip_with_their_width() {
    let values = vec![
        (PrimValue::U8(200), 1),
        (PrimValue::U16(65535), 2),
        (PrimValue::U32(4_000_000_000), 4),
        (PrimValue::U64(u64::MAX), 8),
        (PrimValue::I32(i32::MIN), 4),
        (PrimValue::I64(-1_000_000), 8),
        (PrimValue::F32(0.5f32.to_bits()), 4),
        (PrimValue::F64((-2.25f64).to_bits()), 8),
    ];
    for (value, width) in values {
        let mut out = Vec::new();
        value.write_to(&mut out);
        assert_eq!(out.len(), width);
        let mut reader = ByteReader::new(&out);
        assert_eq!(read_prim(value.kind(), &mut reader).unwrap(), value);
    }
}

#[test]
fn a_float_is_stored_by_its_ieee_bits() {
    let mut out = Vec::new();
    PrimValue::F32(1.0f32.to_bits()).write_to(&mut out);
    assert_eq!(out, vec![0x3f, 0x80, 0x00, 0x00]);
    let mut reader = ByteReader::new(&out);
    match read_prim(PrimType::F32, &mut reader).unwrap() {
        PrimValue::F32(bits) => assert_eq!(f32::from_bits(bits), 1.0f32),
        other => panic!("not a float: {:?}", other),
    }
}

#[test]
fn string_payload_is_length_then_utf8() {
    let value = Value::Str("abc".to_string());
    assert_eq!(value.payload().unwrap(), vec![0, 0, 0, 3, 0x61, 0x62, 0x63]);
    assert_eq!(
        value.as_hash().as_string(),
        "d04b72a650ce0f8ce4963330a53ee2832733d2baeffff3c1d8e256cca096d120"
    );
    let umlaut = Value::Str("ä".to_string());
    assert_eq!(umlaut.payload().unwrap(), vec![0, 0, 0, 2, 0xc3, 0xa4]);
}

#[test]
fn sequence_payload_is_reserved_count_hashes() {
    let a = Rc::new(Value::Str("a".to_string()));
    let b = Rc::new(Value::Str("b".to_string()));
    let list = Value::List(vec![a.clone(), b.clone()]);
    let mut expected = vec![0, 0, 0, 0, 0, 0, 0, 2];
    expected.extend_from_slice(&a.as_hash().get_bytes());
    expected.extend_from_slice(&b.as_hash().get_bytes());
    assert_eq!(list.payload().unwrap(), expected);
    let mut out = vec![1u8];
    assert_eq!(list.write_to(&mut out).unwrap(), 72);
    assert_eq!(out.len(), 73);
    assert_eq!(
        Value::List(vec![]).as_hash().as_string(),
        "af5570f5a1810b7af78caf4bc70a660f0df51e42baf91d4de5b2328de0e83dfc"
    );
}

#[test]
fn record_payload_is_primitives_then_child_hashes() {
    let child = Rc::new(Value::Str("Hello World".to_string()));
    let value = Value::Record(vec![PrimValue::U32(42)], vec![child.clone()]);
    let mut expected = vec![0, 0, 0, 42];
    expected.extend_from_slice(&child.as_hash().get_bytes());
    assert_eq!(value.payload().unwrap(), expected);
    assert_eq!(
        value.as_hash().as_string(),
        "a423e7c6507f1fed2c1957fb2ddd6e133be93a098af32f253ca6b8f08c76fd07"
    );
    assert_eq!(value.try_hash().unwrap(), value.as_hash());
}

#[test]
fn content_hash_is_the_digest_of_the_written_bytes() {
    let value = Value::Record(
        vec![PrimValue::I64(-5), PrimValue::U8(1)],
        vec![Rc::new(Value::List(vec![Rc::new(Value::Str("x".to_string()))]))],
    );
    let mut out = Vec::new();
    value.write_to(&mut out).unwrap();
    assert_eq!(Hash32::hash_bytes(&out), value.as_hash());
}

#[test]
fn equal_values_have_equal_hashes() {
    let make = || Value::Record(vec![PrimValue::U16(7)], vec![Rc::new(Value::Str("same".into()))]);
    assert_eq!(make().as_hash(), make().as_hash());
    assert_ne!(
        make().as_hash(),
        Value::Record(vec![PrimValue::U16(8)], vec![Rc::new(Value::Str("same".into()))]).as_hash()
    );
}

#[test]
fn decimal_numerals() {
    assert_eq!(decimal(0), "0");
    assert_eq!(decimal(7), "7");
    assert_eq!(decimal(10), "10");
    assert_eq!(decimal(4294967295), "4294967295");
    assert_eq!(decimal(u64::MAX), "18446744073709551615");
}

#[test]
fn texts_compare_by_content() {
    assert!(same_text("abc", "abc"));
    assert!(!same_text("abc", "abd"));
    assert!(!same_text("abc", "ab"));
    assert!(same_text("", ""));
}

#[test]
fn a_header_is_read_whole_or_not_at_all() {
    let fine = [0u8, 0, 0, 0, 0, 0, 0, 3, 9];
    let mut reader = ByteReader::new(&fine);
    assert_eq!(read_header(&mut reader).unwrap(), 3);
    assert_eq!(reader.read_u8().unwrap(), 9);
    let reserved = [0u8, 0, 0, 5, 0, 0, 0, 1];
    let mut reader = ByteReader::new(&reserved);
    assert_eq!(
        read_header(&mut reader),
        Err(HashIOError::ParseError(ParseFault::ReservedWord(5)))
    );
    assert_eq!(reader.read_u32().unwrap(), 5);
    let short = [0u8, 0, 0, 0, 0, 0];
    let mut reader = ByteReader::new(&short);
    assert_eq!(read_header(&mut reader), Err(HashIOError::IOError(IoFault::UnexpectedEof)));
    assert_eq!(reader.read_bytes(6).unwrap(), short.to_vec());
}

#[test]
fn primitive_fields_are_read_in_order_or_not_at_all() {
    let fields = vec![
        PrimField { name: "a".to_string(), kind: PrimType::U8 },
        PrimField { name: "b".to_string(), kind: PrimType::U16 },
    ];
    let fine = [1u8, 0, 2, 7];
    let mut reader = ByteReader::new(&fine);
    assert_eq!(
        read_prims(&fields, &mut reader).unwrap(),
        vec![PrimValue::U8(1), PrimValue::U16(2)]
    );
    assert_eq!(reader.read_u8().unwrap(), 7);
    let short = [1u8, 0];
    let mut reader = ByteReader::new(&short);
    assert_eq!(read_prims(&fields, &mut reader), Err(HashIOError::IOError(IoFault::UnexpectedEof)));
    assert_eq!(reader.read_u8().unwrap(), 1);
    let mut reader = ByteReader::new(&short);
    assert_eq!(read_prims(&Vec::new(), &mut reader).unwrap(), Vec::<PrimValue>::new());
    assert_eq!(reader.read_u16().unwrap(), 0x0100);
}
