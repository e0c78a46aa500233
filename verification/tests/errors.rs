use hashio::hash::Hash32;
use hashio::hashio::{HashIO, HashIOError, HashIOParse, IoFault, ParseFault, Typeable};
use hashio::hashio_model::{
    ChildField, ChildSource, Conversion, PrimField, PrimSource, PrimType, PrimValue, RecordSchema,
    Schema,
};
use hashio::hashiofile::HashIOFile;
use hashio::string::parse_string;
use hashio::value::Value;
use std::rc::Rc;

fn text(s: &str) -> Rc<Value> {
    Rc::new(Value::Str(s.to_string()))
}

fn fields(kinds: Vec<PrimType>) -> Vec<PrimField> {
    kinds
        .into_iter()
        .enumerate()
        .map(|(i, k)| PrimField { name: format!("p{}", i), kind: k })
        .collect()
}

fn simple() -> Rc<RecordSchema> {
    Rc::new(RecordSchema {
        name: "Simple".to_string(),
        prims: fields(vec![PrimType::U32]),
        children: vec![ChildField { name: "a".to_string(), schema: Schema::Str }],
        fallbacks: vec![],
        plain_fallback: None,
    })
}

fn plant(store: &mut HashIOFile, blob: Vec<u8>) -> Hash32 {
    let hash = Hash32::hash_bytes(&blob);
    store.create_file(store.filename_for_hash(&hash), blob);
    hash
}

fn undefined(msg: &str) -> HashIOError {
    HashIOError::Undefined(msg.to_string())
}

const EOF: HashIOError = HashIOError::IOError(IoFault::UnexpectedEof);

#[test]
fn a_missing_blob_is_an_io_error() {
    let store = HashIOFile::new("e".to_string());
    assert_eq!(
        store.get(&Schema::Str, &Hash32::hash_bytes(b"nothing")),
        Err(HashIOError::IOError(IoFault::NotFound))
    );
    assert_eq!(
        store.get(&Schema::Record(simple()), &Hash32::none()),
        Err(HashIOError::IOError(IoFault::NotFound))
    );
}

#[test]
fn a_missing_child_is_an_io_error() {
    let mut store = HashIOFile::new("e".to_string());
    let mut blob = vec![0u8, 0, 0, 0, 0, 0, 0, 1];
    blob.extend_from_slice(&Hash32::hash_bytes(b"absent").get_bytes());
    let hash = plant(&mut store, blob);
    assert_eq!(
        store.get(&Schema::List(Rc::new(Schema::Str)), &hash),
        Err(HashIOError::IOError(IoFault::NotFound))
    );
}

#[test]
fn invalid_utf8_is_a_parse_error() {
    let mut store = HashIOFile::new("e".to_string());
    let hash = plant(&mut store, vec![0, 0, 0, 2, 0xff, 0xfe]);
    assert_eq!(
        store.get(&Schema::Str, &hash),
        Err(HashIOError::ParseError(ParseFault::InvalidUtf8))
    );
    assert_eq!(
        parse_string(&[0, 0, 0, 1, 0x80]),
        Err(HashIOError::ParseError(ParseFault::InvalidUtf8))
    );
    assert_eq!(parse_string(&[0, 0, 0, 1, 0x41, 0xff]).unwrap(), "A");
}

#[test]
fn a_truncated_string_is_an_io_error() {
    let mut store = HashIOFile::new("e".to_string());
    for blob in vec![vec![], vec![0, 0], vec![0, 0, 0, 5, 0x61, 0x62]] {
        let hash = plant(&mut store, blob);
        assert_eq!(store.get(&Schema::Str, &hash), Err(EOF));
    }
}

#[test]
fn a_truncated_collection_is_an_io_error() {
    let mut store = HashIOFile::new("e".to_string());
    store.put(&Schema::Str, &Value::Str("a".to_string())).unwrap();
    let a = Value::Str("a".to_string()).as_hash().get_bytes();
    let mut one_of_two = vec![0u8, 0, 0, 0, 0, 0, 0, 2];
    one_of_two.extend_from_slice(&a);
    let mut half_a_hash = vec![0u8, 0, 0, 0, 0, 0, 0, 1];
    half_a_hash.extend_from_slice(&a[..16]);
    let mut key_only = vec![0u8, 0, 0, 0, 0, 0, 0, 1];
    key_only.extend_from_slice(&a);
    let list = Schema::List(Rc::new(Schema::Str));
    let dict = Schema::Dict(Rc::new(Schema::Str), Rc::new(Schema::Str));
    for blob in vec![vec![0u8, 0, 0], vec![0, 0, 0, 0, 0, 0], one_of_two, half_a_hash] {
        let hash = plant(&mut store, blob);
        assert_eq!(store.get(&list, &hash), Err(EOF));
        assert_eq!(store.get(&dict, &hash), Err(EOF));
    }
    let hash = plant(&mut store, key_only);
    assert_eq!(store.get(&dict, &hash), Err(EOF));
}

#[test]
fn a_truncated_record_is_an_io_error() {
    let schema = Schema::Record(simple());
    let value = Value::Record(vec![PrimValue::U32(5)], vec![text("child")]);
    let mut full = Vec::new();
    schema.write_blob(&value, &mut full).unwrap();
    assert_eq!(full.len(), 72);
    let mut store = HashIOFile::new("e".to_string());
    store.put(&schema, &value).unwrap();
    for cut in [0usize, 3, 4, 20, 35, 36, 39, 40, 71] {
        let hash = plant(&mut store, full[..cut].to_vec());
        assert_eq!(store.get(&schema, &hash), Err(EOF), "cut at {}", cut);
    }
    let hash = plant(&mut store, full.clone());
    assert_eq!(&*store.get(&schema, &hash).unwrap(), &value);
}

#[test]
fn a_reserved_word_that_is_not_zero_is_a_parse_error() {
    let mut store = HashIOFile::new("e".to_string());
    let hash = plant(&mut store, vec![0, 0, 0, 5, 0, 0, 0, 0]);
    let expected = Err(HashIOError::ParseError(ParseFault::ReservedWord(5)));
    assert_eq!(store.get(&Schema::List(Rc::new(Schema::Str)), &hash), expected);
    assert_eq!(
        store.get(&Schema::Dict(Rc::new(Schema::Str), Rc::new(Schema::Str)), &hash),
        expected
    );
}

#[test]
fn an_unknown_version_without_a_fallback_is_a_version_error() {
    let schema = Schema::Record(simple());
    let mut store = HashIOFile::new("e".to_string());
    let mut blob = vec![0u8, 0, 0, 2];
    blob.extend_from_slice(&schema.type_hash().get_bytes());
    blob.extend_from_slice(&[0, 0, 0, 1]);
    let hash = plant(&mut store, blob);
    assert_eq!(store.get(&schema, &hash), Err(HashIOError::VersionError(2)));
    let hash = plant(&mut store, vec![0xff, 0xff, 0xff, 0xff]);
    assert_eq!(store.get(&schema, &hash), Err(HashIOError::VersionError(4294967295)));
    assert_eq!(
        schema.fallback_parse(&store, &[0, 0, 0, 1]),
        Err(HashIOError::FallbackNotSupported)
    );
    assert_eq!(
        Schema::Str.fallback_parse(&store, &[0, 0, 0, 0]),
        Err(HashIOError::FallbackNotSupported)
    );
}

#[test]
fn an_unknown_version_with_a_fallback_gives_what_the_fallback_reads() {
    let legacy = Rc::new(RecordSchema {
        name: "Legacy".to_string(),
        prims: fields(vec![PrimType::U32]),
        children: vec![],
        fallbacks: vec![],
        plain_fallback: None,
    });
    let schema = Schema::Record(Rc::new(RecordSchema {
        name: "Simple".to_string(),
        prims: fields(vec![PrimType::U32]),
        children: vec![ChildField { name: "a".to_string(), schema: Schema::Str }],
        fallbacks: vec![],
        plain_fallback: Some(Conversion {
            older: legacy,
            prims: vec![PrimSource::Old(0)],
            children: vec![ChildSource::Const(text(""))],
        }),
    }));
    let mut store = HashIOFile::new("e".to_string());
    let hash = plant(&mut store, vec![0, 0, 0, 9, 0, 0, 0, 77]);
    assert_eq!(
        &*store.get(&schema, &hash).unwrap(),
        &Value::Record(vec![PrimValue::U32(77)], vec![text("")])
    );
    let hash = plant(&mut store, vec![0, 0, 0, 9, 0, 0]);
    assert_eq!(store.get(&schema, &hash), Err(EOF));
}

#[test]
fn an_unknown_type_hash_is_a_type_error() {
    let schema = Schema::Record(simple());
    let other = Schema::List(Rc::new(Schema::Str)).type_hash();
    let mut store = HashIOFile::new("e".to_string());
    let mut blob = vec![0u8, 0, 0, 1];
    blob.extend_from_slice(&other.get_bytes());
    blob.extend_from_slice(&[0, 0, 0, 1]);
    let hash = plant(&mut store, blob);
    assert_eq!(store.get(&schema, &hash), Err(HashIOError::TypeError(other)));
    assert_eq!(
        schema.parse(&store, &[0, 0, 0, 1], &Some(other)),
        Err(HashIOError::TypeError(other))
    );
}

#[test]
fn a_value_read_as_the_wrong_record_is_a_type_error() {
    let schema = Schema::Record(simple());
    let other = Schema::Record(Rc::new(RecordSchema {
        name: "Other".to_string(),
        prims: fields(vec![PrimType::U64]),
        children: vec![],
        fallbacks: vec![],
        plain_fallback: None,
    }));
    let value = Value::Record(vec![PrimValue::U32(5)], vec![text("child")]);
    let mut store = HashIOFile::new("e".to_string());
    store.put(&schema, &value).unwrap();
    assert_eq!(
        store.get(&other, &value.as_hash()),
        Err(HashIOError::TypeError(schema.type_hash()))
    );
}

#[test]
fn a_record_parser_without_a_type_hash_is_refused() {
    let store = HashIOFile::new("e".to_string());
    assert_eq!(
        Schema::Record(simple()).parse(&store, &[0, 0, 0, 1], &None),
        Err(undefined("None type received"))
    );
    assert_eq!(
        &*Schema::Str.parse(&store, &[0, 0, 0, 1, 0x41], &None).unwrap(),
        &Value::Str("A".to_string())
    );
}

#[test]
fn a_value_that_is_not_of_its_type_is_refused() {
    let schema = Schema::Record(simple());
    let mut store = HashIOFile::new("e".to_string());
    let expected = Err(undefined("value does not match its type"));
    let wrong = vec![
        Value::Str("x".to_string()),
        Value::Record(vec![], vec![text("a")]),
        Value::Record(vec![PrimValue::U8(1)], vec![text("a")]),
        Value::Record(vec![PrimValue::U32(1)], vec![]),
        Value::Record(vec![PrimValue::U32(1)], vec![text("a"), text("b")]),
    ];
    for value in wrong {
        assert_eq!(store.put(&schema, &value), expected);
    }
    assert_eq!(store.put(&Schema::Str, &Value::List(vec![])), expected);
    assert_eq!(
        store.put(&Schema::List(Rc::new(Schema::Str)), &Value::List(vec![Rc::new(Value::List(vec![]))])),
        expected
    );
    assert!(store.entries().is_empty());
    assert!(!schema.check(&Value::Str("x".to_string())));
    assert!(schema.check(&Value::Record(vec![PrimValue::U32(1)], vec![text("a")])));
}

#[test]
fn a_map_whose_keys_do_not_ascend_is_refused() {
    let schema = Schema::Dict(Rc::new(Schema::Str), Rc::new(Schema::Str));
    let entry = |k: &str, v: &str| hashio::value::MapEntry { key: text(k), value: text(v) };
    let mut store = HashIOFile::new("e".to_string());
    let expected = Err(undefined("value does not match its type"));
    assert_eq!(store.put(&schema, &Value::Dict(vec![entry("b", "1"), entry("a", "2")])), expected);
    assert_eq!(store.put(&schema, &Value::Dict(vec![entry("a", "1"), entry("a", "2")])), expected);
    assert!(store.entries().is_empty());
    store.put(&schema, &Value::Dict(vec![entry("a", "1"), entry("b", "2")])).unwrap();
    assert_eq!(store.entries().len(), 5);
}

#[test]
fn an_older_shape_whose_conversion_does_not_fit_is_refused() {
    let old = Rc::new(RecordSchema {
        name: "Old".to_string(),
        prims: vec![],
        children: vec![ChildField { name: "b".to_string(), schema: Schema::Str }],
        fallbacks: vec![],
        plain_fallback: None,
    });
    let schema = Schema::Record(Rc::new(RecordSchema {
        name: "New".to_string(),
        prims: fields(vec![PrimType::U32]),
        children: vec![ChildField { name: "b".to_string(), schema: Schema::Str }],
        fallbacks: vec![Conversion {
            older: old.clone(),
            prims: vec![PrimSource::Old(3)],
            children: vec![ChildSource::Keep(0)],
        }],
        plain_fallback: None,
    }));
    let value = Value::Record(vec![], vec![text("Foo")]);
    let mut store = HashIOFile::new("e".to_string());
    store.put(&Schema::Record(old), &value).unwrap();
    assert_eq!(
        store.get(&schema, &value.as_hash()),
        Err(undefined("conversion does not fit the older record"))
    );
}

#[test]
fn messages_name_the_kind_and_what_it_carries() {
    let hash = Hash32::hash_bytes(b"abc");
    assert_eq!(undefined("oops").message(), "Undefined error: oops");
    assert_eq!(HashIOError::VersionError(42).message(), "Unsupported version: 42");
    assert_eq!(
        HashIOError::TypeError(hash).message(),
        "Unexpected type: ba7816bf8f01cfea414140de5dae2223b00361a396177a9cb410ff61f20015ad"
    );
    assert_eq!(
        HashIOError::IOError(IoFault::NotFound).message(),
        "IOError: entity not found"
    );
    assert_eq!(EOF.message(), "IOError: failed to fill whole buffer");
    assert_eq!(
        HashIOError::ParseError(ParseFault::InvalidUtf8).message(),
        "Parse error: invalid utf-8"
    );
    assert_eq!(
        HashIOError::ParseError(ParseFault::ReservedWord(3)).message(),
        "Parse error: reserved word is not zero"
    );
    assert_eq!(HashIOError::FallbackNotSupported.message(), "Fallback is not supported");
}

#[test]
fn descriptions_name_the_kind() {
    assert_eq!(undefined("oops").description(), "oops");
    assert_eq!(HashIOError::VersionError(42).description(), "Unsupported version");
    assert_eq!(HashIOError::TypeError(Hash32::none()).description(), "Unexpected type");
    assert_eq!(HashIOError::IOError(IoFault::NotFound).description(), "entity not found");
    assert_eq!(EOF.description(), "failed to fill whole buffer");
    assert_eq!(
        HashIOError::ParseError(ParseFault::InvalidUtf8).description(),
        "invalid utf-8"
    );
    assert_eq!(HashIOError::FallbackNotSupported.description(), "Fallback is not supported");
    assert_eq!(IoFault::UnexpectedEof.description(), "failed to fill whole buffer");
    assert_eq!(ParseFault::ReservedWord(1).description(), "reserved word is not zero");
}
