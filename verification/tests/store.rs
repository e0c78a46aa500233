use hashio::btreemap::dict_insert;
use hashio::hash::Hash32;
use hashio::hashio::{HashIO, HashIOError, HashIOParse, IoFault, Typeable};
use hashio::hashio_model::{ChildField, PrimField, PrimType, PrimValue, RecordSchema, Schema};
use hashio::hashiofile::HashIOFile;
use hashio::value::{MapEntry, Value};
use std::rc::Rc;

fn text(s: &str) -> Rc<Value> {
    Rc::new(Value::Str(s.to_string()))
}

fn record(name: &str, prims: Vec<PrimType>, children: Vec<(&str, Schema)>) -> Schema {
    Schema::Record(Rc::new(RecordSchema {
        name: name.to_string(),
        prims: prims
            .into_iter()
            .enumerate()
            .map(|(i, k)| PrimField { name: format!("p{}", i), kind: k })
            .collect(),
        children: children
            .into_iter()
            .map(|(n, s)| ChildField { name: n.to_string(), schema: s })
            .collect(),
        fallbacks: vec![],
        plain_fallback: None,
    }))
}

fn list_of(schema: Schema) -> Schema {
    Schema::List(Rc::new(schema))
}

fn dict_of(key: Schema, value: Schema) -> Schema {
    Schema::Dict(Rc::new(key), Rc::new(value))
}

fn dict(pairs: Vec<(Rc<Value>, Rc<Value>)>) -> Value {
    let mut entries: Vec<MapEntry> = Vec::new();
    for (k, v) in pairs {
        dict_insert(&mut entries, k, v);
    }
    Value::Dict(entries)
}

fn round_trip(schema: &Schema, value: &Value) {
    let mut store = HashIOFile::new("rt".to_string());
    store.put(schema, value).unwrap();
    let back = store.get(schema, &value.as_hash()).unwrap();
    assert_eq!(&*back, value);
}

#[test]
fn layout_is_base_two_digits_and_the_rest() {
    let store = HashIOFile::new("some/base".to_string());
    let hash = Hash32::hash_bytes(b"abc");
    assert_eq!(store.directory_for_hash(&hash), "some/base/ba/");
    assert_eq!(
        store.filename_for_hash(&hash),
        "some/base/ba/7816bf8f01cfea414140de5dae2223b00361a396177a9cb410ff61f20015ad"
    );
    assert_eq!(store.base(), "some/base");
    assert_eq!(store.base_path, "some/base");
}

#[test]
fn a_new_store_is_empty() {
    let store = HashIOFile::new("x".to_string());
    assert!(store.entries().is_empty());
    assert!(!store.contains("x/00/00"));
}

#[test]
fn values_of_every_kind_round_trip() {
    round_trip(&Schema::Str, &Value::Str("Hello World".to_string()));
    round_trip(&Schema::Str, &Value::Str("ünï©ødé ✓".to_string()));
    round_trip(&list_of(Schema::Str), &Value::List(vec![text("a"), text("b"), text("a")]));
    round_trip(
        &dict_of(Schema::Str, Schema::Str),
        &dict(vec![(text("a"), text("1")), (text("b"), text("2")), (text("c"), text("3"))]),
    );
    round_trip(
        &record(
            "Mixed",
            vec![
                PrimType::U8,
                PrimType::U16,
                PrimType::U32,
                PrimType::U64,
                PrimType::I32,
                PrimType::I64,
                PrimType::F32,
                PrimType::F64,
            ],
            vec![("s", Schema::Str), ("l", list_of(list_of(Schema::Str)))],
        ),
        &Value::Record(
            vec![
                PrimValue::U8(1),
                PrimValue::U16(2),
                PrimValue::U32(3),
                PrimValue::U64(4),
                PrimValue::I32(-5),
                PrimValue::I64(-6),
                PrimValue::F32(0.5f32.to_bits()),
                PrimValue::F64(0.25f64.to_bits()),
            ],
            vec![
                text("s"),
                Rc::new(Value::List(vec![
                    Rc::new(Value::List(vec![text("x")])),
                    Rc::new(Value::List(vec![])),
                ])),
            ],
        ),
    );
    let inner = record("Inner", vec![PrimType::U32], vec![]);
    round_trip(
        &dict_of(list_of(Schema::Str), inner),
        &dict(vec![
            (
                Rc::new(Value::List(vec![text("k"), text("2")])),
                Rc::new(Value::Record(vec![PrimValue::U32(2)], vec![])),
            ),
            (
                Rc::new(Value::List(vec![text("k")])),
                Rc::new(Value::Record(vec![PrimValue::U32(1)], vec![])),
            ),
        ]),
    );
}

#[test]
fn empty_values_round_trip_with_fixed_hashes() {
    let empty_string = Value::Str(String::new());
    let empty_list = Value::List(vec![]);
    let empty_dict = Value::Dict(vec![]);
    round_trip(&Schema::Str, &empty_string);
    round_trip(&list_of(Schema::Str), &empty_list);
    round_trip(&dict_of(Schema::Str, Schema::Str), &empty_dict);
    assert_eq!(
        empty_string.as_hash().as_string(),
        "df3f619804a92fdb4057192dc43dd748ea778adc52bc498ce80524c014b81119"
    );
    assert_eq!(
        empty_list.as_hash().as_string(),
        "af5570f5a1810b7af78caf4bc70a660f0df51e42baf91d4de5b2328de0e83dfc"
    );
    assert_eq!(empty_dict.as_hash(), empty_list.as_hash());
    assert_eq!(empty_string.as_hash(), Value::Str(String::new()).as_hash());
}

#[test]
fn a_record_is_stored_behind_version_and_type_hash() {
    let schema = record("TestType", vec![PrimType::U32], vec![("a", Schema::Str)]);
    let value = Value::Record(vec![PrimValue::U32(42)], vec![text("Hello World")]);
    let mut store = HashIOFile::new("b".to_string());
    store.put(&schema, &value).unwrap();
    let name = store.filename_for_hash(&value.as_hash());
    let blob = store.read(&name).unwrap();
    let mut expected = vec![0u8, 0, 0, 1];
    expected.extend_from_slice(&schema.type_hash().get_bytes());
    expected.extend_from_slice(&value.payload().unwrap());
    assert_eq!(blob, &expected);
    assert_eq!(blob.len(), 4 + 32 + 4 + 32);
    let mut written = Vec::new();
    schema.write_blob(&value, &mut written).unwrap();
    assert_eq!(written, expected);
    let mut payload = Vec::new();
    schema.store(&value, &mut payload).unwrap();
    assert_eq!(payload, value.payload().unwrap());
}

#[test]
fn strings_and_collections_are_stored_without_an_envelope() {
    let mut store = HashIOFile::new("b".to_string());
    let s = Value::Str("abc".to_string());
    store.put(&Schema::Str, &s).unwrap();
    let name = store.filename_for_hash(&s.as_hash());
    assert_eq!(store.read(&name).unwrap(), &vec![0u8, 0, 0, 3, 0x61, 0x62, 0x63]);
    let l = Value::List(vec![Rc::new(s)]);
    store.put(&list_of(Schema::Str), &l).unwrap();
    let name = store.filename_for_hash(&l.as_hash());
    assert_eq!(store.read(&name).unwrap(), &l.payload().unwrap());
}

#[test]
fn a_second_put_writes_nothing() {
    let schema = record("R", vec![PrimType::U32], vec![("l", list_of(Schema::Str))]);
    let value = Value::Record(
        vec![PrimValue::U32(1)],
        vec![Rc::new(Value::List(vec![text("a"), text("b")]))],
    );
    let mut store = HashIOFile::new("d".to_string());
    store.put(&schema, &value).unwrap();
    let before = store.clone();
    assert_eq!(before.entries().len(), 4);
    store.put(&schema, &value).unwrap();
    assert_eq!(store, before);
    store.put(&Schema::Str, &Value::Str("a".to_string())).unwrap();
    assert_eq!(store, before);
}

#[test]
fn equal_children_are_stored_once() {
    let schema = list_of(Schema::Str);
    let value = Value::List(vec![text("same"), text("same"), text("same")]);
    let mut store = HashIOFile::new("d".to_string());
    store.put(&schema, &value).unwrap();
    assert_eq!(store.entries().len(), 2);
}

#[test]
fn every_part_of_a_stored_value_is_stored() {
    let leaf = text("leaf");
    let inner = Rc::new(Value::List(vec![leaf.clone(), text("other")]));
    let key = text("key");
    let map = Rc::new(dict(vec![(key.clone(), inner.clone())]));
    let value = Value::Record(vec![], vec![map.clone()]);
    let schema = record(
        "Outer",
        vec![],
        vec![("m", dict_of(Schema::Str, list_of(Schema::Str)))],
    );
    let mut store = HashIOFile::new("c".to_string());
    store.put(&schema, &value).unwrap();
    for part in vec![&value, &*map, &*key, &*inner, &*leaf] {
        assert!(store.contains(&store.filename_for_hash(&part.as_hash())));
    }
    assert_eq!(store.entries().len(), 6);
    assert!(store.entries().iter().all(|f| !f.name.ends_with('_')));
}

#[test]
fn children_are_stored_before_their_parent() {
    let schema = record("R", vec![], vec![("a", Schema::Str), ("b", list_of(Schema::Str))]);
    let a = text("first");
    let item = text("item");
    let b = Rc::new(Value::List(vec![item.clone()]));
    let value = Value::Record(vec![], vec![a.clone(), b.clone()]);
    let mut store = HashIOFile::new("o".to_string());
    store.put(&schema, &value).unwrap();
    let names: Vec<String> = store.entries().iter().map(|f| f.name.clone()).collect();
    let expected: Vec<String> = vec![&*a, &*item, &*b, &value]
        .into_iter()
        .map(|v| store.filename_for_hash(&v.as_hash()))
        .collect();
    assert_eq!(names, expected);
}

#[test]
fn store_childs_stores_the_children_only() {
    let schema = list_of(Schema::Str);
    let value = Value::List(vec![text("a"), text("b")]);
    let mut store = HashIOFile::new("c".to_string());
    schema.store_childs(&value, &mut store).unwrap();
    assert_eq!(store.entries().len(), 2);
    assert!(!store.contains(&store.filename_for_hash(&value.as_hash())));
    assert!(store.contains(&store.filename_for_hash(&text("a").as_hash())));
}

#[test]
fn a_blob_left_under_its_temporary_name_is_not_seen() {
    let schema = record("R", vec![PrimType::U8], vec![]);
    let value = Value::Record(vec![PrimValue::U8(7)], vec![]);
    let mut store = HashIOFile::new("crash".to_string());
    let name = store.filename_for_hash(&value.as_hash());
    let mut blob = Vec::new();
    schema.write_blob(&value, &mut blob).unwrap();
    blob.truncate(10);
    store.create_file(format!("{}_", name), blob);
    assert!(!store.contains(&name));
    assert_eq!(
        store.get(&schema, &value.as_hash()),
        Err(HashIOError::IOError(IoFault::NotFound))
    );
    store.put(&schema, &value).unwrap();
    assert_eq!(&*store.get(&schema, &value.as_hash()).unwrap(), &value);
    assert!(!store.contains(&format!("{}_", name)));
    assert_eq!(store.entries().len(), 1);
}

#[test]
fn files_can_be_created_replaced_renamed_and_removed() {
    let mut store = HashIOFile::new("f".to_string());
    store.create_file("a".to_string(), vec![1]);
    store.create_file("b".to_string(), vec![2]);
    store.create_file("a".to_string(), vec![3]);
    assert_eq!(store.read("a").unwrap(), &vec![3]);
    assert_eq!(store.read("b").unwrap(), &vec![2]);
    assert_eq!(store.read("c"), Err(HashIOError::IOError(IoFault::NotFound)));
    store.rename("a", "b".to_string()).unwrap();
    assert!(!store.contains("a"));
    assert_eq!(store.read("b").unwrap(), &vec![3]);
    assert_eq!(
        store.rename("a", "c".to_string()),
        Err(HashIOError::IOError(IoFault::NotFound))
    );
    store.remove_file("b");
    assert!(!store.contains("b"));
    assert!(store.entries().is_empty());
}

#[test]
fn a_map_is_read_into_ascending_keys_with_the_last_value_of_a_key() {
    let mut store = HashIOFile::new("m".to_string());
    for s in ["a", "b", "1", "2", "3"] {
        store.put(&Schema::Str, &Value::Str(s.to_string())).unwrap();
    }
    let h = |s: &str| Value::Str(s.to_string()).as_hash().get_bytes();
    let mut blob = vec![0u8, 0, 0, 0, 0, 0, 0, 3];
    for (k, v) in [("b", "1"), ("a", "2"), ("b", "3")] {
        blob.extend_from_slice(&h(k));
        blob.extend_from_slice(&h(v));
    }
    let fake = Hash32::hash_bytes(&blob);
    store.create_file(store.filename_for_hash(&fake), blob);
    let schema = dict_of(Schema::Str, Schema::Str);
    let back = store.get(&schema, &fake).unwrap();
    assert_eq!(&*back, &dict(vec![(text("a"), text("2")), (text("b"), text("3"))]));
}

#[test]
fn fetch_reads_a_hash_and_looks_it_up() {
    let mut store = HashIOFile::new("f".to_string());
    let value = Value::Str("found".to_string());
    store.put(&Schema::Str, &value).unwrap();
    let mut bytes = value.as_hash().get_bytes().to_vec();
    bytes.push(9);
    let mut reader = hashio::io::ByteReader::new(&bytes);
    assert_eq!(&*store.fetch(&Schema::Str, &mut reader).unwrap(), &value);
    assert_eq!(reader.read_u8().unwrap(), 9);
    assert_eq!(
        store.fetch(&Schema::Str, &mut reader),
        Err(HashIOError::IOError(IoFault::UnexpectedEof))
    );
}

#[test]
fn a_blob_that_is_there_is_not_written_again_for_another_type() {
    let list = list_of(Schema::Str);
    let number = record("Number", vec![PrimType::U64], vec![]);
    let empty = Value::List(vec![]);
    let zero = Value::Record(vec![PrimValue::U64(0)], vec![]);
    assert_eq!(empty.as_hash(), zero.as_hash());
    let mut store = HashIOFile::new("s".to_string());
    store.put(&list, &empty).unwrap();
    store.put(&number, &zero).unwrap();
    assert_eq!(store.entries().len(), 1);
    assert_eq!(&*store.get(&list, &empty.as_hash()).unwrap(), &empty);
    assert_eq!(store.get(&number, &zero.as_hash()), Err(HashIOError::VersionError(0)));
}

#[test]
fn a_value_that_is_there_is_not_looked_into() {
    let schema = list_of(Schema::Str);
    let value = Value::List(vec![text("child")]);
    let mut store = HashIOFile::new("s".to_string());
    store.create_file(store.filename_for_hash(&value.as_hash()), value.payload().unwrap());
    store.put(&schema, &value).unwrap();
    assert_eq!(store.entries().len(), 1);
    assert!(!store.contains(&store.filename_for_hash(&text("child").as_hash())));
    assert_eq!(
        store.get(&schema, &value.as_hash()),
        Err(HashIOError::IOError(IoFault::NotFound))
    );
}

#[test]
fn the_directory_of_each_written_blob_is_created() {
    let schema = list_of(Schema::Str);
    let value = Value::List(vec![text("a"), text("b"), text("a")]);
    let mut store = HashIOFile::new("dirs".to_string());
    assert!(store.directories().is_empty());
    store.put(&schema, &value).unwrap();
    let mut expected: Vec<String> = Vec::new();
    for part in vec![&*text("a"), &*text("b"), &value] {
        let dir = store.directory_for_hash(&part.as_hash());
        assert!(store.has_directory(&dir));
        if !expected.contains(&dir) {
            expected.push(dir);
        }
    }
    assert_eq!(store.directories(), &expected);
    assert!(!store.has_directory("dirs/zz/"));
    let before = store.clone();
    store.put(&schema, &value).unwrap();
    assert_eq!(store, before);
    store.create_dir_all("dirs/zz/".to_string());
    store.create_dir_all("dirs/zz/".to_string());
    assert!(store.has_directory("dirs/zz/"));
    assert_eq!(store.directories().len(), expected.len() + 1);
    for file in store.entries() {
        assert!(store.has_directory(&file.name[..file.name.len() - 62]));
    }
}
