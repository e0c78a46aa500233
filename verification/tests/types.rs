use hashio::hash::Hash32;
use hashio::hashio::{HashIOParse, HashIOType, Typeable};
use hashio::hashio_model::{
    version_valid, ChildField, ChildSource, Conversion, Dispatch, PrimField, PrimSource, PrimType,
    PrimValue, RecordSchema, Schema,
};
use hashio::hashiotype::Object;
use hashio::keytext::key_text;
use std::collections::BTreeMap;
use hashio::btreemap::{ascending, dict_get, dict_insert, order, Order};
use hashio::value::{MapEntry, Value};
use std::rc::Rc;

fn text(s: &str) -> Rc<Value> {
    Rc::new(Value::Str(s.to_string()))
}

fn record(name: &str, prims: Vec<PrimType>, children: Vec<(&str, Schema)>) -> Rc<RecordSchema> {
    Rc::new(RecordSchema {
        name: name.to_string(),
        prims: prims
            .into_iter()
            .enumerate()
            .map(|(i, k)| PrimField { name: format!("p{}", i), kind: k })
            .collect(),
        children: children
            .into_iter()
            .map(|(n, s)| ChildField { name: n.to_string(), schema: s })
            .collect(),
        fallbacks: vec![],
        plain_fallback: None,
    })
}

#[test]
fn names_of_types() {
    assert_eq!(Schema::Str.name(), "String");
    assert_eq!(Schema::List(Rc::new(Schema::Str)).name(), "Vec<String>");
    assert_eq!(
        Schema::Dict(Rc::new(Schema::Str), Rc::new(Schema::List(Rc::new(Schema::Str)))).name(),
        "BTreeMap<String,Vec<String>>"
    );
    let task = Schema::Record(record("Task", vec![PrimType::F32], vec![("title", Schema::Str)]));
    assert_eq!(task.name(), "Task");
    assert_eq!(Schema::List(Rc::new(task)).name(), "Vec<Task>");
    assert_eq!(PrimType::I64.name(), "i64");
    assert_eq!(PrimType::F32.tag_str(), "f32");
}

#[test]
fn type_hashes_are_the_digests_the_rules_give() {
    assert_eq!(
        Schema::Str.type_hash().as_string(),
        "b2ef230e7f4f315a28cdcc863028da31f7110f3209feb76e76fed0f37b3d8580"
    );
    assert_eq!(
        Schema::List(Rc::new(Schema::Str)).type_hash().as_string(),
        "3ee3d96d9910173c695b8833cd9b59368048748ed6ec8fd6d7d714d622da042e"
    );
    assert_eq!(
        Schema::Dict(Rc::new(Schema::Str), Rc::new(Schema::Str)).type_hash().as_string(),
        "a4cf52f095a96d9a6e2ca5d96c1cbe85849ecace0db1882e2c574ff10b93acf5"
    );
    assert_eq!(
        PrimType::U32.type_hash().as_string(),
        "d7649d428b9ff33d188ecbf38a7e4d8fd167fa01b2e10fe9a8f9308e52f1d7cc"
    );
    let test_type = record("TestType", vec![PrimType::U32], vec![("a", Schema::Str)]);
    assert_eq!(
        test_type.type_hash().as_string(),
        "7ecdc762a1e5b7174f09fd9090962e229b59c6a783cada8c14e2e191ef96b046"
    );
    assert_eq!(Schema::Record(test_type.clone()).type_hash(), test_type.type_hash());
    assert_eq!(test_type.try_type_hash().unwrap(), test_type.type_hash());
}

#[test]
fn field_names_do_not_enter_the_type_hash_and_order_does() {
    let a = record("A", vec![PrimType::U32, PrimType::U8], vec![("x", Schema::Str)]);
    let b = record("B", vec![PrimType::U32, PrimType::U8], vec![("y", Schema::Str)]);
    let c = record("C", vec![PrimType::U8, PrimType::U32], vec![("x", Schema::Str)]);
    assert_eq!(a.type_hash(), b.type_hash());
    assert_ne!(a.type_hash(), c.type_hash());
}

#[test]
fn distinct_shapes_have_distinct_type_hashes() {
    let task1 = record("Task1", vec![PrimType::F32], vec![("title", Schema::Str)]);
    let task = record(
        "Task",
        vec![PrimType::F32],
        vec![("title", Schema::Str), ("category", Schema::Str)],
    );
    let corpus: Vec<Schema> = vec![
        Schema::Str,
        Schema::List(Rc::new(Schema::Str)),
        Schema::Dict(Rc::new(Schema::Str), Rc::new(Schema::Str)),
        Schema::Record(record("TestTypeOld", vec![], vec![("b", Schema::Str)])),
        Schema::Record(record("TestType", vec![PrimType::U32], vec![("b", Schema::Str)])),
        Schema::Record(record("Two", vec![PrimType::U32, PrimType::U32], vec![("a", Schema::Str)])),
        Schema::Record(task1.clone()),
        Schema::Record(task.clone()),
        Schema::Record(record(
            "TaskStrage1",
            vec![],
            vec![("tasks", Schema::List(Rc::new(Schema::Record(task1))))],
        )),
        Schema::Record(record(
            "TaskStrage",
            vec![],
            vec![("tasks", Schema::List(Rc::new(Schema::Record(task))))],
        )),
        Schema::Record(record(
            "WithVec",
            vec![],
            vec![("a", Schema::List(Rc::new(Schema::Str)))],
        )),
        Schema::Record(record(
            "WithMap",
            vec![],
            vec![("a", Schema::Dict(Rc::new(Schema::Str), Rc::new(Schema::Str)))],
        )),
    ];
    let hashes: Vec<Hash32> = corpus.iter().map(|s| s.type_hash()).collect();
    for i in 0..hashes.len() {
        for j in 0..i {
            assert_ne!(hashes[i], hashes[j], "{} and {}", corpus[i].name(), corpus[j].name());
        }
    }
}

#[test]
fn only_records_have_an_envelope() {
    assert!(Schema::Str.unsafe_loader());
    assert!(Schema::List(Rc::new(Schema::Str)).unsafe_loader());
    assert!(Schema::Dict(Rc::new(Schema::Str), Rc::new(Schema::Str)).unsafe_loader());
    assert!(!Schema::Record(record("R", vec![], vec![])).unsafe_loader());
}

#[test]
fn only_version_one_is_valid() {
    assert!(version_valid(1));
    assert!(!version_valid(0));
    assert!(!version_valid(2));
    assert!(Schema::Str.version_valid(1));
    assert!(!Schema::Str.version_valid(7));
}

#[test]
fn a_record_recognises_its_own_hash_and_those_of_its_older_shapes() {
    let old = record("Old", vec![], vec![("b", Schema::Str)]);
    let older = record("Older", vec![PrimType::U8], vec![]);
    let lift = |from: &Rc<RecordSchema>| Conversion {
        older: from.clone(),
        prims: vec![PrimSource::Const(PrimValue::U32(0))],
        children: vec![ChildSource::Const(text(""))],
    };
    let newer = Rc::new(RecordSchema {
        name: "New".to_string(),
        prims: vec![PrimField { name: "a".to_string(), kind: PrimType::U32 }],
        children: vec![ChildField { name: "b".to_string(), schema: Schema::Str }],
        fallbacks: vec![lift(&old), lift(&older)],
        plain_fallback: None,
    });
    assert_eq!(newer.dispatch(&newer.type_hash()).unwrap(), Dispatch::Current);
    assert_eq!(newer.dispatch(&old.type_hash()).unwrap(), Dispatch::Older(0));
    assert_eq!(newer.dispatch(&older.type_hash()).unwrap(), Dispatch::Older(1));
    assert_eq!(newer.dispatch(&Hash32::none()).unwrap(), Dispatch::Unknown);
    assert!(newer.try_type_hash_valid(&old.type_hash()).unwrap());
    assert!(!newer.try_type_hash_valid(&Schema::Str.type_hash()).unwrap());
    let schema = Schema::Record(newer.clone());
    assert!(schema.type_hash_valid(&newer.type_hash()).unwrap());
    assert!(!schema.type_hash_valid(&Hash32::none()).unwrap());
    assert!(!Schema::Str.type_hash_valid(&Schema::Str.type_hash()).unwrap());
    assert!(!old.try_type_hash_valid(&newer.type_hash()).unwrap());
}

#[test]
fn a_conversion_takes_each_field_from_where_it_says() {
    let old = record("Old", vec![PrimType::U8, PrimType::U16], vec![("a", Schema::Str)]);
    let conv = Conversion {
        older: old,
        prims: vec![PrimSource::Old(1), PrimSource::Const(PrimValue::I32(-1)), PrimSource::Old(0)],
        children: vec![ChildSource::Const(text("new")), ChildSource::Keep(0)],
    };
    let value = Value::Record(vec![PrimValue::U8(1), PrimValue::U16(2)], vec![text("kept")]);
    assert_eq!(
        conv.apply(&value).unwrap(),
        Value::Record(
            vec![PrimValue::U16(2), PrimValue::I32(-1), PrimValue::U8(1)],
            vec![text("new"), text("kept")]
        )
    );
}

#[test]
fn a_conversion_lifts_records_within() {
    let inner_old = record("InnerOld", vec![PrimType::U8], vec![]);
    let inner = Rc::new(Conversion {
        older: inner_old.clone(),
        prims: vec![PrimSource::Old(0), PrimSource::Const(PrimValue::U8(9))],
        children: vec![],
    });
    let outer_old = record(
        "OuterOld",
        vec![],
        vec![
            ("one", Schema::Record(inner_old.clone())),
            ("many", Schema::List(Rc::new(Schema::Record(inner_old)))),
        ],
    );
    let outer = Conversion {
        older: outer_old,
        prims: vec![],
        children: vec![ChildSource::Lift(0, inner.clone()), ChildSource::LiftEach(1, inner)],
    };
    let item = |n: u8| Rc::new(Value::Record(vec![PrimValue::U8(n)], vec![]));
    let lifted = |n: u8| Rc::new(Value::Record(vec![PrimValue::U8(n), PrimValue::U8(9)], vec![]));
    let value = Value::Record(vec![], vec![item(1), Rc::new(Value::List(vec![item(2), item(3)]))]);
    assert_eq!(
        outer.apply(&value).unwrap(),
        Value::Record(vec![], vec![lifted(1), Rc::new(Value::List(vec![lifted(2), lifted(3)]))])
    );
}

#[test]
fn a_conversion_that_does_not_fit_is_refused() {
    let old = record("Old", vec![PrimType::U8], vec![]);
    let expected = "conversion does not fit the older record";
    let failing = vec![
        Conversion { older: old.clone(), prims: vec![PrimSource::Old(1)], children: vec![] },
        Conversion { older: old.clone(), prims: vec![], children: vec![ChildSource::Keep(0)] },
    ];
    let value = Value::Record(vec![PrimValue::U8(1)], vec![]);
    for conv in failing {
        match conv.apply(&value) {
            Err(hashio::hashio::HashIOError::Undefined(msg)) => assert_eq!(msg, expected),
            other => panic!("not refused: {:?}", other),
        }
    }
    let fine = Conversion { older: old, prims: vec![PrimSource::Old(0)], children: vec![] };
    assert!(fine.apply(&Value::Str("x".to_string())).is_err());
    let each = Conversion {
        older: fine.older.clone(),
        prims: vec![],
        children: vec![ChildSource::LiftEach(0, Rc::new(fine))],
    };
    assert!(each.apply(&Value::Record(vec![], vec![text("not a sequence")])).is_err());
}

#[test]
fn keys_order_as_strings_do() {
    let s = |x: &str| Value::Str(x.to_string());
    assert_eq!(order(&s("a"), &s("b")), Order::Less);
    assert_eq!(order(&s("b"), &s("a")), Order::Greater);
    assert_eq!(order(&s("a"), &s("a")), Order::Equal);
    assert_eq!(order(&s("a"), &s("ab")), Order::Less);
    assert_eq!(order(&s("10"), &s("9")), Order::Less);
    assert_eq!(order(&s("Z"), &s("a")), Order::Less);
    assert_eq!(order(&s("z"), &s("ä")), Order::Less);
    assert_eq!(order(&s(""), &s("")), Order::Equal);
}

#[test]
fn keys_of_other_kinds_order_by_their_first_difference() {
    let list = |items: Vec<&str>| Value::List(items.into_iter().map(text).collect());
    assert_eq!(order(&list(vec!["a", "b"]), &list(vec!["a", "c"])), Order::Less);
    assert_eq!(order(&list(vec!["a"]), &list(vec!["a", "a"])), Order::Less);
    assert_eq!(order(&list(vec!["b"]), &list(vec!["a", "a"])), Order::Greater);
    assert_eq!(order(&list(vec![]), &list(vec![])), Order::Equal);
    assert_eq!(order(&Value::Str("z".into()), &list(vec![])), Order::Less);
    let rec = |n: u32, c: &str| Value::Record(vec![PrimValue::U32(n)], vec![text(c)]);
    assert_eq!(order(&rec(1, "z"), &rec(2, "a")), Order::Less);
    assert_eq!(order(&rec(2, "a"), &rec(2, "b")), Order::Less);
    assert_eq!(order(&rec(2, "b"), &rec(2, "b")), Order::Equal);
    assert_eq!(order(&list(vec![]), &rec(0, "")), Order::Less);
    assert_eq!(
        order(
            &Value::Record(vec![PrimValue::U8(255)], vec![]),
            &Value::Record(vec![PrimValue::U16(0)], vec![])
        ),
        Order::Less
    );
    let mut small: Vec<MapEntry> = Vec::new();
    dict_insert(&mut small, text("k"), text("1"));
    let mut large: Vec<MapEntry> = Vec::new();
    dict_insert(&mut large, text("k"), text("2"));
    assert_eq!(order(&Value::Dict(small.clone()), &Value::Dict(large)), Order::Less);
    assert_eq!(order(&Value::Dict(small.clone()), &Value::Dict(small)), Order::Equal);
}

#[test]
fn inserting_keeps_keys_ascending_and_replaces_a_known_key() {
    let mut entries: Vec<MapEntry> = Vec::new();
    dict_insert(&mut entries, text("b"), text("2"));
    dict_insert(&mut entries, text("c"), text("3"));
    dict_insert(&mut entries, text("a"), text("1"));
    dict_insert(&mut entries, text("b"), text("two"));
    let keys: Vec<Rc<Value>> = entries.iter().map(|e| e.key.clone()).collect();
    let values: Vec<Rc<Value>> = entries.iter().map(|e| e.value.clone()).collect();
    assert_eq!(keys, vec![text("a"), text("b"), text("c")]);
    assert_eq!(values, vec![text("1"), text("two"), text("3")]);
    assert!(ascending(&entries));
    entries.swap(0, 2);
    assert!(!ascending(&entries));
    assert!(ascending(&Vec::new()));
}

#[test]
fn a_key_has_the_value_it_was_given_last() {
    let mut entries: Vec<MapEntry> = Vec::new();
    assert_eq!(dict_get(&entries, &text("a")), None);
    dict_insert(&mut entries, text("b"), text("2"));
    dict_insert(&mut entries, text("a"), text("1"));
    dict_insert(&mut entries, text("b"), text("3"));
    assert_eq!(dict_get(&entries, &text("a")), Some(&text("1")));
    assert_eq!(dict_get(&entries, &text("b")), Some(&text("3")));
    assert_eq!(dict_get(&entries, &text("c")), None);
    assert_eq!(dict_get(&entries, &text("")), None);
}

#[test]
fn a_record_is_declared_field_by_field() {
    let old = record("Old", vec![], vec![]);
    let conv = Conversion { older: old, prims: vec![], children: vec![] };
    let mut built = RecordSchema::new("Built".to_string());
    built.add_prim("p0".to_string(), PrimType::U32);
    built.add_prim("p1".to_string(), PrimType::F64);
    built.add_child("a".to_string(), Schema::Str);
    built.add_fallback(conv.clone());
    built.set_plain_fallback(conv.clone());
    let mut expected = (*record(
        "Built",
        vec![PrimType::U32, PrimType::F64],
        vec![("a", Schema::Str)],
    ))
    .clone();
    expected.fallbacks = vec![conv.clone()];
    expected.plain_fallback = Some(conv);
    assert_eq!(built, expected);
}

#[test]
fn children_of_a_record_are_named_by_its_fields() {
    let schema = Schema::Record(record(
        "R",
        vec![PrimType::U8],
        vec![("zeta", Schema::Str), ("alpha", Schema::List(Rc::new(Schema::Str)))],
    ));
    let object = Object {
        schema,
        value: Rc::new(Value::Record(
            vec![PrimValue::U8(1)],
            vec![text("z"), Rc::new(Value::List(vec![]))],
        )),
    };
    let childs = object.childs();
    let names: Vec<&str> = childs.iter().map(|c| c.name.as_str()).collect();
    assert_eq!(names, vec!["alpha", "zeta"]);
    assert_eq!(childs[0].object.type_name_obj(), "Vec<String>");
    assert_eq!(childs[1].object.value, text("z"));
    assert_eq!(childs[1].object.type_hash_obj(), Schema::Str.type_hash());
    assert!(childs[1].object.childs().is_empty());
}

#[test]
fn children_of_a_sequence_are_named_by_their_position() {
    let items: Vec<Rc<Value>> = (0..11).map(|i| text(&format!("item{}", i))).collect();
    let object = Object {
        schema: Schema::List(Rc::new(Schema::Str)),
        value: Rc::new(Value::List(items)),
    };
    let childs = object.childs();
    let names: Vec<&str> = childs.iter().map(|c| c.name.as_str()).collect();
    assert_eq!(names, vec!["0", "1", "10", "2", "3", "4", "5", "6", "7", "8", "9"]);
    assert_eq!(childs[2].object.value, text("item10"));
}

#[test]
fn children_of_a_map_are_its_values_named_by_their_keys() {
    let mut entries: Vec<MapEntry> = Vec::new();
    dict_insert(&mut entries, text("b"), text("2"));
    dict_insert(&mut entries, text("a\"q"), text("1"));
    let object = Object {
        schema: Schema::Dict(Rc::new(Schema::Str), Rc::new(Schema::Str)),
        value: Rc::new(Value::Dict(entries)),
    };
    let childs = object.childs();
    let names: Vec<&str> = childs.iter().map(|c| c.name.as_str()).collect();
    assert_eq!(names, vec!["\"a\\\"q\"", "\"b\""]);
    assert_eq!(childs[0].object.value, text("1"));
    assert_eq!(childs[1].object.value, text("2"));
}

#[test]
fn a_string_has_no_children() {
    let object = Object { schema: Schema::Str, value: text("x") };
    assert!(object.childs().is_empty());
    let odd = Object { schema: Schema::Str, value: Rc::new(Value::List(vec![text("x")])) };
    assert!(odd.childs().is_empty());
}

#[test]
fn a_shared_type_is_the_same_type() {
    let schema = Schema::Dict(
        Rc::new(Schema::Str),
        Rc::new(Schema::Record(record("R", vec![PrimType::U8], vec![("a", Schema::Str)]))),
    );
    assert_eq!(schema.share(), schema);
}

fn shared(s: &str) -> Rc<String> {
    Rc::new(s.to_string())
}

#[derive(Debug)]
struct Pair {
    x: u32,
    n: i64,
    a: Rc<String>,
    l: Rc<Vec<Rc<String>>>,
}

#[derive(Debug)]
struct Nothing {}

#[test]
fn a_key_reads_as_debug_renders_it() {
    let strings = Schema::List(Rc::new(Schema::Str));
    assert_eq!(key_text(&Schema::Str, &Value::Str("a\"b\n".to_string())), format!("{:?}", "a\"b\n"));
    assert_eq!(
        key_text(&strings, &Value::List(vec![text("a"), text("b c")])),
        format!("{:?}", vec![shared("a"), shared("b c")])
    );
    assert_eq!(key_text(&strings, &Value::List(vec![text("one")])), "[\"one\"]");
    assert_eq!(key_text(&strings, &Value::List(vec![])), format!("{:?}", Vec::<Rc<String>>::new()));
    let nested = Schema::List(Rc::new(strings.clone()));
    assert_eq!(
        key_text(
            &nested,
            &Value::List(vec![
                Rc::new(Value::List(vec![text("x")])),
                Rc::new(Value::List(vec![]))
            ])
        ),
        format!("{:?}", vec![Rc::new(vec![shared("x")]), Rc::new(vec![])])
    );
}

#[test]
fn a_map_reads_as_debug_renders_it() {
    let schema = Schema::Dict(Rc::new(Schema::Str), Rc::new(Schema::List(Rc::new(Schema::Str))));
    let mut entries: Vec<MapEntry> = Vec::new();
    dict_insert(&mut entries, text("b"), Rc::new(Value::List(vec![])));
    dict_insert(&mut entries, text("a"), Rc::new(Value::List(vec![text("1"), text("2")])));
    let mut native: BTreeMap<Rc<String>, Rc<Vec<Rc<String>>>> = BTreeMap::new();
    native.insert(shared("b"), Rc::new(vec![]));
    native.insert(shared("a"), Rc::new(vec![shared("1"), shared("2")]));
    assert_eq!(key_text(&schema, &Value::Dict(entries)), format!("{:?}", native));
    assert_eq!(
        key_text(&schema, &Value::Dict(vec![])),
        format!("{:?}", BTreeMap::<Rc<String>, Rc<String>>::new())
    );
}

#[test]
fn a_record_reads_as_debug_renders_it() {
    let schema = Schema::Record(Rc::new(RecordSchema {
        name: "Pair".to_string(),
        prims: vec![
            PrimField { name: "x".to_string(), kind: PrimType::U32 },
            PrimField { name: "n".to_string(), kind: PrimType::I64 },
        ],
        children: vec![
            ChildField { name: "a".to_string(), schema: Schema::Str },
            ChildField { name: "l".to_string(), schema: Schema::List(Rc::new(Schema::Str)) },
        ],
        fallbacks: vec![],
        plain_fallback: None,
    }));
    let value = Value::Record(
        vec![PrimValue::U32(7), PrimValue::I64(-12)],
        vec![text("s"), Rc::new(Value::List(vec![text("t")]))],
    );
    let native = Pair { x: 7, n: -12, a: shared("s"), l: Rc::new(vec![shared("t")]) };
    assert_eq!(key_text(&schema, &value), format!("{:?}", native));
    assert_eq!(key_text(&schema, &value), "Pair { x: 7, n: -12, a: \"s\", l: [\"t\"] }");
    let nothing = Schema::Record(record("Nothing", vec![], vec![]));
    assert_eq!(key_text(&nothing, &Value::Record(vec![], vec![])), format!("{:?}", Nothing {}));
    let lowest = Schema::Record(record("P", vec![PrimType::I64, PrimType::I32], vec![]));
    assert_eq!(
        key_text(&lowest, &Value::Record(vec![PrimValue::I64(i64::MIN), PrimValue::I32(-1)], vec![])),
        "P { p0: -9223372036854775808, p1: -1 }"
    );
}

#[test]
fn a_float_in_a_key_reads_as_its_bit_pattern() {
    let schema = Schema::Record(record("F", vec![PrimType::F32], vec![]));
    assert_eq!(
        key_text(&schema, &Value::Record(vec![PrimValue::F32(1.0f32.to_bits())], vec![])),
        "F { p0: 1065353216 }"
    );
}

#[test]
fn children_of_a_map_are_named_by_keys_of_every_kind() {
    let key_type = Schema::List(Rc::new(Schema::Str));
    let mut entries: Vec<MapEntry> = Vec::new();
    dict_insert(&mut entries, Rc::new(Value::List(vec![text("k"), text("2")])), text("two"));
    dict_insert(&mut entries, Rc::new(Value::List(vec![])), text("none"));
    dict_insert(&mut entries, Rc::new(Value::List(vec![text("k")])), text("one"));
    let object = Object {
        schema: Schema::Dict(Rc::new(key_type), Rc::new(Schema::Str)),
        value: Rc::new(Value::Dict(entries)),
    };
    let childs = object.childs();
    let names: Vec<&str> = childs.iter().map(|c| c.name.as_str()).collect();
    assert_eq!(names, vec!["[\"k\", \"2\"]", "[\"k\"]", "[]"]);
    assert_eq!(childs[0].object.value, text("two"));
    assert_eq!(childs[1].object.value, text("one"));
    assert_eq!(childs[2].object.value, text("none"));
    for child in &childs {
        assert_eq!(child.object.type_hash_obj(), Schema::Str.type_hash());
    }
    let mut native: BTreeMap<String, Rc<String>> = BTreeMap::new();
    native.insert(format!("{:?}", vec![shared("k"), shared("2")]), shared("two"));
    native.insert(format!("{:?}", Vec::<Rc<String>>::new()), shared("none"));
    native.insert(format!("{:?}", vec![shared("k")]), shared("one"));
    let expected: Vec<&str> = native.keys().map(|k| k.as_str()).collect();
    assert_eq!(names, expected);
}
