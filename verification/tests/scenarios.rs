use hashio::btreemap::{dict_get, dict_insert};
use hashio::hashio::{HashIO, HashIOType};
use hashio::hashio_model::{
    ChildField, ChildSource, Conversion, PrimField, PrimSource, PrimType, PrimValue, RecordSchema,
    Schema,
};
use hashio::hashiofile::HashIOFile;
use hashio::hashiotype::Object;
use hashio::value::{MapEntry, Value};
use std::rc::Rc;

fn text(s: &str) -> Rc<Value> {
    Rc::new(Value::Str(s.to_string()))
}

fn record(
    name: &str,
    prims: Vec<(&str, PrimType)>,
    children: Vec<(&str, Schema)>,
    fallbacks: Vec<Conversion>,
    plain_fallback: Option<Conversion>,
) -> Rc<RecordSchema> {
    Rc::new(RecordSchema {
        name: name.to_string(),
        prims: prims
            .into_iter()
            .map(|(n, k)| PrimField { name: n.to_string(), kind: k })
            .collect(),
        children: children
            .into_iter()
            .map(|(n, s)| ChildField { name: n.to_string(), schema: s })
            .collect(),
        fallbacks,
        plain_fallback,
    })
}

fn empty_store(path: &str) -> HashIOFile {
    HashIOFile::new(path.to_string())
}

#[test]
fn it_works() {}

#[test]
fn hashio_model_test() {
    let old = record("TestTypeOld", vec![], vec![("a", Schema::Str)], vec![], None);
    let lift = Conversion {
        older: old.clone(),
        prims: vec![PrimSource::Const(PrimValue::U32(0))],
        children: vec![ChildSource::Keep(0)],
    };
    let legacy = record("TestType", vec![("x", PrimType::U32)], vec![], vec![], None);
    let plain = Conversion {
        older: legacy,
        prims: vec![PrimSource::Old(0)],
        children: vec![ChildSource::Const(text(""))],
    };
    let schema = Schema::Record(record(
        "TestType",
        vec![("x", PrimType::U32)],
        vec![("a", Schema::Str)],
        vec![lift],
        Some(plain),
    ));
    let test_obj = Object {
        schema: schema.clone(),
        value: Rc::new(Value::Record(vec![PrimValue::U32(1)], vec![text("abc")])),
    };
    assert_eq!(
        hashio::hashio::Typeable::type_hash(&schema).as_string(),
        test_obj.type_hash_obj().as_string()
    );
    assert_eq!("TestType".to_string(), hashio::hashio::Typeable::name(&schema));
    assert_eq!("TestType".to_string(), test_obj.type_name_obj());
}

#[test]
#[allow(non_snake_case)]
fn testIO() {
    let old = record("TestTypeOld", vec![], vec![("b", Schema::Str)], vec![], None);
    let lift = Conversion {
        older: old.clone(),
        prims: vec![PrimSource::Const(PrimValue::U32(0))],
        children: vec![ChildSource::Keep(0)],
    };
    let test_type_old = Schema::Record(old);
    let test_type = Schema::Record(record(
        "TestType",
        vec![("a", PrimType::U32)],
        vec![("b", Schema::Str)],
        vec![lift],
        None,
    ));
    let hash1;
    let hash2;
    let mut hash_io = empty_store("unittest/hashiofile");
    {
        let t1 = Value::Record(vec![PrimValue::U32(42)], vec![text("Hello World")]);
        let t2 = Value::Record(vec![], vec![text("Foo")]);
        hash1 = t1.as_hash();
        hash2 = t2.as_hash();
        hash_io.put(&test_type, &t1).unwrap();
        hash_io.put(&test_type_old, &t2).unwrap();
    }
    {
        let mut reopened = empty_store("unittest/hashiofile");
        for file in hash_io.entries() {
            reopened.create_file(file.name.clone(), file.content.clone());
        }
        let hash_io = reopened;
        let t1 = hash_io.get(&test_type, &hash1).unwrap();
        match &*t1 {
            Value::Record(prims, children) => {
                assert_eq!(PrimValue::U32(42), prims[0]);
                assert_eq!(text("Hello World"), children[0]);
            }
            other => panic!("not a record: {:?}", other),
        }
        let t2 = hash_io.get(&test_type, &hash2).unwrap();
        match &*t2 {
            Value::Record(prims, children) => {
                assert_eq!(PrimValue::U32(0), prims[0]);
                assert_eq!(text("Foo"), children[0]);
            }
            other => panic!("not a record: {:?}", other),
        }
        let t2 = hash_io.get(&test_type_old, &hash2).unwrap();
        match &*t2 {
            Value::Record(_, children) => assert_eq!(text("Foo"), children[0]),
            other => panic!("not a record: {:?}", other),
        }
    }
}

#[test]
fn vec_test() {
    let schema = Schema::Record(record(
        "TestType",
        vec![],
        vec![("a", Schema::List(Rc::new(Schema::Str)))],
        vec![],
        None,
    ));
    let mut hash_io = empty_store("unittest/vectest");
    let my_vec = vec![text("a"), text("b"), text("c")];
    let my_obj = Value::Record(vec![], vec![Rc::new(Value::List(my_vec))]);
    let my_hash = my_obj.as_hash();
    hash_io.put(&schema, &my_obj).unwrap();

    let my_obj = hash_io.get(&schema, &my_hash).unwrap();
    let my_vec = match &*my_obj {
        Value::Record(_, children) => match &*children[0] {
            Value::List(items) => items.clone(),
            other => panic!("not a sequence: {:?}", other),
        },
        other => panic!("not a record: {:?}", other),
    };
    assert_eq!(text("a"), my_vec[0]);
    assert_eq!(text("b"), my_vec[1]);
    assert_eq!(text("c"), my_vec[2]);
}

#[test]
fn btreemap_test() {
    let schema = Schema::Record(record(
        "TestType",
        vec![],
        vec![("a", Schema::Dict(Rc::new(Schema::Str), Rc::new(Schema::Str)))],
        vec![],
        None,
    ));
    let mut hash_io = empty_store("unittest/btreemaptest");
    let mut btreemap: Vec<MapEntry> = Vec::new();
    dict_insert(&mut btreemap, text("a"), text("1"));
    dict_insert(&mut btreemap, text("b"), text("2"));
    dict_insert(&mut btreemap, text("c"), text("3"));

    let my_obj = Value::Record(vec![], vec![Rc::new(Value::Dict(btreemap))]);
    let my_hash = my_obj.as_hash();
    hash_io.put(&schema, &my_obj).unwrap();

    let my_obj = hash_io.get(&schema, &my_hash).unwrap();
    let my_btree = match &*my_obj {
        Value::Record(_, children) => match &*children[0] {
            Value::Dict(entries) => entries.clone(),
            other => panic!("not a map: {:?}", other),
        },
        other => panic!("not a record: {:?}", other),
    };
    assert_eq!(&text("1"), dict_get(&my_btree, &text("a")).unwrap());
    assert_eq!(&text("2"), dict_get(&my_btree, &text("b")).unwrap());
    assert_eq!(&text("3"), dict_get(&my_btree, &text("c")).unwrap());
}

#[test]
fn overalltest_test() {
    let task1 = record(
        "Task1",
        vec![("factor", PrimType::F32)],
        vec![("title", Schema::Str)],
        vec![],
        None,
    );
    let task_from_task1 = Rc::new(Conversion {
        older: task1.clone(),
        prims: vec![PrimSource::Old(0)],
        children: vec![ChildSource::Keep(0), ChildSource::Const(text(""))],
    });
    let task = record(
        "Task",
        vec![("factor", PrimType::F32)],
        vec![("title", Schema::Str), ("category", Schema::Str)],
        vec![],
        None,
    );
    let storage1 = record(
        "TaskStrage1",
        vec![],
        vec![("tasks", Schema::List(Rc::new(Schema::Record(task1))))],
        vec![],
        None,
    );
    let storage_from_storage1 = Conversion {
        older: storage1.clone(),
        prims: vec![],
        children: vec![ChildSource::LiftEach(0, task_from_task1)],
    };
    let storage = Schema::Record(record(
        "TaskStrage",
        vec![],
        vec![("tasks", Schema::List(Rc::new(Schema::Record(task))))],
        vec![storage_from_storage1],
        None,
    ));

    let mut hash_io = empty_store("unittest/overalltest");
    let first = Value::Record(vec![PrimValue::F32(0.5f32.to_bits())], vec![text("Test1")]);
    let second = Value::Record(vec![PrimValue::F32(0.2f32.to_bits())], vec![text("Test2")]);
    let stored = Value::Record(
        vec![],
        vec![Rc::new(Value::List(vec![Rc::new(first), Rc::new(second)]))],
    );
    let hash = stored.as_hash();
    hash_io.put(&Schema::Record(storage1), &stored).unwrap();

    let loaded = hash_io.get(&storage, &hash).unwrap();
    let tasks = match &*loaded {
        Value::Record(_, children) => match &*children[0] {
            Value::List(items) => items.clone(),
            other => panic!("not a sequence: {:?}", other),
        },
        other => panic!("not a record: {:?}", other),
    };
    let field = |i: usize, c: usize| match &*tasks[i] {
        Value::Record(_, children) => children[c].clone(),
        other => panic!("not a record: {:?}", other),
    };
    assert_eq!(text("Test1"), field(0, 0));
    assert_eq!(text("Test2"), field(1, 0));
    assert_eq!(text(""), field(0, 1));
    assert_eq!(text(""), field(1, 1));
    match &*tasks[0] {
        Value::Record(prims, _) => assert_eq!(PrimValue::F32(0.5f32.to_bits()), prims[0]),
        other => panic!("not a record: {:?}", other),
    }
}
