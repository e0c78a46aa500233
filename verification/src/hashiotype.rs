//! A value together with its type, and the children it names.

use crate::btreemap::{bytes_less_from, order_bytes, Order};
use crate::hash::Hash32;
use crate::hashio::{HashIOType, Typeable};
use crate::hashio_model::{hashable, schema_hash, schema_name, Schema};
use crate::keytext::{key_text, spec_key_text};
use crate::text::{decimal, lemma_utf8_injective, spec_decimal};
use crate::value::{lemma_view, share, views, Value, ValueView};
use std::rc::Rc;
use vstd::prelude::*;
use vstd::utf8::encode_utf8;

verus! {

/// A stored value and the type it is stored as.
#[derive(Clone, Debug, PartialEq)]
pub struct Object {
    pub schema: Schema,
    pub value: Rc<Value>,
}

/// An object as contracts speak of it.
pub struct ObjectView {
    pub schema: Schema,
    pub value: ValueView,
}

impl View for Object {
    type V = ObjectView;

    open spec fn view(&self) -> ObjectView {
        ObjectView { schema: self.schema, value: (*self.value)@ }
    }
}

/// A child under the name by which its parent knows it.
#[derive(Clone, Debug, PartialEq)]
pub struct Named {
    pub name: String,
    pub object: Object,
}

/// The children of an object by name, as contracts speak of them.
pub type NamedViews = Seq<(Seq<char>, ObjectView)>;

/// The views of named children, in order.
pub open spec fn named_views(items: Seq<Named>) -> NamedViews {
    Seq::new(items.len(), |i: int| (items[i].name@, items[i].object@))
}

impl Schema {
    /// The same type again, its parts shared.
    pub fn share(&self) -> (s: Schema)
        ensures
            s == *self,
    {
        match self {
            Schema::Str => Schema::Str,
            Schema::List(item) => Schema::List(share(item)),
            Schema::Dict(key, value) => Schema::Dict(share(key), share(value)),
            Schema::Record(record) => Schema::Record(share(record)),
        }
    }
}

/// The number of children that an object names: the items of a sequence,
/// the values of a map, the declared children of a record as far as the
/// value has them. A value that is not of the kind of its type names none.
pub open spec fn named_count(o: ObjectView) -> nat {
    match (o.schema, o.value) {
        (Schema::List(_), ValueView::List(items)) => items.len(),
        (Schema::Dict(_, _), ValueView::Dict(entries)) => entries.len(),
        (Schema::Record(record), ValueView::Record(_, children)) => if children.len()
            <= record.children@.len() {
            children.len()
        } else {
            record.children@.len() as nat
        },
        _ => 0,
    }
}

/// The name of the child at position `i`: the name of the field of a
/// record, the position in a sequence, the key of a map as `{:?}` renders it.
pub open spec fn named_name(o: ObjectView, i: int) -> Seq<char> {
    match (o.schema, o.value) {
        (Schema::Dict(key, _), ValueView::Dict(entries)) => spec_key_text(*key, entries[i].0),
        (Schema::Record(record), _) => record.children@[i].name@,
        _ => spec_decimal(i as nat),
    }
}

/// The child at position `i`.
pub open spec fn named_object(o: ObjectView, i: int) -> ObjectView {
    match (o.schema, o.value) {
        (Schema::List(item), ValueView::List(items)) => ObjectView {
            schema: *item,
            value: items[i],
        },
        (Schema::Dict(_, value), ValueView::Dict(entries)) => ObjectView {
            schema: *value,
            value: entries[i].1,
        },
        (Schema::Record(record), ValueView::Record(_, children)) => ObjectView {
            schema: record.children@[i].schema,
            value: children[i],
        },
        _ => o,
    }
}

/// The first position at or after `i` whose name does not come before
/// `name` in the order of strings.
pub open spec fn name_slot(entries: NamedViews, name: Seq<char>, i: int) -> int
    decreases entries.len() - i,
{
    if i < 0 || i >= entries.len() {
        entries.len() as int
    } else if bytes_less_from(encode_utf8(entries[i].0), encode_utf8(name), 0) {
        name_slot(entries, name, i + 1)
    } else {
        i
    }
}

/// Whether the name `a` comes before `b`: as strings are ordered, by their
/// UTF-8 bytes.
pub open spec fn name_less(a: Seq<char>, b: Seq<char>) -> bool {
    bytes_less_from(encode_utf8(a), encode_utf8(b), 0)
}

/// Whether the names of the children ascend, so that no name occurs twice.
#[verifier::opaque]
pub open spec fn names_ascend(entries: NamedViews) -> bool {
    forall|i: int, j: int|
        0 <= i < j < entries.len() ==> name_less(
            (#[trigger] entries[i]).0,
            (#[trigger] entries[j]).0,
        )
}

/// Whether the children hold `object` under `name`.
pub open spec fn has_child(entries: NamedViews, name: Seq<char>, object: ObjectView) -> bool {
    exists|j: int| 0 <= j < entries.len() && #[trigger] entries[j] == (name, object)
}

/// Whether a child stands under `name`.
pub open spec fn has_child_name(entries: NamedViews, name: Seq<char>) -> bool {
    exists|j: int| 0 <= j < entries.len() && (#[trigger] entries[j]).0 == name
}

/// The children after `name` was given `object`: the child of that name
/// replaced, or a new child put in front of the first greater name.
pub open spec fn insert_named(entries: NamedViews, name: Seq<char>, object: ObjectView) -> NamedViews {
    let p = name_slot(entries, name, 0);
    if p < entries.len() && entries[p].0 == name {
        entries.update(p, (name, object))
    } else {
        entries.insert(p, (name, object))
    }
}

/// The first `n` children of an object, ordered by name.
pub open spec fn childs_upto(o: ObjectView, n: nat) -> NamedViews
    decreases n,
{
    if n == 0 {
        Seq::empty()
    } else {
        insert_named(childs_upto(o, (n - 1) as nat), named_name(o, n - 1), named_object(o, n - 1))
    }
}

/// The children of an object, ordered by name. Of two children of one name
/// the later one stays.
pub open spec fn spec_childs(o: ObjectView) -> NamedViews {
    childs_upto(o, named_count(o))
}

/// Gives `name` the child `object`.
pub fn put_named(entries: &mut Vec<Named>, name: String, object: Object)
    ensures
        named_views(final(entries)@) == insert_named(named_views(old(entries)@), name@, object@),
{
    let ghost before = named_views(entries@);
    let mut i: usize = 0;
    let mut found: bool = false;
    while i < entries.len()
        invariant_except_break
            !found,
            name_slot(before, name@, 0) == name_slot(before, name@, i as int),
        invariant
            i <= entries@.len(),
            entries@ == old(entries)@,
            before == named_views(entries@),
        ensures
            i <= entries@.len(),
            entries@ == old(entries)@,
            name_slot(before, name@, 0) == i,
            found == (i < entries@.len() && before[i as int].0 == name@),
        decreases entries@.len() - i,
    {
        match order_bytes(entries[i].name.as_str().as_bytes(), name.as_str().as_bytes()) {
            Order::Less => {},
            Order::Equal => {
                proof {
                    lemma_utf8_injective(entries@[i as int].name@, name@);
                }
                found = true;
                break;
            },
            Order::Greater => {
                break;
            },
        }
        i += 1;
    }
    let ghost entry = (name@, object@);
    if found {
        entries.set(i, Named { name, object });
        assert(named_views(entries@) =~= before.update(i as int, entry));
    } else {
        entries.insert(i, Named { name, object });
        assert(named_views(entries@) =~= before.insert(i as int, entry));
    }
}

impl Object {
    /// The children of the object, ordered by name.
    #[verifier::loop_isolation(false)]
    pub fn list_childs(&self) -> (r: Vec<Named>)
        ensures
            named_views(r@) == spec_childs(self@),
            names_ascend(named_views(r@)),
    {
        proof {
            lemma_view(&*self.value);
            crate::order::lemma_childs_ascend(self@);
        }
        let mut out: Vec<Named> = Vec::new();
        assert(named_views(out@) =~= childs_upto(self@, 0));
        let value: &Value = &self.value;
        match (&self.schema, value) {
            (Schema::List(item), Value::List(items)) => {
                let mut i: usize = 0;
                while i < items.len()
                    invariant
                        i <= items@.len(),
                        named_views(out@) == childs_upto(self@, i as nat),
                    decreases items@.len() - i,
                {
                    let object = Object { schema: item.share(), value: share(&items[i]) };
                    put_named(&mut out, decimal(i as u64), object);
                    i += 1;
                }
            },
            (Schema::Dict(key_schema, value_schema), Value::Dict(entries)) => {
                let mut i: usize = 0;
                while i < entries.len()
                    invariant
                        i <= entries@.len(),
                        named_views(out@) == childs_upto(self@, i as nat),
                    decreases entries@.len() - i,
                {
                    let name = key_text(key_schema, &entries[i].key);
                    let object = Object {
                        schema: value_schema.share(),
                        value: share(&entries[i].value),
                    };
                    put_named(&mut out, name, object);
                    i += 1;
                }
            },
            (Schema::Record(record), Value::Record(_, children)) => {
                let mut i: usize = 0;
                while i < children.len() && i < record.children.len()
                    invariant
                        i <= children@.len(),
                        i <= record.children@.len(),
                        named_views(out@) == childs_upto(self@, i as nat),
                    decreases children@.len() - i,
                {
                    let object = Object {
                        schema: record.children[i].schema.share(),
                        value: share(&children[i]),
                    };
                    put_named(&mut out, record.children[i].name.clone(), object);
                    i += 1;
                }
            },
            _ => {},
        }
        out
    }
}

impl HashIOType for Object {
    open spec fn spec_type_hash_obj(&self) -> Seq<u8> {
        schema_hash(self.schema)
    }

    open spec fn spec_type_name_obj(&self) -> Seq<char> {
        schema_name(self.schema)
    }

    open spec fn spec_hashable_obj(&self) -> bool {
        hashable(self.schema)
    }

    open spec fn spec_childs(&self) -> NamedViews {
        spec_childs(self@)
    }

    fn childs(&self) -> (r: Vec<Named>) {
        self.list_childs()
    }

    fn type_hash_obj(&self) -> (h: Hash32) {
        self.schema.type_hash()
    }

    fn type_name_obj(&self) -> (s: String) {
        self.schema.name()
    }
}

} // verus!
