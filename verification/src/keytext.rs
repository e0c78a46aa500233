//! How a key reads: the text that `{:?}` makes of it, by which a map names
//! its children.

use crate::hash::push_char;
use crate::hashio_model::{schema_name, PrimValue, Schema};
use crate::text::{push_decimal, spec_decimal};
use crate::value::{entry_views, lemma_view, views, MapEntry, Value, ValueView};
use std::rc::Rc;
use vstd::prelude::*;
use vstd::string::StringExecFns;

verus! {

/// What `{:?}` makes of a string: the string in double quotes, with what
/// cannot stand there escaped.
pub uninterp spec fn debug_text(text: Seq<char>) -> Seq<char>;

/// Formats a string with `{:?}`, as `fmt::Debug` for `str` renders it.
#[verifier::external_body]
fn debug_str(text: &str) -> (s: String)
    ensures
        s@ == debug_text(text@),
{
    format!("{:?}", text)
}

/// The parts in order with the separator between each two.
pub open spec fn joined(parts: Seq<Seq<char>>, sep: Seq<char>) -> Seq<char>
    decreases parts.len(),
{
    if parts.len() == 0 {
        Seq::empty()
    } else if parts.len() == 1 {
        parts[0]
    } else {
        joined(parts.drop_last(), sep) + sep + parts.last()
    }
}

/// One more part is joined on behind the separator, or stands alone where
/// it is the first.
pub proof fn lemma_joined_push(parts: Seq<Seq<char>>, part: Seq<char>, sep: Seq<char>)
    ensures
        joined(parts.push(part), sep) == if parts.len() == 0 {
            part
        } else {
            joined(parts, sep) + sep + part
        },
{
    assert(parts.push(part).drop_last() =~= parts);
}

/// A number with its sign: a minus in front of what is below zero.
pub open spec fn signed_text(v: int) -> Seq<char> {
    if v < 0 {
        seq!['-'] + spec_decimal((-v) as nat)
    } else {
        spec_decimal(v as nat)
    }
}

/// How a primitive value reads: a number in decimal. A float, which is held
/// by its bit pattern, reads as that pattern in decimal.
pub open spec fn spec_prim_text(p: PrimValue) -> Seq<char> {
    match p {
        PrimValue::U8(v) => spec_decimal(v as nat),
        PrimValue::U16(v) => spec_decimal(v as nat),
        PrimValue::U32(v) => spec_decimal(v as nat),
        PrimValue::U64(v) => spec_decimal(v as nat),
        PrimValue::I32(v) => signed_text(v as int),
        PrimValue::I64(v) => signed_text(v as int),
        PrimValue::F32(v) => spec_decimal(v as nat),
        PrimValue::F64(v) => spec_decimal(v as nat),
    }
}

/// The type of the items of a sequence.
pub open spec fn item_schema(s: Schema) -> Schema {
    match s {
        Schema::List(item) => *item,
        _ => Schema::Str,
    }
}

/// The type of the keys of a map.
pub open spec fn key_schema(s: Schema) -> Schema {
    match s {
        Schema::Dict(key, _) => *key,
        _ => Schema::Str,
    }
}

/// The type of the values of a map.
pub open spec fn value_schema(s: Schema) -> Schema {
    match s {
        Schema::Dict(_, value) => *value,
        _ => Schema::Str,
    }
}

/// The name of the primitive field at position `i`; its position where
/// the type declares no such field.
pub open spec fn prim_name(s: Schema, i: int) -> Seq<char> {
    match s {
        Schema::Record(record) => if 0 <= i < record.prims@.len() {
            record.prims@[i].name@
        } else {
            spec_decimal(i as nat)
        },
        _ => spec_decimal(i as nat),
    }
}

/// The name of the child at position `i`; its position where the type
/// declares no such child.
pub open spec fn child_name(s: Schema, i: int) -> Seq<char> {
    match s {
        Schema::Record(record) => if 0 <= i < record.children@.len() {
            record.children@[i].name@
        } else {
            spec_decimal(i as nat)
        },
        _ => spec_decimal(i as nat),
    }
}

/// The type of the child at position `i`.
pub open spec fn child_schema_at(s: Schema, i: int) -> Schema {
    match s {
        Schema::Record(record) => if 0 <= i < record.children@.len() {
            record.children@[i].schema
        } else {
            Schema::Str
        },
        _ => Schema::Str,
    }
}

/// How the items of a sequence read, in order.
pub open spec fn item_texts(s: Schema, items: Seq<ValueView>) -> Seq<Seq<char>>
    decreases items, 0nat,
{
    Seq::new(
        items.len(),
        |i: int|
            if 0 <= i < items.len() {
                spec_key_text(item_schema(s), items[i])
            } else {
                Seq::empty()
            },
    )
}

/// How the entries of a map read, in order: the key, a colon, the value.
pub open spec fn entry_texts(s: Schema, entries: Seq<(ValueView, ValueView)>) -> Seq<Seq<char>>
    decreases entries, 0nat,
{
    Seq::new(
        entries.len(),
        |i: int|
            if 0 <= i < entries.len() {
                spec_key_text(key_schema(s), entries[i].0) + ": "@ + spec_key_text(
                    value_schema(s),
                    entries[i].1,
                )
            } else {
                Seq::empty()
            },
    )
}

/// How the primitive fields of a record read, in order: the name, a
/// colon, the value.
pub open spec fn prim_texts(s: Schema, prims: Seq<PrimValue>) -> Seq<Seq<char>> {
    Seq::new(prims.len(), |i: int| prim_name(s, i) + ": "@ + spec_prim_text(prims[i]))
}

/// How the children of a record read, in order: the name, a colon, the
/// child.
pub open spec fn child_texts(s: Schema, children: Seq<ValueView>) -> Seq<Seq<char>>
    decreases children, 0nat,
{
    Seq::new(
        children.len(),
        |i: int|
            if 0 <= i < children.len() {
                child_name(s, i) + ": "@ + spec_key_text(child_schema_at(s, i), children[i])
            } else {
                Seq::empty()
            },
    )
}

/// How a value of type `s` reads, as `{:?}` renders it: a string in double
/// quotes; a sequence in square brackets, its items between commas; a map in
/// braces, each entry as key, colon, value; a record as its name and, in
/// braces, each field as name, colon, value.
pub open spec fn spec_key_text(s: Schema, v: ValueView) -> Seq<char>
    decreases v, 1nat,
{
    match v {
        ValueView::Str(text) => debug_text(text),
        ValueView::List(items) => "["@ + joined(item_texts(s, items), ", "@) + "]"@,
        ValueView::Dict(entries) => "{"@ + joined(entry_texts(s, entries), ", "@) + "}"@,
        ValueView::Record(prims, children) => if prims.len() + children.len() == 0 {
            schema_name(s)
        } else {
            schema_name(s) + " { "@ + joined(prim_texts(s, prims) + child_texts(s, children), ", "@)
                + " }"@
        },
    }
}

/// Appends a number with its sign.
fn push_signed(out: &mut String, v: i64)
    ensures
        final(out)@ == old(out)@ + signed_text(v as int),
{
    if v < 0 {
        push_char(out, '-');
        let magnitude: u64 = (-(v + 1)) as u64 + 1;
        push_decimal(out, magnitude);
        assert(out@ =~= old(out)@ + signed_text(v as int));
    } else {
        push_decimal(out, v as u64);
    }
}

/// Appends how a primitive value reads.
pub fn push_prim_text(out: &mut String, p: &PrimValue)
    ensures
        final(out)@ == old(out)@ + spec_prim_text(*p),
{
    match p {
        PrimValue::U8(v) => push_decimal(out, *v as u64),
        PrimValue::U16(v) => push_decimal(out, *v as u64),
        PrimValue::U32(v) => push_decimal(out, *v as u64),
        PrimValue::U64(v) => push_decimal(out, *v),
        PrimValue::I32(v) => push_signed(out, *v as i64),
        PrimValue::I64(v) => push_signed(out, *v),
        PrimValue::F32(v) => push_decimal(out, *v as u64),
        PrimValue::F64(v) => push_decimal(out, *v),
    }
}

/// Appends how the items of a sequence read, between commas.
#[verifier::loop_isolation(false)]
fn push_item_texts(out: &mut String, schema: &Schema, items: &Vec<Rc<Value>>)
    ensures
        final(out)@ == old(out)@ + joined(item_texts(*schema, views(items@)), ", "@),
    decreases items, 0nat,
{
    let fallback = Schema::Str;
    let inner: &Schema = match schema {
        Schema::List(item) => item,
        _ => &fallback,
    };
    let ghost texts = item_texts(*schema, views(items@));
    let mut i: usize = 0;
    assert(old(out)@ + joined(texts.take(0), ", "@) =~= old(out)@);
    while i < items.len()
        invariant
            i <= items@.len(),
            out@ == old(out)@ + joined(texts.take(i as int), ", "@),
        decreases items@.len() - i,
    {
        if i > 0 {
            out.append(", ");
        }
        let part = key_text(inner, &items[i]);
        out.append(part.as_str());
        proof {
            assert(texts.take(i + 1) =~= texts.take(i as int).push(texts[i as int]));
            lemma_joined_push(texts.take(i as int), texts[i as int], ", "@);
            assert(out@ =~= old(out)@ + joined(texts.take(i + 1), ", "@));
        }
        i += 1;
    }
    assert(texts.take(items@.len() as int) =~= texts);
}

/// Appends how the entries of a map read, between commas.
#[verifier::loop_isolation(false)]
fn push_entry_texts(out: &mut String, schema: &Schema, entries: &Vec<MapEntry>)
    ensures
        final(out)@ == old(out)@ + joined(entry_texts(*schema, entry_views(entries@)), ", "@),
    decreases entries, 0nat,
{
    let fallback = Schema::Str;
    let (of_key, of_value): (&Schema, &Schema) = match schema {
        Schema::Dict(key, value) => (key, value),
        _ => (&fallback, &fallback),
    };
    let ghost texts = entry_texts(*schema, entry_views(entries@));
    let mut i: usize = 0;
    assert(old(out)@ + joined(texts.take(0), ", "@) =~= old(out)@);
    while i < entries.len()
        invariant
            i <= entries@.len(),
            out@ == old(out)@ + joined(texts.take(i as int), ", "@),
        decreases entries@.len() - i,
    {
        if i > 0 {
            out.append(", ");
        }
        let ghost before = out@;
        let key = key_text(of_key, &entries[i].key);
        out.append(key.as_str());
        out.append(": ");
        let value = key_text(of_value, &entries[i].value);
        out.append(value.as_str());
        proof {
            assert(out@ =~= before + texts[i as int]);
            assert(texts.take(i + 1) =~= texts.take(i as int).push(texts[i as int]));
            lemma_joined_push(texts.take(i as int), texts[i as int], ", "@);
            assert(out@ =~= old(out)@ + joined(texts.take(i + 1), ", "@));
        }
        i += 1;
    }
    assert(texts.take(entries@.len() as int) =~= texts);
}

/// Appends how the primitive field at position `i` reads.
fn push_prim_field(out: &mut String, schema: &Schema, prims: &Vec<PrimValue>, i: usize)
    requires
        i < prims@.len(),
    ensures
        final(out)@ == old(out)@ + prim_texts(*schema, prims@)[i as int],
{
    match schema {
        Schema::Record(record) => {
            if i < record.prims.len() {
                out.append(record.prims[i].name.as_str());
            } else {
                push_decimal(out, i as u64);
            }
        },
        _ => {
            push_decimal(out, i as u64);
        },
    }
    out.append(": ");
    push_prim_text(out, &prims[i]);
    assert(out@ =~= old(out)@ + prim_texts(*schema, prims@)[i as int]);
}

/// Appends how the child at position `j` reads.
fn push_child_field(out: &mut String, schema: &Schema, children: &Vec<Rc<Value>>, j: usize)
    requires
        j < children@.len(),
    ensures
        final(out)@ == old(out)@ + child_texts(*schema, views(children@))[j as int],
    decreases children, 0nat,
{
    let fallback = Schema::Str;
    let of_child: &Schema = match schema {
        Schema::Record(record) => {
            if j < record.children.len() {
                out.append(record.children[j].name.as_str());
                &record.children[j].schema
            } else {
                push_decimal(out, j as u64);
                &fallback
            }
        },
        _ => {
            push_decimal(out, j as u64);
            &fallback
        },
    };
    out.append(": ");
    let child = key_text(of_child, &children[j]);
    out.append(child.as_str());
    assert(out@ =~= old(out)@ + child_texts(*schema, views(children@))[j as int]);
}

/// Appends how the primitive fields of a record read, between commas.
fn push_prim_fields(
    out: &mut String,
    schema: &Schema,
    prims: &Vec<PrimValue>,
    Ghost(rest): Ghost<Seq<Seq<char>>>,
)
    ensures
        final(out)@ == old(out)@ + joined((prim_texts(*schema, prims@) + rest).take(
            prims@.len() as int,
        ), ", "@),
{
    let ghost texts = prim_texts(*schema, prims@) + rest;
    let mut i: usize = 0;
    assert(old(out)@ + joined(texts.take(0), ", "@) =~= old(out)@);
    while i < prims.len()
        invariant
            i <= prims@.len(),
            texts == prim_texts(*schema, prims@) + rest,
            out@ == old(out)@ + joined(texts.take(i as int), ", "@),
        decreases prims@.len() - i,
    {
        if i > 0 {
            out.append(", ");
        }
        push_prim_field(out, schema, prims, i);
        proof {
            assert(texts[i as int] == prim_texts(*schema, prims@)[i as int]);
            assert(texts.take(i + 1) =~= texts.take(i as int).push(texts[i as int]));
            lemma_joined_push(texts.take(i as int), texts[i as int], ", "@);
            assert(out@ =~= old(out)@ + joined(texts.take(i + 1), ", "@));
        }
        i += 1;
    }
}

/// Appends how the fields of a record read, between commas: the primitive
/// fields, then the children.
fn push_field_texts(
    out: &mut String,
    schema: &Schema,
    prims: &Vec<PrimValue>,
    children: &Vec<Rc<Value>>,
)
    ensures
        final(out)@ == old(out)@ + joined(
            prim_texts(*schema, prims@) + child_texts(*schema, views(children@)),
            ", "@,
        ),
    decreases children, 1nat,
{
    let ghost kids = child_texts(*schema, views(children@));
    let ghost texts = prim_texts(*schema, prims@) + kids;
    let ghost count = prims@.len() as int;
    push_prim_fields(out, schema, prims, Ghost(kids));
    let mut j: usize = 0;
    while j < children.len()
        invariant
            j <= children@.len(),
            count == prims@.len(),
            kids == child_texts(*schema, views(children@)),
            texts == prim_texts(*schema, prims@) + kids,
            out@ == old(out)@ + joined(texts.take(count + j), ", "@),
        decreases children@.len() - j,
    {
        if prims.len() > 0 || j > 0 {
            out.append(", ");
        }
        push_child_field(out, schema, children, j);
        proof {
            let at = count + j;
            assert(texts[at] == kids[j as int]);
            assert(texts.take(at + 1) =~= texts.take(at).push(texts[at]));
            lemma_joined_push(texts.take(at), texts[at], ", "@);
            assert(out@ =~= old(out)@ + joined(texts.take(at + 1), ", "@));
        }
        j += 1;
    }
    assert(texts.take(texts.len() as int) =~= texts);
}

/// How a value of type `schema` reads.
pub fn key_text(schema: &Schema, key: &Value) -> (s: String)
    ensures
        s@ == spec_key_text(*schema, key@),
    decreases key, 1nat,
{
    proof {
        lemma_view(key);
    }
    match key {
        Value::Str(text) => debug_str(text.as_str()),
        Value::List(items) => {
            let mut out = "[".to_string();
            push_item_texts(&mut out, schema, items);
            out.append("]");
            out
        },
        Value::Dict(entries) => {
            let mut out = "{".to_string();
            push_entry_texts(&mut out, schema, entries);
            out.append("}");
            out
        },
        Value::Record(prims, children) => {
            let mut out = schema.type_name_string();
            if prims.len() > 0 || children.len() > 0 {
                out.append(" { ");
                push_field_texts(&mut out, schema, prims, children);
                out.append(" }");
            }
            out
        },
    }
}

} // verus!
