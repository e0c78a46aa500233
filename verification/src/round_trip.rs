//! What is stored can be read back: the blobs that `put` leaves are those
//! from which `get` rebuilds the value.

use crate::btreemap::{dict_from, slot_from, sorted, spec_insert, value_less};
use crate::hash::hex_of;
use crate::hashio::ErrorView;
use crate::hashio_model::{
    dispatchable, field_offset, lemma_prim_round_trip, parsed_prims, prims_width, schema_hash,
    spec_dispatch, Dispatch, PrimField, PrimValue, Schema,
};
use crate::hashiofile::{spec_filename, spec_temp_name};
use crate::hashiotype::ObjectView;
use crate::io::{be_u32, lemma_be_u32_round_trip, lemma_u32_from_be_prefix};
use crate::load::{
    dict_results, hash_at, list_results, pairs_of, parse_fields, record_results, spec_get,
    spec_parse, Files, Outcome,
};
use crate::save::{blob_of, child_count, fits, prims_fit, put_children, spec_put, written};
use crate::string::lemma_string_round_trip;
use crate::value::{
    concat, content_hash, encodable, entry_hashes, hashes_of, prims_bytes, value_bytes, ValueView,
};
use crate::vec::{collect, collection_header, lemma_collect_all};
use vstd::prelude::*;

verus! {

/// The name of the blob of a value.
pub open spec fn name_of(base: Seq<char>, v: ValueView) -> Seq<char> {
    spec_filename(base, content_hash(v))
}

/// The child at position `i`, with its type: an item of a sequence; of a
/// map the keys at the even positions and the values at the odd ones; a
/// child of a record.
pub open spec fn child_of(o: ObjectView, i: int) -> ObjectView {
    match (o.schema, o.value) {
        (Schema::List(item), ValueView::List(items)) => ObjectView {
            schema: *item,
            value: items[i],
        },
        (Schema::Dict(key, value), ValueView::Dict(entries)) => if i % 2 == 0 {
            ObjectView { schema: *key, value: entries[i / 2].0 }
        } else {
            ObjectView { schema: *value, value: entries[i / 2].1 }
        },
        (Schema::Record(record), ValueView::Record(_, children)) => ObjectView {
            schema: record.children@[i].schema,
            value: children[i],
        },
        _ => o,
    }
}

/// Whether a value is of its type all the way down, and the type hashes of
/// each record in it can be computed.
pub open spec fn storable(o: ObjectView) -> bool
    decreases o.value,
{
    &&& fits(o.schema, o.value)
    &&& (o.schema matches Schema::Record(record) ==> dispatchable(*record))
    &&& forall|i: int|
        0 <= i < child_count(o.value) ==> storable(#[trigger] child_of(o, i))
}

/// Whether the store holds the value: its blob under its name, and the
/// same of each of its children.
pub open spec fn holds(files: Files, base: Seq<char>, o: ObjectView) -> bool
    decreases o.value,
{
    &&& fits(o.schema, o.value)
    &&& files.contains_key(name_of(base, o.value))
    &&& files[name_of(base, o.value)] == blob_of(o.schema, o.value)
    &&& forall|i: int|
        0 <= i < child_count(o.value) ==> holds(files, base, #[trigger] child_of(o, i))
}

/// The parts in order make up the whole.
pub proof fn lemma_concat_append(a: Seq<Seq<u8>>, b: Seq<Seq<u8>>)
    ensures
        concat(a + b) == concat(a) + concat(b),
    decreases b.len(),
{
    if b.len() == 0 {
        assert(a + b =~= a);
        assert(concat(a) + concat(b) =~= concat(a));
    } else {
        lemma_concat_append(a, b.drop_last());
        assert((a + b).drop_last() =~= a + b.drop_last());
        assert(concat(a + b) =~= concat(a) + concat(b));
    }
}

/// One part alone is the whole.
pub proof fn lemma_concat_one(part: Seq<u8>)
    ensures
        concat(seq![part]) == part,
{
    assert(seq![part].drop_last() =~= Seq::<Seq<u8>>::empty());
    assert(concat(seq![part].drop_last()) =~= Seq::<u8>::empty());
    assert(concat(seq![part]) =~= part);
}

/// Where every part has `w` bytes, the part at position `i` starts at
/// `w * i`.
pub proof fn lemma_concat_fixed(parts: Seq<Seq<u8>>, w: int, i: int)
    requires
        0 <= w,
        forall|k: int| 0 <= k < parts.len() ==> (#[trigger] parts[k]).len() == w,
        0 <= i < parts.len(),
    ensures
        concat(parts).len() == w * parts.len(),
        w * i + w <= concat(parts).len(),
        concat(parts).subrange(w * i, w * i + w) == parts[i],
    decreases parts.len(),
{
    let front = parts.drop_last();
    assert(w * parts.len() == w * front.len() + w) by (nonlinear_arith)
        requires
            front.len() == parts.len() - 1,
    ;
    if front.len() > 0 {
        lemma_concat_fixed(front, w, 0);
    }
    assert(concat(front).len() == w * front.len()) by {
        if front.len() == 0 {
            assert(w * front.len() == 0) by (nonlinear_arith)
                requires
                    front.len() == 0,
            ;
        }
    }
    if i == parts.len() - 1 {
        assert(w * i == w * front.len());
        assert(concat(parts).subrange(w * i, w * i + w) =~= parts[i]);
    } else {
        lemma_concat_fixed(front, w, i);
        assert(w * i + w <= w * front.len());
        assert(concat(parts).subrange(w * i, w * i + w) =~= concat(front).subrange(
            w * i,
            w * i + w,
        ));
    }
}

/// The header that was written is read back.
pub proof fn lemma_header_round_trip(n: u32, rest: Seq<u8>)
    ensures
        collection_header(be_u32(0) + be_u32(n) + rest) == Ok::<u32, ErrorView>(n),
        (be_u32(0) + be_u32(n) + rest).skip(8) == rest,
{
    let bytes = be_u32(0) + be_u32(n) + rest;
    lemma_be_u32_round_trip(0);
    lemma_be_u32_round_trip(n);
    assert(bytes =~= be_u32(0) + (be_u32(n) + rest));
    lemma_u32_from_be_prefix(be_u32(0), be_u32(n) + rest);
    assert(bytes.skip(4) =~= be_u32(n) + rest);
    lemma_u32_from_be_prefix(be_u32(n), rest);
    assert(bytes.skip(8) =~= rest);
}

/// The bytes of the first `i` primitive values end where the field at
/// position `i` starts.
pub proof fn lemma_prims_offset(fields: Seq<PrimField>, prims: Seq<PrimValue>, i: int)
    requires
        prims_fit(fields, prims),
        0 <= i <= prims.len(),
    ensures
        concat(prims_bytes(prims).take(i)).len() == field_offset(fields, i),
    decreases i,
{
    if i > 0 {
        lemma_prims_offset(fields, prims, i - 1);
        lemma_prim_round_trip(prims[i - 1], Seq::empty());
        assert(prims_bytes(prims).take(i).drop_last() =~= prims_bytes(prims).take(i - 1));
    }
}

/// The primitive fields that were written are read back, whatever follows
/// them.
pub proof fn lemma_prims_round_trip(fields: Seq<PrimField>, prims: Seq<PrimValue>, rest: Seq<u8>)
    requires
        prims_fit(fields, prims),
    ensures
        concat(prims_bytes(prims)).len() == prims_width(fields),
        parsed_prims(fields, concat(prims_bytes(prims)) + rest) == prims,
{
    let parts = prims_bytes(prims);
    let bytes = concat(parts) + rest;
    assert(parts.take(parts.len() as int) =~= parts);
    lemma_prims_offset(fields, prims, prims.len() as int);
    assert forall|i: int| 0 <= i < prims.len() implies parsed_prims(fields, bytes)[i]
        == prims[i] by {
        lemma_prims_offset(fields, prims, i);
        assert(parts =~= parts.take(i) + parts.skip(i));
        lemma_concat_append(parts.take(i), parts.skip(i));
        assert(parts.skip(i) =~= seq![parts[i]] + parts.skip(i + 1));
        lemma_concat_append(seq![parts[i]], parts.skip(i + 1));
        lemma_concat_one(parts[i]);
        let tail = concat(parts.skip(i + 1)) + rest;
        assert(bytes.skip(field_offset(fields, i) as int) =~= prims[i].bytes() + tail);
        lemma_prim_round_trip(prims[i], tail);
    }
    assert(parsed_prims(fields, bytes) =~= prims);
}

/// A key that comes after all the keys from position `i` on finds its place
/// at the end.
pub proof fn lemma_slot_at_end(entries: Seq<(ValueView, ValueView)>, key: ValueView, i: int)
    requires
        0 <= i <= entries.len(),
        forall|j: int| i <= j < entries.len() ==> value_less((#[trigger] entries[j]).0, key),
    ensures
        slot_from(entries, key, i) == entries.len(),
    decreases entries.len() - i,
{
    if i < entries.len() {
        lemma_slot_at_end(entries, key, i + 1);
    }
}

/// Entries in ascending order of their keys, inserted in turn, make the
/// same entries.
pub proof fn lemma_dict_from_sorted(entries: Seq<(ValueView, ValueView)>, n: nat)
    requires
        sorted(entries),
        n <= entries.len(),
    ensures
        dict_from(entries, n) == entries.take(n as int),
    decreases n,
{
    reveal(sorted);
    if n == 0 {
        assert(entries.take(0) =~= Seq::<(ValueView, ValueView)>::empty());
    } else {
        lemma_dict_from_sorted(entries, (n - 1) as nat);
        let before = entries.take(n - 1);
        let key = entries[n - 1].0;
        assert forall|j: int| 0 <= j < before.len() implies value_less(
            (#[trigger] before[j]).0,
            key,
        ) by {
            assert(before[j] == entries[j]);
        }
        lemma_slot_at_end(before, key, 0);
        assert(spec_insert(before, key, entries[n - 1].1) =~= entries.take(n as int));
    }
}

/// Whether each child is read back from under its content hash.
#[verifier::opaque]
pub open spec fn children_read_back(files: Files, base: Seq<char>, o: ObjectView) -> bool {
    forall|i: int|
        0 <= i < child_count(o.value) ==> spec_get(
            files,
            base,
            (#[trigger] child_of(o, i)).schema,
            content_hash(child_of(o, i).value),
        ) == Ok::<ValueView, ErrorView>(child_of(o, i).value)
}

/// A sequence whose items are read back is read back from its payload.
pub proof fn lemma_read_list(files: Files, base: Seq<char>, o: ObjectView, t: Option<Seq<u8>>)
    requires
        o.schema is List,
        o.value is List,
        encodable(o.value),
        children_read_back(files, base, o),
    ensures
        spec_parse(files, base, o.schema, value_bytes(o.value), t) == Ok::<ValueView, ErrorView>(
            o.value,
        ),
{
    reveal(children_read_back);
    let items = o.value->List_0;
    let n = items.len();
    let hashes = hashes_of(items);
    let rest = concat(hashes);
    let bytes = value_bytes(o.value);
    lemma_header_round_trip(n as u32, rest);
    let results = list_results(files, base, o.schema, n, rest);
    assert forall|i: int| 0 <= i < n implies results[i] == Ok::<ValueView, ErrorView>(
        items[i],
    ) by {
        lemma_concat_fixed(hashes, 32, i);
        assert(child_of(o, i).value == items[i]);
    }
    lemma_collect_all(results, 0);
    assert(collect(results)->Ok_0 =~= items);
}

/// Where the hash of a key or a value stands in the payload of a map.
pub proof fn lemma_entry_hash_at(entries: Seq<(ValueView, ValueView)>, j: int)
    requires
        0 <= j < 2 * entries.len(),
    ensures
        concat(entry_hashes(entries)).len() == 64 * entries.len(),
        hash_at(concat(entry_hashes(entries)), j) == if j % 2 == 0 {
            content_hash(entries[j / 2].0)
        } else {
            content_hash(entries[j / 2].1)
        },
{
    let hashes = entry_hashes(entries);
    let rest = concat(hashes);
    let i = j / 2;
    lemma_concat_fixed(hashes, 64, i);
    let pair = rest.subrange(64 * i, 64 * i + 64);
    if j % 2 == 0 {
        assert(hash_at(rest, j) =~= pair.subrange(0, 32));
        assert(pair.subrange(0, 32) =~= content_hash(entries[i].0));
    } else {
        assert(hash_at(rest, j) =~= pair.subrange(32, 64));
        assert(pair.subrange(32, 64) =~= content_hash(entries[i].1));
    }
}

/// The keys and values of a map in the order in which they are stored.
pub open spec fn flat_of(entries: Seq<(ValueView, ValueView)>) -> Seq<ValueView> {
    Seq::new(
        2 * entries.len(),
        |j: int|
            if j % 2 == 0 {
                entries[j / 2].0
            } else {
                entries[j / 2].1
            },
    )
}

/// The keys and values in the order in which they are stored pair up to
/// the entries again.
pub proof fn lemma_pairs_of_flat(entries: Seq<(ValueView, ValueView)>)
    ensures
        pairs_of(flat_of(entries)) == entries,
{
    let flat = flat_of(entries);
    assert((2 * entries.len()) / 2 == entries.len());
    assert forall|i: int| 0 <= i < entries.len() implies pairs_of(flat)[i] == entries[i] by {
        assert((2 * i) / 2 == i && (2 * i) % 2 == 0);
        assert((2 * i + 1) / 2 == i && (2 * i + 1) % 2 == 1);
    }
    assert(pairs_of(flat) =~= entries);
}

/// Where every item was read, the values come out in order.
pub proof fn lemma_collect_values(results: Seq<Outcome>, values: Seq<ValueView>)
    requires
        results.len() == values.len(),
        forall|i: int|
            0 <= i < results.len() ==> #[trigger] results[i] == Ok::<ValueView, ErrorView>(
                values[i],
            ),
    ensures
        collect(results) == Ok::<Seq<ValueView>, ErrorView>(values),
{
    lemma_collect_all(results, 0);
    assert(collect(results)->Ok_0 =~= values);
}

/// Each key and each value of a map is read back from where its hash
/// stands in the payload.
pub proof fn lemma_dict_results(files: Files, base: Seq<char>, o: ObjectView)
    requires
        o.schema is Dict,
        o.value is Dict,
        children_read_back(files, base, o),
    ensures
        dict_results(
            files,
            base,
            o.schema,
            o.value->Dict_0.len(),
            concat(entry_hashes(o.value->Dict_0)),
        ).len() == 2 * o.value->Dict_0.len(),
        forall|j: int|
            0 <= j < 2 * o.value->Dict_0.len() ==> #[trigger] dict_results(
                files,
                base,
                o.schema,
                o.value->Dict_0.len(),
                concat(entry_hashes(o.value->Dict_0)),
            )[j] == Ok::<ValueView, ErrorView>(flat_of(o.value->Dict_0)[j]),
{
    reveal(children_read_back);
    let entries = o.value->Dict_0;
    let n = entries.len();
    let rest = concat(entry_hashes(entries));
    let results = dict_results(files, base, o.schema, n, rest);
    assert forall|j: int| 0 <= j < 2 * n implies #[trigger] results[j] == Ok::<
        ValueView,
        ErrorView,
    >(flat_of(entries)[j]) by {
        lemma_entry_hash_at(entries, j);
        assert(child_of(o, j).value == flat_of(entries)[j]);
        assert(rest.len() >= 32 * (j + 1));
    }
}

/// A map whose keys and values are read back is read back from its
/// payload.
pub proof fn lemma_read_dict(files: Files, base: Seq<char>, o: ObjectView, t: Option<Seq<u8>>)
    requires
        o.schema is Dict,
        o.value is Dict,
        encodable(o.value),
        sorted(o.value->Dict_0),
        children_read_back(files, base, o),
    ensures
        spec_parse(files, base, o.schema, value_bytes(o.value), t) == Ok::<ValueView, ErrorView>(
            o.value,
        ),
{
    let entries = o.value->Dict_0;
    let n = entries.len();
    let rest = concat(entry_hashes(entries));
    lemma_header_round_trip(n as u32, rest);
    let results = dict_results(files, base, o.schema, n, rest);
    lemma_dict_results(files, base, o);
    lemma_collect_values(results, flat_of(entries));
    lemma_pairs_of_flat(entries);
    lemma_dict_from_sorted(entries, n);
    assert(entries.take(n as int) =~= entries);
    lemma_parse_dict(files, base, o.schema, value_bytes(o.value), n as u32, flat_of(entries), t);
}

/// A map is what its keys and values, read in order, are inserted into.
pub proof fn lemma_parse_dict(
    files: Files,
    base: Seq<char>,
    schema: Schema,
    bytes: Seq<u8>,
    n: u32,
    flat: Seq<ValueView>,
    t: Option<Seq<u8>>,
)
    requires
        schema is Dict,
        collection_header(bytes) == Ok::<u32, ErrorView>(n),
        collect(dict_results(files, base, schema, n as nat, bytes.skip(8))) == Ok::<
            Seq<ValueView>,
            ErrorView,
        >(flat),
    ensures
        spec_parse(files, base, schema, bytes, t) == Ok::<ValueView, ErrorView>(
            ValueView::Dict(dict_from(pairs_of(flat), n as nat)),
        ),
{
}

/// A record whose children are read back is read back from its payload.
pub proof fn lemma_read_record(files: Files, base: Seq<char>, o: ObjectView)
    requires
        o.schema is Record,
        fits(o.schema, o.value),
        encodable(o.value),
        children_read_back(files, base, o),
    ensures
        parse_fields(files, base, *o.schema->Record_0, value_bytes(o.value)) == Ok::<
            ValueView,
            ErrorView,
        >(o.value),
{
    reveal(children_read_back);
    let record = *o.schema->Record_0;
    let prims = o.value->Record_0;
    let children = o.value->Record_1;
    let hashes = hashes_of(children);
    let rest = concat(hashes);
    let bytes = value_bytes(o.value);
    lemma_prims_round_trip(record.prims@, prims, rest);
    assert(bytes.skip(prims_width(record.prims@) as int) =~= rest);
    let results = record_results(files, base, record, rest);
    assert forall|i: int| 0 <= i < children.len() implies results[i] == Ok::<
        ValueView,
        ErrorView,
    >(children[i]) by {
        lemma_concat_fixed(hashes, 32, i);
        assert(child_of(o, i).value == children[i]);
    }
    lemma_collect_all(results, 0);
    assert(collect(results)->Ok_0 =~= children);
}

/// A value that the store holds is read back from under its content hash.
pub proof fn lemma_read_back(files: Files, base: Seq<char>, o: ObjectView)
    requires
        holds(files, base, o),
        storable(o),
        encodable(o.value),
    ensures
        spec_get(files, base, o.schema, content_hash(o.value)) == Ok::<ValueView, ErrorView>(
            o.value,
        ),
    decreases o.value,
{
    assert forall|i: int| 0 <= i < child_count(o.value) implies spec_get(
        files,
        base,
        (#[trigger] child_of(o, i)).schema,
        content_hash(child_of(o, i).value),
    ) == Ok::<ValueView, ErrorView>(child_of(o, i).value) by {
        lemma_child_encodable(o, i);
        lemma_read_back(files, base, child_of(o, i));
    }
    assert(children_read_back(files, base, o)) by {
        reveal(children_read_back);
    }
    let blob = blob_of(o.schema, o.value);
    match o.schema {
        Schema::Str => {
            lemma_string_round_trip(o.value->Str_0, Seq::empty());
            assert(value_bytes(o.value) + Seq::<u8>::empty() =~= value_bytes(o.value));
        },
        Schema::List(_) => {
            lemma_read_list(files, base, o, None);
        },
        Schema::Dict(_, _) => {
            lemma_read_dict(files, base, o, None);
        },
        Schema::Record(_) => {
            lemma_read_record(files, base, o);
            let t = schema_hash(o.schema);
            let payload = value_bytes(o.value);
            lemma_be_u32_round_trip(1);
            assert(blob =~= be_u32(1) + (t + payload));
            lemma_u32_from_be_prefix(be_u32(1), t + payload);
            assert(blob.subrange(4, 36) =~= t);
            assert(blob.skip(36) =~= payload);
            assert(spec_dispatch(*o.schema->Record_0, t) == Dispatch::Current);
        },
    }
}

/// What can be encoded has children that can be encoded.
pub proof fn lemma_child_encodable(o: ObjectView, i: int)
    requires
        fits(o.schema, o.value),
        encodable(o.value),
        0 <= i < child_count(o.value),
    ensures
        encodable(child_of(o, i).value),
{
    match o.value {
        ValueView::Dict(entries) => {
            assert(encodable(entries[i / 2].0) && encodable(entries[i / 2].1));
        },
        _ => {},
    }
}

/// Whether `p` is the object itself, one of its children, or a part of
/// one of them.
pub open spec fn is_part(p: ObjectView, o: ObjectView) -> bool
    decreases o.value,
{
    p == o || (fits(o.schema, o.value) && exists|i: int|
        0 <= i < child_count(o.value) && is_part(p, #[trigger] child_of(o, i)))
}

/// Whether every blob of `f` is in `g` as it is in `f`.
pub open spec fn extends(base: Seq<char>, f: Files, g: Files) -> bool {
    forall|n: Seq<char>|
        n.len() == base.len() + 66 && #[trigger] f.contains_key(n) ==> g.contains_key(n) && g[n]
            == f[n]
}

/// Whether every blob that is in `g` and not in `f` is named after a part
/// of one of the first `i` children of the object.
pub open spec fn news_upto(base: Seq<char>, f: Files, g: Files, o: ObjectView, i: int) -> bool {
    forall|n: Seq<char>|
        n.len() == base.len() + 66 && #[trigger] g.contains_key(n) && !f.contains_key(n)
            ==> exists|p: ObjectView, j: int|
            0 <= j < i && j < child_count(o.value) && #[trigger] is_part(p, child_of(o, j))
                && name_of(base, p.value) == n
}

/// Whether every blob that is in `g` and not in `f` is named after a part
/// of the object.
pub open spec fn news_from(base: Seq<char>, f: Files, g: Files, o: ObjectView) -> bool {
    forall|n: Seq<char>|
        n.len() == base.len() + 66 && #[trigger] g.contains_key(n) && !f.contains_key(n)
            ==> exists|p: ObjectView| #[trigger] is_part(p, o) && name_of(base, p.value) == n
}

/// Whether the store holds each part of the object whose name it has a
/// blob under.
pub open spec fn known_parts_hold(files: Files, base: Seq<char>, o: ObjectView) -> bool {
    forall|p: ObjectView|
        #[trigger] is_part(p, o) && files.contains_key(name_of(base, p.value)) ==> holds(
            files,
            base,
            p,
        )
}

/// Whether the two are the same value with the same blob, and so are
/// their children, one for one. Their types may differ where the blobs do
/// not show it: two empty sequences are alike whatever they are sequences of.
pub open spec fn alike(p: ObjectView, q: ObjectView) -> bool
    decreases p.value,
{
    &&& p.value == q.value
    &&& fits(p.schema, p.value)
    &&& fits(q.schema, q.value)
    &&& blob_of(p.schema, p.value) == blob_of(q.schema, q.value)
    &&& forall|i: int|
        0 <= i < child_count(p.value) ==> alike(#[trigger] child_of(p, i), child_of(q, i))
}

/// Whether no two parts of the object share a content hash, unless they
/// are alike.
pub open spec fn distinct_parts(o: ObjectView) -> bool {
    forall|p: ObjectView, q: ObjectView|
        #[trigger] is_part(p, o) && #[trigger] is_part(q, o) && content_hash(p.value)
            == content_hash(q.value) ==> alike(p, q)
}

/// Of two that are alike, a store that holds the one holds the other.
pub proof fn lemma_holds_alike(files: Files, base: Seq<char>, p: ObjectView, q: ObjectView)
    requires
        holds(files, base, p),
        alike(p, q),
    ensures
        holds(files, base, q),
    decreases p.value,
{
    assert forall|i: int| 0 <= i < child_count(q.value) implies holds(
        files,
        base,
        #[trigger] child_of(q, i),
    ) by {
        assert(alike(child_of(p, i), child_of(q, i)));
        lemma_holds_alike(files, base, child_of(p, i), child_of(q, i));
    }
}

/// Two values of one name have one content hash.
pub proof fn lemma_same_name_same_hash(base: Seq<char>, v: ValueView, w: ValueView)
    requires
        name_of(base, v) == name_of(base, w),
    ensures
        content_hash(v) == content_hash(w),
{
    crate::hashiofile::lemma_filename_injective(base, content_hash(v), content_hash(w));
}

/// The name of a blob is 66 characters longer than the base path.
pub proof fn lemma_name_len(base: Seq<char>, v: ValueView)
    ensures
        name_of(base, v).len() == base.len() + 66,
        spec_temp_name(name_of(base, v)).len() == base.len() + 67,
{
    assert(content_hash(v).len() == 32);
    assert(hex_of(content_hash(v)).len() == 64);
}

/// A part of a child is a part of the parent.
pub proof fn lemma_part_of_child(p: ObjectView, o: ObjectView, i: int)
    requires
        fits(o.schema, o.value),
        0 <= i < child_count(o.value),
        is_part(p, child_of(o, i)),
    ensures
        is_part(p, o),
{
}

/// A store that holds an object still holds it when blobs are added.
pub proof fn lemma_holds_stable(base: Seq<char>, f: Files, g: Files, o: ObjectView)
    requires
        holds(f, base, o),
        extends(base, f, g),
    ensures
        holds(g, base, o),
    decreases o.value,
{
    lemma_name_len(base, o.value);
    assert forall|i: int| 0 <= i < child_count(o.value) implies holds(
        g,
        base,
        #[trigger] child_of(o, i),
    ) by {
        lemma_holds_stable(base, f, g, child_of(o, i));
    }
}

/// A store that holds an object holds each of its parts.
pub proof fn lemma_holds_parts(files: Files, base: Seq<char>, o: ObjectView, p: ObjectView)
    requires
        holds(files, base, o),
        is_part(p, o),
    ensures
        holds(files, base, p),
    decreases o.value,
{
    if p != o {
        let i = choose|i: int|
            0 <= i < child_count(o.value) && is_part(p, #[trigger] child_of(o, i));
        lemma_holds_parts(files, base, child_of(o, i), p);
    }
}

/// Storing the child at position `i` is the step that `put_children`
/// takes.
pub proof fn lemma_put_step(files: Files, base: Seq<char>, o: ObjectView, i: int)
    requires
        fits(o.schema, o.value),
        0 <= i < child_count(o.value),
    ensures
        put_children(files, base, o.schema, o.value, i) == {
            let step = spec_put(files, base, child_of(o, i).schema, child_of(o, i).value);
            if step.1 is Err {
                step
            } else {
                put_children(step.0, base, o.schema, o.value, i + 1)
            }
        },
{
}

/// Storing the children from position `i` on succeeds and leaves a store
/// that holds them all, where the store before holds those before `i`.
pub proof fn lemma_put_children_hold(
    start: Files,
    cur: Files,
    base: Seq<char>,
    o: ObjectView,
    i: int,
)
    requires
        storable(o),
        encodable(o.value),
        0 <= i <= child_count(o.value),
        known_parts_hold(start, base, o),
        distinct_parts(o),
        extends(base, start, cur),
        news_upto(base, start, cur, o, i),
        forall|j: int| 0 <= j < i ==> holds(cur, base, #[trigger] child_of(o, j)),
    ensures
        put_children(cur, base, o.schema, o.value, i).1 is Ok,
        extends(base, start, put_children(cur, base, o.schema, o.value, i).0),
        news_upto(
            base,
            start,
            put_children(cur, base, o.schema, o.value, i).0,
            o,
            child_count(o.value) as int,
        ),
        forall|j: int|
            0 <= j < child_count(o.value) ==> holds(
                put_children(cur, base, o.schema, o.value, i).0,
                base,
                #[trigger] child_of(o, j),
            ),
    decreases o.value, 1nat, child_count(o.value) - i,
{
    if i < child_count(o.value) {
        let c = child_of(o, i);
        lemma_child_encodable(o, i);
        assert(storable(c));
        assert forall|p: ObjectView|
            #[trigger] is_part(p, c) && cur.contains_key(name_of(base, p.value)) implies holds(
            cur,
            base,
            p,
        ) by {
            lemma_part_of_child(p, o, i);
            lemma_name_len(base, p.value);
            let n = name_of(base, p.value);
            if start.contains_key(n) {
                lemma_holds_stable(base, start, cur, p);
            } else {
                let (q, j) = choose|q: ObjectView, j: int|
                    0 <= j < i && j < child_count(o.value) && #[trigger] is_part(
                        q,
                        child_of(o, j),
                    ) && name_of(base, q.value) == n;
                lemma_part_of_child(q, o, j);
                lemma_same_name_same_hash(base, q.value, p.value);
                assert(alike(q, p));
                lemma_holds_parts(cur, base, child_of(o, j), q);
                lemma_holds_alike(cur, base, q, p);
            }
        }
        assert forall|p: ObjectView, q: ObjectView|
            #[trigger] is_part(p, c) && #[trigger] is_part(q, c) && content_hash(p.value)
                == content_hash(q.value) implies alike(p, q) by {
            lemma_part_of_child(p, o, i);
            lemma_part_of_child(q, o, i);
        }
        lemma_put_holds(cur, base, c);
        lemma_put_step(cur, base, o, i);
        let next = spec_put(cur, base, c.schema, c.value).0;
        assert forall|n: Seq<char>|
            n.len() == base.len() + 66 && #[trigger] next.contains_key(n) && !start.contains_key(
                n,
            ) implies exists|p: ObjectView, j: int|
            0 <= j < i + 1 && j < child_count(o.value) && #[trigger] is_part(p, child_of(o, j))
                && name_of(base, p.value) == n by {
            if cur.contains_key(n) {
                let (q, j) = choose|q: ObjectView, j: int|
                    0 <= j < i && j < child_count(o.value) && #[trigger] is_part(
                        q,
                        child_of(o, j),
                    ) && name_of(base, q.value) == n;
                assert(0 <= j < i + 1 && is_part(q, child_of(o, j)));
            } else {
                let q = choose|q: ObjectView| #[trigger]
                    is_part(q, c) && name_of(base, q.value) == n;
                assert(0 <= i < i + 1 && is_part(q, child_of(o, i)));
            }
        }
        assert forall|j: int| 0 <= j < i + 1 implies holds(
            next,
            base,
            #[trigger] child_of(o, j),
        ) by {
            if j < i {
                lemma_holds_stable(base, cur, next, child_of(o, j));
            }
        }
        lemma_put_children_hold(start, next, base, o, i + 1);
    }
}

/// Storing an object succeeds and leaves a store that holds it.
pub proof fn lemma_put_holds(files: Files, base: Seq<char>, o: ObjectView)
    requires
        storable(o),
        encodable(o.value),
        known_parts_hold(files, base, o),
        distinct_parts(o),
    ensures
        spec_put(files, base, o.schema, o.value).1 is Ok,
        holds(spec_put(files, base, o.schema, o.value).0, base, o),
        extends(base, files, spec_put(files, base, o.schema, o.value).0),
        news_from(base, files, spec_put(files, base, o.schema, o.value).0, o),
    decreases o.value, 2nat, 0nat,
{
    let name = name_of(base, o.value);
    let after = spec_put(files, base, o.schema, o.value).0;
    lemma_name_len(base, o.value);
    assert(is_part(o, o));
    if files.contains_key(name) {
    } else {
        lemma_put_children_hold(files, files, base, o, 0);
        let stored = put_children(files, base, o.schema, o.value, 0).0;
        let blob = blob_of(o.schema, o.value);
        assert(after == written(stored, name, blob));
        assert forall|n: Seq<char>|
            n.len() == base.len() + 66 && #[trigger] stored.contains_key(n) implies after.contains_key(
            n,
        ) && after[n] == stored[n] by {
            if n == name {
                let (q, j) = choose|q: ObjectView, j: int|
                    0 <= j < child_count(o.value) && j < child_count(o.value)
                        && #[trigger] is_part(q, child_of(o, j)) && name_of(base, q.value) == n;
                lemma_part_of_child(q, o, j);
                lemma_same_name_same_hash(base, q.value, o.value);
                assert(alike(q, o));
                lemma_holds_parts(stored, base, child_of(o, j), q);
                lemma_holds_alike(stored, base, q, o);
            }
        }
        assert(extends(base, stored, after));
        assert forall|i: int| 0 <= i < child_count(o.value) implies holds(
            after,
            base,
            #[trigger] child_of(o, i),
        ) by {
            lemma_holds_stable(base, stored, after, child_of(o, i));
        }
        assert forall|n: Seq<char>|
            n.len() == base.len() + 66 && #[trigger] after.contains_key(n) && !files.contains_key(
                n,
            ) implies exists|p: ObjectView| #[trigger]
            is_part(p, o) && name_of(base, p.value) == n by {
            if n == name {
                assert(is_part(o, o) && name_of(base, o.value) == n);
            } else {
                assert(stored.contains_key(n));
                let (q, j) = choose|q: ObjectView, j: int|
                    0 <= j < child_count(o.value) && j < child_count(o.value)
                        && #[trigger] is_part(q, child_of(o, j)) && name_of(base, q.value) == n;
                lemma_part_of_child(q, o, j);
            }
        }
    }
}

/// What was stored is read back: where the store holds no blob under the
/// name of a part of the value but what `put` leaves for that part, and no
/// two parts share a content hash unless they are alike, `put` succeeds and
/// `get` then gives the value again.
pub proof fn lemma_round_trip(files: Files, base: Seq<char>, o: ObjectView)
    requires
        storable(o),
        encodable(o.value),
        known_parts_hold(files, base, o),
        distinct_parts(o),
    ensures
        spec_put(files, base, o.schema, o.value).1 is Ok,
        spec_get(
            spec_put(files, base, o.schema, o.value).0,
            base,
            o.schema,
            content_hash(o.value),
        ) == Ok::<ValueView, ErrorView>(o.value),
{
    lemma_put_holds(files, base, o);
    lemma_read_back(spec_put(files, base, o.schema, o.value).0, base, o);
}

/// In an empty store, what was stored is read back, where no two parts of
/// the value share a content hash unless they are alike.
pub proof fn lemma_round_trip_fresh(base: Seq<char>, o: ObjectView)
    requires
        storable(o),
        encodable(o.value),
        distinct_parts(o),
    ensures
        spec_put(Map::empty(), base, o.schema, o.value).1 is Ok,
        spec_get(
            spec_put(Map::empty(), base, o.schema, o.value).0,
            base,
            o.schema,
            content_hash(o.value),
        ) == Ok::<ValueView, ErrorView>(o.value),
{
    lemma_round_trip(Map::empty(), base, o);
}

/// After a value was stored, the blob of each of its parts is there: of the
/// value itself, of its children, and of theirs.
pub proof fn lemma_put_stores_parts(files: Files, base: Seq<char>, o: ObjectView, p: ObjectView)
    requires
        storable(o),
        encodable(o.value),
        known_parts_hold(files, base, o),
        distinct_parts(o),
        is_part(p, o),
    ensures
        spec_put(files, base, o.schema, o.value).0.contains_key(name_of(base, p.value)),
        spec_put(files, base, o.schema, o.value).0[name_of(base, p.value)] == blob_of(
            p.schema,
            p.value,
        ),
{
    lemma_put_holds(files, base, o);
    lemma_holds_parts(spec_put(files, base, o.schema, o.value).0, base, o, p);
}

/// Storing a value that was stored changes nothing: the second `put`
/// succeeds and leaves every blob as it was.
pub proof fn lemma_put_twice(files: Files, base: Seq<char>, schema: Schema, v: ValueView)
    requires
        spec_put(files, base, schema, v).1 is Ok,
    ensures
        spec_put(spec_put(files, base, schema, v).0, base, schema, v) == (
            spec_put(files, base, schema, v).0,
            Ok::<(), ErrorView>(()),
        ),
{
}

/// A `put` that succeeded leaves the blob of the value under its name.
pub proof fn lemma_put_stores(files: Files, base: Seq<char>, schema: Schema, v: ValueView)
    requires
        spec_put(files, base, schema, v).1 is Ok,
    ensures
        spec_put(files, base, schema, v).0.contains_key(name_of(base, v)),
{
}

} // verus!
