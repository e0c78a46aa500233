//! A blob that was cut short is an I/O error, wherever it was cut.

use crate::hashio::{short_read, ErrorView};
use crate::hashio_model::{prims_width, schema_hash, spec_dispatch, Dispatch, Schema};
use crate::hashiotype::ObjectView;
use crate::io::{be_u32, lemma_be_u32_round_trip, lemma_u32_from_be_prefix};
use crate::load::{
    dict_results, hash_at, list_results, parse_fields, record_results, spec_get, spec_parse,
    spec_read, Files, Outcome,
};
use crate::round_trip::{
    child_of, children_read_back, holds, lemma_child_encodable, lemma_concat_fixed,
    lemma_entry_hash_at, lemma_header_round_trip, lemma_prims_round_trip, lemma_read_back,
    name_of, storable,
};
use crate::save::{blob_of, child_count};
use crate::value::{
    concat, content_hash, encodable, entry_hashes, hashes_of, value_bytes, ValueView,
};
use crate::vec::{collection_header, first_err};
use vstd::prelude::*;

verus! {

/// Where the items before position `m` were read and the one at `m` fails,
/// its error is what comes out.
pub proof fn lemma_first_err_at(results: Seq<Outcome>, i: int, m: int, e: ErrorView)
    requires
        0 <= i <= m < results.len(),
        forall|k: int| i <= k < m ==> (#[trigger] results[k]) is Ok,
        results[m] == Err::<ValueView, ErrorView>(e),
    ensures
        first_err(results, i) == Some(e),
    decreases m - i,
{
    if i < m {
        lemma_first_err_at(results, i + 1, m, e);
    }
}

/// Whether the store holds each child of the value. Of the blob of the
/// value itself nothing is asked.
pub open spec fn children_held(files: Files, base: Seq<char>, o: ObjectView) -> bool {
    forall|i: int|
        0 <= i < child_count(o.value) ==> holds(files, base, #[trigger] child_of(o, i))
}

/// The children of a value are read back where the store holds them.
pub proof fn lemma_children_read_back(files: Files, base: Seq<char>, o: ObjectView)
    requires
        children_held(files, base, o),
        storable(o),
        encodable(o.value),
    ensures
        children_read_back(files, base, o),
{
    reveal(children_read_back);
    assert forall|i: int| 0 <= i < child_count(o.value) implies spec_get(
        files,
        base,
        (#[trigger] child_of(o, i)).schema,
        content_hash(child_of(o, i).value),
    ) == Ok::<ValueView, ErrorView>(child_of(o, i).value) by {
        lemma_child_encodable(o, i);
        lemma_read_back(files, base, child_of(o, i));
    }
}

/// The header of a collection that was cut within it is an I/O error.
pub proof fn lemma_cut_header(n: u32, rest: Seq<u8>, k: int)
    requires
        0 <= k < 8,
    ensures
        collection_header((be_u32(0) + be_u32(n) + rest).take(k)) == Err::<u32, ErrorView>(
            short_read(),
        ),
{
    let bytes = be_u32(0) + be_u32(n) + rest;
    lemma_be_u32_round_trip(0);
    lemma_be_u32_round_trip(n);
    if k >= 4 {
        assert(bytes.take(k) =~= be_u32(0) + (be_u32(n) + rest).take(k - 4));
        lemma_u32_from_be_prefix(be_u32(0), (be_u32(n) + rest).take(k - 4));
    }
}

/// The header of a collection that was cut behind it is read as it was
/// written.
pub proof fn lemma_kept_header(n: u32, rest: Seq<u8>, k: int)
    requires
        8 <= k <= 8 + rest.len(),
    ensures
        collection_header((be_u32(0) + be_u32(n) + rest).take(k)) == Ok::<u32, ErrorView>(n),
        (be_u32(0) + be_u32(n) + rest).take(k).skip(8) == rest.take(k - 8),
{
    let bytes = be_u32(0) + be_u32(n) + rest;
    lemma_be_u32_round_trip(0);
    lemma_be_u32_round_trip(n);
    lemma_header_round_trip(n, rest.take(k - 8));
    assert(bytes.take(k) =~= be_u32(0) + be_u32(n) + rest.take(k - 8));
}

/// A sequence whose payload was cut short is an I/O error.
pub proof fn lemma_cut_list(files: Files, base: Seq<char>, o: ObjectView, k: int)
    requires
        o.schema is List,
        o.value is List,
        encodable(o.value),
        children_read_back(files, base, o),
        0 <= k < value_bytes(o.value).len(),
    ensures
        spec_parse(files, base, o.schema, value_bytes(o.value).take(k), None) == Err::<
            ValueView,
            ErrorView,
        >(short_read()),
{
    reveal(children_read_back);
    let items = o.value->List_0;
    let n = items.len();
    let hashes = hashes_of(items);
    let rest = concat(hashes);
    lemma_be_u32_round_trip(0);
    lemma_be_u32_round_trip(n as u32);
    if k < 8 {
        lemma_cut_header(n as u32, rest, k);
    } else {
        lemma_kept_header(n as u32, rest, k);
        let cut = rest.take(k - 8);
        let m = (k - 8) / 32;
        if n > 0 {
            lemma_concat_fixed(hashes, 32, 0);
        }
        assert(rest.len() == 32 * n) by {
            if n == 0 {
            }
        }
        let results = list_results(files, base, o.schema, n, cut);
        assert forall|i: int| 0 <= i < m implies (#[trigger] results[i]) is Ok by {
            lemma_concat_fixed(hashes, 32, i);
            assert(hash_at(cut, i) =~= hash_at(rest, i));
            assert(child_of(o, i).value == items[i]);
        }
        lemma_first_err_at(results, 0, m, short_read());
    }
}

/// A map whose payload was cut short is an I/O error.
pub proof fn lemma_cut_dict(files: Files, base: Seq<char>, o: ObjectView, k: int)
    requires
        o.schema is Dict,
        o.value is Dict,
        encodable(o.value),
        children_read_back(files, base, o),
        0 <= k < value_bytes(o.value).len(),
    ensures
        spec_parse(files, base, o.schema, value_bytes(o.value).take(k), None) == Err::<
            ValueView,
            ErrorView,
        >(short_read()),
{
    reveal(children_read_back);
    let entries = o.value->Dict_0;
    let n = entries.len();
    let rest = concat(entry_hashes(entries));
    lemma_be_u32_round_trip(0);
    lemma_be_u32_round_trip(n as u32);
    if k < 8 {
        lemma_cut_header(n as u32, rest, k);
    } else {
        if n > 0 {
            lemma_entry_hash_at(entries, 0);
        }
        lemma_kept_header(n as u32, rest, k);
        let cut = rest.take(k - 8);
        let m = (k - 8) / 32;
        let results = dict_results(files, base, o.schema, n, cut);
        assert forall|j: int| 0 <= j < m implies (#[trigger] results[j]) is Ok by {
            lemma_entry_hash_at(entries, j);
            assert(hash_at(cut, j) =~= hash_at(rest, j));
            assert(child_of(o, j).value == if j % 2 == 0 {
                entries[j / 2].0
            } else {
                entries[j / 2].1
            });
        }
        lemma_first_err_at(results, 0, m, short_read());
    }
}

/// A record whose payload was cut short is an I/O error.
pub proof fn lemma_cut_record(files: Files, base: Seq<char>, o: ObjectView, k: int)
    requires
        o.schema is Record,
        crate::save::fits(o.schema, o.value),
        encodable(o.value),
        children_read_back(files, base, o),
        0 <= k < value_bytes(o.value).len(),
    ensures
        parse_fields(files, base, *o.schema->Record_0, value_bytes(o.value).take(k)) == Err::<
            ValueView,
            ErrorView,
        >(short_read()),
{
    reveal(children_read_back);
    let record = *o.schema->Record_0;
    let prims = o.value->Record_0;
    let children = o.value->Record_1;
    let hashes = hashes_of(children);
    let rest = concat(hashes);
    let width = prims_width(record.prims@) as int;
    let bytes = value_bytes(o.value).take(k);
    lemma_prims_round_trip(record.prims@, prims, rest);
    if k >= width {
        let cut = rest.take(k - width);
        assert(bytes.skip(width) =~= cut);
        let m = (k - width) / 32;
        if children.len() > 0 {
            lemma_concat_fixed(hashes, 32, 0);
        }
        let results = record_results(files, base, record, cut);
        assert forall|i: int| 0 <= i < m implies (#[trigger] results[i]) is Ok by {
            lemma_concat_fixed(hashes, 32, i);
            assert(hash_at(cut, i) =~= hash_at(rest, i));
            assert(child_of(o, i).value == children[i]);
        }
        lemma_first_err_at(results, 0, m, short_read());
    }
}

/// The blob of a value whose children the store holds, cut short anywhere,
/// is an I/O error to read.
pub proof fn lemma_truncated_blob(files: Files, base: Seq<char>, o: ObjectView, k: int)
    requires
        children_held(files, base, o),
        storable(o),
        encodable(o.value),
        0 <= k < blob_of(o.schema, o.value).len(),
    ensures
        spec_read(files, base, o.schema, blob_of(o.schema, o.value).take(k)) == Err::<
            ValueView,
            ErrorView,
        >(short_read()),
{
    lemma_children_read_back(files, base, o);
    let blob = blob_of(o.schema, o.value);
    let payload = value_bytes(o.value);
    match o.schema {
        Schema::Str => {
            let s = o.value->Str_0;
            let raw = vstd::utf8::encode_utf8(s);
            lemma_be_u32_round_trip(raw.len() as u32);
            if k >= 4 {
                assert(blob.take(k) =~= be_u32(raw.len() as u32) + raw.take(k - 4));
                lemma_u32_from_be_prefix(be_u32(raw.len() as u32), raw.take(k - 4));
            }
        },
        Schema::List(_) => {
            lemma_cut_list(files, base, o, k);
        },
        Schema::Dict(_, _) => {
            lemma_cut_dict(files, base, o, k);
        },
        Schema::Record(_) => {
            let t = schema_hash(o.schema);
            lemma_be_u32_round_trip(1);
            assert(blob =~= be_u32(1) + (t + payload));
            if k >= 4 {
                assert(blob.take(k) =~= be_u32(1) + (t + payload).take(k - 4));
                lemma_u32_from_be_prefix(be_u32(1), (t + payload).take(k - 4));
            }
            if k >= 36 {
                assert(blob.take(k).subrange(4, 36) =~= t);
                assert(blob.take(k).skip(36) =~= payload.take(k - 36));
                assert(spec_dispatch(*o.schema->Record_0, t) == Dispatch::Current);
                lemma_cut_record(files, base, o, k - 36);
            }
        },
    }
}

/// A value whose blob was cut short under its own name, its children
/// intact, is an I/O error to `get`.
pub proof fn lemma_truncated_get(files: Files, base: Seq<char>, o: ObjectView, k: int)
    requires
        children_held(files, base, o),
        storable(o),
        encodable(o.value),
        0 <= k < blob_of(o.schema, o.value).len(),
        files.contains_key(name_of(base, o.value)),
        files[name_of(base, o.value)] == blob_of(o.schema, o.value).take(k),
    ensures
        spec_get(files, base, o.schema, content_hash(o.value)) == Err::<ValueView, ErrorView>(
            short_read(),
        ),
{
    lemma_truncated_blob(files, base, o, k);
}

} // verus!
