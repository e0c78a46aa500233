//! Reading a value back: the envelope, the payload of each kind of value,
//! and the children that a payload names by their hashes.

use crate::btreemap::{dict_from, dict_insert};
use crate::fallback::spec_lift;
use crate::hash::Hash32;
use crate::hashio::{short_read, ErrorView, HashIOError, IoFault};
use crate::hashio_model::{
    dispatchable, parsed_prims, prims_width, read_prims, spec_dispatch, type_hash_valid,
    type_too_large, version_valid, Conversion, Dispatch, RecordSchema, Schema,
};
use crate::hashiofile::{spec_filename, HashIOFile};
use crate::io::{u32_from_be, ByteReader};
use crate::string::{parse_string, spec_parse_str};
use crate::value::{entry_views, lemma_view, views, MapEntry, Value, ValueView};
use crate::vec::{collect, collection_header, first_err, read_header};
use std::rc::Rc;
use vstd::prelude::*;

verus! {

/// The blobs of a store by name.
pub type Files = Map<Seq<char>, Seq<u8>>;

/// What a read comes to.
pub type Outcome = Result<ValueView, ErrorView>;

/// The error of a record parser that was given no type hash.
pub open spec fn none_type() -> ErrorView {
    ErrorView::Undefined("None type received"@)
}

/// The hash at position `i` of a run of hashes.
pub open spec fn hash_at(bytes: Seq<u8>, i: int) -> Seq<u8> {
    bytes.subrange(32 * i, 32 * i + 32)
}

/// The entries that a flat run of keys and values stands for.
pub open spec fn pairs_of(flat: Seq<ValueView>) -> Seq<(ValueView, ValueView)> {
    Seq::new(flat.len() / 2, |i: int| (flat[2 * i], flat[2 * i + 1]))
}

/// What reading each of the `n` items of a sequence comes to: a hash that
/// the payload is too short for is an I/O error, any other is looked up.
pub open spec fn list_results(
    files: Files,
    base: Seq<char>,
    parent: Schema,
    n: nat,
    bytes: Seq<u8>,
) -> Seq<Outcome>
    decreases parent, 1nat,
{
    Seq::new(
        n,
        |i: int|
            if 0 <= i < n && bytes.len() >= 32 * (i + 1) {
                match parent {
                    Schema::List(item) => spec_get(files, base, *item, hash_at(bytes, i)),
                    _ => Err(short_read()),
                }
            } else {
                Err(short_read())
            },
    )
}

/// What reading each key and each value of a map of `n` entries comes to,
/// in the order in which they are stored: key, value, key, value.
pub open spec fn dict_results(
    files: Files,
    base: Seq<char>,
    parent: Schema,
    n: nat,
    bytes: Seq<u8>,
) -> Seq<Outcome>
    decreases parent, 1nat,
{
    Seq::new(
        2 * n,
        |i: int|
            if 0 <= i < 2 * n && bytes.len() >= 32 * (i + 1) {
                match parent {
                    Schema::Dict(key, value) => if i % 2 == 0 {
                        spec_get(files, base, *key, hash_at(bytes, i))
                    } else {
                        spec_get(files, base, *value, hash_at(bytes, i))
                    },
                    _ => Err(short_read()),
                }
            } else {
                Err(short_read())
            },
    )
}

/// What reading each child of a record comes to.
pub open spec fn record_results(
    files: Files,
    base: Seq<char>,
    r: RecordSchema,
    bytes: Seq<u8>,
) -> Seq<Outcome>
    decreases r, 1nat,
{
    Seq::new(
        r.children@.len(),
        |i: int|
            if 0 <= i < r.children@.len() && bytes.len() >= 32 * (i + 1) {
                spec_get(files, base, r.children@[i].schema, hash_at(bytes, i))
            } else {
                Err(short_read())
            },
    )
}

/// The record that a payload holds: its primitive fields in the order of
/// the declaration, then its children, each looked up by its hash.
pub open spec fn parse_fields(files: Files, base: Seq<char>, r: RecordSchema, bytes: Seq<u8>) -> Outcome
    decreases r, 3nat,
{
    if bytes.len() < prims_width(r.prims@) {
        Err(short_read())
    } else {
        match collect(record_results(files, base, r, bytes.skip(prims_width(r.prims@) as int))) {
            Err(e) => Err(e),
            Ok(children) => Ok(ValueView::Record(parsed_prims(r.prims@, bytes), children)),
        }
    }
}

/// The record that a payload of an older shape holds, lifted.
pub open spec fn parse_older(files: Files, base: Seq<char>, conv: Conversion, bytes: Seq<u8>) -> Outcome
    decreases conv, 4nat,
{
    match parse_fields(files, base, *conv.older, bytes) {
        Err(e) => Err(e),
        Ok(old) => spec_lift(conv, old),
    }
}

/// The value that a payload holds. A record is read by the shape that the
/// type hash names: its own, or a declared older one, whose record is then
/// lifted.
pub open spec fn spec_parse(
    files: Files,
    base: Seq<char>,
    schema: Schema,
    bytes: Seq<u8>,
    type_hash: Option<Seq<u8>>,
) -> Outcome
    decreases schema, 5nat,
{
    match schema {
        Schema::Str => match spec_parse_str(bytes) {
            Err(e) => Err(e),
            Ok(s) => Ok(ValueView::Str(s)),
        },
        Schema::List(_) => match collection_header(bytes) {
            Err(e) => Err(e),
            Ok(n) => match collect(list_results(files, base, schema, n as nat, bytes.skip(8))) {
                Err(e) => Err(e),
                Ok(items) => Ok(ValueView::List(items)),
            },
        },
        Schema::Dict(_, _) => match collection_header(bytes) {
            Err(e) => Err(e),
            Ok(n) => match collect(dict_results(files, base, schema, n as nat, bytes.skip(8))) {
                Err(e) => Err(e),
                Ok(flat) => Ok(ValueView::Dict(dict_from(pairs_of(flat), n as nat))),
            },
        },
        Schema::Record(record) => match type_hash {
            None => Err(none_type()),
            Some(t) => if !dispatchable(*record) {
                Err(type_too_large())
            } else {
                match spec_dispatch(*record, t) {
                    Dispatch::Current => parse_fields(files, base, *record, bytes),
                    Dispatch::Older(k) => if k < record.fallbacks@.len() {
                        parse_older(files, base, record.fallbacks@[k as int], bytes)
                    } else {
                        Err(ErrorView::TypeError(t))
                    },
                    Dispatch::Unknown => Err(ErrorView::TypeError(t)),
                }
            },
        },
    }
}

/// The value that a blob without a known version holds: read as the shape
/// that the record declares for such blobs, and lifted.
pub open spec fn spec_fallback_parse(
    files: Files,
    base: Seq<char>,
    schema: Schema,
    bytes: Seq<u8>,
) -> Outcome
    decreases schema, 5nat,
{
    match schema {
        Schema::Record(record) => match record.plain_fallback {
            Some(conv) => parse_older(files, base, conv, bytes),
            None => Err(ErrorView::FallbackNotSupported),
        },
        _ => Err(ErrorView::FallbackNotSupported),
    }
}

/// What `get` comes to on the blob that is stored for a hash.
pub open spec fn spec_read(files: Files, base: Seq<char>, schema: Schema, blob: Seq<u8>) -> Outcome
    decreases schema, 6nat,
{
    match schema {
        Schema::Record(record) => if blob.len() < 4 {
            Err(short_read())
        } else if u32_from_be(blob) != 1 {
            match spec_fallback_parse(files, base, schema, blob.skip(4)) {
                Err(ErrorView::FallbackNotSupported) => Err(
                    ErrorView::VersionError(u32_from_be(blob)),
                ),
                other => other,
            }
        } else if blob.len() < 36 {
            Err(short_read())
        } else if !dispatchable(*record) {
            Err(type_too_large())
        } else if !type_hash_valid(*record, blob.subrange(4, 36)) {
            Err(ErrorView::TypeError(blob.subrange(4, 36)))
        } else {
            spec_parse(files, base, schema, blob.skip(36), Some(blob.subrange(4, 36)))
        },
        _ => spec_parse(files, base, schema, blob, None),
    }
}

/// What `get` comes to: the value of type `schema` that is stored under
/// `hash`. A blob that is missing is an I/O error. A record is stored behind
/// an envelope of a version and a type hash; a version other than 1 hands
/// the rest to the fallback parser, and is a version error where the record
/// declares none; a type hash that the record does not recognise is a type
/// error.
pub open spec fn spec_get(files: Files, base: Seq<char>, schema: Schema, hash: Seq<u8>) -> Outcome
    decreases schema, 7nat,
{
    if !files.contains_key(spec_filename(base, hash)) {
        Err(ErrorView::IOError(IoFault::NotFound))
    } else {
        spec_read(files, base, schema, files[spec_filename(base, hash)])
    }
}

/// A result of the store as contracts speak of it.
pub open spec fn outcome_of(r: Result<Rc<Value>, HashIOError>) -> Outcome {
    match r {
        Ok(v) => Ok((*v)@),
        Err(e) => Err(e@),
    }
}

/// A result of a record parser as contracts speak of it.
pub open spec fn record_outcome(r: Result<Value, HashIOError>) -> Outcome {
    match r {
        Ok(v) => Ok(v@),
        Err(e) => Err(e@),
    }
}

/// The bytes of a hash that may be absent.
pub open spec fn opt_view(h: Option<Hash32>) -> Option<Seq<u8>> {
    match h {
        Some(x) => Some(x@),
        None => None,
    }
}

/// What reading the next hash and looking it up comes to.
pub open spec fn fetch_result(files: Files, base: Seq<char>, schema: Schema, bytes: Seq<u8>) -> Outcome {
    if bytes.len() >= 32 {
        spec_get(files, base, schema, bytes.subrange(0, 32))
    } else {
        Err(short_read())
    }
}

impl HashIOFile {
    /// Reads the next hash and looks up the value of type `schema` that is
    /// stored under it.
    pub fn fetch(&self, schema: &Schema, reader: &mut ByteReader) -> (r: Result<
        Rc<Value>,
        HashIOError,
    >)
        ensures
            outcome_of(r) == fetch_result(
                self@.files,
                self@.base_path,
                *schema,
                old(reader).remaining(),
            ),
            final(reader).remaining() == if old(reader).remaining().len() >= 32 {
                old(reader).remaining().skip(32)
            } else {
                old(reader).remaining()
            },
        decreases schema, 8nat,
    {
        match reader.read_hash() {
            Ok(hash) => self.load(schema, &hash),
            Err(e) => Err(e),
        }
    }

    /// The value of type `schema` that is stored under `hash`.
    pub fn load(&self, schema: &Schema, hash: &Hash32) -> (r: Result<Rc<Value>, HashIOError>)
        ensures
            outcome_of(r) == spec_get(self@.files, self@.base_path, *schema, hash@),
        decreases schema, 7nat,
    {
        let name = self.filename_for_hash(hash);
        let blob = match self.read(name.as_str()) {
            Ok(b) => b,
            Err(e) => {
                return Err(e);
            },
        };
        match schema {
            Schema::Record(record) => {
                let mut reader = ByteReader::new(blob.as_slice());
                let version = match reader.read_u32() {
                    Ok(v) => v,
                    Err(e) => {
                        return Err(e);
                    },
                };
                if !version_valid(version) {
                    let rest = vstd::slice::slice_subrange(blob.as_slice(), 4, blob.len());
                    assert(rest@ =~= blob@.skip(4));
                    return match schema.parse_legacy(self, rest) {
                        Err(HashIOError::FallbackNotSupported) => Err(
                            HashIOError::VersionError(version),
                        ),
                        other => other,
                    };
                }
                let type_hash = match reader.read_hash() {
                    Ok(h) => h,
                    Err(e) => {
                        return Err(e);
                    },
                };
                assert(type_hash@ =~= blob@.subrange(4, 36));
                match record.try_type_hash_valid(&type_hash) {
                    Ok(true) => {},
                    Ok(false) => {
                        return Err(HashIOError::TypeError(type_hash));
                    },
                    Err(e) => {
                        return Err(e);
                    },
                }
                let rest = vstd::slice::slice_subrange(blob.as_slice(), 36, blob.len());
                assert(rest@ =~= blob@.skip(36));
                schema.parse_payload(self, rest, &Some(type_hash))
            },
            _ => schema.parse_payload(self, blob.as_slice(), &None),
        }
    }
}

impl RecordSchema {
    /// Reads a record of this shape from its payload, its children from
    /// `hash_io`.
    #[verifier::loop_isolation(false)]
    pub fn parse_fields(&self, hash_io: &HashIOFile, bytes: &[u8]) -> (r: Result<Value, HashIOError>)
        ensures
            record_outcome(r) == parse_fields(hash_io@.files, hash_io@.base_path, *self, bytes@),
        decreases self, 3nat,
    {
        let mut reader = ByteReader::new(bytes);
        let prims = match read_prims(&self.prims, &mut reader) {
            Ok(p) => p,
            Err(e) => {
                return Err(e);
            },
        };
        let ghost rest = reader.remaining();
        let ghost results = record_results(hash_io@.files, hash_io@.base_path, *self, rest);
        let mut children: Vec<Rc<Value>> = Vec::new();
        let mut i: usize = 0;
        assert(rest.skip(0) =~= rest);
        while i < self.children.len()
            invariant
                i <= self.children@.len(),
                children@.len() == i,
                rest.len() >= 32 * i,
                reader.remaining() == rest.skip(32 * i),
                first_err(results, 0) == first_err(results, i as int),
                forall|k: int| 0 <= k < i ==> results[k] == Ok::<ValueView, ErrorView>((*children@[k])@),
            decreases self.children@.len() - i,
        {
            let ghost before = reader.remaining();
            assert(before.len() >= 32 ==> before.subrange(0, 32) =~= hash_at(rest, i as int));
            match hash_io.fetch(&self.children[i].schema, &mut reader) {
                Ok(v) => {
                    children.push(v);
                    assert(reader.remaining() =~= rest.skip(32 * (i + 1)));
                },
                Err(e) => {
                    assert(results[i as int] == Err::<ValueView, ErrorView>(e@));
                    return Err(e);
                },
            }
            i += 1;
        }
        let value = Value::Record(prims, children);
        proof {
            lemma_view(&value);
            assert(views(children@) =~= collect(results)->Ok_0);
        }
        Ok(value)
    }
}

impl Conversion {
    /// Reads a record of the older shape from its payload and lifts it.
    pub fn parse_older(&self, hash_io: &HashIOFile, bytes: &[u8]) -> (r: Result<Value, HashIOError>)
        ensures
            record_outcome(r) == parse_older(hash_io@.files, hash_io@.base_path, *self, bytes@),
        decreases self, 4nat,
    {
        match self.older.parse_fields(hash_io, bytes) {
            Ok(old) => self.apply(&old),
            Err(e) => Err(e),
        }
    }
}

impl Schema {
    /// Reads a sequence from its payload, its items from `hash_io`.
    #[verifier::loop_isolation(false)]
    fn parse_list(&self, item: &Schema, hash_io: &HashIOFile, bytes: &[u8]) -> (r: Result<
        Rc<Value>,
        HashIOError,
    >)
        requires
            *self matches Schema::List(x) && *x == *item,
        ensures
            forall|t: Option<Seq<u8>>|
                outcome_of(r) == #[trigger] spec_parse(
                    hash_io@.files,
                    hash_io@.base_path,
                    *self,
                    bytes@,
                    t,
                ),
        decreases self, 4nat,
    {
        let mut reader = ByteReader::new(bytes);
        let n = match read_header(&mut reader) {
            Ok(n) => n,
            Err(e) => {
                return Err(e);
            },
        };
        let ghost rest = reader.remaining();
        let ghost results = list_results(
            hash_io@.files,
            hash_io@.base_path,
            *self,
            n as nat,
            rest,
        );
        let mut items: Vec<Rc<Value>> = Vec::new();
        let mut i: u32 = 0;
        assert(rest.skip(0) =~= rest);
        while i < n
            invariant
                i <= n,
                items@.len() == i,
                rest.len() >= 32 * i,
                reader.remaining() == rest.skip(32 * i),
                first_err(results, 0) == first_err(results, i as int),
                forall|k: int|
                    0 <= k < i ==> results[k] == Ok::<ValueView, ErrorView>((*items@[k])@),
            decreases n - i,
        {
            let ghost before = reader.remaining();
            assert(before.len() >= 32 ==> before.subrange(0, 32) =~= hash_at(rest, i as int));
            match hash_io.fetch(item, &mut reader) {
                Ok(v) => {
                    items.push(v);
                    assert(reader.remaining() =~= rest.skip(32 * (i + 1)));
                },
                Err(e) => {
                    assert(results[i as int] == Err::<ValueView, ErrorView>(e@));
                    return Err(e);
                },
            }
            i += 1;
        }
        let value = Value::List(items);
        proof {
            lemma_view(&value);
            assert(views(items@) =~= collect(results)->Ok_0);
        }
        Ok(Rc::new(value))
    }

    /// Reads a map from its payload, its keys and values from `hash_io`.
    #[verifier::loop_isolation(false)]
    fn parse_dict(
        &self,
        key_schema: &Schema,
        value_schema: &Schema,
        hash_io: &HashIOFile,
        bytes: &[u8],
    ) -> (r: Result<Rc<Value>, HashIOError>)
        requires
            *self matches Schema::Dict(k, v) && *k == *key_schema && *v == *value_schema,
        ensures
            forall|t: Option<Seq<u8>>|
                outcome_of(r) == #[trigger] spec_parse(
                    hash_io@.files,
                    hash_io@.base_path,
                    *self,
                    bytes@,
                    t,
                ),
        decreases self, 4nat,
    {
        let mut reader = ByteReader::new(bytes);
        let n = match read_header(&mut reader) {
            Ok(n) => n,
            Err(e) => {
                return Err(e);
            },
        };
        let ghost rest = reader.remaining();
        let ghost results = dict_results(
            hash_io@.files,
            hash_io@.base_path,
            *self,
            n as nat,
            rest,
        );
        let ghost flat = Seq::new(results.len(), |i: int| results[i]->Ok_0);
        let ghost pairs = pairs_of(flat);
        let mut entries: Vec<MapEntry> = Vec::new();
        let mut i: u32 = 0;
        assert(rest.skip(0) =~= rest);
        assert(entry_views(entries@) =~= dict_from(pairs, 0));
        while i < n
            invariant
                i <= n,
                rest.len() >= 64 * i,
                reader.remaining() == rest.skip(64 * i),
                first_err(results, 0) == first_err(results, 2 * i),
                entry_views(entries@) == dict_from(pairs, i as nat),
            decreases n - i,
        {
            let ghost before = reader.remaining();
            assert(before.len() >= 32 ==> before.subrange(0, 32) =~= hash_at(rest, 2 * i));
            let key = match hash_io.fetch(key_schema, &mut reader) {
                Ok(v) => v,
                Err(e) => {
                    assert(results[2 * i] == Err::<ValueView, ErrorView>(e@));
                    return Err(e);
                },
            };
            let ghost middle = reader.remaining();
            assert(middle =~= rest.skip(64 * i + 32));
            assert(middle.len() >= 32 ==> middle.subrange(0, 32) =~= hash_at(
                rest,
                2 * i + 1,
            ));
            assert(results[2 * i] is Ok);
            let value = match hash_io.fetch(value_schema, &mut reader) {
                Ok(v) => v,
                Err(e) => {
                    assert(results[2 * i + 1] == Err::<ValueView, ErrorView>(e@));
                    assert(first_err(results, 2 * i) == first_err(results, 2 * i + 1));
                    return Err(e);
                },
            };
            assert(reader.remaining() =~= rest.skip(64 * (i + 1)));
            assert(first_err(results, 2 * i) == first_err(results, 2 * i + 1));
            assert(first_err(results, 2 * i + 1) == first_err(results, 2 * i + 2));
            assert(pairs[i as int] == ((*key)@, (*value)@));
            dict_insert(&mut entries, key, value);
            i += 1;
        }
        let result = Value::Dict(entries);
        proof {
            lemma_view(&result);
            assert(collect(results)->Ok_0 =~= flat);
        }
        Ok(Rc::new(result))
    }

    /// Reads a value of this type from its payload, its children from
    /// `hash_io`. A record is read by the shape that `type_hash` names.
    #[verifier::loop_isolation(false)]
    pub fn parse_payload(&self, hash_io: &HashIOFile, bytes: &[u8], type_hash: &Option<Hash32>) -> (r: Result<
        Rc<Value>,
        HashIOError,
    >)
        ensures
            outcome_of(r) == spec_parse(
                hash_io@.files,
                hash_io@.base_path,
                *self,
                bytes@,
                opt_view(*type_hash),
            ),
        decreases self, 5nat,
    {
        match self {
            Schema::Str => match parse_string(bytes) {
                Ok(s) => {
                    let value = Value::Str(s);
                    proof {
                        lemma_view(&value);
                    }
                    Ok(Rc::new(value))
                },
                Err(e) => Err(e),
            },
            Schema::List(item) => self.parse_list(item, hash_io, bytes),
            Schema::Dict(key_schema, value_schema) => self.parse_dict(
                key_schema,
                value_schema,
                hash_io,
                bytes,
            ),
            Schema::Record(record) => {
                let t = match type_hash {
                    None => {
                        return Err(HashIOError::Undefined("None type received".to_string()));
                    },
                    Some(t) => t,
                };
                let found = match record.dispatch(t) {
                    Ok(d) => d,
                    Err(e) => {
                        return Err(e);
                    },
                };
                let parsed = match found {
                    Dispatch::Current => record.parse_fields(hash_io, bytes),
                    Dispatch::Older(k) => {
                        if k < record.fallbacks.len() {
                            record.fallbacks[k].parse_older(hash_io, bytes)
                        } else {
                            Err(HashIOError::TypeError(*t))
                        }
                    },
                    Dispatch::Unknown => Err(HashIOError::TypeError(*t)),
                };
                match parsed {
                    Ok(v) => Ok(Rc::new(v)),
                    Err(e) => Err(e),
                }
            },
        }
    }

    /// Reads a value of this type from what follows a version that is not
    /// known: by the shape that the record declares for such blobs.
    pub fn parse_legacy(&self, hash_io: &HashIOFile, bytes: &[u8]) -> (r: Result<
        Rc<Value>,
        HashIOError,
    >)
        ensures
            outcome_of(r) == spec_fallback_parse(
                hash_io@.files,
                hash_io@.base_path,
                *self,
                bytes@,
            ),
        decreases self, 5nat,
    {
        match self {
            Schema::Record(record) => match &record.plain_fallback {
                Some(conv) => match conv.parse_older(hash_io, bytes) {
                    Ok(v) => Ok(Rc::new(v)),
                    Err(e) => Err(e),
                },
                None => Err(HashIOError::FallbackNotSupported),
            },
            _ => Err(HashIOError::FallbackNotSupported),
        }
    }
}

/// A record blob of a version other than 1 is a version error where the
/// record declares no shape for such blobs.
pub proof fn lemma_unknown_version(files: Files, base: Seq<char>, schema: Schema, blob: Seq<u8>)
    requires
        schema matches Schema::Record(record) && record.plain_fallback is None,
        blob.len() >= 4,
        u32_from_be(blob) != 1,
    ensures
        spec_read(files, base, schema, blob) == Err::<ValueView, ErrorView>(
            ErrorView::VersionError(u32_from_be(blob)),
        ),
{
}

/// A record blob of a version other than 1 is read by the shape that the
/// record declares for such blobs, where it declares one: what comes out is
/// what that reading comes to.
pub proof fn lemma_version_fallback(files: Files, base: Seq<char>, schema: Schema, blob: Seq<u8>)
    requires
        schema matches Schema::Record(record) && record.plain_fallback is Some,
        blob.len() >= 4,
        u32_from_be(blob) != 1,
        parse_older(files, base, schema->Record_0.plain_fallback->Some_0, blob.skip(4))
            != Err::<ValueView, ErrorView>(ErrorView::FallbackNotSupported),
    ensures
        spec_read(files, base, schema, blob) == parse_older(
            files,
            base,
            schema->Record_0.plain_fallback->Some_0,
            blob.skip(4),
        ),
{
}

/// A record blob of version 1 whose type hash the record does not
/// recognise is a type error.
pub proof fn lemma_unknown_type_hash(files: Files, base: Seq<char>, schema: Schema, blob: Seq<u8>)
    requires
        schema matches Schema::Record(record) && dispatchable(*record) && !type_hash_valid(
            *record,
            blob.subrange(4, 36),
        ),
        blob.len() >= 36,
        u32_from_be(blob) == 1,
    ensures
        spec_read(files, base, schema, blob) == Err::<ValueView, ErrorView>(
            ErrorView::TypeError(blob.subrange(4, 36)),
        ),
{
}

/// A record blob that ends within its envelope is an I/O error.
pub proof fn lemma_short_envelope(files: Files, base: Seq<char>, schema: Schema, blob: Seq<u8>)
    requires
        schema is Record,
        blob.len() < 4 || (u32_from_be(blob) == 1 && blob.len() < 36),
    ensures
        spec_read(files, base, schema, blob) == Err::<ValueView, ErrorView>(short_read()),
{
}

/// A hash under which nothing is stored is an I/O error.
pub proof fn lemma_missing_blob(files: Files, base: Seq<char>, schema: Schema, hash: Seq<u8>)
    requires
        !files.contains_key(spec_filename(base, hash)),
    ensures
        spec_get(files, base, schema, hash) == Err::<ValueView, ErrorView>(
            ErrorView::IOError(IoFault::NotFound),
        ),
{
}

} // verus!
