//! Writing a value: its children first, then its own blob, under a
//! temporary name until it is complete.

use crate::btreemap::{ascending, sorted};
use crate::hash::Hash32;
use crate::hashio::{ErrorView, HashIO, HashIOError, HashIOParse};
use crate::hashio_model::{dispatchable, type_hash_valid, version_valid};
use crate::load::{spec_fallback_parse, spec_parse};
use crate::hashio_model::{
    record_hash, record_hashable, type_too_large, PrimField, PrimValue, RecordSchema, Schema,
};
use crate::hash::hex_of;
use crate::hashiofile::{spec_directory, spec_filename, spec_temp_name, HashIOFile};
use crate::io::{be_u32, write_hash, write_u32};
use crate::load::Files;
use crate::round_trip::extends;
use crate::value::{
    content_hash, encodable, entry_views, lemma_view, too_large, value_bytes, MapEntry, Value,
    ValueView,
};
use std::rc::Rc;
use vstd::prelude::*;

verus! {

/// What a write comes to: the blobs afterwards, and whether it succeeded.
pub type Written = (Files, Result<(), ErrorView>);

/// The error for a value that is not of the type it is stored as.
pub open spec fn mismatch() -> ErrorView {
    ErrorView::Undefined("value does not match its type"@)
}

/// The error for a value that is not of the type it is stored as.
fn mismatch_error() -> (e: HashIOError)
    ensures
        e@ == mismatch(),
{
    HashIOError::Undefined("value does not match its type".to_string())
}

/// The envelope in front of the payload of a record: the version 1, then
/// the type hash.
pub open spec fn envelope(type_hash: Seq<u8>) -> Seq<u8> {
    be_u32(1) + type_hash
}

/// The blob of a value: its canonical bytes, behind an envelope where it is
/// a record.
pub open spec fn blob_of(schema: Schema, v: ValueView) -> Seq<u8> {
    match schema {
        Schema::Record(record) => envelope(record_hash(*record)) + value_bytes(v),
        _ => value_bytes(v),
    }
}

/// Whether the primitive values are of the declared types, in order.
pub open spec fn prims_fit(fields: Seq<PrimField>, prims: Seq<PrimValue>) -> bool {
    &&& prims.len() == fields.len()
    &&& forall|i: int| 0 <= i < prims.len() ==> (#[trigger] prims[i]).kind() == fields[i].kind
}

/// Whether the value is of the kind of the type: as a map has its entries
/// in ascending order of their keys, and as a record has the declared
/// fields. Its children are not looked at.
pub open spec fn fits(schema: Schema, v: ValueView) -> bool {
    match (schema, v) {
        (Schema::Str, ValueView::Str(_)) => true,
        (Schema::List(_), ValueView::List(_)) => true,
        (Schema::Dict(_, _), ValueView::Dict(entries)) => sorted(entries),
        (Schema::Record(record), ValueView::Record(prims, children)) => prims_fit(
            record.prims@,
            prims,
        ) && children.len() == record.children@.len(),
        _ => false,
    }
}

/// The number of children of a value: the items of a sequence, the keys
/// and values of a map, the children of a record.
pub open spec fn child_count(v: ValueView) -> nat {
    match v {
        ValueView::Str(_) => 0,
        ValueView::List(items) => items.len(),
        ValueView::Dict(entries) => 2 * entries.len(),
        ValueView::Record(_, children) => children.len(),
    }
}

/// The blobs once the temporary file was written and renamed.
pub open spec fn written(files: Files, name: Seq<char>, blob: Seq<u8>) -> Files {
    files.insert(spec_temp_name(name), blob).remove(spec_temp_name(name)).insert(name, blob)
}

/// What storing the children from position `i` on comes to: each in turn,
/// in the blobs that the one before left, up to the first that fails.
pub open spec fn put_children(files: Files, base: Seq<char>, schema: Schema, v: ValueView, i: int) -> Written
    decreases v, 1nat, child_count(v) - i,
{
    if i < 0 || i >= child_count(v) {
        (files, Ok(()))
    } else {
        let step = match (schema, v) {
            (Schema::List(item), ValueView::List(items)) => spec_put(files, base, *item, items[i]),
            (Schema::Dict(key, value), ValueView::Dict(entries)) => if i % 2 == 0 {
                spec_put(files, base, *key, entries[i / 2].0)
            } else {
                spec_put(files, base, *value, entries[i / 2].1)
            },
            (Schema::Record(record), ValueView::Record(_, children)) => if i
                < record.children@.len() {
                spec_put(files, base, record.children@[i].schema, children[i])
            } else {
                (files, Err(mismatch()))
            },
            _ => (files, Err(mismatch())),
        };
        if step.1 is Err {
            step
        } else {
            put_children(step.0, base, schema, v, i + 1)
        }
    }
}

/// What `put` comes to. A value that the format cannot hold is refused. A
/// value whose blob is there already changes nothing. Else the children are
/// stored first, then the blob of the value is written under a temporary
/// name and renamed.
pub open spec fn spec_put(files: Files, base: Seq<char>, schema: Schema, v: ValueView) -> Written
    decreases v, 2nat, 0nat,
{
    if !encodable(v) {
        (files, Err(too_large()))
    } else if files.contains_key(spec_filename(base, content_hash(v))) {
        (files, Ok(()))
    } else if !fits(schema, v) {
        (files, Err(mismatch()))
    } else {
        let stored = put_children(files, base, schema, v, 0);
        if stored.1 is Err {
            stored
        } else if schema matches Schema::Record(record) && !record_hashable(*record) {
            (stored.0, Err(type_too_large()))
        } else {
            (written(stored.0, spec_filename(base, content_hash(v)), blob_of(schema, v)), Ok(()))
        }
    }
}

/// The directory in the name of a blob: the base path and the four
/// characters behind it.
pub open spec fn dir_part(base: Seq<char>, name: Seq<char>) -> Seq<char> {
    name.take(base.len() as int + 4)
}

/// Whether a blob of this name is in `after` and not in `before`.
pub open spec fn is_new_blob(base: Seq<char>, before: Files, after: Files, n: Seq<char>) -> bool {
    n.len() == base.len() + 66 && after.contains_key(n) && !before.contains_key(n)
}

/// The directories once blobs were written: those that were there, and
/// the directory of each blob that is new.
pub open spec fn dirs_after(
    base: Seq<char>,
    dirs: Set<Seq<char>>,
    before: Files,
    after: Files,
) -> Set<Seq<char>> {
    Set::new(
        |d: Seq<char>|
            dirs.contains(d) || exists|n: Seq<char>|
                #[trigger] is_new_blob(base, before, after, n) && dir_part(base, n) == d,
    )
}

/// Where no blob is new, the directories are those that were there.
pub proof fn lemma_dirs_unchanged(base: Seq<char>, dirs: Set<Seq<char>>, files: Files)
    ensures
        dirs_after(base, dirs, files, files) == dirs,
{
    assert(dirs_after(base, dirs, files, files) =~= dirs);
}

/// The directories after one write and then another are those after both.
pub proof fn lemma_dirs_compose(
    base: Seq<char>,
    dirs: Set<Seq<char>>,
    first: Files,
    second: Files,
    third: Files,
)
    requires
        extends(base, first, second),
        extends(base, second, third),
    ensures
        extends(base, first, third),
        dirs_after(base, dirs_after(base, dirs, first, second), second, third) == dirs_after(
            base,
            dirs,
            first,
            third,
        ),
{
    let once = dirs_after(base, dirs, first, second);
    let twice = dirs_after(base, once, second, third);
    let both = dirs_after(base, dirs, first, third);
    assert forall|d: Seq<char>| twice.contains(d) == both.contains(d) by {
        if twice.contains(d) && !dirs.contains(d) {
            if once.contains(d) {
                let n = choose|n: Seq<char>|
                    #[trigger] is_new_blob(base, first, second, n) && dir_part(base, n) == d;
                assert(is_new_blob(base, first, third, n));
            } else {
                let n = choose|n: Seq<char>|
                    #[trigger] is_new_blob(base, second, third, n) && dir_part(base, n) == d;
                assert(is_new_blob(base, first, third, n));
            }
        }
        if both.contains(d) && !dirs.contains(d) {
            let n = choose|n: Seq<char>|
                #[trigger] is_new_blob(base, first, third, n) && dir_part(base, n) == d;
            if second.contains_key(n) {
                assert(is_new_blob(base, first, second, n));
            } else {
                assert(is_new_blob(base, second, third, n));
            }
        }
    }
    assert(twice =~= both);
}

/// The directories after the blob of a value was written under a name that
/// was free are those before and the directory of the blob.
pub proof fn lemma_dirs_written(
    base: Seq<char>,
    dirs: Set<Seq<char>>,
    start: Files,
    stored: Files,
    hash: Seq<u8>,
    blob: Seq<u8>,
)
    requires
        hash.len() == 32,
        extends(base, start, stored),
        !start.contains_key(spec_filename(base, hash)),
    ensures
        dirs_after(base, dirs, start, written(stored, spec_filename(base, hash), blob))
            == dirs_after(base, dirs, start, stored).insert(spec_directory(base, hash)),
        extends(base, start, written(stored, spec_filename(base, hash), blob)),
{
    let name = spec_filename(base, hash);
    let after = written(stored, name, blob);
    let left = dirs_after(base, dirs, start, after);
    let right = dirs_after(base, dirs, start, stored).insert(spec_directory(base, hash));
    assert(hex_of(hash).len() == 64);
    assert(name.len() == base.len() + 66);
    assert(dir_part(base, name) =~= spec_directory(base, hash));
    assert forall|d: Seq<char>| left.contains(d) == right.contains(d) by {
        if left.contains(d) && !dirs.contains(d) {
            let n = choose|n: Seq<char>|
                #[trigger] is_new_blob(base, start, after, n) && dir_part(base, n) == d;
            if n != name {
                assert(is_new_blob(base, start, stored, n));
            }
        }
        if right.contains(d) && !dirs.contains(d) {
            if d == spec_directory(base, hash) {
                assert(is_new_blob(base, start, after, name));
            } else {
                let n = choose|n: Seq<char>|
                    #[trigger] is_new_blob(base, start, stored, n) && dir_part(base, n) == d;
                assert(is_new_blob(base, start, after, n));
            }
        }
    }
    assert(left =~= right);
}

/// The directories after children were stored and one more value is
/// stored are those after all of it.
pub proof fn lemma_dirs_step(
    base: Seq<char>,
    dirs: Set<Seq<char>>,
    start: Files,
    cur: Files,
    schema: Schema,
    v: ValueView,
)
    requires
        extends(base, start, cur),
    ensures
        extends(base, start, spec_put(cur, base, schema, v).0),
        dirs_after(
            base,
            dirs_after(base, dirs, start, cur),
            cur,
            spec_put(cur, base, schema, v).0,
        ) == dirs_after(base, dirs, start, spec_put(cur, base, schema, v).0),
{
    crate::closure::lemma_put_extends(cur, base, schema, v);
    lemma_dirs_compose(base, dirs, start, cur, spec_put(cur, base, schema, v).0);
}

/// A result without a value as contracts speak of it.
pub open spec fn unit_outcome(r: Result<(), HashIOError>) -> Result<(), ErrorView> {
    match r {
        Ok(_) => Ok(()),
        Err(e) => Err(e@),
    }
}

/// Whether the primitive values are of the declared types, in order.
pub fn check_prims(fields: &Vec<PrimField>, prims: &Vec<PrimValue>) -> (b: bool)
    ensures
        b == prims_fit(fields@, prims@),
{
    if prims.len() != fields.len() {
        return false;
    }
    let mut i: usize = 0;
    while i < prims.len()
        invariant
            i <= prims@.len(),
            prims@.len() == fields@.len(),
            forall|k: int| 0 <= k < i ==> (#[trigger] prims@[k]).kind() == fields@[k].kind,
        decreases prims@.len() - i,
    {
        if prims[i].kind() != fields[i].kind {
            return false;
        }
        i += 1;
    }
    true
}

impl Schema {
    /// Whether the value is of the kind of this type: as a map has its
    /// entries in ascending order of their keys, and as a record has the
    /// declared fields.
    pub fn check(&self, value: &Value) -> (b: bool)
        ensures
            b == fits(*self, value@),
    {
        proof {
            lemma_view(value);
        }
        match (self, value) {
            (Schema::Str, Value::Str(_)) => true,
            (Schema::List(_), Value::List(_)) => true,
            (Schema::Dict(_, _), Value::Dict(entries)) => ascending(entries),
            (Schema::Record(record), Value::Record(prims, children)) => check_prims(
                &record.prims,
                prims,
            ) && children.len() == record.children.len(),
            _ => false,
        }
    }

    /// Writes the blob of `value` to `out`: the envelope where this type is
    /// a record, then the canonical bytes.
    pub fn write_blob(&self, value: &Value, out: &mut Vec<u8>) -> (r: Result<(), HashIOError>)
        ensures
            match r {
                Ok(_) => encodable(value@) && (*self matches Schema::Record(record)
                    ==> record_hashable(*record)) && final(out)@ == old(out)@ + blob_of(
                    *self,
                    value@,
                ),
                Err(e) => final(out)@ == old(out)@ && if !encodable(value@) {
                    e@ == too_large()
                } else {
                    *self matches Schema::Record(record) && !record_hashable(*record) && e@
                        == type_too_large()
                },
            },
    {
        let payload = match value.payload() {
            Ok(p) => p,
            Err(e) => {
                return Err(e);
            },
        };
        match self {
            Schema::Record(record) => {
                let type_hash = match record.try_type_hash() {
                    Ok(h) => h,
                    Err(e) => {
                        return Err(e);
                    },
                };
                write_u32(1, out);
                write_hash(&type_hash, out);
            },
            _ => {},
        }
        crate::io::write_bytes(payload.as_slice(), out);
        assert(out@ =~= old(out)@ + blob_of(*self, value@));
        Ok(())
    }
}

impl HashIOFile {
    /// Stores the items of a sequence, in order.
    #[verifier::loop_isolation(false)]
    fn store_items(
        &mut self,
        schema: &Schema,
        item_schema: &Schema,
        value: &Value,
        items: &Vec<Rc<Value>>,
    ) -> (r: Result<(), HashIOError>)
        requires
            *schema matches Schema::List(x) && *x == *item_schema,
            *value matches Value::List(y) && y == *items,
        ensures
            final(self)@.base_path == old(self)@.base_path,
            (final(self)@.files, unit_outcome(r)) == put_children(
                old(self)@.files,
                old(self)@.base_path,
                *schema,
                value@,
                0,
            ),
            final(self)@.dirs == dirs_after(
                old(self)@.base_path,
                old(self)@.dirs,
                old(self)@.files,
                final(self)@.files,
            ),
        decreases value, 0nat,
    {
        proof {
            lemma_view(value);
        }
        let ghost files = self@.files;
        let ghost base = self@.base_path;
        let ghost dirs = self@.dirs;
        proof {
            lemma_dirs_unchanged(base, dirs, files);
        }
        let mut i: usize = 0;
        while i < items.len()
            invariant
                i <= items@.len(),
                self@.base_path == base,
                extends(base, files, self@.files),
                self@.dirs == dirs_after(base, dirs, files, self@.files),
                put_children(files, base, *schema, value@, 0) == put_children(
                    self@.files,
                    base,
                    *schema,
                    value@,
                    i as int,
                ),
            decreases items@.len() - i,
        {
            let ghost cur = self@.files;
            let stored = self.save(item_schema, &items[i]);
            proof {
                lemma_dirs_step(base, dirs, files, cur, *item_schema, (*items@[i as int])@);
            }
            match stored {
                Ok(_) => {},
                Err(e) => {
                    return Err(e);
                },
            }
            i += 1;
        }
        Ok(())
    }

    /// Stores the keys and values of a map: of each entry the key, then
    /// the value.
    #[verifier::loop_isolation(false)]
    fn store_entries(
        &mut self,
        schema: &Schema,
        key_schema: &Schema,
        value_schema: &Schema,
        value: &Value,
        entries: &Vec<MapEntry>,
    ) -> (r: Result<(), HashIOError>)
        requires
            *schema matches Schema::Dict(k, v) && *k == *key_schema && *v == *value_schema,
            *value matches Value::Dict(y) && y == *entries,
        ensures
            final(self)@.base_path == old(self)@.base_path,
            (final(self)@.files, unit_outcome(r)) == put_children(
                old(self)@.files,
                old(self)@.base_path,
                *schema,
                value@,
                0,
            ),
            final(self)@.dirs == dirs_after(
                old(self)@.base_path,
                old(self)@.dirs,
                old(self)@.files,
                final(self)@.files,
            ),
        decreases value, 0nat,
    {
        proof {
            lemma_view(value);
        }
        let ghost files = self@.files;
        let ghost base = self@.base_path;
        let ghost dirs = self@.dirs;
        proof {
            lemma_dirs_unchanged(base, dirs, files);
        }
        let mut i: usize = 0;
        while i < entries.len()
            invariant
                i <= entries@.len(),
                self@.base_path == base,
                extends(base, files, self@.files),
                self@.dirs == dirs_after(base, dirs, files, self@.files),
                put_children(files, base, *schema, value@, 0) == put_children(
                    self@.files,
                    base,
                    *schema,
                    value@,
                    2 * i,
                ),
            decreases entries@.len() - i,
        {
            assert((2 * i) / 2 == i && (2 * i) % 2 == 0);
            assert((2 * i + 1) / 2 == i && (2 * i + 1) % 2 == 1);
            let ghost first = self@.files;
            assert(entry_views(entries@)[i as int].0 == (*entries@[i as int].key)@);
            assert(entry_views(entries@)[i as int].1 == (*entries@[i as int].value)@);
            let stored = self.save(key_schema, &entries[i].key);
            proof {
                lemma_dirs_step(base, dirs, files, first, *key_schema, (*entries@[i as int].key)@);
            }
            match stored {
                Ok(_) => {},
                Err(e) => {
                    return Err(e);
                },
            }
            let ghost second = self@.files;
            assert(put_children(first, base, *schema, value@, 2 * i) == put_children(
                second,
                base,
                *schema,
                value@,
                2 * i + 1,
            ));
            let stored = self.save(value_schema, &entries[i].value);
            proof {
                lemma_dirs_step(
                    base,
                    dirs,
                    files,
                    second,
                    *value_schema,
                    (*entries@[i as int].value)@,
                );
            }
            match stored {
                Ok(_) => {},
                Err(e) => {
                    return Err(e);
                },
            }
            assert(put_children(second, base, *schema, value@, 2 * i + 1) == put_children(
                self@.files,
                base,
                *schema,
                value@,
                2 * i + 2,
            ));
            i += 1;
        }
        Ok(())
    }

    /// Stores the children of a record, in the order of the declaration.
    #[verifier::loop_isolation(false)]
    fn store_fields(
        &mut self,
        schema: &Schema,
        record: &RecordSchema,
        value: &Value,
        children: &Vec<Rc<Value>>,
    ) -> (r: Result<(), HashIOError>)
        requires
            *schema matches Schema::Record(x) && *x == *record,
            *value matches Value::Record(_, y) && y == *children,
        ensures
            final(self)@.base_path == old(self)@.base_path,
            (final(self)@.files, unit_outcome(r)) == put_children(
                old(self)@.files,
                old(self)@.base_path,
                *schema,
                value@,
                0,
            ),
            final(self)@.dirs == dirs_after(
                old(self)@.base_path,
                old(self)@.dirs,
                old(self)@.files,
                final(self)@.files,
            ),
        decreases value, 0nat,
    {
        proof {
            lemma_view(value);
        }
        let ghost files = self@.files;
        let ghost base = self@.base_path;
        let ghost dirs = self@.dirs;
        proof {
            lemma_dirs_unchanged(base, dirs, files);
        }
        let mut i: usize = 0;
        while i < children.len()
            invariant
                i <= children@.len(),
                self@.base_path == base,
                extends(base, files, self@.files),
                self@.dirs == dirs_after(base, dirs, files, self@.files),
                put_children(files, base, *schema, value@, 0) == put_children(
                    self@.files,
                    base,
                    *schema,
                    value@,
                    i as int,
                ),
            decreases children@.len() - i,
        {
            if i >= record.children.len() {
                return Err(mismatch_error());
            }
            let ghost cur = self@.files;
            let stored = self.save(&record.children[i].schema, &children[i]);
            proof {
                lemma_dirs_step(
                    base,
                    dirs,
                    files,
                    cur,
                    record.children@[i as int].schema,
                    (*children@[i as int])@,
                );
            }
            match stored {
                Ok(_) => {},
                Err(e) => {
                    return Err(e);
                },
            }
            i += 1;
        }
        Ok(())
    }

    /// Stores the children of `value`, each with its own children first.
    pub fn store_children(&mut self, schema: &Schema, value: &Value) -> (r: Result<(), HashIOError>)
        ensures
            final(self)@.base_path == old(self)@.base_path,
            (final(self)@.files, unit_outcome(r)) == put_children(
                old(self)@.files,
                old(self)@.base_path,
                *schema,
                value@,
                0,
            ),
            final(self)@.dirs == dirs_after(
                old(self)@.base_path,
                old(self)@.dirs,
                old(self)@.files,
                final(self)@.files,
            ),
        decreases value, 1nat,
    {
        proof {
            lemma_view(value);
            lemma_dirs_unchanged(self@.base_path, self@.dirs, self@.files);
        }
        match (schema, value) {
            (_, Value::Str(_)) => Ok(()),
            (Schema::List(item), Value::List(items)) => self.store_items(
                schema,
                item,
                value,
                items,
            ),
            (Schema::Dict(key, val), Value::Dict(entries)) => self.store_entries(
                schema,
                key,
                val,
                value,
                entries,
            ),
            (Schema::Record(record), Value::Record(_, children)) => self.store_fields(
                schema,
                record,
                value,
                children,
            ),
            (_, Value::List(items)) => {
                if items.len() == 0 {
                    Ok(())
                } else {
                    Err(mismatch_error())
                }
            },
            (_, Value::Dict(entries)) => {
                if entries.len() == 0 {
                    Ok(())
                } else {
                    Err(mismatch_error())
                }
            },
            (_, Value::Record(_, children)) => {
                if children.len() == 0 {
                    Ok(())
                } else {
                    Err(mismatch_error())
                }
            },
        }
    }

    /// Stores `value` as a value of type `schema`, under its content hash.
    pub fn save(&mut self, schema: &Schema, value: &Value) -> (r: Result<(), HashIOError>)
        ensures
            final(self)@.base_path == old(self)@.base_path,
            (final(self)@.files, unit_outcome(r)) == spec_put(
                old(self)@.files,
                old(self)@.base_path,
                *schema,
                value@,
            ),
            final(self)@.dirs == dirs_after(
                old(self)@.base_path,
                old(self)@.dirs,
                old(self)@.files,
                final(self)@.files,
            ),
        decreases value, 2nat,
    {
        proof {
            lemma_dirs_unchanged(self@.base_path, self@.dirs, self@.files);
        }
        let hash = match value.try_hash() {
            Ok(h) => h,
            Err(e) => {
                return Err(e);
            },
        };
        let name = self.filename_for_hash(&hash);
        if self.contains(name.as_str()) {
            return Ok(());
        }
        if !schema.check(value) {
            return Err(mismatch_error());
        }
        match self.store_children(schema, value) {
            Ok(_) => {},
            Err(e) => {
                return Err(e);
            },
        }
        let mut blob: Vec<u8> = Vec::new();
        match schema.write_blob(value, &mut blob) {
            Ok(_) => {},
            Err(e) => {
                return Err(e);
            },
        }
        assert(blob@ =~= blob_of(*schema, value@));
        let mut temp = name.clone();
        crate::hash::push_char(&mut temp, '_');
        let ghost stored = self@.files;
        assert(temp@ =~= spec_temp_name(name@));
        proof {
            crate::closure::lemma_put_children_extends(
                old(self)@.files,
                old(self)@.base_path,
                *schema,
                value@,
                0,
            );
            lemma_dirs_written(
                old(self)@.base_path,
                old(self)@.dirs,
                old(self)@.files,
                stored,
                hash@,
                blob_of(*schema, value@),
            );
        }
        self.create_dir_all(self.directory_for_hash(&hash));
        self.create_file(temp.clone(), blob);
        assert(self@.files.contains_key(temp@));
        match self.rename(temp.as_str(), name) {
            Ok(_) => {
                assert(self@.files =~= written(stored, name@, blob_of(*schema, value@)));
                Ok(())
            },
            Err(e) => Err(e),
        }
    }
}

/// What writing the payload of a value comes to: a value that the format
/// cannot hold is refused.
pub open spec fn spec_store(v: ValueView) -> Result<Seq<u8>, ErrorView> {
    if encodable(v) {
        Ok(value_bytes(v))
    } else {
        Err(too_large())
    }
}

/// Whether the type recognises a type hash, or why that cannot be told.
/// Strings and collections have no envelope and recognise none.
pub open spec fn spec_hash_checked(schema: Schema, hash: Seq<u8>) -> Result<bool, ErrorView> {
    match schema {
        Schema::Record(record) => if dispatchable(*record) {
            Ok(type_hash_valid(*record, hash))
        } else {
            Err(type_too_large())
        },
        _ => Ok(false),
    }
}

impl HashIOParse for Schema {
    open spec fn parsed(
        &self,
        files: Files,
        base: Seq<char>,
        bytes: Seq<u8>,
        type_hash: Option<Seq<u8>>,
    ) -> Result<ValueView, ErrorView> {
        spec_parse(files, base, *self, bytes, type_hash)
    }

    open spec fn fallback_parsed(&self, files: Files, base: Seq<char>, bytes: Seq<u8>) -> Result<
        ValueView,
        ErrorView,
    > {
        spec_fallback_parse(files, base, *self, bytes)
    }

    open spec fn stored(&self, value: ValueView) -> Result<Seq<u8>, ErrorView> {
        spec_store(value)
    }

    open spec fn childs_stored(&self, files: Files, base: Seq<char>, value: ValueView) -> Written {
        put_children(files, base, *self, value, 0)
    }

    open spec fn spec_unsafe_loader(&self) -> bool {
        !(self is Record)
    }

    open spec fn hash_checked(&self, hash: Seq<u8>) -> Result<bool, ErrorView> {
        spec_hash_checked(*self, hash)
    }

    fn parse(&self, hash_io: &HashIOFile, bytes: &[u8], type_hash: &Option<Hash32>) -> (r: Result<
        Rc<Value>,
        HashIOError,
    >) {
        self.parse_payload(hash_io, bytes, type_hash)
    }

    fn store(&self, value: &Value, out: &mut Vec<u8>) -> (r: Result<(), HashIOError>) {
        match value.write_to(out) {
            Ok(_) => Ok(()),
            Err(e) => Err(e),
        }
    }

    fn store_childs(&self, value: &Value, hash_io: &mut HashIOFile) -> (r: Result<(), HashIOError>) {
        hash_io.store_children(self, value)
    }

    fn fallback_parse(&self, hash_io: &HashIOFile, bytes: &[u8]) -> (r: Result<
        Rc<Value>,
        HashIOError,
    >) {
        self.parse_legacy(hash_io, bytes)
    }

    fn unsafe_loader(&self) -> (b: bool) {
        match self {
            Schema::Record(_) => false,
            _ => true,
        }
    }

    fn version_valid(&self, version: u32) -> (b: bool) {
        version_valid(version)
    }

    fn type_hash_valid(&self, hash: &Hash32) -> (r: Result<bool, HashIOError>) {
        match self {
            Schema::Record(record) => record.try_type_hash_valid(hash),
            _ => Ok(false),
        }
    }
}

impl HashIO for HashIOFile {
    open spec fn files(&self) -> Files {
        self@.files
    }

    open spec fn base(&self) -> Seq<char> {
        self@.base_path
    }

    open spec fn dirs(&self) -> Set<Seq<char>> {
        self@.dirs
    }

    fn get(&self, schema: &Schema, hash: &Hash32) -> (r: Result<Rc<Value>, HashIOError>) {
        self.load(schema, hash)
    }

    fn put(&mut self, schema: &Schema, value: &Value) -> (r: Result<(), HashIOError>) {
        self.save(schema, value)
    }
}

} // verus!
