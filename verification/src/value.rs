//! Stored values, their canonical bytes and their content hash.

use crate::hash::{digest, digest_input_limit, Hash32};
use crate::hashio::{ErrorView, HashIOError};
use crate::hashio_model::PrimValue;
use crate::io::{be_u32, write_bytes, write_hash, write_prefixed, write_u32};
use std::rc::Rc;
use vstd::prelude::*;
use vstd::utf8::encode_utf8;

verus! {

/// One entry of a map.
#[derive(Clone, Debug, PartialEq)]
pub struct MapEntry {
    pub key: Rc<Value>,
    pub value: Rc<Value>,
}

/// A value that the store can hold. Children are shared, not owned.
#[derive(Clone, Debug, PartialEq)]
pub enum Value {
    /// A string.
    Str(String),
    /// An ordered sequence.
    List(Vec<Rc<Value>>),
    /// An ordered map, its entries in the order in which they are written.
    Dict(Vec<MapEntry>),
    /// A record: its primitive fields, then its children, each in the order
    /// of the declaration.
    Record(Vec<PrimValue>, Vec<Rc<Value>>),
}

/// A value as contracts speak of it.
pub enum ValueView {
    Str(Seq<char>),
    List(Seq<ValueView>),
    Dict(Seq<(ValueView, ValueView)>),
    Record(Seq<PrimValue>, Seq<ValueView>),
}

/// The view of a value: its strings as characters, its children by their
/// own views.
pub open spec fn value_view(v: Value) -> ValueView
    decreases v,
{
    match v {
        Value::Str(s) => ValueView::Str(s@),
        Value::List(items) => ValueView::List(
            Seq::new(
                items@.len(),
                |i: int|
                    if 0 <= i < items@.len() {
                        value_view(*items@[i])
                    } else {
                        ValueView::Str(Seq::empty())
                    },
            ),
        ),
        Value::Dict(entries) => ValueView::Dict(
            Seq::new(
                entries@.len(),
                |i: int|
                    if 0 <= i < entries@.len() {
                        (value_view(*entries@[i].key), value_view(*entries@[i].value))
                    } else {
                        (ValueView::Str(Seq::empty()), ValueView::Str(Seq::empty()))
                    },
            ),
        ),
        Value::Record(prims, children) => ValueView::Record(
            prims@,
            Seq::new(
                children@.len(),
                |i: int|
                    if 0 <= i < children@.len() {
                        value_view(*children@[i])
                    } else {
                        ValueView::Str(Seq::empty())
                    },
            ),
        ),
    }
}

impl View for Value {
    type V = ValueView;

    open spec fn view(&self) -> ValueView {
        value_view(*self)
    }
}

/// The parts in order, one after the other.
pub open spec fn concat(parts: Seq<Seq<u8>>) -> Seq<u8>
    decreases parts.len(),
{
    if parts.len() == 0 {
        Seq::empty()
    } else {
        concat(parts.drop_last()) + parts.last()
    }
}

/// A length as the four bytes of a prefix hold it. A length that does not
/// fit is written as zero; no value that can be encoded has one.
pub open spec fn len_word(n: nat) -> u32 {
    if n <= u32::MAX {
        n as u32
    } else {
        0
    }
}

/// The canonical bytes of a value: what is hashed, and what is stored behind
/// the envelope. A child enters by its content hash only.
pub open spec fn value_bytes(v: ValueView) -> Seq<u8>
    decreases v, 0nat,
{
    match v {
        ValueView::Str(s) => be_u32(len_word(encode_utf8(s).len())) + encode_utf8(s),
        ValueView::List(items) => be_u32(0) + be_u32(len_word(items.len())) + concat(
            hashes_of(items),
        ),
        ValueView::Dict(entries) => be_u32(0) + be_u32(len_word(entries.len())) + concat(
            entry_hashes(entries),
        ),
        ValueView::Record(prims, children) => concat(prims_bytes(prims)) + concat(
            hashes_of(children),
        ),
    }
}

/// The content hash of a value: the digest of its canonical bytes.
pub open spec fn content_hash(v: ValueView) -> Seq<u8>
    decreases v, 1nat,
{
    digest(value_bytes(v))
}

/// The content hashes of values, in order.
pub open spec fn hashes_of(items: Seq<ValueView>) -> Seq<Seq<u8>>
    decreases items, 2nat,
{
    Seq::new(
        items.len(),
        |i: int|
            if 0 <= i < items.len() {
                content_hash(items[i])
            } else {
                Seq::empty()
            },
    )
}

/// For each entry of a map, the content hash of its key, then that of its
/// value.
pub open spec fn entry_hashes(entries: Seq<(ValueView, ValueView)>) -> Seq<Seq<u8>>
    decreases entries, 2nat,
{
    Seq::new(
        entries.len(),
        |i: int|
            if 0 <= i < entries.len() {
                content_hash(entries[i].0) + content_hash(entries[i].1)
            } else {
                Seq::empty()
            },
    )
}

/// Calls `Rc::clone`, which hands out another pointer to the same value.
#[verifier::external_body]
pub(crate) fn share<T>(r: &Rc<T>) -> (res: Rc<T>)
    ensures
        res == *r,
{
    r.clone()
}

/// The views of shared values, in order.
pub open spec fn views(items: Seq<Rc<Value>>) -> Seq<ValueView> {
    Seq::new(items.len(), |i: int| (*items[i])@)
}

/// The views of the entries of a map, in order.
pub open spec fn entry_views(entries: Seq<MapEntry>) -> Seq<(ValueView, ValueView)> {
    Seq::new(entries.len(), |i: int| ((*entries[i].key)@, (*entries[i].value)@))
}

/// The bytes of primitive values, in order.
pub open spec fn prims_bytes(prims: Seq<PrimValue>) -> Seq<Seq<u8>> {
    Seq::new(prims.len(), |i: int| prims[i].bytes())
}

/// Whether the format can hold the value: every length fits the four bytes
/// of its prefix, and a record has no more fields of either kind than that.
pub open spec fn encodable(v: ValueView) -> bool
    decreases v,
{
    match v {
        ValueView::Str(s) => encode_utf8(s).len() <= u32::MAX,
        ValueView::List(items) => items.len() <= u32::MAX && forall|i: int|
            0 <= i < items.len() ==> encodable(#[trigger] items[i]),
        ValueView::Dict(entries) => entries.len() <= u32::MAX && forall|i: int|
            0 <= i < entries.len() ==> encodable((#[trigger] entries[i]).0) && encodable(
                entries[i].1,
            ),
        ValueView::Record(prims, children) => prims.len() <= u32::MAX && children.len()
            <= u32::MAX && forall|i: int|
            0 <= i < children.len() ==> encodable(#[trigger] children[i]),
    }
}

/// The error for a value that the format cannot hold.
pub open spec fn too_large() -> ErrorView {
    ErrorView::Undefined("value too large to encode"@)
}

/// The view of a value, by its variant.
pub proof fn lemma_view(v: &Value)
    ensures
        v@ == match *v {
            Value::Str(s) => ValueView::Str(s@),
            Value::List(items) => ValueView::List(views(items@)),
            Value::Dict(entries) => ValueView::Dict(entry_views(entries@)),
            Value::Record(prims, children) => ValueView::Record(prims@, views(children@)),
        },
{
    match *v {
        Value::Str(s) => {},
        Value::List(items) => {
            assert(v@->List_0 =~= views(items@));
        },
        Value::Dict(entries) => {
            assert(v@->Dict_0 =~= entry_views(entries@));
        },
        Value::Record(prims, children) => {
            assert(v@->Record_1 =~= views(children@));
        },
    }
}

/// Appending a part to the parts appends it to their concatenation.
pub proof fn lemma_concat_push(parts: Seq<Seq<u8>>, part: Seq<u8>)
    ensures
        concat(parts.push(part)) == concat(parts) + part,
{
    assert(parts.push(part).drop_last() =~= parts);
}

/// Parts of at most `w` bytes each make at most `w` bytes per part.
pub proof fn lemma_concat_len_bound(parts: Seq<Seq<u8>>, w: nat)
    requires
        forall|i: int| 0 <= i < parts.len() ==> (#[trigger] parts[i]).len() <= w,
    ensures
        concat(parts).len() <= w * parts.len(),
    decreases parts.len(),
{
    if parts.len() > 0 {
        lemma_concat_len_bound(parts.drop_last(), w);
        assert(w * parts.len() == w * (parts.len() - 1) + w) by (nonlinear_arith);
    }
}

/// The canonical bytes of a value that the format can hold are few enough
/// to be hashed.
pub proof fn lemma_encodable_bytes_bound(v: ValueView)
    requires
        encodable(v),
    ensures
        value_bytes(v).len() < digest_input_limit(),
{
    match v {
        ValueView::Str(s) => {},
        ValueView::List(items) => {
            lemma_concat_len_bound(hashes_of(items), 32);
            assert(32 * items.len() <= 32 * 0xffff_ffff) by (nonlinear_arith)
                requires
                    items.len() <= 0xffff_ffff,
            ;
        },
        ValueView::Dict(entries) => {
            lemma_concat_len_bound(entry_hashes(entries), 64);
            assert(64 * entries.len() <= 64 * 0xffff_ffff) by (nonlinear_arith)
                requires
                    entries.len() <= 0xffff_ffff,
            ;
        },
        ValueView::Record(prims, children) => {
            assert forall|i: int| 0 <= i < prims.len() implies (#[trigger] prims_bytes(
                prims,
            )[i]).len() <= 8 by {
                crate::hashio_model::lemma_prim_round_trip(prims[i], Seq::empty());
            }
            lemma_concat_len_bound(prims_bytes(prims), 8);
            lemma_concat_len_bound(hashes_of(children), 32);
            assert(8 * prims.len() <= 8 * 0xffff_ffff) by (nonlinear_arith)
                requires
                    prims.len() <= 0xffff_ffff,
            ;
            assert(32 * children.len() <= 32 * 0xffff_ffff) by (nonlinear_arith)
                requires
                    children.len() <= 0xffff_ffff,
            ;
        },
    }
}

/// Appends the content hash of each item to `out`, as far as the items can
/// be encoded.
fn write_hashes(items: &Vec<Rc<Value>>, out: &mut Vec<u8>) -> (r: Result<(), HashIOError>)
    ensures
        match r {
            Ok(_) => (forall|i: int| 0 <= i < items@.len() ==> encodable(#[trigger] views(items@)[i]))
                && final(out)@ == old(out)@ + concat(hashes_of(views(items@))),
            Err(e) => (exists|i: int| 0 <= i < items@.len() && !encodable(#[trigger] views(items@)[i]))
                && e@ == too_large(),
        },
    decreases items, 0nat,
{
    let ghost all = hashes_of(views(items@));
    let mut i: usize = 0;
    assert(old(out)@ + concat(all.take(0)) =~= old(out)@);
    while i < items.len()
        invariant
            i <= items@.len(),
            all == hashes_of(views(items@)),
            forall|k: int| 0 <= k < i ==> encodable(#[trigger] views(items@)[k]),
            out@ == old(out)@ + concat(all.take(i as int)),
        decreases items@.len() - i,
    {
        match items[i].try_hash() {
            Ok(h) => {
                write_hash(&h, out);
                proof {
                    assert(all.take(i + 1) =~= all.take(i as int).push(all[i as int]));
                    lemma_concat_push(all.take(i as int), all[i as int]);
                    assert(out@ =~= old(out)@ + concat(all.take(i + 1)));
                }
            },
            Err(e) => {
                assert(!encodable(views(items@)[i as int]));
                return Err(e);
            },
        }
        i += 1;
    }
    assert(all.take(items@.len() as int) =~= all);
    Ok(())
}

/// Appends, for each entry, the content hash of its key and that of its
/// value to `out`, as far as they can be encoded.
fn write_entry_hashes(entries: &Vec<MapEntry>, out: &mut Vec<u8>) -> (r: Result<(), HashIOError>)
    ensures
        match r {
            Ok(_) => (forall|i: int|
                0 <= i < entries@.len() ==> encodable((#[trigger] entry_views(entries@)[i]).0)
                    && encodable(entry_views(entries@)[i].1)) && final(out)@ == old(out)@ + concat(
                entry_hashes(entry_views(entries@)),
            ),
            Err(e) => (exists|i: int|
                0 <= i < entries@.len() && !(encodable((#[trigger] entry_views(entries@)[i]).0)
                    && encodable(entry_views(entries@)[i].1))) && e@ == too_large(),
        },
    decreases entries, 0nat,
{
    let ghost all = entry_hashes(entry_views(entries@));
    let mut i: usize = 0;
    assert(old(out)@ + concat(all.take(0)) =~= old(out)@);
    while i < entries.len()
        invariant
            i <= entries@.len(),
            all == entry_hashes(entry_views(entries@)),
            forall|k: int|
                0 <= k < i ==> encodable((#[trigger] entry_views(entries@)[k]).0) && encodable(
                    entry_views(entries@)[k].1,
                ),
            out@ == old(out)@ + concat(all.take(i as int)),
        decreases entries@.len() - i,
    {
        let entry = &entries[i];
        let key_hash = match entry.key.try_hash() {
            Ok(h) => h,
            Err(e) => {
                assert(!encodable(entry_views(entries@)[i as int].0));
                return Err(e);
            },
        };
        let value_hash = match entry.value.try_hash() {
            Ok(h) => h,
            Err(e) => {
                assert(!encodable(entry_views(entries@)[i as int].1));
                return Err(e);
            },
        };
        write_hash(&key_hash, out);
        write_hash(&value_hash, out);
        proof {
            assert(all.take(i + 1) =~= all.take(i as int).push(all[i as int]));
            lemma_concat_push(all.take(i as int), all[i as int]);
            assert(out@ =~= old(out)@ + concat(all.take(i + 1)));
        }
        i += 1;
    }
    assert(all.take(entries@.len() as int) =~= all);
    Ok(())
}

impl Value {
    /// The canonical bytes, where the format can hold the value.
    pub fn payload(&self) -> (r: Result<Vec<u8>, HashIOError>)
        ensures
            match r {
                Ok(b) => encodable(self@) && b@ == value_bytes(self@),
                Err(e) => !encodable(self@) && e@ == too_large(),
            },
        decreases self, 0nat,
    {
        proof {
            lemma_view(self);
        }
        let mut out: Vec<u8> = Vec::new();
        match self {
            Value::Str(s) => {
                if !write_prefixed(s.as_str().as_bytes(), &mut out) {
                    return Err(too_large_error());
                }
                assert(out@ =~= value_bytes(self@));
                Ok(out)
            },
            Value::List(items) => {
                if items.len() > 0xffff_ffff {
                    return Err(too_large_error());
                }
                write_u32(0, &mut out);
                write_u32(items.len() as u32, &mut out);
                match write_hashes(items, &mut out) {
                    Ok(_) => {
                        assert(out@ =~= value_bytes(self@));
                        Ok(out)
                    },
                    Err(e) => Err(e),
                }
            },
            Value::Dict(entries) => {
                if entries.len() > 0xffff_ffff {
                    return Err(too_large_error());
                }
                write_u32(0, &mut out);
                write_u32(entries.len() as u32, &mut out);
                match write_entry_hashes(entries, &mut out) {
                    Ok(_) => {
                        assert(out@ =~= value_bytes(self@));
                        Ok(out)
                    },
                    Err(e) => Err(e),
                }
            },
            Value::Record(prims, children) => {
                if prims.len() > 0xffff_ffff || children.len() > 0xffff_ffff {
                    return Err(too_large_error());
                }
                let ghost all = prims_bytes(prims@);
                let mut i: usize = 0;
                assert(concat(all.take(0)) =~= out@);
                while i < prims.len()
                    invariant
                        i <= prims@.len(),
                        all == prims_bytes(prims@),
                        out@ == concat(all.take(i as int)),
                    decreases prims@.len() - i,
                {
                    prims[i].write_to(&mut out);
                    proof {
                        assert(all.take(i + 1) =~= all.take(i as int).push(all[i as int]));
                        lemma_concat_push(all.take(i as int), all[i as int]);
                    }
                    i += 1;
                }
                assert(all.take(prims@.len() as int) =~= all);
                match write_hashes(children, &mut out) {
                    Ok(_) => Ok(out),
                    Err(e) => Err(e),
                }
            },
        }
    }

    /// The content hash, where the format can hold the value.
    pub fn try_hash(&self) -> (r: Result<Hash32, HashIOError>)
        ensures
            match r {
                Ok(h) => encodable(self@) && h@ == content_hash(self@),
                Err(e) => !encodable(self@) && e@ == too_large(),
            },
        decreases self, 1nat,
    {
        match self.payload() {
            Ok(bytes) => {
                proof {
                    lemma_encodable_bytes_bound(self@);
                }
                Ok(Hash32::hash_bytes(bytes.as_slice()))
            },
            Err(e) => Err(e),
        }
    }

    /// The content hash: the digest of the canonical bytes.
    pub fn as_hash(&self) -> (h: Hash32)
        requires
            encodable(self@),
        ensures
            h@ == content_hash(self@),
    {
        match self.try_hash() {
            Ok(h) => h,
            Err(_) => Hash32::none(),
        }
    }

    /// Appends the canonical bytes to `out` and returns how many they are. A
    /// value that the format cannot hold leaves `out` as it was.
    pub fn write_to(&self, out: &mut Vec<u8>) -> (r: Result<usize, HashIOError>)
        ensures
            match r {
                Ok(n) => encodable(self@) && final(out)@ == old(out)@ + value_bytes(self@) && n
                    == value_bytes(self@).len(),
                Err(e) => !encodable(self@) && e@ == too_large() && final(out)@ == old(out)@,
            },
    {
        match self.payload() {
            Ok(bytes) => {
                write_bytes(bytes.as_slice(), out);
                Ok(bytes.len())
            },
            Err(e) => Err(e),
        }
    }
}

/// The error for a value that the format cannot hold.
fn too_large_error() -> (e: HashIOError)
    ensures
        e@ == too_large(),
{
    HashIOError::Undefined("value too large to encode".to_string())
}

/// The content hash of a value is the digest of the bytes that `write_to`
/// writes.
pub proof fn lemma_hash_of_written_bytes(v: ValueView)
    ensures
        content_hash(v) == digest(value_bytes(v)),
{
}

/// Equal values have equal content hashes.
pub proof fn lemma_equal_values_hash_alike(v: ValueView, w: ValueView)
    requires
        v == w,
    ensures
        content_hash(v) == content_hash(w),
        value_bytes(v) == value_bytes(w),
{
}

} // verus!
