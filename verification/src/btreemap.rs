//! The order of keys, and the ordered map that a stored map is read into.

use crate::hash::Hash32;
use crate::hashio_model::PrimValue;
use crate::text::lemma_utf8_injective;
use crate::value::{entry_views, lemma_view, views, MapEntry, Value, ValueView};
use std::rc::Rc;
use vstd::prelude::*;
use vstd::utf8::encode_utf8;

verus! {

/// How one value stands to another in the order of keys.
#[derive(Clone, Copy, Debug, PartialEq, Eq, Structural)]
pub enum Order {
    Less,
    Equal,
    Greater,
}

/// Whether `a` comes before `b` from position `i` on, where both agree
/// before it: at the first difference the smaller byte decides, and a string
/// comes before what it is a prefix of.
pub open spec fn bytes_less_from(a: Seq<u8>, b: Seq<u8>, i: int) -> bool
    decreases a.len() - i,
{
    if i < 0 || i >= a.len() {
        i < b.len()
    } else if i >= b.len() {
        false
    } else if a[i] != b[i] {
        a[i] < b[i]
    } else {
        bytes_less_from(a, b, i + 1)
    }
}

/// The place of a primitive value in the order: its type first, then its
/// number; a float by its bit pattern.
pub open spec fn prim_key(p: PrimValue) -> (int, int) {
    match p {
        PrimValue::U8(v) => (0, v as int),
        PrimValue::U16(v) => (1, v as int),
        PrimValue::U32(v) => (2, v as int),
        PrimValue::U64(v) => (3, v as int),
        PrimValue::I32(v) => (4, v as int),
        PrimValue::I64(v) => (5, v as int),
        PrimValue::F32(v) => (6, v as int),
        PrimValue::F64(v) => (7, v as int),
    }
}

/// Whether `a` comes before `b`.
pub open spec fn prim_less(a: PrimValue, b: PrimValue) -> bool {
    prim_key(a).0 < prim_key(b).0 || (prim_key(a).0 == prim_key(b).0 && prim_key(a).1 < prim_key(
        b,
    ).1)
}

/// Whether `a` comes before `b` from position `i` on, where both agree
/// before it.
pub open spec fn prims_less_from(a: Seq<PrimValue>, b: Seq<PrimValue>, i: int) -> bool
    decreases a.len() - i,
{
    if i < 0 || i >= a.len() {
        i < b.len()
    } else if i >= b.len() {
        false
    } else if a[i] != b[i] {
        prim_less(a[i], b[i])
    } else {
        prims_less_from(a, b, i + 1)
    }
}

/// The place of a kind of value in the order.
pub open spec fn kind_rank(v: ValueView) -> int {
    match v {
        ValueView::Str(_) => 0,
        ValueView::List(_) => 1,
        ValueView::Dict(_) => 2,
        ValueView::Record(_, _) => 3,
    }
}

/// Whether `a` comes before `b` from position `i` on, where both agree
/// before it.
pub open spec fn seq_less_from(a: Seq<ValueView>, b: Seq<ValueView>, i: int) -> bool
    decreases a, 0nat, a.len() - i,
{
    if i < 0 || i >= a.len() {
        i < b.len()
    } else if i >= b.len() {
        false
    } else if a[i] != b[i] {
        value_less(a[i], b[i])
    } else {
        seq_less_from(a, b, i + 1)
    }
}

/// Whether `a` comes before `b` from position `i` on, where both agree
/// before it. Of two entries the keys decide, and the values where the keys
/// are the same.
pub open spec fn entries_less_from(
    a: Seq<(ValueView, ValueView)>,
    b: Seq<(ValueView, ValueView)>,
    i: int,
) -> bool
    decreases a, 0nat, a.len() - i,
{
    if i < 0 || i >= a.len() {
        i < b.len()
    } else if i >= b.len() {
        false
    } else if a[i].0 != b[i].0 {
        value_less(a[i].0, b[i].0)
    } else if a[i].1 != b[i].1 {
        value_less(a[i].1, b[i].1)
    } else {
        entries_less_from(a, b, i + 1)
    }
}

/// The order of keys. Strings are ordered by their UTF-8 bytes, as Rust
/// orders them; sequences and maps by their first difference; records by
/// their primitive fields, then by their children. Of two kinds, strings come
/// first, then sequences, maps and records.
pub open spec fn value_less(a: ValueView, b: ValueView) -> bool
    decreases a, 1nat, 0nat,
{
    match (a, b) {
        (ValueView::Str(x), ValueView::Str(y)) => bytes_less_from(
            encode_utf8(x),
            encode_utf8(y),
            0,
        ),
        (ValueView::List(x), ValueView::List(y)) => seq_less_from(x, y, 0),
        (ValueView::Dict(x), ValueView::Dict(y)) => entries_less_from(x, y, 0),
        (ValueView::Record(p, x), ValueView::Record(q, y)) => if p != q {
            prims_less_from(p, q, 0)
        } else {
            seq_less_from(x, y, 0)
        },
        _ => kind_rank(a) < kind_rank(b),
    }
}

/// The first position at or after `i` whose key does not come before `key`.
pub open spec fn slot_from(entries: Seq<(ValueView, ValueView)>, key: ValueView, i: int) -> int
    decreases entries.len() - i,
{
    if i < 0 || i >= entries.len() {
        entries.len() as int
    } else if value_less(entries[i].0, key) {
        slot_from(entries, key, i + 1)
    } else {
        i
    }
}

/// The entries after `key` was given `value`: the entry with that key
/// replaced, or a new entry put in front of the first greater key.
pub open spec fn spec_insert(
    entries: Seq<(ValueView, ValueView)>,
    key: ValueView,
    value: ValueView,
) -> Seq<(ValueView, ValueView)> {
    let p = slot_from(entries, key, 0);
    if p < entries.len() && entries[p].0 == key {
        entries.update(p, (key, value))
    } else {
        entries.insert(p, (key, value))
    }
}

/// The map that holds the first `n` of `pairs`, each inserted in turn.
pub open spec fn dict_from(pairs: Seq<(ValueView, ValueView)>, n: nat) -> Seq<
    (ValueView, ValueView),
>
    decreases n,
{
    if n == 0 {
        Seq::empty()
    } else {
        spec_insert(dict_from(pairs, (n - 1) as nat), pairs[n - 1].0, pairs[n - 1].1)
    }
}

/// Whether the keys of the entries ascend, so that no key occurs twice.
#[verifier::opaque]
pub open spec fn sorted(entries: Seq<(ValueView, ValueView)>) -> bool {
    forall|i: int, j: int|
        0 <= i < j < entries.len() ==> value_less(
            (#[trigger] entries[i]).0,
            (#[trigger] entries[j]).0,
        )
}

/// The outcome of a comparison that found `less` or `equal`.
fn three_way(less: bool, equal: bool) -> (r: Order)
    ensures
        (r is Less) == (!equal && less),
        (r is Equal) == equal,
{
    if equal {
        Order::Equal
    } else if less {
        Order::Less
    } else {
        Order::Greater
    }
}

/// How the byte string `a` stands to `b`.
pub fn order_bytes(a: &[u8], b: &[u8]) -> (r: Order)
    ensures
        (r is Less) == bytes_less_from(a@, b@, 0),
        (r is Equal) == (a@ == b@),
{
    let mut i: usize = 0;
    while i < a.len() && i < b.len()
        invariant
            i <= a@.len(),
            i <= b@.len(),
            forall|k: int| 0 <= k < i ==> a@[k] == b@[k],
            bytes_less_from(a@, b@, 0) == bytes_less_from(a@, b@, i as int),
        decreases a@.len() - i,
    {
        if a[i] != b[i] {
            return three_way(a[i] < b[i], false);
        }
        i += 1;
    }
    if a.len() == b.len() {
        assert(a@ =~= b@);
    }
    three_way(a.len() < b.len(), a.len() == b.len())
}

/// How the hash `a` stands to `b`: as their bytes do.
pub fn order_hashes(a: &Hash32, b: &Hash32) -> (r: Order)
    ensures
        (r is Less) == bytes_less_from(a@, b@, 0),
        (r is Equal) == (a@ == b@),
{
    order_bytes(a.bytes.as_slice(), b.bytes.as_slice())
}

/// The place of a primitive value in the order.
fn prim_place(p: &PrimValue) -> (r: (u8, i128))
    ensures
        r.0 as int == prim_key(*p).0,
        r.1 as int == prim_key(*p).1,
{
    match p {
        PrimValue::U8(v) => (0, *v as i128),
        PrimValue::U16(v) => (1, *v as i128),
        PrimValue::U32(v) => (2, *v as i128),
        PrimValue::U64(v) => (3, *v as i128),
        PrimValue::I32(v) => (4, *v as i128),
        PrimValue::I64(v) => (5, *v as i128),
        PrimValue::F32(v) => (6, *v as i128),
        PrimValue::F64(v) => (7, *v as i128),
    }
}

/// How the primitive value `a` stands to `b`.
pub fn order_prim(a: &PrimValue, b: &PrimValue) -> (r: Order)
    ensures
        (r is Less) == prim_less(*a, *b),
        (r is Equal) == (*a == *b),
{
    let x = prim_place(a);
    let y = prim_place(b);
    three_way(x.0 < y.0 || (x.0 == y.0 && x.1 < y.1), x.0 == y.0 && x.1 == y.1)
}

/// How the primitive values `a` stand to `b`.
pub fn order_prims(a: &Vec<PrimValue>, b: &Vec<PrimValue>) -> (r: Order)
    ensures
        (r is Less) == prims_less_from(a@, b@, 0),
        (r is Equal) == (a@ == b@),
{
    let mut i: usize = 0;
    while i < a.len() && i < b.len()
        invariant
            i <= a@.len(),
            i <= b@.len(),
            forall|k: int| 0 <= k < i ==> a@[k] == b@[k],
            prims_less_from(a@, b@, 0) == prims_less_from(a@, b@, i as int),
        decreases a@.len() - i,
    {
        match order_prim(&a[i], &b[i]) {
            Order::Equal => {},
            other => {
                return other;
            },
        }
        i += 1;
    }
    if a.len() == b.len() {
        assert(a@ =~= b@);
    }
    three_way(a.len() < b.len(), a.len() == b.len())
}

/// How the values `a` stand to `b`.
pub fn order_all(a: &Vec<Rc<Value>>, b: &Vec<Rc<Value>>) -> (r: Order)
    ensures
        (r is Less) == seq_less_from(views(a@), views(b@), 0),
        (r is Equal) == (views(a@) == views(b@)),
    decreases a, 0nat,
{
    let mut i: usize = 0;
    while i < a.len() && i < b.len()
        invariant
            i <= a@.len(),
            i <= b@.len(),
            forall|k: int| 0 <= k < i ==> views(a@)[k] == views(b@)[k],
            seq_less_from(views(a@), views(b@), 0) == seq_less_from(views(a@), views(b@), i as int),
        decreases a@.len() - i,
    {
        match order(&a[i], &b[i]) {
            Order::Equal => {},
            other => {
                assert(views(a@)[i as int] != views(b@)[i as int]);
                return other;
            },
        }
        i += 1;
    }
    if a.len() == b.len() {
        assert(views(a@) =~= views(b@));
    }
    three_way(a.len() < b.len(), a.len() == b.len())
}

/// How the entries `a` stand to `b`.
pub fn order_entries(a: &Vec<MapEntry>, b: &Vec<MapEntry>) -> (r: Order)
    ensures
        (r is Less) == entries_less_from(entry_views(a@), entry_views(b@), 0),
        (r is Equal) == (entry_views(a@) == entry_views(b@)),
    decreases a, 0nat,
{
    let mut i: usize = 0;
    while i < a.len() && i < b.len()
        invariant
            i <= a@.len(),
            i <= b@.len(),
            forall|k: int| 0 <= k < i ==> entry_views(a@)[k] == entry_views(b@)[k],
            entries_less_from(entry_views(a@), entry_views(b@), 0) == entries_less_from(
                entry_views(a@),
                entry_views(b@),
                i as int,
            ),
        decreases a@.len() - i,
    {
        match order(&a[i].key, &b[i].key) {
            Order::Equal => {},
            other => {
                assert(entry_views(a@)[i as int].0 != entry_views(b@)[i as int].0);
                return other;
            },
        }
        match order(&a[i].value, &b[i].value) {
            Order::Equal => {},
            other => {
                assert(entry_views(a@)[i as int].1 != entry_views(b@)[i as int].1);
                return other;
            },
        }
        i += 1;
    }
    if a.len() == b.len() {
        assert(entry_views(a@) =~= entry_views(b@));
    }
    three_way(a.len() < b.len(), a.len() == b.len())
}

/// How the value `a` stands to `b` in the order of keys.
pub fn order(a: &Value, b: &Value) -> (r: Order)
    ensures
        (r is Less) == value_less(a@, b@),
        (r is Equal) == (a@ == b@),
    decreases a, 1nat,
{
    proof {
        lemma_view(a);
        lemma_view(b);
    }
    match (a, b) {
        (Value::Str(x), Value::Str(y)) => {
            let r = order_bytes(x.as_str().as_bytes(), y.as_str().as_bytes());
            proof {
                if r is Equal {
                    lemma_utf8_injective(x@, y@);
                }
            }
            r
        },
        (Value::List(x), Value::List(y)) => order_all(x, y),
        (Value::Dict(x), Value::Dict(y)) => order_entries(x, y),
        (Value::Record(p, x), Value::Record(q, y)) => {
            match order_prims(p, q) {
                Order::Equal => order_all(x, y),
                other => other,
            }
        },
        (Value::Str(_), _) => Order::Less,
        (Value::List(_), Value::Str(_)) => Order::Greater,
        (Value::List(_), _) => Order::Less,
        (Value::Dict(_), Value::Record(_, _)) => Order::Less,
        (Value::Dict(_), _) => Order::Greater,
        (Value::Record(_, _), _) => Order::Greater,
    }
}

/// Gives `key` the value `value`: the entry with that key is replaced, or a
/// new entry is put in front of the first greater key.
pub fn dict_insert(entries: &mut Vec<MapEntry>, key: Rc<Value>, value: Rc<Value>)
    ensures
        entry_views(final(entries)@) == spec_insert(entry_views(old(entries)@), (*key)@, (*value)@),
        sorted(entry_views(old(entries)@)) ==> sorted(entry_views(final(entries)@)),
{
    proof {
        if sorted(entry_views(entries@)) {
            crate::order::lemma_insert_sorted(entry_views(entries@), (*key)@, (*value)@);
        }
    }
    let ghost before = entry_views(entries@);
    let mut i: usize = 0;
    let mut found: bool = false;
    while i < entries.len()
        invariant_except_break
            !found,
            slot_from(before, (*key)@, 0) == slot_from(before, (*key)@, i as int),
        invariant
            i <= entries@.len(),
            entries@ == old(entries)@,
            before == entry_views(entries@),
        ensures
            i <= entries@.len(),
            entries@ == old(entries)@,
            slot_from(before, (*key)@, 0) == i,
            found == (i < entries@.len() && before[i as int].0 == (*key)@),
        decreases entries@.len() - i,
    {
        match order(&entries[i].key, &key) {
            Order::Less => {},
            Order::Equal => {
                found = true;
                break;
            },
            Order::Greater => {
                break;
            },
        }
        i += 1;
    }
    if found {
        entries.set(i, MapEntry { key, value });
        assert(entry_views(entries@) =~= before.update(i as int, ((*key)@, (*value)@)));
    } else {
        entries.insert(i, MapEntry { key, value });
        assert(entry_views(entries@) =~= before.insert(i as int, ((*key)@, (*value)@)));
    }
}

/// The value that `key` has, if it has one: that of the first entry whose
/// key does not come before `key`, where that key is `key`.
pub open spec fn spec_lookup(entries: Seq<(ValueView, ValueView)>, key: ValueView) -> Option<
    ValueView,
> {
    let p = slot_from(entries, key, 0);
    if p < entries.len() && entries[p].0 == key {
        Some(entries[p].1)
    } else {
        None
    }
}

/// The value that `key` has, if it has one.
pub fn dict_get<'a>(entries: &'a Vec<MapEntry>, key: &Value) -> (r: Option<&'a Rc<Value>>)
    ensures
        match r {
            Some(v) => spec_lookup(entry_views(entries@), key@) == Some((**v)@),
            None => spec_lookup(entry_views(entries@), key@) is None,
        },
{
    let ghost views = entry_views(entries@);
    let mut i: usize = 0;
    while i < entries.len()
        invariant
            i <= entries@.len(),
            views == entry_views(entries@),
            slot_from(views, key@, 0) == slot_from(views, key@, i as int),
        decreases entries@.len() - i,
    {
        match order(&entries[i].key, key) {
            Order::Less => {},
            Order::Equal => {
                return Some(&entries[i].value);
            },
            Order::Greater => {
                return None;
            },
        }
        i += 1;
    }
    None
}

/// Whether the keys of the entries ascend.
pub fn ascending(entries: &Vec<MapEntry>) -> (b: bool)
    ensures
        b == sorted(entry_views(entries@)),
{
    let mut i: usize = 1;
    while i < entries.len()
        invariant
            1 <= i,
            forall|a: int, b: int|
                0 <= a < b < i && b < entries@.len() ==> value_less(
                    (#[trigger] entry_views(entries@)[a]).0,
                    (#[trigger] entry_views(entries@)[b]).0,
                ),
        decreases entries@.len() - i,
    {
        match order(&entries[i - 1].key, &entries[i].key) {
            Order::Less => {},
            _ => {
                proof {
                    reveal(sorted);
                    assert(!value_less(
                        entry_views(entries@)[i - 1].0,
                        entry_views(entries@)[i as int].0,
                    ));
                }
                return false;
            },
        }
        proof {
            let views = entry_views(entries@);
            assert forall|a: int, b: int| 0 <= a < b < i + 1 && b < entries@.len() implies value_less(
                (#[trigger] views[a]).0,
                (#[trigger] views[b]).0,
            ) by {
                if b == i && a < i - 1 {
                    crate::order::lemma_transitive(views[a].0, views[i - 1].0, views[i as int].0);
                }
            }
        }
        i += 1;
    }
    proof {
        reveal(sorted);
    }
    true
}

} // verus!
