//! The order of keys is a strict total order, and inserting into ascending
//! entries leaves them ascending.

use crate::btreemap::{
    bytes_less_from, dict_from, entries_less_from, kind_rank, prim_less,
    prims_less_from, seq_less_from, slot_from, sorted, spec_insert, spec_lookup, value_less,
};
use crate::hashio_model::PrimValue;
use crate::hashiotype::{
    childs_upto, has_child, has_child_name, insert_named, name_less, name_slot, named_count,
    named_name, named_object, names_ascend, spec_childs, NamedViews, ObjectView,
};
use crate::text::lemma_utf8_injective;
use crate::value::ValueView;
use vstd::prelude::*;
use vstd::utf8::encode_utf8;

verus! {

/// No byte string comes before itself.
pub proof fn lemma_bytes_irreflexive(a: Seq<u8>, i: int)
    requires
        0 <= i,
    ensures
        !bytes_less_from(a, a, i),
    decreases a.len() - i,
{
    if i < a.len() {
        lemma_bytes_irreflexive(a, i + 1);
    }
}

/// Of two byte strings that agree before `i`, one comes before the other
/// or they are the same.
pub proof fn lemma_bytes_total(a: Seq<u8>, b: Seq<u8>, i: int)
    requires
        0 <= i <= a.len(),
        i <= b.len(),
        forall|k: int| 0 <= k < i ==> a[k] == b[k],
    ensures
        bytes_less_from(a, b, i) || bytes_less_from(b, a, i) || a == b,
    decreases a.len() - i,
{
    if i < a.len() && i < b.len() {
        if a[i] == b[i] {
            lemma_bytes_total(a, b, i + 1);
        }
    } else if i == a.len() && i == b.len() {
        assert(a =~= b);
    }
}

/// What comes before what comes before a third comes before the third.
pub proof fn lemma_bytes_transitive(a: Seq<u8>, b: Seq<u8>, c: Seq<u8>, i: int)
    requires
        0 <= i,
        bytes_less_from(a, b, i),
        bytes_less_from(b, c, i),
    ensures
        bytes_less_from(a, c, i),
    decreases a.len() - i,
{
    if i < a.len() && i < b.len() && i < c.len() {
        if a[i] == b[i] && b[i] == c[i] {
            lemma_bytes_transitive(a, b, c, i + 1);
        }
    }
}

/// No run of primitive values comes before itself.
pub proof fn lemma_prims_irreflexive(a: Seq<PrimValue>, i: int)
    requires
        0 <= i,
    ensures
        !prims_less_from(a, a, i),
    decreases a.len() - i,
{
    if i < a.len() {
        lemma_prims_irreflexive(a, i + 1);
    }
}

/// Of two primitive values, one comes before the other or they are the
/// same.
pub proof fn lemma_prim_total(a: PrimValue, b: PrimValue)
    ensures
        prim_less(a, b) || prim_less(b, a) || a == b,
{
}

/// Of two runs of primitive values that agree before `i`, one comes before
/// the other or they are the same.
pub proof fn lemma_prims_total(a: Seq<PrimValue>, b: Seq<PrimValue>, i: int)
    requires
        0 <= i <= a.len(),
        i <= b.len(),
        forall|k: int| 0 <= k < i ==> a[k] == b[k],
    ensures
        prims_less_from(a, b, i) || prims_less_from(b, a, i) || a == b,
    decreases a.len() - i,
{
    if i < a.len() && i < b.len() {
        if a[i] == b[i] {
            lemma_prims_total(a, b, i + 1);
        } else {
            lemma_prim_total(a[i], b[i]);
        }
    } else if i == a.len() && i == b.len() {
        assert(a =~= b);
    }
}

/// What comes before what comes before a third comes before the third.
pub proof fn lemma_prims_transitive(a: Seq<PrimValue>, b: Seq<PrimValue>, c: Seq<PrimValue>, i: int)
    requires
        0 <= i,
        prims_less_from(a, b, i),
        prims_less_from(b, c, i),
    ensures
        prims_less_from(a, c, i),
    decreases a.len() - i,
{
    if i < a.len() && i < b.len() && i < c.len() {
        if a[i] == b[i] && b[i] == c[i] {
            lemma_prims_transitive(a, b, c, i + 1);
        }
    }
}

/// No value comes before itself.
pub proof fn lemma_irreflexive(a: ValueView)
    ensures
        !value_less(a, a),
    decreases a, 1nat, 0nat,
{
    match a {
        ValueView::Str(x) => {
            lemma_bytes_irreflexive(encode_utf8(x), 0);
        },
        ValueView::List(x) => {
            lemma_seq_irreflexive(x, 0);
        },
        ValueView::Dict(x) => {
            lemma_entries_irreflexive(x, 0);
        },
        ValueView::Record(p, x) => {
            lemma_seq_irreflexive(x, 0);
        },
    }
}

/// No sequence comes before itself.
pub proof fn lemma_seq_irreflexive(a: Seq<ValueView>, i: int)
    requires
        0 <= i,
    ensures
        !seq_less_from(a, a, i),
    decreases a, 0nat, a.len() - i,
{
    if i < a.len() {
        lemma_seq_irreflexive(a, i + 1);
    }
}

/// No run of entries comes before itself.
pub proof fn lemma_entries_irreflexive(a: Seq<(ValueView, ValueView)>, i: int)
    requires
        0 <= i,
    ensures
        !entries_less_from(a, a, i),
    decreases a, 0nat, a.len() - i,
{
    if i < a.len() {
        lemma_entries_irreflexive(a, i + 1);
    }
}

/// Of two values, one comes before the other or they are the same.
pub proof fn lemma_total(a: ValueView, b: ValueView)
    ensures
        value_less(a, b) || value_less(b, a) || a == b,
    decreases a, 1nat, 0nat,
{
    match (a, b) {
        (ValueView::Str(x), ValueView::Str(y)) => {
            lemma_bytes_total(encode_utf8(x), encode_utf8(y), 0);
            if encode_utf8(x) == encode_utf8(y) {
                lemma_utf8_injective(x, y);
            }
        },
        (ValueView::List(x), ValueView::List(y)) => {
            lemma_seq_total(x, y, 0);
        },
        (ValueView::Dict(x), ValueView::Dict(y)) => {
            lemma_entries_total(x, y, 0);
        },
        (ValueView::Record(p, x), ValueView::Record(q, y)) => {
            if p != q {
                lemma_prims_total(p, q, 0);
            } else {
                lemma_seq_total(x, y, 0);
            }
        },
        _ => {},
    }
}

/// Of two sequences that agree before `i`, one comes before the other or
/// they are the same.
pub proof fn lemma_seq_total(a: Seq<ValueView>, b: Seq<ValueView>, i: int)
    requires
        0 <= i <= a.len(),
        i <= b.len(),
        forall|k: int| 0 <= k < i ==> a[k] == b[k],
    ensures
        seq_less_from(a, b, i) || seq_less_from(b, a, i) || a == b,
    decreases a, 0nat, a.len() - i,
{
    if i < a.len() && i < b.len() {
        if a[i] == b[i] {
            lemma_seq_total(a, b, i + 1);
        } else {
            lemma_total(a[i], b[i]);
        }
    } else if i == a.len() && i == b.len() {
        assert(a =~= b);
    }
}

/// Of two runs of entries that agree before `i`, one comes before the other
/// or they are the same.
pub proof fn lemma_entries_total(
    a: Seq<(ValueView, ValueView)>,
    b: Seq<(ValueView, ValueView)>,
    i: int,
)
    requires
        0 <= i <= a.len(),
        i <= b.len(),
        forall|k: int| 0 <= k < i ==> a[k] == b[k],
    ensures
        entries_less_from(a, b, i) || entries_less_from(b, a, i) || a == b,
    decreases a, 0nat, a.len() - i,
{
    if i < a.len() && i < b.len() {
        if a[i].0 != b[i].0 {
            lemma_total(a[i].0, b[i].0);
        } else if a[i].1 != b[i].1 {
            lemma_total(a[i].1, b[i].1);
        } else {
            lemma_entries_total(a, b, i + 1);
        }
    } else if i == a.len() && i == b.len() {
        assert(a =~= b);
    }
}

/// What comes before a value is of its kind or of a kind before it.
pub proof fn lemma_less_ranks(a: ValueView, b: ValueView)
    requires
        value_less(a, b),
    ensures
        kind_rank(a) <= kind_rank(b),
{
}

/// What comes before what comes before a third comes before the third.
pub proof fn lemma_transitive(a: ValueView, b: ValueView, c: ValueView)
    requires
        value_less(a, b),
        value_less(b, c),
    ensures
        value_less(a, c),
    decreases a, 1nat, 0nat,
{
    lemma_less_ranks(a, b);
    lemma_less_ranks(b, c);
    match (a, b, c) {
        (ValueView::Str(x), ValueView::Str(y), ValueView::Str(z)) => {
            lemma_bytes_transitive(encode_utf8(x), encode_utf8(y), encode_utf8(z), 0);
        },
        (ValueView::List(x), ValueView::List(y), ValueView::List(z)) => {
            lemma_seq_transitive(x, y, z, 0);
        },
        (ValueView::Dict(x), ValueView::Dict(y), ValueView::Dict(z)) => {
            lemma_entries_transitive(x, y, z, 0);
        },
        (ValueView::Record(p, x), ValueView::Record(q, y), ValueView::Record(r, z)) => {
            if p != q && q != r {
                lemma_prims_transitive(p, q, r, 0);
                lemma_prims_irreflexive(p, 0);
            } else if p == q && q == r {
                lemma_seq_transitive(x, y, z, 0);
            }
        },
        _ => {},
    }
}

/// What comes before what comes before a third comes before the third.
pub proof fn lemma_seq_transitive(a: Seq<ValueView>, b: Seq<ValueView>, c: Seq<ValueView>, i: int)
    requires
        0 <= i,
        seq_less_from(a, b, i),
        seq_less_from(b, c, i),
    ensures
        seq_less_from(a, c, i),
    decreases a, 0nat, a.len() - i,
{
    if i < a.len() && i < b.len() && i < c.len() {
        if a[i] == b[i] && b[i] == c[i] {
            lemma_seq_transitive(a, b, c, i + 1);
        } else if a[i] != b[i] && b[i] != c[i] {
            lemma_transitive(a[i], b[i], c[i]);
            lemma_irreflexive(a[i]);
        }
    }
}

/// What comes before what comes before a third comes before the third.
pub proof fn lemma_entries_transitive(
    a: Seq<(ValueView, ValueView)>,
    b: Seq<(ValueView, ValueView)>,
    c: Seq<(ValueView, ValueView)>,
    i: int,
)
    requires
        0 <= i,
        entries_less_from(a, b, i),
        entries_less_from(b, c, i),
    ensures
        entries_less_from(a, c, i),
    decreases a, 0nat, a.len() - i,
{
    if i < a.len() && i < b.len() && i < c.len() {
        if a[i].0 != b[i].0 && b[i].0 != c[i].0 {
            lemma_transitive(a[i].0, b[i].0, c[i].0);
            lemma_irreflexive(a[i].0);
        } else if a[i].0 == b[i].0 && b[i].0 == c[i].0 {
            if a[i].1 != b[i].1 && b[i].1 != c[i].1 {
                lemma_transitive(a[i].1, b[i].1, c[i].1);
                lemma_irreflexive(a[i].1);
            } else if a[i].1 == b[i].1 && b[i].1 == c[i].1 {
                lemma_entries_transitive(a, b, c, i + 1);
            }
        }
    }
}

/// The place that a key finds: the keys before it come before the key, and
/// the key at it does not.
pub proof fn lemma_slot(entries: Seq<(ValueView, ValueView)>, key: ValueView, i: int)
    requires
        0 <= i <= entries.len(),
    ensures
        i <= slot_from(entries, key, i) <= entries.len(),
        forall|j: int|
            i <= j < slot_from(entries, key, i) ==> value_less((#[trigger] entries[j]).0, key),
        slot_from(entries, key, i) < entries.len() ==> !value_less(
            entries[slot_from(entries, key, i)].0,
            key,
        ),
    decreases entries.len() - i,
{
    if i < entries.len() && value_less(entries[i].0, key) {
        lemma_slot(entries, key, i + 1);
    }
}

/// Inserting into ascending entries leaves them ascending.
pub proof fn lemma_insert_sorted(
    entries: Seq<(ValueView, ValueView)>,
    key: ValueView,
    value: ValueView,
)
    requires
        sorted(entries),
    ensures
        sorted(spec_insert(entries, key, value)),
{
    reveal(sorted);
    let p = slot_from(entries, key, 0);
    let after = spec_insert(entries, key, value);
    lemma_slot(entries, key, 0);
    if p < entries.len() && entries[p].0 == key {
        assert forall|i: int, j: int| 0 <= i < j < after.len() implies value_less(
            (#[trigger] after[i]).0,
            (#[trigger] after[j]).0,
        ) by {
            assert(after[i].0 == entries[i].0);
            assert(after[j].0 == entries[j].0);
        }
    } else {
        assert forall|i: int, j: int| 0 <= i < j < after.len() implies value_less(
            (#[trigger] after[i]).0,
            (#[trigger] after[j]).0,
        ) by {
            let x = if i < p {
                entries[i]
            } else if i == p {
                (key, value)
            } else {
                entries[i - 1]
            };
            let y = if j < p {
                entries[j]
            } else if j == p {
                (key, value)
            } else {
                entries[j - 1]
            };
            assert(after[i] == x);
            assert(after[j] == y);
            if j == p {
            } else if i == p {
                lemma_total(entries[p].0, key);
                if j - 1 > p {
                    lemma_transitive(key, entries[p].0, entries[j - 1].0);
                }
            } else if i < p && j > p {
                assert(value_less(entries[i].0, entries[j - 1].0));
            } else {
            }
        }
    }
}

/// A key has the value that it was given last.
pub proof fn lemma_lookup_inserted(
    entries: Seq<(ValueView, ValueView)>,
    key: ValueView,
    value: ValueView,
)
    ensures
        spec_lookup(spec_insert(entries, key, value), key) == Some(value),
{
    let p = slot_from(entries, key, 0);
    let after = spec_insert(entries, key, value);
    lemma_slot(entries, key, 0);
    lemma_irreflexive(key);
    lemma_slot_agrees(entries, after, key, 0, p);
}

/// Where two runs of entries agree before `p` and the keys there come
/// before `key`, the search for `key` passes them in both.
pub proof fn lemma_slot_agrees(
    a: Seq<(ValueView, ValueView)>,
    b: Seq<(ValueView, ValueView)>,
    key: ValueView,
    i: int,
    p: int,
)
    requires
        0 <= i <= p <= a.len(),
        p <= b.len(),
        forall|j: int| i <= j < p ==> a[j] == b[j] && value_less((#[trigger] a[j]).0, key),
    ensures
        slot_from(b, key, i) == slot_from(b, key, p),
    decreases p - i,
{
    if i < p {
        assert(value_less(a[i].0, key));
        lemma_slot_agrees(a, b, key, i + 1, p);
    }
}

/// The map that pairs are inserted into has ascending keys.
pub proof fn lemma_dict_from_is_sorted(pairs: Seq<(ValueView, ValueView)>, n: nat)
    ensures
        sorted(dict_from(pairs, n)),
    decreases n,
{
    if n == 0 {
        reveal(sorted);
    } else {
        lemma_dict_from_is_sorted(pairs, (n - 1) as nat);
        lemma_insert_sorted(dict_from(pairs, (n - 1) as nat), pairs[n - 1].0, pairs[n - 1].1);
    }
}

/// The place that a name finds: the names before it come before the name,
/// and the name at it does not.
pub proof fn lemma_name_slot(entries: NamedViews, name: Seq<char>, i: int)
    requires
        0 <= i <= entries.len(),
    ensures
        i <= name_slot(entries, name, i) <= entries.len(),
        forall|j: int|
            i <= j < name_slot(entries, name, i) ==> name_less((#[trigger] entries[j]).0, name),
        name_slot(entries, name, i) < entries.len() ==> !name_less(
            entries[name_slot(entries, name, i)].0,
            name,
        ),
    decreases entries.len() - i,
{
    if i < entries.len() && name_less(entries[i].0, name) {
        lemma_name_slot(entries, name, i + 1);
    }
}

/// Of two names, one comes before the other or they are the same.
pub proof fn lemma_name_total(a: Seq<char>, b: Seq<char>)
    ensures
        name_less(a, b) || name_less(b, a) || a == b,
{
    lemma_bytes_total(encode_utf8(a), encode_utf8(b), 0);
    if encode_utf8(a) == encode_utf8(b) {
        lemma_utf8_injective(a, b);
    }
}

/// Giving a name a child leaves ascending names ascending.
pub proof fn lemma_insert_named_ascends(entries: NamedViews, name: Seq<char>, object: ObjectView)
    requires
        names_ascend(entries),
    ensures
        names_ascend(insert_named(entries, name, object)),
{
    reveal(names_ascend);
    let p = name_slot(entries, name, 0);
    let after = insert_named(entries, name, object);
    lemma_name_slot(entries, name, 0);
    if p < entries.len() && entries[p].0 == name {
        assert forall|i: int, j: int| 0 <= i < j < after.len() implies name_less(
            (#[trigger] after[i]).0,
            (#[trigger] after[j]).0,
        ) by {
            assert(after[i].0 == entries[i].0);
            assert(after[j].0 == entries[j].0);
        }
    } else {
        assert forall|i: int, j: int| 0 <= i < j < after.len() implies name_less(
            (#[trigger] after[i]).0,
            (#[trigger] after[j]).0,
        ) by {
            let x = if i < p {
                entries[i]
            } else if i == p {
                (name, object)
            } else {
                entries[i - 1]
            };
            let y = if j < p {
                entries[j]
            } else if j == p {
                (name, object)
            } else {
                entries[j - 1]
            };
            assert(after[i] == x);
            assert(after[j] == y);
            if j == p {
            } else if i == p {
                lemma_name_total(entries[p].0, name);
                if j - 1 > p {
                    lemma_bytes_transitive(
                        encode_utf8(name),
                        encode_utf8(entries[p].0),
                        encode_utf8(entries[j - 1].0),
                        0,
                    );
                }
            } else if i < p && j > p {
                assert(name_less(entries[i].0, entries[j - 1].0));
            } else {
            }
        }
    }
}

/// The first `n` children of an object stand in ascending order of their
/// names.
pub proof fn lemma_childs_upto_ascend(o: ObjectView, n: nat)
    ensures
        names_ascend(childs_upto(o, n)),
    decreases n,
{
    if n == 0 {
        reveal(names_ascend);
    } else {
        lemma_childs_upto_ascend(o, (n - 1) as nat);
        lemma_insert_named_ascends(
            childs_upto(o, (n - 1) as nat),
            named_name(o, n - 1),
            named_object(o, n - 1),
        );
    }
}

/// The children of an object stand in ascending order of their names, and
/// no name occurs twice.
pub proof fn lemma_childs_ascend(o: ObjectView)
    ensures
        names_ascend(spec_childs(o)),
        forall|i: int, j: int|
            0 <= i < j < spec_childs(o).len() ==> (#[trigger] spec_childs(o)[i]).0
                != (#[trigger] spec_childs(o)[j]).0,
{
    lemma_childs_upto_ascend(o, named_count(o));
    reveal(names_ascend);
    assert forall|i: int, j: int| 0 <= i < j < spec_childs(o).len() implies (#[trigger] spec_childs(
        o,
    )[i]).0 != (#[trigger] spec_childs(o)[j]).0 by {
        lemma_bytes_irreflexive(encode_utf8(spec_childs(o)[i].0), 0);
    }
}

/// After a name was given a child, the children hold it under the name,
/// and every child under another name is kept. Where the name was free there
/// is one child more.
pub proof fn lemma_insert_named_holds(entries: NamedViews, name: Seq<char>, object: ObjectView)
    ensures
        has_child(insert_named(entries, name, object), name, object),
        forall|n: Seq<char>, ob: ObjectView|
            #[trigger] has_child(entries, n, ob) && n != name ==> has_child(
                insert_named(entries, name, object),
                n,
                ob,
            ),
        forall|n: Seq<char>|
            #[trigger] has_child_name(insert_named(entries, name, object), n) ==> n == name
                || has_child_name(entries, n),
        !has_child_name(entries, name) ==> insert_named(entries, name, object).len()
            == entries.len() + 1,
{
    let p = name_slot(entries, name, 0);
    let after = insert_named(entries, name, object);
    lemma_name_slot(entries, name, 0);
    let replaced = p < entries.len() && entries[p].0 == name;
    assert(after[p] == (name, object));
    assert forall|n: Seq<char>, ob: ObjectView|
        #[trigger] has_child(entries, n, ob) && n != name implies has_child(after, n, ob) by {
        let j = choose|j: int| 0 <= j < entries.len() && #[trigger] entries[j] == (n, ob);
        if replaced {
            assert(after[j] == (n, ob));
        } else if j < p {
            assert(after[j] == (n, ob));
        } else {
            assert(after[j + 1] == (n, ob));
        }
    }
    assert forall|n: Seq<char>| #[trigger] has_child_name(after, n) implies n == name
        || has_child_name(entries, n) by {
        let j = choose|j: int| 0 <= j < after.len() && (#[trigger] after[j]).0 == n;
        if j != p {
            if replaced {
                assert(entries[j].0 == n);
            } else if j < p {
                assert(entries[j].0 == n);
            } else {
                assert(entries[j - 1].0 == n);
            }
        }
    }
    if !has_child_name(entries, name) && replaced {
        assert(entries[p].0 == name);
    }
}

/// Where the names of the first `n` children differ from one another, there
/// are `n` of them by name, each under its own.
pub proof fn lemma_childs_upto_distinct(o: ObjectView, n: nat)
    requires
        forall|i: int, j: int| 0 <= i < j < n ==> named_name(o, i) != named_name(o, j),
    ensures
        childs_upto(o, n).len() == n,
        forall|i: int|
            0 <= i < n ==> has_child(childs_upto(o, n), #[trigger] named_name(o, i), named_object(o, i)),
        forall|m: Seq<char>|
            #[trigger] has_child_name(childs_upto(o, n), m) ==> exists|i: int|
                0 <= i < n && #[trigger] named_name(o, i) == m,
    decreases n,
{
    if n > 0 {
        let before = childs_upto(o, (n - 1) as nat);
        let name = named_name(o, n - 1);
        let object = named_object(o, n - 1);
        let after = childs_upto(o, n);
        lemma_childs_upto_distinct(o, (n - 1) as nat);
        lemma_insert_named_holds(before, name, object);
        assert(!has_child_name(before, name)) by {
            if has_child_name(before, name) {
                let i = choose|i: int| 0 <= i < n - 1 && #[trigger] named_name(o, i) == name;
                assert(named_name(o, i) != named_name(o, n - 1));
            }
        }
        assert forall|i: int| 0 <= i < n implies has_child(
            after,
            #[trigger] named_name(o, i),
            named_object(o, i),
        ) by {
            if i < n - 1 {
                assert(has_child(before, named_name(o, i), named_object(o, i)));
            }
        }
        assert forall|m: Seq<char>| #[trigger] has_child_name(after, m) implies exists|i: int|
            0 <= i < n && #[trigger] named_name(o, i) == m by {
            if m == name {
                assert(named_name(o, n - 1) == m);
            } else {
                assert(has_child_name(before, m));
                let i = choose|i: int| 0 <= i < n - 1 && #[trigger] named_name(o, i) == m;
                assert(0 <= i < n && named_name(o, i) == m);
            }
        }
    }
}

/// Where the children of an object are named differently from one another,
/// as the entries of a map are whose keys read differently, the object has
/// as many children by name, and each stands under its own name.
pub proof fn lemma_childs_distinct(o: ObjectView)
    requires
        forall|i: int, j: int|
            0 <= i < j < named_count(o) ==> named_name(o, i) != named_name(o, j),
    ensures
        spec_childs(o).len() == named_count(o),
        forall|i: int|
            0 <= i < named_count(o) ==> has_child(
                spec_childs(o),
                #[trigger] named_name(o, i),
                named_object(o, i),
            ),
{
    lemma_childs_upto_distinct(o, named_count(o));
}

} // verus!
