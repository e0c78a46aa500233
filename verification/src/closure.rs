//! The store is closed under reference: after a value was stored, so is
//! everything that it refers to.

use crate::hashio_model::Schema;
use crate::hashiotype::ObjectView;
use crate::load::Files;
use crate::round_trip::{
    child_of, extends, lemma_name_len, lemma_put_step, lemma_same_name_same_hash, name_of,
};
use crate::save::{blob_of, child_count, fits, put_children, spec_put};
use crate::value::{content_hash, ValueView};
use vstd::prelude::*;

verus! {

/// The child of a value at position `i`: an item of a sequence; of a map
/// the keys at the even positions and the values at the odd ones; a child of
/// a record.
pub open spec fn value_child(v: ValueView, i: int) -> ValueView {
    match v {
        ValueView::Str(_) => v,
        ValueView::List(items) => items[i],
        ValueView::Dict(entries) => if i % 2 == 0 {
            entries[i / 2].0
        } else {
            entries[i / 2].1
        },
        ValueView::Record(_, children) => children[i],
    }
}

/// Whether `p` is the value itself, one of its children, or reached from
/// one of them.
pub open spec fn reaches(v: ValueView, p: ValueView) -> bool
    decreases v,
{
    p == v || exists|i: int| 0 <= i < child_count(v) && reaches(#[trigger] value_child(v, i), p)
}

/// Whether the store has a blob for the value and for all that is reached
/// from it.
pub open spec fn all_stored(files: Files, base: Seq<char>, v: ValueView) -> bool
    decreases v,
{
    &&& files.contains_key(name_of(base, v))
    &&& forall|i: int|
        0 <= i < child_count(v) ==> all_stored(files, base, #[trigger] value_child(v, i))
}

/// Whether the store, where it has a blob for something reached from the
/// value, has blobs for all that is reached from that.
pub open spec fn closed_for(files: Files, base: Seq<char>, v: ValueView) -> bool {
    forall|p: ValueView|
        #[trigger] reaches(v, p) && files.contains_key(name_of(base, p)) ==> all_stored(
            files,
            base,
            p,
        )
}

/// Whether no two different values reached from the value share a content
/// hash.
pub open spec fn collision_free(v: ValueView) -> bool {
    forall|p: ValueView, q: ValueView|
        #[trigger] reaches(v, p) && #[trigger] reaches(v, q) && content_hash(p) == content_hash(q)
            ==> p == q
}

/// Whether `g` has a blob wherever `f` has one.
pub open spec fn keeps(base: Seq<char>, f: Files, g: Files) -> bool {
    forall|n: Seq<char>| n.len() == base.len() + 66 && #[trigger] f.contains_key(n) ==> g.contains_key(n)
}

/// Whether every blob that is in `g` and not in `f` is named after a value
/// reached from one of the first `i` children.
pub open spec fn fresh_upto(base: Seq<char>, f: Files, g: Files, v: ValueView, i: int) -> bool {
    forall|n: Seq<char>|
        n.len() == base.len() + 66 && #[trigger] g.contains_key(n) && !f.contains_key(n)
            ==> exists|p: ValueView, j: int|
            0 <= j < i && j < child_count(v) && #[trigger] reaches(value_child(v, j), p)
                && name_of(base, p) == n
}

/// Whether every blob that is in `g` and not in `f` is named after a value
/// reached from `v`.
pub open spec fn fresh_from(base: Seq<char>, f: Files, g: Files, v: ValueView) -> bool {
    forall|n: Seq<char>|
        n.len() == base.len() + 66 && #[trigger] g.contains_key(n) && !f.contains_key(n)
            ==> exists|p: ValueView| #[trigger] reaches(v, p) && name_of(base, p) == n
}

/// What is reached from a child is reached from the parent.
pub proof fn lemma_reaches_child(v: ValueView, i: int, p: ValueView)
    requires
        0 <= i < child_count(v),
        reaches(value_child(v, i), p),
    ensures
        reaches(v, p),
{
}

/// Blobs that are added leave what is stored stored.
pub proof fn lemma_all_stored_stable(base: Seq<char>, f: Files, g: Files, v: ValueView)
    requires
        all_stored(f, base, v),
        keeps(base, f, g),
    ensures
        all_stored(g, base, v),
    decreases v,
{
    lemma_name_len(base, v);
    assert forall|i: int| 0 <= i < child_count(v) implies all_stored(
        g,
        base,
        #[trigger] value_child(v, i),
    ) by {
        lemma_all_stored_stable(base, f, g, value_child(v, i));
    }
}

/// Where all is stored that is reached from a value, all is stored that is
/// reached from what it reaches.
pub proof fn lemma_all_stored_reached(files: Files, base: Seq<char>, v: ValueView, p: ValueView)
    requires
        all_stored(files, base, v),
        reaches(v, p),
    ensures
        all_stored(files, base, p),
    decreases v,
{
    if p != v {
        let i = choose|i: int|
            0 <= i < child_count(v) && reaches(#[trigger] value_child(v, i), p);
        lemma_all_stored_reached(files, base, value_child(v, i), p);
    }
}

/// The child of a value that is of its type is the child that is stored.
pub proof fn lemma_child_value(schema: Schema, v: ValueView, i: int)
    requires
        fits(schema, v),
        0 <= i < child_count(v),
    ensures
        child_of(ObjectView { schema, value: v }, i).value == value_child(v, i),
{
}

/// Storing the children from position `i` on, where it succeeds, leaves
/// all stored that is reached from them.
pub proof fn lemma_put_children_all(
    start: Files,
    cur: Files,
    base: Seq<char>,
    schema: Schema,
    v: ValueView,
    i: int,
)
    requires
        fits(schema, v),
        0 <= i <= child_count(v),
        put_children(cur, base, schema, v, i).1 is Ok,
        closed_for(start, base, v),
        collision_free(v),
        keeps(base, start, cur),
        fresh_upto(base, start, cur, v, i),
        forall|j: int| 0 <= j < i ==> all_stored(cur, base, #[trigger] value_child(v, j)),
    ensures
        keeps(base, start, put_children(cur, base, schema, v, i).0),
        fresh_upto(base, start, put_children(cur, base, schema, v, i).0, v, child_count(v) as int),
        forall|j: int|
            0 <= j < child_count(v) ==> all_stored(
                put_children(cur, base, schema, v, i).0,
                base,
                #[trigger] value_child(v, j),
            ),
    decreases v, 1nat, child_count(v) - i,
{
    if i < child_count(v) {
        let o = ObjectView { schema, value: v };
        let c = value_child(v, i);
        let child_schema = child_of(o, i).schema;
        lemma_child_value(schema, v, i);
        lemma_put_step(cur, base, o, i);
        let next = spec_put(cur, base, child_schema, c).0;
        assert forall|p: ValueView|
            #[trigger] reaches(c, p) && cur.contains_key(name_of(base, p)) implies all_stored(
            cur,
            base,
            p,
        ) by {
            lemma_reaches_child(v, i, p);
            lemma_name_len(base, p);
            let n = name_of(base, p);
            if start.contains_key(n) {
                lemma_all_stored_stable(base, start, cur, p);
            } else {
                let (q, j) = choose|q: ValueView, j: int|
                    0 <= j < i && j < child_count(v) && #[trigger] reaches(value_child(v, j), q)
                        && name_of(base, q) == n;
                lemma_reaches_child(v, j, q);
                lemma_same_name_same_hash(base, q, p);
                assert(p == q);
                lemma_all_stored_reached(cur, base, value_child(v, j), q);
            }
        }
        assert forall|p: ValueView, q: ValueView|
            #[trigger] reaches(c, p) && #[trigger] reaches(c, q) && content_hash(p)
                == content_hash(q) implies p == q by {
            lemma_reaches_child(v, i, p);
            lemma_reaches_child(v, i, q);
        }
        lemma_put_all(cur, base, child_schema, c);
        assert(keeps(base, start, next));
        assert forall|n: Seq<char>|
            n.len() == base.len() + 66 && #[trigger] next.contains_key(n) && !start.contains_key(
                n,
            ) implies exists|p: ValueView, j: int|
            0 <= j < i + 1 && j < child_count(v) && #[trigger] reaches(value_child(v, j), p)
                && name_of(base, p) == n by {
            if cur.contains_key(n) {
                let (q, j) = choose|q: ValueView, j: int|
                    0 <= j < i && j < child_count(v) && #[trigger] reaches(value_child(v, j), q)
                        && name_of(base, q) == n;
                assert(0 <= j < i + 1 && reaches(value_child(v, j), q));
            } else {
                let q = choose|q: ValueView| #[trigger] reaches(c, q) && name_of(base, q) == n;
                assert(0 <= i < i + 1 && reaches(value_child(v, i), q));
            }
        }
        assert forall|j: int| 0 <= j < i + 1 implies all_stored(
            next,
            base,
            #[trigger] value_child(v, j),
        ) by {
            if j < i {
                lemma_all_stored_stable(base, cur, next, value_child(v, j));
            }
        }
        lemma_put_children_all(start, next, base, schema, v, i + 1);
    }
}

/// Storing a value, where it succeeds, leaves all stored that is reached
/// from it.
pub proof fn lemma_put_all(files: Files, base: Seq<char>, schema: Schema, v: ValueView)
    requires
        spec_put(files, base, schema, v).1 is Ok,
        closed_for(files, base, v),
        collision_free(v),
    ensures
        all_stored(spec_put(files, base, schema, v).0, base, v),
        keeps(base, files, spec_put(files, base, schema, v).0),
        fresh_from(base, files, spec_put(files, base, schema, v).0, v),
    decreases v, 2nat, 0nat,
{
    let name = name_of(base, v);
    let after = spec_put(files, base, schema, v).0;
    lemma_name_len(base, v);
    assert(reaches(v, v));
    if files.contains_key(name) {
    } else {
        lemma_put_children_all(files, files, base, schema, v, 0);
        let stored = put_children(files, base, schema, v, 0).0;
        assert(keeps(base, stored, after));
        assert forall|i: int| 0 <= i < child_count(v) implies all_stored(
            after,
            base,
            #[trigger] value_child(v, i),
        ) by {
            lemma_all_stored_stable(base, stored, after, value_child(v, i));
        }
        assert forall|n: Seq<char>|
            n.len() == base.len() + 66 && #[trigger] after.contains_key(n) && !files.contains_key(
                n,
            ) implies exists|p: ValueView| #[trigger] reaches(v, p) && name_of(base, p) == n by {
            if n == name {
                assert(reaches(v, v) && name_of(base, v) == n);
            } else {
                assert(stored.contains_key(n));
                let (q, j) = choose|q: ValueView, j: int|
                    0 <= j < child_count(v) && j < child_count(v) && #[trigger] reaches(
                        value_child(v, j),
                        q,
                    ) && name_of(base, q) == n;
                lemma_reaches_child(v, j, q);
            }
        }
    }
}

/// After a value was stored, the blob of everything that is reached from
/// it is there: where the store, for what it held of the value before, held
/// all that is reached from that, and no two different values reached from
/// the value share a content hash.
pub proof fn lemma_put_stores_reached(
    files: Files,
    base: Seq<char>,
    schema: Schema,
    v: ValueView,
    p: ValueView,
)
    requires
        spec_put(files, base, schema, v).1 is Ok,
        closed_for(files, base, v),
        collision_free(v),
        reaches(v, p),
    ensures
        spec_put(files, base, schema, v).0.contains_key(name_of(base, p)),
{
    lemma_put_all(files, base, schema, v);
    lemma_all_stored_reached(spec_put(files, base, schema, v).0, base, v, p);
}

/// Whether `put_children` stores a child at position `i`, rather than
/// refuse the value.
pub open spec fn takes_step(schema: Schema, v: ValueView, i: int) -> bool {
    match (schema, v) {
        (Schema::List(_), ValueView::List(_)) => true,
        (Schema::Dict(_, _), ValueView::Dict(_)) => true,
        (Schema::Record(record), ValueView::Record(_, _)) => i < record.children@.len(),
        _ => false,
    }
}

/// Storing the children from position `i` on leaves every blob that was
/// there as it was.
pub proof fn lemma_put_children_extends(
    files: Files,
    base: Seq<char>,
    schema: Schema,
    v: ValueView,
    i: int,
)
    requires
        0 <= i,
    ensures
        extends(base, files, put_children(files, base, schema, v, i).0),
    decreases v, 1nat, child_count(v) - i,
{
    if i < child_count(v) && takes_step(schema, v, i) {
        let c = child_of(ObjectView { schema, value: v }, i);
        assert(c.value == value_child(v, i));
        let next = spec_put(files, base, c.schema, c.value);
        assert(put_children(files, base, schema, v, i) == if next.1 is Err {
            next
        } else {
            put_children(next.0, base, schema, v, i + 1)
        });
        lemma_put_extends(files, base, c.schema, c.value);
        if next.1 is Ok {
            lemma_put_children_extends(next.0, base, schema, v, i + 1);
        }
    }
}

/// A blob is never written again: whatever `put` comes to, every blob that
/// was there is there as it was.
pub proof fn lemma_put_extends(files: Files, base: Seq<char>, schema: Schema, v: ValueView)
    ensures
        extends(base, files, spec_put(files, base, schema, v).0),
    decreases v, 2nat, 0nat,
{
    lemma_name_len(base, v);
    lemma_put_children_extends(files, base, schema, v, 0);
}

/// A blob is there as a whole or not at all: the blob that a `put` leaves
/// under a name that was free is the blob of the value.
pub proof fn lemma_put_writes_blob(files: Files, base: Seq<char>, schema: Schema, v: ValueView)
    requires
        spec_put(files, base, schema, v).1 is Ok,
        !files.contains_key(name_of(base, v)),
    ensures
        spec_put(files, base, schema, v).0.contains_key(name_of(base, v)),
        spec_put(files, base, schema, v).0[name_of(base, v)] == blob_of(schema, v),
{
}

} // verus!
