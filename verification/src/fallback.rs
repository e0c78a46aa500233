//! Lifting a record of an older shape to the newer one.

use crate::hashio::{ErrorView, HashIOError};
use crate::hashio_model::{ChildSource, Conversion, PrimSource, PrimValue};
use crate::value::{lemma_view, share, views, Value, ValueView};
use std::rc::Rc;
use vstd::prelude::*;

verus! {

/// The error for a conversion that asks the older record for what it does
/// not hold.
pub open spec fn bad_conversion() -> ErrorView {
    ErrorView::Undefined("conversion does not fit the older record"@)
}

/// The error for a conversion that does not fit.
fn bad_conversion_error() -> (e: HashIOError)
    ensures
        e@ == bad_conversion(),
{
    HashIOError::Undefined("conversion does not fit the older record".to_string())
}

/// Whether the older record holds what the source asks for.
pub open spec fn prim_fits(src: PrimSource, old: Seq<PrimValue>) -> bool {
    match src {
        PrimSource::Old(i) => i < old.len(),
        PrimSource::Const(_) => true,
    }
}

/// The primitive value that the source stands for.
pub open spec fn prim_from(src: PrimSource, old: Seq<PrimValue>) -> PrimValue {
    match src {
        PrimSource::Old(i) => old[i as int],
        PrimSource::Const(v) => v,
    }
}

/// Whether the older record holds what the source asks for.
pub open spec fn child_fits(src: ChildSource, old: Seq<ValueView>) -> bool
    decreases src, 0nat,
{
    match src {
        ChildSource::Keep(i) => i < old.len(),
        ChildSource::Lift(i, conv) => i < old.len() && lift_fits(*conv, old[i as int]),
        ChildSource::LiftEach(i, conv) => i < old.len() && old[i as int] is List && forall|k: int|
            0 <= k < old[i as int]->List_0.len() ==> lift_fits(
                *conv,
                #[trigger] old[i as int]->List_0[k],
            ),
        ChildSource::Const(_) => true,
    }
}

/// The child that the source stands for.
pub open spec fn child_from(src: ChildSource, old: Seq<ValueView>) -> ValueView
    decreases src, 0nat,
{
    match src {
        ChildSource::Keep(i) => old[i as int],
        ChildSource::Lift(i, conv) => lifted(*conv, old[i as int]),
        ChildSource::LiftEach(i, conv) => ValueView::List(lifted_each(*conv, old[i as int]->List_0)),
        ChildSource::Const(v) => (*v)@,
    }
}

/// Each of the records lifted, in order.
pub open spec fn lifted_each(conv: Conversion, items: Seq<ValueView>) -> Seq<ValueView>
    decreases conv, 2nat,
{
    Seq::new(items.len(), |k: int| lifted(conv, items[k]))
}

/// Whether `old` is a record that holds all that the conversion asks for.
pub open spec fn lift_fits(conv: Conversion, old: ValueView) -> bool
    decreases conv, 1nat,
{
    &&& old is Record
    &&& forall|j: int|
        0 <= j < conv.prims@.len() ==> prim_fits(#[trigger] conv.prims@[j], old->Record_0)
    &&& forall|j: int|
        0 <= j < conv.children@.len() ==> child_fits(#[trigger] conv.children@[j], old->Record_1)
}

/// The children of the newer record.
pub open spec fn lifted_children(conv: Conversion, old: Seq<ValueView>) -> Seq<ValueView>
    decreases conv, 0nat,
{
    Seq::new(
        conv.children@.len(),
        |j: int|
            if 0 <= j < conv.children@.len() {
                child_from(conv.children@[j], old)
            } else {
                ValueView::Str(Seq::empty())
            },
    )
}

/// The newer record: each of its fields taken from where the conversion
/// says.
pub open spec fn lifted(conv: Conversion, old: ValueView) -> ValueView
    decreases conv, 1nat,
{
    ValueView::Record(
        Seq::new(conv.prims@.len(), |j: int| prim_from(conv.prims@[j], old->Record_0)),
        lifted_children(conv, old->Record_1),
    )
}

/// The newer record, or the error of a conversion that does not fit.
pub open spec fn spec_lift(conv: Conversion, old: ValueView) -> Result<ValueView, ErrorView> {
    if lift_fits(conv, old) {
        Ok(lifted(conv, old))
    } else {
        Err(bad_conversion())
    }
}

impl ChildSource {
    /// The child that the source stands for, taken from the children of the
    /// older record.
    #[verifier::loop_isolation(false)]
    pub fn apply(&self, old: &Vec<Rc<Value>>) -> (r: Result<Rc<Value>, HashIOError>)
        ensures
            match r {
                Ok(v) => child_fits(*self, views(old@)) && (*v)@ == child_from(*self, views(old@)),
                Err(e) => !child_fits(*self, views(old@)) && e@ == bad_conversion(),
            },
        decreases self, 0nat,
    {
        match self {
            ChildSource::Keep(i) => {
                if *i < old.len() {
                    Ok(share(&old[*i]))
                } else {
                    Err(bad_conversion_error())
                }
            },
            ChildSource::Lift(i, conv) => {
                if *i < old.len() {
                    match conv.apply(&old[*i]) {
                        Ok(v) => Ok(Rc::new(v)),
                        Err(e) => Err(e),
                    }
                } else {
                    Err(bad_conversion_error())
                }
            },
            ChildSource::LiftEach(i, conv) => {
                if *i >= old.len() {
                    return Err(bad_conversion_error());
                }
                proof {
                    lemma_view(&*old@[*i as int]);
                }
                let child: &Value = &old[*i];
                match child {
                    Value::List(items) => {
                        let mut out: Vec<Rc<Value>> = Vec::new();
                        let mut k: usize = 0;
                        while k < items.len()
                            invariant
                                k <= items@.len(),
                                out@.len() == k,
                                forall|n: int|
                                    0 <= n < k ==> lift_fits(**conv, #[trigger] views(items@)[n])
                                        && (*out@[n])@ == lifted(**conv, views(items@)[n]),
                            decreases items@.len() - k,
                        {
                            match conv.apply(&items[k]) {
                                Ok(v) => {
                                    out.push(Rc::new(v));
                                },
                                Err(e) => {
                                    assert(!lift_fits(**conv, views(items@)[k as int]));
                                    return Err(e);
                                },
                            }
                            k += 1;
                        }
                        let result = Value::List(out);
                        proof {
                            lemma_view(&result);
                            assert(views(out@) =~= lifted_each(**conv, views(items@)));
                        }
                        Ok(Rc::new(result))
                    },
                    _ => Err(bad_conversion_error()),
                }
            },
            ChildSource::Const(v) => Ok(share(v)),
        }
    }
}

impl Conversion {
    /// The newer record for the older record `old`.
    #[verifier::loop_isolation(false)]
    pub fn apply(&self, old: &Value) -> (r: Result<Value, HashIOError>)
        ensures
            match r {
                Ok(v) => lift_fits(*self, old@) && v@ == lifted(*self, old@),
                Err(e) => !lift_fits(*self, old@) && e@ == bad_conversion(),
            },
        decreases self, 1nat,
    {
        proof {
            lemma_view(old);
        }
        match old {
            Value::Record(old_prims, old_children) => {
                let mut prims: Vec<PrimValue> = Vec::new();
                let mut j: usize = 0;
                while j < self.prims.len()
                    invariant
                        j <= self.prims@.len(),
                        prims@.len() == j,
                        forall|n: int|
                            0 <= n < j ==> prim_fits(#[trigger] self.prims@[n], old_prims@)
                                && prims@[n] == prim_from(self.prims@[n], old_prims@),
                    decreases self.prims@.len() - j,
                {
                    match &self.prims[j] {
                        PrimSource::Old(i) => {
                            if *i < old_prims.len() {
                                prims.push(old_prims[*i]);
                            } else {
                                return Err(bad_conversion_error());
                            }
                        },
                        PrimSource::Const(v) => {
                            prims.push(*v);
                        },
                    }
                    j += 1;
                }
                let mut children: Vec<Rc<Value>> = Vec::new();
                let mut c: usize = 0;
                while c < self.children.len()
                    invariant
                        c <= self.children@.len(),
                        children@.len() == c,
                        forall|n: int|
                            0 <= n < c ==> child_fits(
                                #[trigger] self.children@[n],
                                views(old_children@),
                            ) && (*children@[n])@ == child_from(
                                self.children@[n],
                                views(old_children@),
                            ),
                    decreases self.children@.len() - c,
                {
                    match self.children[c].apply(old_children) {
                        Ok(v) => {
                            children.push(v);
                        },
                        Err(e) => {
                            return Err(e);
                        },
                    }
                    c += 1;
                }
                let result = Value::Record(prims, children);
                proof {
                    lemma_view(&result);
                    assert(prims@ =~= lifted(*self, old@)->Record_0);
                    assert(views(children@) =~= lifted_children(*self, views(old_children@)));
                }
                Ok(result)
            },
            _ => Err(bad_conversion_error()),
        }
    }
}

} // verus!
