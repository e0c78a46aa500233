//! What sequences and maps share: the header of their payload, and the
//! outcome of reading their items one after the other.

use crate::hashio::{short_read, ErrorView, HashIOError, ParseFault};
use crate::io::{u32_from_be, ByteReader};
use vstd::prelude::*;

verus! {

/// The count that the header of a collection holds. The reserved word in
/// front of it must be zero.
pub open spec fn collection_header(bytes: Seq<u8>) -> Result<u32, ErrorView> {
    if bytes.len() < 4 {
        Err(short_read())
    } else if u32_from_be(bytes) != 0 {
        Err(ErrorView::ParseError(ParseFault::ReservedWord(u32_from_be(bytes))))
    } else if bytes.len() < 8 {
        Err(short_read())
    } else {
        Ok(u32_from_be(bytes.skip(4)))
    }
}

/// Reads the header of a collection.
pub fn read_header(reader: &mut ByteReader) -> (r: Result<u32, HashIOError>)
    ensures
        match r {
            Ok(n) => collection_header(old(reader).remaining()) == Ok::<u32, ErrorView>(n) && final(
                reader
            ).remaining() == old(reader).remaining().skip(8),
            Err(e) => collection_header(old(reader).remaining()) == Err::<u32, ErrorView>(e@)
                && final(reader).remaining() == old(reader).remaining(),
        },
{
    let start = *reader;
    let reserved = match reader.read_u32() {
        Ok(w) => w,
        Err(e) => {
            return Err(e);
        },
    };
    if reserved != 0 {
        *reader = start;
        return Err(HashIOError::ParseError(ParseFault::ReservedWord(reserved)));
    }
    match reader.read_u32() {
        Ok(n) => {
            assert(reader.remaining() =~= old(reader).remaining().skip(8));
            Ok(n)
        },
        Err(e) => {
            *reader = start;
            Err(e)
        },
    }
}

/// The first error at or after position `i`.
pub open spec fn first_err<V>(results: Seq<Result<V, ErrorView>>, i: int) -> Option<ErrorView>
    decreases results.len() - i,
{
    if i < 0 || i >= results.len() {
        None
    } else {
        match results[i] {
            Err(e) => Some(e),
            Ok(_) => first_err(results, i + 1),
        }
    }
}

/// What reading the items in order comes to: the first error, or all the
/// values.
pub open spec fn collect<V>(results: Seq<Result<V, ErrorView>>) -> Result<Seq<V>, ErrorView> {
    match first_err(results, 0) {
        Some(e) => Err(e),
        None => Ok(Seq::new(results.len(), |i: int| results[i]->Ok_0)),
    }
}

/// Where every item was read, all the values come out.
pub proof fn lemma_collect_all<V>(results: Seq<Result<V, ErrorView>>, i: int)
    requires
        0 <= i <= results.len(),
        forall|k: int| i <= k < results.len() ==> (#[trigger] results[k]) is Ok,
    ensures
        first_err(results, i) is None,
    decreases results.len() - i,
{
    if i < results.len() {
        lemma_collect_all(results, i + 1);
    }
}

} // verus!
