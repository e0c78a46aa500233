//! The interfaces of the store, and its errors.
//!
//! A type identifies itself by a hash and a name (`Typeable`). A value with
//! its type names its children (`HashIOType`). A type reads and writes its
//! values (`HashIOParse`). A store gets and puts them (`HashIO`).

use crate::hash::{hex_of, Hash32};
use crate::hashiofile::HashIOFile;
use crate::hashiotype::{Named, NamedViews, named_views};
use crate::hashio_model::Schema;
use crate::value::{Value, ValueView};
use std::rc::Rc;
use crate::text::{push_decimal, spec_decimal};
use vstd::prelude::*;
use vstd::string::StringExecFns;

verus! {

/// A transport fault of the backend.
#[derive(Clone, Copy, Debug, PartialEq, Eq, Structural)]
pub enum IoFault {
    /// No blob is stored under the name that was asked for.
    NotFound,
    /// The blob ended before the bytes that were asked for.
    UnexpectedEof,
}

/// What makes a payload malformed.
#[derive(Clone, Copy, Debug, PartialEq, Eq, Structural)]
pub enum ParseFault {
    /// The bytes of a string are not UTF-8.
    InvalidUtf8,
    /// The reserved word in front of a collection is not zero.
    ReservedWord(u32),
}

/// Default error type of the store.
#[derive(Clone, Debug, PartialEq)]
pub enum HashIOError {
    /// A precondition of the programmer's was violated.
    Undefined(String),
    /// The envelope's version is unknown and the type declares no fallback.
    VersionError(u32),
    /// The envelope's type hash is not one the type recognises.
    TypeError(Hash32),
    /// The backend failed.
    IOError(IoFault),
    /// The payload is malformed.
    ParseError(ParseFault),
    /// A fallback parser was asked for and none is declared.
    FallbackNotSupported,
}

/// An error as contracts speak of it.
pub enum ErrorView {
    Undefined(Seq<char>),
    VersionError(u32),
    TypeError(Seq<u8>),
    IOError(IoFault),
    ParseError(ParseFault),
    FallbackNotSupported,
}

impl View for HashIOError {
    type V = ErrorView;

    open spec fn view(&self) -> ErrorView {
        match self {
            HashIOError::Undefined(msg) => ErrorView::Undefined(msg@),
            HashIOError::VersionError(v) => ErrorView::VersionError(*v),
            HashIOError::TypeError(h) => ErrorView::TypeError(h@),
            HashIOError::IOError(e) => ErrorView::IOError(*e),
            HashIOError::ParseError(e) => ErrorView::ParseError(*e),
            HashIOError::FallbackNotSupported => ErrorView::FallbackNotSupported,
        }
    }
}

/// The error of a read that found too few bytes.
pub open spec fn short_read() -> ErrorView {
    ErrorView::IOError(IoFault::UnexpectedEof)
}

impl IoFault {
    /// What went wrong, in words.
    pub open spec fn spec_description(&self) -> Seq<char> {
        match self {
            IoFault::NotFound => "entity not found"@,
            IoFault::UnexpectedEof => "failed to fill whole buffer"@,
        }
    }

    /// What went wrong, in words.
    pub fn description(&self) -> (s: &'static str)
        ensures
            s@ == self.spec_description(),
    {
        match self {
            IoFault::NotFound => "entity not found",
            IoFault::UnexpectedEof => "failed to fill whole buffer",
        }
    }
}

impl ParseFault {
    /// What went wrong, in words.
    pub open spec fn spec_description(&self) -> Seq<char> {
        match self {
            ParseFault::InvalidUtf8 => "invalid utf-8"@,
            ParseFault::ReservedWord(_) => "reserved word is not zero"@,
        }
    }

    /// What went wrong, in words.
    pub fn description(&self) -> (s: &'static str)
        ensures
            s@ == self.spec_description(),
    {
        match self {
            ParseFault::InvalidUtf8 => "invalid utf-8",
            ParseFault::ReservedWord(_) => "reserved word is not zero",
        }
    }
}

impl ErrorView {
    /// The message of the error: what kind it is, then the version, the
    /// type hash or the cause that it carries.
    pub open spec fn message(self) -> Seq<char> {
        match self {
            ErrorView::Undefined(msg) => "Undefined error: "@ + msg,
            ErrorView::VersionError(version) => "Unsupported version: "@ + spec_decimal(
                version as nat,
            ),
            ErrorView::TypeError(hash) => "Unexpected type: "@ + hex_of(hash),
            ErrorView::IOError(e) => "IOError: "@ + e.spec_description(),
            ErrorView::ParseError(e) => "Parse error: "@ + e.spec_description(),
            ErrorView::FallbackNotSupported => "Fallback is not supported"@,
        }
    }

    /// A short description of the error, without what it carries.
    pub open spec fn description(self) -> Seq<char> {
        match self {
            ErrorView::Undefined(msg) => msg,
            ErrorView::VersionError(_) => "Unsupported version"@,
            ErrorView::TypeError(_) => "Unexpected type"@,
            ErrorView::IOError(e) => e.spec_description(),
            ErrorView::ParseError(e) => e.spec_description(),
            ErrorView::FallbackNotSupported => "Fallback is not supported"@,
        }
    }
}

impl HashIOError {
    /// The message of the error, for operators.
    pub fn message(&self) -> (s: String)
        ensures
            s@ == self@.message(),
    {
        match self {
            HashIOError::Undefined(msg) => {
                let mut s = "Undefined error: ".to_string();
                s.append(msg.as_str());
                s
            },
            HashIOError::VersionError(version) => {
                let mut s = "Unsupported version: ".to_string();
                push_decimal(&mut s, *version as u64);
                s
            },
            HashIOError::TypeError(hash) => {
                let mut s = "Unexpected type: ".to_string();
                s.append(hash.as_string().as_str());
                s
            },
            HashIOError::IOError(e) => {
                let mut s = "IOError: ".to_string();
                s.append(e.description());
                s
            },
            HashIOError::ParseError(e) => {
                let mut s = "Parse error: ".to_string();
                s.append(e.description());
                s
            },
            HashIOError::FallbackNotSupported => "Fallback is not supported".to_string(),
        }
    }

    /// A short description of the error, without what it carries.
    pub fn description(&self) -> (s: String)
        ensures
            s@ == self@.description(),
    {
        match self {
            HashIOError::Undefined(msg) => msg.clone(),
            HashIOError::VersionError(_) => "Unsupported version".to_string(),
            HashIOError::TypeError(_) => "Unexpected type".to_string(),
            HashIOError::IOError(e) => e.description().to_string(),
            HashIOError::ParseError(e) => e.description().to_string(),
            HashIOError::FallbackNotSupported => "Fallback is not supported".to_string(),
        }
    }
}

/// Allows a type to identify itself.
pub trait Typeable {
    /// The hash that identifies the type.
    spec fn spec_type_hash(&self) -> Seq<u8>;

    /// The name of the type.
    spec fn spec_name(&self) -> Seq<char>;

    /// Whether the hash can be computed.
    spec fn spec_hashable(&self) -> bool;

    /// Identifies the type by a hash of its shape.
    fn type_hash(&self) -> (h: Hash32)
        requires
            self.spec_hashable(),
        ensures
            h@ == self.spec_type_hash(),
    ;

    /// Identifies the type by its name, which is handy in messages.
    fn name(&self) -> (s: String)
        ensures
            s@ == self.spec_name(),
    ;
}

/// What a value together with its type can tell of itself: its type by hash
/// and by name, and its children.
pub trait HashIOType {
    /// The hash of the type of the value.
    spec fn spec_type_hash_obj(&self) -> Seq<u8>;

    /// The name of the type of the value.
    spec fn spec_type_name_obj(&self) -> Seq<char>;

    /// Whether the hash of the type can be computed.
    spec fn spec_hashable_obj(&self) -> bool;

    /// The children by name.
    spec fn spec_childs(&self) -> NamedViews;

    /// The children, ordered by name.
    fn childs(&self) -> (r: Vec<Named>)
        ensures
            named_views(r@) == self.spec_childs(),
    ;

    /// The hash of the type of the value.
    fn type_hash_obj(&self) -> (h: Hash32)
        requires
            self.spec_hashable_obj(),
        ensures
            h@ == self.spec_type_hash_obj(),
    ;

    /// The name of the type of the value.
    fn type_name_obj(&self) -> (s: String)
        ensures
            s@ == self.spec_type_name_obj(),
    ;
}

/// A type whose values can be stored in and read from a store.
pub trait HashIOParse: Typeable {
    /// What reading a payload comes to.
    spec fn parsed(
        &self,
        files: Map<Seq<char>, Seq<u8>>,
        base: Seq<char>,
        bytes: Seq<u8>,
        type_hash: Option<Seq<u8>>,
    ) -> Result<ValueView, ErrorView>;

    /// What reading a blob of an unknown version comes to.
    spec fn fallback_parsed(
        &self,
        files: Map<Seq<char>, Seq<u8>>,
        base: Seq<char>,
        bytes: Seq<u8>,
    ) -> Result<ValueView, ErrorView>;

    /// What writing a value comes to: its payload, or the error.
    spec fn stored(&self, value: ValueView) -> Result<Seq<u8>, ErrorView>;

    /// What storing the children of a value comes to.
    spec fn childs_stored(
        &self,
        files: Map<Seq<char>, Seq<u8>>,
        base: Seq<char>,
        value: ValueView,
    ) -> (Map<Seq<char>, Seq<u8>>, Result<(), ErrorView>);

    /// Whether blobs of the type have no envelope.
    spec fn spec_unsafe_loader(&self) -> bool;

    /// Whether the type recognises a type hash, or why that cannot be told.
    spec fn hash_checked(&self, hash: Seq<u8>) -> Result<bool, ErrorView>;

    /// Reads a value from its payload, its children from `hash_io`.
    fn parse(&self, hash_io: &HashIOFile, bytes: &[u8], type_hash: &Option<Hash32>) -> (r: Result<
        Rc<Value>,
        HashIOError,
    >)
        ensures
            match r {
                Ok(v) => self.parsed(
                    hash_io@.files,
                    hash_io@.base_path,
                    bytes@,
                    match *type_hash {
                        Some(h) => Some(h@),
                        None => None,
                    },
                ) == Ok::<ValueView, ErrorView>((*v)@),
                Err(e) => self.parsed(
                    hash_io@.files,
                    hash_io@.base_path,
                    bytes@,
                    match *type_hash {
                        Some(h) => Some(h@),
                        None => None,
                    },
                ) == Err::<ValueView, ErrorView>(e@),
            },
    ;

    /// Writes the payload of a value to `out`. A value that cannot be
    /// written leaves `out` as it was.
    fn store(&self, value: &Value, out: &mut Vec<u8>) -> (r: Result<(), HashIOError>)
        ensures
            match r {
                Ok(_) => self.stored(value@) is Ok && final(out)@ == old(out)@ + self.stored(
                    value@,
                )->Ok_0,
                Err(e) => self.stored(value@) == Err::<Seq<u8>, ErrorView>(e@) && final(out)@
                    == old(out)@,
            },
    ;

    /// Stores the children of a value in `hash_io`.
    fn store_childs(&self, value: &Value, hash_io: &mut HashIOFile) -> (r: Result<(), HashIOError>)
        ensures
            final(hash_io)@.base_path == old(hash_io)@.base_path,
            (
                final(hash_io)@.files,
                match r {
                    Ok(_) => Ok::<(), ErrorView>(()),
                    Err(e) => Err::<(), ErrorView>(e@),
                },
            ) == self.childs_stored(old(hash_io)@.files, old(hash_io)@.base_path, value@),
            final(hash_io)@.dirs == crate::save::dirs_after(
                old(hash_io)@.base_path,
                old(hash_io)@.dirs,
                old(hash_io)@.files,
                final(hash_io)@.files,
            ),
    ;

    /// Reads a value from what follows a version that is not known.
    fn fallback_parse(&self, hash_io: &HashIOFile, bytes: &[u8]) -> (r: Result<
        Rc<Value>,
        HashIOError,
    >)
        ensures
            match r {
                Ok(v) => self.fallback_parsed(hash_io@.files, hash_io@.base_path, bytes@) == Ok::<
                    ValueView,
                    ErrorView,
                >((*v)@),
                Err(e) => self.fallback_parsed(hash_io@.files, hash_io@.base_path, bytes@) == Err::<
                    ValueView,
                    ErrorView,
                >(e@),
            },
    ;

    /// Whether blobs of the type have no envelope.
    fn unsafe_loader(&self) -> (b: bool)
        ensures
            b == self.spec_unsafe_loader(),
    ;

    /// Whether the version of an envelope is one that is read as it is:
    /// the version 1.
    fn version_valid(&self, version: u32) -> (b: bool)
        ensures
            b == (version == 1),
    ;

    /// Whether the type recognises the type hash of an envelope.
    fn type_hash_valid(&self, hash: &Hash32) -> (r: Result<bool, HashIOError>)
        ensures
            match r {
                Ok(b) => self.hash_checked(hash@) == Ok::<bool, ErrorView>(b),
                Err(e) => self.hash_checked(hash@) == Err::<bool, ErrorView>(e@),
            },
    ;
}

/// A store controls the reading and writing itself.
pub trait HashIO {
    /// The blobs of the store by name.
    spec fn files(&self) -> Map<Seq<char>, Seq<u8>>;

    /// The path below which the blobs stand.
    spec fn base(&self) -> Seq<char>;

    /// The directories that were created.
    spec fn dirs(&self) -> Set<Seq<char>>;

    /// The value of type `schema` that is stored under `hash`.
    fn get(&self, schema: &Schema, hash: &Hash32) -> (r: Result<Rc<Value>, HashIOError>)
        ensures
            crate::load::outcome_of(r) == crate::load::spec_get(
                self.files(),
                self.base(),
                *schema,
                hash@,
            ),
    ;

    /// Stores `value` as a value of type `schema`, under its content hash.
    fn put(&mut self, schema: &Schema, value: &Value) -> (r: Result<(), HashIOError>)
        ensures
            final(self).base() == old(self).base(),
            (final(self).files(), crate::save::unit_outcome(r)) == crate::save::spec_put(
                old(self).files(),
                old(self).base(),
                *schema,
                value@,
            ),
            final(self).dirs() == crate::save::dirs_after(
                old(self).base(),
                old(self).dirs(),
                old(self).files(),
                final(self).files(),
            ),
    ;
}

} // verus!
