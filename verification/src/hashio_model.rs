//! Record declarations: the fields of a record type, the older shapes it can
//! still be read from, and what identifies the type.

use crate::hash::{digest, digest_input_limit, Hash32};
use crate::hashio::{short_read, ErrorView, HashIOError, Typeable};
use crate::io::{
    be_u16, be_u32, be_u64, bits_of_i32, bits_of_i64, i32_of_bits, i64_of_bits,
    lemma_be_u16_round_trip, lemma_be_u32_round_trip, lemma_be_u64_round_trip,
    lemma_i32_bits_round_trip, lemma_i64_bits_round_trip, lemma_u16_from_be_prefix,
    lemma_u32_from_be_prefix, lemma_u64_from_be_prefix, u16_from_be, u32_from_be, u64_from_be,
    write_hash, write_i32, write_i64, write_u16, write_u32, write_u64, write_u8, ByteReader,
};
use crate::value::{concat, lemma_concat_len_bound, lemma_concat_push, Value};
use vstd::string::StringExecFns;
use std::rc::Rc;
use vstd::prelude::*;
use vstd::utf8::encode_utf8;

verus! {

/// The type of a primitive field. A float is held by its IEEE 754 bit
/// pattern.
#[derive(Clone, Copy, Debug, PartialEq, Eq, Structural)]
pub enum PrimType {
    U8,
    U16,
    U32,
    U64,
    I32,
    I64,
    F32,
    F64,
}

/// The value of a primitive field. A float is held by its IEEE 754 bit
/// pattern.
#[derive(Clone, Copy, Debug, PartialEq, Eq, Structural)]
pub enum PrimValue {
    U8(u8),
    U16(u16),
    U32(u32),
    U64(u64),
    I32(i32),
    I64(i64),
    F32(u32),
    F64(u64),
}

/// A primitive field of a record.
#[derive(Clone, Debug, PartialEq)]
pub struct PrimField {
    pub name: String,
    pub kind: PrimType,
}

/// A field of a record that holds another stored value.
#[derive(Clone, Debug, PartialEq)]
pub struct ChildField {
    pub name: String,
    pub schema: Schema,
}

/// Where a primitive field of the newer record comes from.
#[derive(Clone, Debug, PartialEq)]
pub enum PrimSource {
    /// The primitive field of the older record at this index.
    Old(usize),
    /// A fixed value.
    Const(PrimValue),
}

/// Where a child field of the newer record comes from.
#[derive(Clone, Debug, PartialEq)]
pub enum ChildSource {
    /// The child of the older record at this index, as it is.
    Keep(usize),
    /// The child of the older record at this index, a record, lifted.
    Lift(usize, Rc<Conversion>),
    /// The child of the older record at this index, a sequence of records,
    /// each of them lifted.
    LiftEach(usize, Rc<Conversion>),
    /// A fixed value.
    Const(Rc<Value>),
}

/// How a record of an older shape becomes one of the newer shape.
#[derive(Clone, Debug, PartialEq)]
pub struct Conversion {
    pub older: Rc<RecordSchema>,
    pub prims: Vec<PrimSource>,
    pub children: Vec<ChildSource>,
}

/// The declaration of a record type.
#[derive(Clone, Debug, PartialEq)]
pub struct RecordSchema {
    pub name: String,
    pub prims: Vec<PrimField>,
    pub children: Vec<ChildField>,
    /// The older shapes that a stored type hash may name.
    pub fallbacks: Vec<Conversion>,
    /// The shape of blobs written before envelopes had a version.
    pub plain_fallback: Option<Conversion>,
}

/// A storable type.
#[derive(Clone, Debug, PartialEq)]
pub enum Schema {
    /// A string.
    Str,
    /// An ordered sequence of values of one type.
    List(Rc<Schema>),
    /// An ordered map from values of one type to values of another.
    Dict(Rc<Schema>, Rc<Schema>),
    /// A record.
    Record(Rc<RecordSchema>),
}

impl PrimType {
    /// The textual tag that enters a record's type hash.
    pub open spec fn tag(self) -> Seq<char> {
        match self {
            PrimType::U8 => "u8"@,
            PrimType::U16 => "u16"@,
            PrimType::U32 => "u32"@,
            PrimType::U64 => "u64"@,
            PrimType::I32 => "i32"@,
            PrimType::I64 => "i64"@,
            PrimType::F32 => "f32"@,
            PrimType::F64 => "f64"@,
        }
    }

    /// The number of bytes a value of this type takes.
    pub open spec fn width(self) -> nat {
        match self {
            PrimType::U8 => 1,
            PrimType::U16 => 2,
            PrimType::U32 | PrimType::I32 | PrimType::F32 => 4,
            PrimType::U64 | PrimType::I64 | PrimType::F64 => 8,
        }
    }
}

impl PrimValue {
    /// The type of the value.
    pub open spec fn spec_kind(&self) -> PrimType {
        match self {
            PrimValue::U8(_) => PrimType::U8,
            PrimValue::U16(_) => PrimType::U16,
            PrimValue::U32(_) => PrimType::U32,
            PrimValue::U64(_) => PrimType::U64,
            PrimValue::I32(_) => PrimType::I32,
            PrimValue::I64(_) => PrimType::I64,
            PrimValue::F32(_) => PrimType::F32,
            PrimValue::F64(_) => PrimType::F64,
        }
    }

    /// The bytes of the value: big-endian, of the width of its type.
    pub open spec fn bytes(self) -> Seq<u8> {
        match self {
            PrimValue::U8(v) => seq![v],
            PrimValue::U16(v) => be_u16(v),
            PrimValue::U32(v) => be_u32(v),
            PrimValue::U64(v) => be_u64(v),
            PrimValue::I32(v) => be_u32(bits_of_i32(v)),
            PrimValue::I64(v) => be_u64(bits_of_i64(v)),
            PrimValue::F32(v) => be_u32(v),
            PrimValue::F64(v) => be_u64(v),
        }
    }

    /// The type of the value.
    #[verifier::when_used_as_spec(spec_kind)]
    pub fn kind(&self) -> (k: PrimType)
        ensures
            k == self.spec_kind(),
    {
        match self {
            PrimValue::U8(_) => PrimType::U8,
            PrimValue::U16(_) => PrimType::U16,
            PrimValue::U32(_) => PrimType::U32,
            PrimValue::U64(_) => PrimType::U64,
            PrimValue::I32(_) => PrimType::I32,
            PrimValue::I64(_) => PrimType::I64,
            PrimValue::F32(_) => PrimType::F32,
            PrimValue::F64(_) => PrimType::F64,
        }
    }

    /// Appends the bytes of the value.
    pub fn write_to(&self, out: &mut Vec<u8>)
        ensures
            final(out)@ == old(out)@ + self.bytes(),
    {
        match self {
            PrimValue::U8(v) => write_u8(*v, out),
            PrimValue::U16(v) => write_u16(*v, out),
            PrimValue::U32(v) => write_u32(*v, out),
            PrimValue::U64(v) => write_u64(*v, out),
            PrimValue::I32(v) => write_i32(*v, out),
            PrimValue::I64(v) => write_i64(*v, out),
            PrimValue::F32(v) => write_u32(*v, out),
            PrimValue::F64(v) => write_u64(*v, out),
        }
    }
}

impl PrimType {
    /// The textual tag that enters a record's type hash.
    pub fn tag_str(&self) -> (t: &'static str)
        ensures
            t@ == self.tag(),
    {
        match self {
            PrimType::U8 => "u8",
            PrimType::U16 => "u16",
            PrimType::U32 => "u32",
            PrimType::U64 => "u64",
            PrimType::I32 => "i32",
            PrimType::I64 => "i64",
            PrimType::F32 => "f32",
            PrimType::F64 => "f64",
        }
    }

    /// The hash of the tag.
    pub open spec fn tag_hash(self) -> Seq<u8> {
        digest(encode_utf8(self.tag()))
    }
}

/// The name of a type: `String`, `Vec<..>` and `BTreeMap<..,..>` around the
/// names of what they hold, and for a record the name it was declared with.
pub open spec fn schema_name(s: Schema) -> Seq<char>
    decreases s,
{
    match s {
        Schema::Str => "String"@,
        Schema::List(item) => "Vec<"@ + schema_name(*item) + ">"@,
        Schema::Dict(key, value) => "BTreeMap<"@ + schema_name(*key) + ","@ + schema_name(*value)
            + ">"@,
        Schema::Record(record) => record.name@,
    }
}

/// The hashes of the tags of primitive fields, in order.
pub open spec fn tag_hashes(prims: Seq<PrimField>) -> Seq<Seq<u8>> {
    Seq::new(prims.len(), |i: int| prims[i].kind.tag_hash())
}

/// The type hashes of child fields, in order.
pub open spec fn child_type_hashes(children: Seq<ChildField>) -> Seq<Seq<u8>>
    decreases children, 2nat,
{
    Seq::new(
        children.len(),
        |i: int|
            if 0 <= i < children.len() {
                schema_hash(children[i].schema)
            } else {
                Seq::empty()
            },
    )
}

/// The type hash of a record: the digest of the tag hashes of its primitive
/// fields followed by the type hashes of its children. Names do not enter;
/// order does.
pub open spec fn record_hash(r: RecordSchema) -> Seq<u8>
    decreases r, 3nat,
{
    digest(concat(tag_hashes(r.prims@)) + concat(child_type_hashes(r.children@)))
}

/// The type hash of a type. That of a string or a collection is the digest
/// of its name.
pub open spec fn schema_hash(s: Schema) -> Seq<u8>
    decreases s, 4nat,
{
    match s {
        Schema::Record(record) => record_hash(*record),
        _ => digest(encode_utf8(schema_name(s))),
    }
}

/// Whether a record's type hash can be computed: it has no more fields of
/// either kind than a 32-bit count holds, and the same is true of its
/// children.
pub open spec fn record_hashable(r: RecordSchema) -> bool
    decreases r, 0nat,
{
    &&& r.prims@.len() <= u32::MAX
    &&& r.children@.len() <= u32::MAX
    &&& forall|i: int|
        0 <= i < r.children@.len() ==> hashable((#[trigger] r.children@[i]).schema)
}

/// Whether a type's hash can be computed: its name, where that is what is
/// hashed, is short enough for the digest.
pub open spec fn hashable(s: Schema) -> bool
    decreases s, 1nat,
{
    match s {
        Schema::Record(record) => record_hashable(*record),
        _ => encode_utf8(schema_name(s)).len() < digest_input_limit(),
    }
}

/// The error for a type whose hash cannot be computed.
pub open spec fn type_too_large() -> ErrorView {
    ErrorView::Undefined("type too large to hash"@)
}

/// The error for a type whose hash cannot be computed.
fn type_too_large_error() -> (e: HashIOError)
    ensures
        e@ == type_too_large(),
{
    HashIOError::Undefined("type too large to hash".to_string())
}

/// A tag is two or three bytes long.
pub proof fn lemma_tag_short(kind: PrimType)
    ensures
        encode_utf8(kind.tag()).len() <= 3,
{
    reveal_strlit("u8");
    reveal_strlit("u16");
    reveal_strlit("u32");
    reveal_strlit("u64");
    reveal_strlit("i32");
    reveal_strlit("i64");
    reveal_strlit("f32");
    reveal_strlit("f64");
    assert(vstd::utf8::is_ascii_chars(kind.tag()));
    vstd::utf8::is_ascii_chars_encode_utf8(kind.tag());
}

impl RecordSchema {
    /// A record of the given name without fields.
    pub fn new(name: String) -> (r: RecordSchema)
        ensures
            r.name == name,
            r.prims@.len() == 0,
            r.children@.len() == 0,
            r.fallbacks@.len() == 0,
            r.plain_fallback is None,
    {
        RecordSchema {
            name,
            prims: Vec::new(),
            children: Vec::new(),
            fallbacks: Vec::new(),
            plain_fallback: None,
        }
    }

    /// Declares one more primitive field, behind those declared so far.
    pub fn add_prim(&mut self, name: String, kind: PrimType)
        ensures
            final(self).prims@ == old(self).prims@.push(PrimField { name, kind }),
            final(self).name == old(self).name,
            final(self).children == old(self).children,
            final(self).fallbacks == old(self).fallbacks,
            final(self).plain_fallback == old(self).plain_fallback,
    {
        self.prims.push(PrimField { name, kind });
    }

    /// Declares one more child, behind those declared so far.
    pub fn add_child(&mut self, name: String, schema: Schema)
        ensures
            final(self).children@ == old(self).children@.push(ChildField { name, schema }),
            final(self).name == old(self).name,
            final(self).prims == old(self).prims,
            final(self).fallbacks == old(self).fallbacks,
            final(self).plain_fallback == old(self).plain_fallback,
    {
        self.children.push(ChildField { name, schema });
    }

    /// Declares one more older shape, behind those declared so far.
    pub fn add_fallback(&mut self, conversion: Conversion)
        ensures
            final(self).fallbacks@ == old(self).fallbacks@.push(conversion),
            final(self).name == old(self).name,
            final(self).prims == old(self).prims,
            final(self).children == old(self).children,
            final(self).plain_fallback == old(self).plain_fallback,
    {
        self.fallbacks.push(conversion);
    }

    /// Declares the shape of blobs without a known version.
    pub fn set_plain_fallback(&mut self, conversion: Conversion)
        ensures
            final(self).plain_fallback == Some(conversion),
            final(self).name == old(self).name,
            final(self).prims == old(self).prims,
            final(self).children == old(self).children,
            final(self).fallbacks == old(self).fallbacks,
    {
        self.plain_fallback = Some(conversion);
    }

    /// The type hash, where it can be computed.
    pub fn try_type_hash(&self) -> (r: Result<Hash32, HashIOError>)
        ensures
            match r {
                Ok(h) => record_hashable(*self) && h@ == record_hash(*self),
                Err(e) => !record_hashable(*self) && e@ == type_too_large(),
            },
        decreases self, 0nat,
    {
        if self.prims.len() > 0xffff_ffff || self.children.len() > 0xffff_ffff {
            return Err(type_too_large_error());
        }
        let mut buf: Vec<u8> = Vec::new();
        let ghost tags = tag_hashes(self.prims@);
        let mut i: usize = 0;
        assert(concat(tags.take(0)) =~= buf@);
        while i < self.prims.len()
            invariant
                i <= self.prims@.len(),
                tags == tag_hashes(self.prims@),
                buf@ == concat(tags.take(i as int)),
            decreases self.prims@.len() - i,
        {
            let kind = self.prims[i].kind;
            proof {
                lemma_tag_short(kind);
            }
            let h = Hash32::hash_bytes(kind.tag_str().as_bytes());
            write_hash(&h, &mut buf);
            proof {
                assert(tags.take(i + 1) =~= tags.take(i as int).push(tags[i as int]));
                lemma_concat_push(tags.take(i as int), tags[i as int]);
            }
            i += 1;
        }
        assert(tags.take(self.prims@.len() as int) =~= tags);
        let ghost head = buf@;
        let ghost kids = child_type_hashes(self.children@);
        let mut j: usize = 0;
        assert(head + concat(kids.take(0)) =~= head);
        while j < self.children.len()
            invariant
                j <= self.children@.len(),
                kids == child_type_hashes(self.children@),
                forall|k: int| 0 <= k < j ==> hashable((#[trigger] self.children@[k]).schema),
                buf@ == head + concat(kids.take(j as int)),
            decreases self.children@.len() - j,
        {
            match self.children[j].schema.try_type_hash() {
                Ok(h) => {
                    write_hash(&h, &mut buf);
                    proof {
                        assert(kids.take(j + 1) =~= kids.take(j as int).push(kids[j as int]));
                        lemma_concat_push(kids.take(j as int), kids[j as int]);
                        assert(buf@ =~= head + concat(kids.take(j + 1)));
                    }
                },
                Err(e) => {
                    return Err(e);
                },
            }
            j += 1;
        }
        assert(kids.take(self.children@.len() as int) =~= kids);
        proof {
            lemma_concat_len_bound(tags, 32);
            lemma_concat_len_bound(kids, 32);
            assert(32 * tags.len() <= 32 * 0xffff_ffff) by (nonlinear_arith)
                requires
                    tags.len() <= 0xffff_ffff,
            ;
            assert(32 * kids.len() <= 32 * 0xffff_ffff) by (nonlinear_arith)
                requires
                    kids.len() <= 0xffff_ffff,
            ;
        }
        Ok(Hash32::hash_bytes(buf.as_slice()))
    }

}

impl Schema {
    /// The name of the type.
    pub fn type_name_string(&self) -> (s: String)
        ensures
            s@ == schema_name(*self),
        decreases self,
    {
        match self {
            Schema::Str => "String".to_string(),
            Schema::List(item) => {
                let mut s = "Vec<".to_string();
                s.append(item.type_name_string().as_str());
                s.append(">");
                s
            },
            Schema::Dict(key, value) => {
                let mut s = "BTreeMap<".to_string();
                s.append(key.type_name_string().as_str());
                s.append(",");
                s.append(value.type_name_string().as_str());
                s.append(">");
                s
            },
            Schema::Record(record) => record.name.clone(),
        }
    }

    /// The type hash, where it can be computed.
    pub fn try_type_hash(&self) -> (r: Result<Hash32, HashIOError>)
        ensures
            match r {
                Ok(h) => hashable(*self) && h@ == schema_hash(*self),
                Err(e) => !hashable(*self) && e@ == type_too_large(),
            },
        decreases self, 1nat,
    {
        match self {
            Schema::Record(record) => record.try_type_hash(),
            _ => {
                let name = self.type_name_string();
                match Hash32::try_hash_bytes(name.as_str().as_bytes()) {
                    Some(h) => Ok(h),
                    None => Err(type_too_large_error()),
                }
            },
        }
    }

}

/// Which shape a stored type hash names.
#[derive(Clone, Copy, Debug, PartialEq, Eq, Structural)]
pub enum Dispatch {
    /// The record as it is declared now.
    Current,
    /// The declared older shape at this index.
    Older(usize),
    /// None that the record knows.
    Unknown,
}

/// The first older shape at or after `i` whose type hash is `t`.
pub open spec fn find_fallback(fallbacks: Seq<Conversion>, t: Seq<u8>, i: int) -> Option<usize>
    decreases fallbacks.len() - i,
{
    if i < 0 || i >= fallbacks.len() {
        None
    } else if t == record_hash(*fallbacks[i].older) {
        Some(i as usize)
    } else {
        find_fallback(fallbacks, t, i + 1)
    }
}

/// The shape that the type hash `t` names: the record itself first, then
/// its older shapes in the order of their declaration.
pub open spec fn spec_dispatch(r: RecordSchema, t: Seq<u8>) -> Dispatch {
    if t == record_hash(r) {
        Dispatch::Current
    } else {
        match find_fallback(r.fallbacks@, t, 0) {
            Some(k) => Dispatch::Older(k),
            None => Dispatch::Unknown,
        }
    }
}

/// Whether the record recognises the type hash: it is its own or that of a
/// declared older shape.
pub open spec fn type_hash_valid(r: RecordSchema, t: Seq<u8>) -> bool {
    spec_dispatch(r, t) != Dispatch::Unknown
}

/// Whether the type hashes of the record and of all its older shapes can be
/// computed.
pub open spec fn dispatchable(r: RecordSchema) -> bool {
    &&& record_hashable(r)
    &&& forall|k: int|
        0 <= k < r.fallbacks@.len() ==> record_hashable(*(#[trigger] r.fallbacks@[k]).older)
}

/// Whether the version of an envelope is one that is read as it is.
pub open spec fn spec_version_valid(version: u32) -> bool {
    version == 1
}

/// Whether the version of an envelope is one that is read as it is.
#[verifier::when_used_as_spec(spec_version_valid)]
pub fn version_valid(version: u32) -> (b: bool)
    ensures
        b == spec_version_valid(version),
{
    version == 1
}

impl RecordSchema {
    /// The shape that the type hash `t` names, where the type hashes can be
    /// computed.
    pub fn dispatch(&self, t: &Hash32) -> (r: Result<Dispatch, HashIOError>)
        ensures
            match r {
                Ok(d) => dispatchable(*self) && d == spec_dispatch(*self, t@),
                Err(e) => !dispatchable(*self) && e@ == type_too_large(),
            },
    {
        let own = match self.try_type_hash() {
            Ok(h) => h,
            Err(e) => {
                return Err(e);
            },
        };
        let mut found: Option<usize> = None;
        let mut k: usize = 0;
        while k < self.fallbacks.len()
            invariant
                k <= self.fallbacks@.len(),
                forall|n: int|
                    0 <= n < k ==> record_hashable(*(#[trigger] self.fallbacks@[n]).older),
                match found {
                    Some(f) => find_fallback(self.fallbacks@, t@, 0) == Some(f),
                    None => find_fallback(self.fallbacks@, t@, 0) == find_fallback(
                        self.fallbacks@,
                        t@,
                        k as int,
                    ),
                },
            decreases self.fallbacks@.len() - k,
        {
            match self.fallbacks[k].older.try_type_hash() {
                Ok(h) => {
                    if found.is_none() && h.same(t) {
                        found = Some(k);
                    }
                },
                Err(e) => {
                    return Err(e);
                },
            }
            k += 1;
        }
        if own.same(t) {
            Ok(Dispatch::Current)
        } else {
            match found {
                Some(f) => Ok(Dispatch::Older(f)),
                None => Ok(Dispatch::Unknown),
            }
        }
    }

    /// Whether the record recognises the type hash, where the type hashes
    /// can be computed.
    pub fn try_type_hash_valid(&self, t: &Hash32) -> (r: Result<bool, HashIOError>)
        ensures
            match r {
                Ok(b) => dispatchable(*self) && b == type_hash_valid(*self, t@),
                Err(e) => !dispatchable(*self) && e@ == type_too_large(),
            },
    {
        match self.dispatch(t) {
            Ok(d) => Ok(d != Dispatch::Unknown),
            Err(e) => Err(e),
        }
    }
}

/// The value of type `kind` that the front of `s` holds.
pub open spec fn prim_from_bytes(kind: PrimType, s: Seq<u8>) -> PrimValue {
    match kind {
        PrimType::U8 => PrimValue::U8(s[0]),
        PrimType::U16 => PrimValue::U16(u16_from_be(s)),
        PrimType::U32 => PrimValue::U32(u32_from_be(s)),
        PrimType::U64 => PrimValue::U64(u64_from_be(s)),
        PrimType::I32 => PrimValue::I32(i32_of_bits(u32_from_be(s))),
        PrimType::I64 => PrimValue::I64(i64_of_bits(u64_from_be(s))),
        PrimType::F32 => PrimValue::F32(u32_from_be(s)),
        PrimType::F64 => PrimValue::F64(u64_from_be(s)),
    }
}

/// Reads a value of type `kind`.
pub fn read_prim(kind: PrimType, reader: &mut ByteReader) -> (r: Result<PrimValue, HashIOError>)
    ensures
        match r {
            Ok(v) => old(reader).remaining().len() >= kind.width() && v == prim_from_bytes(
                kind,
                old(reader).remaining(),
            ) && final(reader).remaining() == old(reader).remaining().skip(kind.width() as int),
            Err(e) => old(reader).remaining().len() < kind.width() && e@ == short_read() && final(
                reader
            ).remaining() == old(reader).remaining(),
        },
{
    match kind {
        PrimType::U8 => match reader.read_u8() {
            Ok(v) => Ok(PrimValue::U8(v)),
            Err(e) => Err(e),
        },
        PrimType::U16 => match reader.read_u16() {
            Ok(v) => Ok(PrimValue::U16(v)),
            Err(e) => Err(e),
        },
        PrimType::U32 => match reader.read_u32() {
            Ok(v) => Ok(PrimValue::U32(v)),
            Err(e) => Err(e),
        },
        PrimType::U64 => match reader.read_u64() {
            Ok(v) => Ok(PrimValue::U64(v)),
            Err(e) => Err(e),
        },
        PrimType::I32 => match reader.read_i32() {
            Ok(v) => Ok(PrimValue::I32(v)),
            Err(e) => Err(e),
        },
        PrimType::I64 => match reader.read_i64() {
            Ok(v) => Ok(PrimValue::I64(v)),
            Err(e) => Err(e),
        },
        PrimType::F32 => match reader.read_u32() {
            Ok(v) => Ok(PrimValue::F32(v)),
            Err(e) => Err(e),
        },
        PrimType::F64 => match reader.read_u64() {
            Ok(v) => Ok(PrimValue::F64(v)),
            Err(e) => Err(e),
        },
    }
}

/// Where the primitive field at position `i` starts in the payload of a
/// record: behind the fields before it.
pub open spec fn field_offset(prims: Seq<PrimField>, i: int) -> nat
    decreases i,
{
    if i <= 0 {
        0
    } else {
        field_offset(prims, i - 1) + prims[i - 1].kind.width()
    }
}

/// The number of bytes that the primitive fields of a record take.
pub open spec fn prims_width(prims: Seq<PrimField>) -> nat {
    field_offset(prims, prims.len() as int)
}

/// The primitive fields that the front of a payload holds.
pub open spec fn parsed_prims(prims: Seq<PrimField>, bytes: Seq<u8>) -> Seq<PrimValue> {
    Seq::new(
        prims.len(),
        |i: int| prim_from_bytes(prims[i].kind, bytes.skip(field_offset(prims, i) as int)),
    )
}

/// A later field starts no earlier.
pub proof fn lemma_field_offset_monotone(prims: Seq<PrimField>, i: int, j: int)
    requires
        i <= j,
    ensures
        field_offset(prims, i) <= field_offset(prims, j),
    decreases j - i,
{
    if i < j {
        lemma_field_offset_monotone(prims, i, j - 1);
    }
}

/// Reads the primitive fields of a record, in the order of the declaration.
pub fn read_prims(prims: &Vec<PrimField>, reader: &mut ByteReader) -> (r: Result<
    Vec<PrimValue>,
    HashIOError,
>)
    ensures
        match r {
            Ok(v) => old(reader).remaining().len() >= prims_width(prims@) && v@ == parsed_prims(
                prims@,
                old(reader).remaining(),
            ) && final(reader).remaining() == old(reader).remaining().skip(
                prims_width(prims@) as int,
            ),
            Err(e) => old(reader).remaining().len() < prims_width(prims@) && e@ == short_read()
                && final(reader).remaining() == old(reader).remaining(),
        },
{
    let saved = *reader;
    let ghost start = reader.remaining();
    let mut out: Vec<PrimValue> = Vec::new();
    let mut i: usize = 0;
    assert(start.skip(0) =~= start);
    while i < prims.len()
        invariant
            i <= prims@.len(),
            out@.len() == i,
            saved == *old(reader),
            start == old(reader).remaining(),
            start.len() >= field_offset(prims@, i as int),
            reader.remaining() == start.skip(field_offset(prims@, i as int) as int),
            forall|k: int| 0 <= k < i ==> out@[k] == parsed_prims(prims@, start)[k],
        decreases prims@.len() - i,
    {
        let ghost before = reader.remaining();
        match read_prim(prims[i].kind, reader) {
            Ok(v) => {
                out.push(v);
                assert(reader.remaining() =~= start.skip(field_offset(prims@, i + 1) as int));
            },
            Err(e) => {
                proof {
                    lemma_field_offset_monotone(prims@, i + 1, prims@.len() as int);
                    assert(before.len() == start.len() - field_offset(prims@, i as int));
                    assert(field_offset(prims@, i + 1) == field_offset(prims@, i as int)
                        + prims@[i as int].kind.width());
                }
                *reader = saved;
                return Err(e);
            },
        }
        i += 1;
    }
    assert(out@ =~= parsed_prims(prims@, start));
    Ok(out)
}

/// A primitive value takes the width of its type, and reading its bytes
/// back gives the value again, whatever follows them.
pub proof fn lemma_prim_round_trip(v: PrimValue, rest: Seq<u8>)
    ensures
        v.bytes().len() == v.kind().width(),
        prim_from_bytes(v.kind(), v.bytes() + rest) == v,
{
    match v {
        PrimValue::U8(x) => {},
        PrimValue::U16(x) => {
            lemma_be_u16_round_trip(x);
            lemma_u16_from_be_prefix(be_u16(x), rest);
        },
        PrimValue::U32(x) => {
            lemma_be_u32_round_trip(x);
            lemma_u32_from_be_prefix(be_u32(x), rest);
        },
        PrimValue::U64(x) => {
            lemma_be_u64_round_trip(x);
            lemma_u64_from_be_prefix(be_u64(x), rest);
        },
        PrimValue::I32(x) => {
            lemma_be_u32_round_trip(bits_of_i32(x));
            lemma_u32_from_be_prefix(be_u32(bits_of_i32(x)), rest);
            lemma_i32_bits_round_trip(x, 0);
        },
        PrimValue::I64(x) => {
            lemma_be_u64_round_trip(bits_of_i64(x));
            lemma_u64_from_be_prefix(be_u64(bits_of_i64(x)), rest);
            lemma_i64_bits_round_trip(x, 0);
        },
        PrimValue::F32(x) => {
            lemma_be_u32_round_trip(x);
            lemma_u32_from_be_prefix(be_u32(x), rest);
        },
        PrimValue::F64(x) => {
            lemma_be_u64_round_trip(x);
            lemma_u64_from_be_prefix(be_u64(x), rest);
        },
    }
}

impl Typeable for PrimType {
    open spec fn spec_type_hash(&self) -> Seq<u8> {
        self.tag_hash()
    }

    open spec fn spec_name(&self) -> Seq<char> {
        self.tag()
    }

    open spec fn spec_hashable(&self) -> bool {
        true
    }

    fn type_hash(&self) -> (h: Hash32) {
        proof {
            lemma_tag_short(*self);
        }
        Hash32::hash_bytes(self.tag_str().as_bytes())
    }

    fn name(&self) -> (s: String) {
        self.tag_str().to_string()
    }
}

impl Typeable for RecordSchema {
    open spec fn spec_type_hash(&self) -> Seq<u8> {
        record_hash(*self)
    }

    open spec fn spec_name(&self) -> Seq<char> {
        self.name@
    }

    open spec fn spec_hashable(&self) -> bool {
        record_hashable(*self)
    }

    fn type_hash(&self) -> (h: Hash32) {
        match self.try_type_hash() {
            Ok(h) => h,
            Err(_) => Hash32::none(),
        }
    }

    fn name(&self) -> (s: String) {
        self.name.clone()
    }
}

impl Typeable for Schema {
    open spec fn spec_type_hash(&self) -> Seq<u8> {
        schema_hash(*self)
    }

    open spec fn spec_name(&self) -> Seq<char> {
        schema_name(*self)
    }

    open spec fn spec_hashable(&self) -> bool {
        hashable(*self)
    }

    fn type_hash(&self) -> (h: Hash32) {
        match self.try_type_hash() {
            Ok(h) => h,
            Err(_) => Hash32::none(),
        }
    }

    fn name(&self) -> (s: String) {
        self.type_name_string()
    }
}

} // verus!
