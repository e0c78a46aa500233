//! Big-endian readers and writers over bytes in memory.

use crate::hash::Hash32;
use crate::hashio::{short_read, HashIOError, IoFault};
use byteorder::{BigEndian, ByteOrder};
use vstd::prelude::*;

verus! {

/// The two bytes of `v`, most significant first.
pub open spec fn be_u16(v: u16) -> Seq<u8> {
    seq![(v / 0x100) as u8, (v % 0x100) as u8]
}

/// The four bytes of `v`, most significant first: its upper half, then its
/// lower half.
pub open spec fn be_u32(v: u32) -> Seq<u8> {
    be_u16((v / 0x1_0000) as u16) + be_u16((v % 0x1_0000) as u16)
}

/// The eight bytes of `v`, most significant first: its upper half, then its
/// lower half.
pub open spec fn be_u64(v: u64) -> Seq<u8> {
    be_u32((v / 0x1_0000_0000) as u32) + be_u32((v % 0x1_0000_0000) as u32)
}

/// The number whose big-endian bytes are the first two of `s`.
pub open spec fn u16_from_be(s: Seq<u8>) -> u16 {
    (s[0] as int * 0x100 + s[1] as int) as u16
}

/// The number whose big-endian bytes are the first four of `s`.
pub open spec fn u32_from_be(s: Seq<u8>) -> u32 {
    (u16_from_be(s) as int * 0x1_0000 + u16_from_be(s.skip(2)) as int) as u32
}

/// The number whose big-endian bytes are the first eight of `s`.
pub open spec fn u64_from_be(s: Seq<u8>) -> u64 {
    (u32_from_be(s) as int * 0x1_0000_0000 + u32_from_be(s.skip(4)) as int) as u64
}

/// The unsigned number with the bit pattern of `v` in two's complement.
pub open spec fn bits_of_i32(v: i32) -> u32 {
    if v >= 0 {
        v as u32
    } else {
        (v + 0x1_0000_0000) as u32
    }
}

/// The signed number with the bit pattern of `v` in two's complement.
pub open spec fn i32_of_bits(v: u32) -> i32 {
    if v < 0x8000_0000 {
        v as i32
    } else {
        (v - 0x1_0000_0000) as i32
    }
}

/// The unsigned number with the bit pattern of `v` in two's complement.
pub open spec fn bits_of_i64(v: i64) -> u64 {
    if v >= 0 {
        v as u64
    } else {
        (v + 0x1_0000_0000_0000_0000) as u64
    }
}

/// The signed number with the bit pattern of `v` in two's complement.
pub open spec fn i64_of_bits(v: u64) -> i64 {
    if v < 0x8000_0000_0000_0000 {
        v as i64
    } else {
        (v - 0x1_0000_0000_0000_0000) as i64
    }
}

/// Reading back what was written gives the number again.
pub proof fn lemma_be_u16_round_trip(v: u16)
    ensures
        be_u16(v).len() == 2,
        u16_from_be(be_u16(v)) == v,
{
}

/// Reading back what was written gives the number again.
pub proof fn lemma_be_u32_round_trip(v: u32)
    ensures
        be_u32(v).len() == 4,
        u32_from_be(be_u32(v)) == v,
{
    let hi = (v / 0x1_0000) as u16;
    let lo = (v % 0x1_0000) as u16;
    lemma_be_u16_round_trip(hi);
    lemma_be_u16_round_trip(lo);
    assert(be_u32(v).skip(2) =~= be_u16(lo));
    assert(u16_from_be(be_u32(v)) == u16_from_be(be_u16(hi)));
}

/// Reading back what was written gives the number again.
pub proof fn lemma_be_u64_round_trip(v: u64)
    ensures
        be_u64(v).len() == 8,
        u64_from_be(be_u64(v)) == v,
{
    let hi = (v / 0x1_0000_0000) as u32;
    let lo = (v % 0x1_0000_0000) as u32;
    lemma_be_u32_round_trip(hi);
    lemma_be_u32_round_trip(lo);
    assert(be_u64(v).skip(4) =~= be_u32(lo));
    lemma_u32_from_be_prefix(be_u32(hi), be_u32(lo));
}

/// Only the first two bytes matter to the number read.
pub proof fn lemma_u16_from_be_prefix(s: Seq<u8>, t: Seq<u8>)
    requires
        s.len() >= 2,
    ensures
        u16_from_be(s + t) == u16_from_be(s),
{
}

/// Only the first four bytes matter to the number read.
pub proof fn lemma_u32_from_be_prefix(s: Seq<u8>, t: Seq<u8>)
    requires
        s.len() >= 4,
    ensures
        u32_from_be(s + t) == u32_from_be(s),
{
    assert((s + t).skip(2) =~= s.skip(2) + t);
    lemma_u16_from_be_prefix(s.skip(2), t);
}

/// Only the first eight bytes matter to the number read.
pub proof fn lemma_u64_from_be_prefix(s: Seq<u8>, t: Seq<u8>)
    requires
        s.len() >= 8,
    ensures
        u64_from_be(s + t) == u64_from_be(s),
{
    assert((s + t).skip(4) =~= s.skip(4) + t);
    lemma_u32_from_be_prefix(s, t);
    lemma_u32_from_be_prefix(s.skip(4), t);
}

/// Writing what was read gives the first two bytes again.
pub proof fn lemma_u16_from_be_round_trip(s: Seq<u8>)
    requires
        s.len() >= 2,
    ensures
        be_u16(u16_from_be(s)) == s.subrange(0, 2),
{
    assert(be_u16(u16_from_be(s)) =~= s.subrange(0, 2));
}

/// Writing what was read gives the first four bytes again.
pub proof fn lemma_u32_from_be_round_trip(s: Seq<u8>)
    requires
        s.len() >= 4,
    ensures
        be_u32(u32_from_be(s)) == s.subrange(0, 4),
{
    let v = u32_from_be(s);
    lemma_u16_from_be_round_trip(s);
    lemma_u16_from_be_round_trip(s.skip(2));
    assert((v / 0x1_0000) as u16 == u16_from_be(s));
    assert((v % 0x1_0000) as u16 == u16_from_be(s.skip(2)));
    assert(s.subrange(0, 2) + s.skip(2).subrange(0, 2) =~= s.subrange(0, 4));
}

/// Writing what was read gives the first eight bytes again.
pub proof fn lemma_u64_from_be_round_trip(s: Seq<u8>)
    requires
        s.len() >= 8,
    ensures
        be_u64(u64_from_be(s)) == s.subrange(0, 8),
{
    let v = u64_from_be(s);
    lemma_u32_from_be_round_trip(s);
    lemma_u32_from_be_round_trip(s.skip(4));
    assert((v / 0x1_0000_0000) as u32 == u32_from_be(s));
    assert((v % 0x1_0000_0000) as u32 == u32_from_be(s.skip(4)));
    assert(s.subrange(0, 4) + s.skip(4).subrange(0, 4) =~= s.subrange(0, 8));
}

/// The two's complement bit pattern determines the signed number.
pub proof fn lemma_i32_bits_round_trip(v: i32, w: u32)
    ensures
        i32_of_bits(bits_of_i32(v)) == v,
        bits_of_i32(i32_of_bits(w)) == w,
{
}

/// The two's complement bit pattern determines the signed number.
pub proof fn lemma_i64_bits_round_trip(v: i64, w: u64)
    ensures
        i64_of_bits(bits_of_i64(v)) == v,
        bits_of_i64(i64_of_bits(w)) == w,
{
}

/// Calls `byteorder::BigEndian::read_u16`, which reads the first two bytes of
/// `buf` as a big-endian number and panics on a shorter buffer.
#[verifier::external_body]
fn be_read_u16(buf: &[u8]) -> (r: u16)
    requires
        buf@.len() >= 2,
    ensures
        r == u16_from_be(buf@),
{
    BigEndian::read_u16(buf)
}

/// Calls `byteorder::BigEndian::read_u32`, which reads the first four bytes of
/// `buf` as a big-endian number and panics on a shorter buffer.
#[verifier::external_body]
fn be_read_u32(buf: &[u8]) -> (r: u32)
    requires
        buf@.len() >= 4,
    ensures
        r == u32_from_be(buf@),
{
    BigEndian::read_u32(buf)
}

/// Calls `byteorder::BigEndian::read_u64`, which reads the first eight bytes
/// of `buf` as a big-endian number and panics on a shorter buffer.
#[verifier::external_body]
fn be_read_u64(buf: &[u8]) -> (r: u64)
    requires
        buf@.len() >= 8,
    ensures
        r == u64_from_be(buf@),
{
    BigEndian::read_u64(buf)
}

/// Calls `byteorder::BigEndian::read_i32`, which reads the first four bytes of
/// `buf` as a big-endian number and takes its bit pattern as a signed one.
#[verifier::external_body]
fn be_read_i32(buf: &[u8]) -> (r: i32)
    requires
        buf@.len() >= 4,
    ensures
        r == i32_of_bits(u32_from_be(buf@)),
{
    BigEndian::read_i32(buf)
}

/// Calls `byteorder::BigEndian::read_i64`, which reads the first eight bytes
/// of `buf` as a big-endian number and takes its bit pattern as a signed one.
#[verifier::external_body]
fn be_read_i64(buf: &[u8]) -> (r: i64)
    requires
        buf@.len() >= 8,
    ensures
        r == i64_of_bits(u64_from_be(buf@)),
{
    BigEndian::read_i64(buf)
}

/// Calls `byteorder::BigEndian::write_u16` on a buffer of two bytes, which it
/// fills with the big-endian bytes of `v`.
#[verifier::external_body]
fn be_write_u16(v: u16) -> (out: [u8; 2])
    ensures
        out@ == be_u16(v),
{
    let mut out = [0u8; 2];
    BigEndian::write_u16(&mut out, v);
    out
}

/// Calls `byteorder::BigEndian::write_u32` on a buffer of four bytes, which it
/// fills with the big-endian bytes of `v`.
#[verifier::external_body]
fn be_write_u32(v: u32) -> (out: [u8; 4])
    ensures
        out@ == be_u32(v),
{
    let mut out = [0u8; 4];
    BigEndian::write_u32(&mut out, v);
    out
}

/// Calls `byteorder::BigEndian::write_u64` on a buffer of eight bytes, which
/// it fills with the big-endian bytes of `v`.
#[verifier::external_body]
fn be_write_u64(v: u64) -> (out: [u8; 8])
    ensures
        out@ == be_u64(v),
{
    let mut out = [0u8; 8];
    BigEndian::write_u64(&mut out, v);
    out
}

/// Calls `byteorder::BigEndian::write_i32` on a buffer of four bytes, which it
/// fills with the big-endian bytes of the bit pattern of `v`.
#[verifier::external_body]
fn be_write_i32(v: i32) -> (out: [u8; 4])
    ensures
        out@ == be_u32(bits_of_i32(v)),
{
    let mut out = [0u8; 4];
    BigEndian::write_i32(&mut out, v);
    out
}

/// Calls `byteorder::BigEndian::write_i64` on a buffer of eight bytes, which
/// it fills with the big-endian bytes of the bit pattern of `v`.
#[verifier::external_body]
fn be_write_i64(v: i64) -> (out: [u8; 8])
    ensures
        out@ == be_u64(bits_of_i64(v)),
{
    let mut out = [0u8; 8];
    BigEndian::write_i64(&mut out, v);
    out
}

/// Appends `bytes` to `out`.
pub fn write_bytes(bytes: &[u8], out: &mut Vec<u8>)
    ensures
        final(out)@ == old(out)@ + bytes@,
{
    let mut i: usize = 0;
    assert(old(out)@ + bytes@.subrange(0, 0) =~= old(out)@);
    while i < bytes.len()
        invariant
            i <= bytes.len(),
            out@ == old(out)@ + bytes@.subrange(0, i as int),
        decreases bytes.len() - i,
    {
        out.push(bytes[i]);
        assert(out@ =~= old(out)@ + bytes@.subrange(0, i + 1));
        i += 1;
    }
    assert(bytes@.subrange(0, bytes.len() as int) =~= bytes@);
}

/// Appends the one byte `v`.
pub fn write_u8(v: u8, out: &mut Vec<u8>)
    ensures
        final(out)@ == old(out)@ + seq![v],
{
    out.push(v);
    assert(out@ =~= old(out)@ + seq![v]);
}

/// Appends `v` as two big-endian bytes.
pub fn write_u16(v: u16, out: &mut Vec<u8>)
    ensures
        final(out)@ == old(out)@ + be_u16(v),
{
    let b = be_write_u16(v);
    write_bytes(b.as_slice(), out);
}

/// Appends `v` as four big-endian bytes.
pub fn write_u32(v: u32, out: &mut Vec<u8>)
    ensures
        final(out)@ == old(out)@ + be_u32(v),
{
    let b = be_write_u32(v);
    write_bytes(b.as_slice(), out);
}

/// Appends `v` as eight big-endian bytes.
pub fn write_u64(v: u64, out: &mut Vec<u8>)
    ensures
        final(out)@ == old(out)@ + be_u64(v),
{
    let b = be_write_u64(v);
    write_bytes(b.as_slice(), out);
}

/// Appends the bit pattern of `v` as four big-endian bytes.
pub fn write_i32(v: i32, out: &mut Vec<u8>)
    ensures
        final(out)@ == old(out)@ + be_u32(bits_of_i32(v)),
{
    let b = be_write_i32(v);
    write_bytes(b.as_slice(), out);
}

/// Appends the bit pattern of `v` as eight big-endian bytes.
pub fn write_i64(v: i64, out: &mut Vec<u8>)
    ensures
        final(out)@ == old(out)@ + be_u64(bits_of_i64(v)),
{
    let b = be_write_i64(v);
    write_bytes(b.as_slice(), out);
}

/// Appends the 32 bytes of `hash`.
pub fn write_hash(hash: &Hash32, out: &mut Vec<u8>)
    ensures
        final(out)@ == old(out)@ + hash@,
{
    write_bytes(hash.bytes.as_slice(), out);
}

/// A byte string behind its length: the length in four bytes, then the
/// bytes.
pub open spec fn prefixed(bytes: Seq<u8>) -> Seq<u8>
    recommends
        bytes.len() <= u32::MAX,
{
    be_u32(bytes.len() as u32) + bytes
}

/// Appends `bytes` behind their length, where the length fits its four
/// bytes, and says whether it does.
pub fn write_prefixed(bytes: &[u8], out: &mut Vec<u8>) -> (fitted: bool)
    ensures
        fitted == (bytes@.len() <= u32::MAX),
        fitted ==> final(out)@ == old(out)@ + prefixed(bytes@),
        !fitted ==> final(out)@ == old(out)@,
{
    if bytes.len() > 0xffff_ffff {
        return false;
    }
    write_u32(bytes.len() as u32, out);
    write_bytes(bytes, out);
    assert(out@ =~= old(out)@ + prefixed(bytes@));
    true
}

/// The byte string that stands behind its length at the front of `s`, if
/// all of it is there.
pub open spec fn spec_read_prefixed(s: Seq<u8>) -> Option<Seq<u8>> {
    if s.len() < 4 || s.len() - 4 < u32_from_be(s) {
        None
    } else {
        Some(s.subrange(4, 4 + u32_from_be(s)))
    }
}

/// A byte string that was written behind its length is read back, whatever
/// follows it.
pub proof fn lemma_prefixed_round_trip(bytes: Seq<u8>, rest: Seq<u8>)
    requires
        bytes.len() <= u32::MAX,
    ensures
        spec_read_prefixed(prefixed(bytes) + rest) == Some(bytes),
{
    let n = bytes.len() as u32;
    let all = prefixed(bytes) + rest;
    lemma_be_u32_round_trip(n);
    assert(all =~= be_u32(n) + (bytes + rest));
    lemma_u32_from_be_prefix(be_u32(n), bytes + rest);
    assert(all.subrange(4, 4 + n) =~= bytes);
}

/// A cursor over bytes in memory. Every read takes its bytes from the front
/// of what remains, or fails and takes nothing.
#[derive(Clone, Copy)]
pub struct ByteReader<'a> {
    data: &'a [u8],
    pos: usize,
}

impl<'a> ByteReader<'a> {
    /// The position is within the data.
    #[verifier::type_invariant]
    spec fn in_bounds(self) -> bool {
        self.pos <= self.data@.len()
    }

    /// The bytes not yet read.
    pub closed spec fn remaining(self) -> Seq<u8> {
        self.data@.subrange(self.pos as int, self.data@.len() as int)
    }

    /// A reader at the start of `data`.
    pub fn new(data: &'a [u8]) -> (r: ByteReader<'a>)
        ensures
            r.remaining() == data@,
    {
        assert(data@.subrange(0, data@.len() as int) =~= data@);
        ByteReader { data, pos: 0 }
    }

    /// The next `n` bytes, as a slice of the underlying data.
    fn take(&mut self, n: usize) -> (r: Result<&'a [u8], HashIOError>)
        ensures
            match r {
                Ok(s) => old(self).remaining().len() >= n && s@ == old(self).remaining().subrange(
                    0,
                    n as int,
                ) && final(self).remaining() == old(self).remaining().skip(n as int),
                Err(e) => old(self).remaining().len() < n && e@ == short_read() && final(self).remaining()
                    == old(self).remaining(),
            },
    {
        proof {
            use_type_invariant(&*self);
        }
        if self.data.len() - self.pos < n {
            return Err(HashIOError::IOError(IoFault::UnexpectedEof));
        }
        let start = self.pos;
        let out = vstd::slice::slice_subrange(self.data, start, start + n);
        self.pos = start + n;
        assert(out@ =~= old(self).remaining().subrange(0, n as int));
        assert(self.remaining() =~= old(self).remaining().skip(n as int));
        Ok(out)
    }

    /// Reads `len` bytes.
    pub fn read_bytes(&mut self, len: usize) -> (r: Result<Vec<u8>, HashIOError>)
        ensures
            match r {
                Ok(v) => old(self).remaining().len() >= len && v@ == old(self).remaining().subrange(
                    0,
                    len as int,
                ) && final(self).remaining() == old(self).remaining().skip(len as int),
                Err(e) => old(self).remaining().len() < len && e@ == short_read() && final(
                    self
                ).remaining() == old(self).remaining(),
            },
    {
        match self.take(len) {
            Ok(s) => Ok(vstd::slice::slice_to_vec(s)),
            Err(e) => Err(e),
        }
    }

    /// Reads a byte string that stands behind its length.
    pub fn read_prefixed(&mut self) -> (r: Result<Vec<u8>, HashIOError>)
        ensures
            match r {
                Ok(v) => spec_read_prefixed(old(self).remaining()) == Some(v@) && final(
                    self
                ).remaining() == old(self).remaining().skip(4 + v@.len() as int),
                Err(e) => spec_read_prefixed(old(self).remaining()) is None && e@ == short_read()
                    && final(self).remaining() == old(self).remaining(),
            },
    {
        proof {
            use_type_invariant(&*self);
        }
        let left = self.data.len() - self.pos;
        if left < 4 {
            return Err(HashIOError::IOError(IoFault::UnexpectedEof));
        }
        let start = self.pos;
        let head = vstd::slice::slice_subrange(self.data, start, start + 4);
        assert(head@ =~= self.remaining().subrange(0, 4));
        let len = be_read_u32(head) as usize;
        proof {
            assert(self.remaining() =~= head@ + self.remaining().skip(4));
            lemma_u32_from_be_prefix(head@, self.remaining().skip(4));
        }
        if left - 4 < len {
            return Err(HashIOError::IOError(IoFault::UnexpectedEof));
        }
        let body = vstd::slice::slice_subrange(self.data, start + 4, start + 4 + len);
        let out = vstd::slice::slice_to_vec(body);
        self.pos = start + 4 + len;
        assert(out@ =~= old(self).remaining().subrange(4, 4 + len));
        assert(self.remaining() =~= old(self).remaining().skip(4 + out@.len() as int));
        Ok(out)
    }

    /// Reads one byte.
    pub fn read_u8(&mut self) -> (r: Result<u8, HashIOError>)
        ensures
            match r {
                Ok(v) => old(self).remaining().len() >= 1 && v == old(self).remaining()[0] && final(self).remaining()
                    == old(self).remaining().skip(1),
                Err(e) => old(self).remaining().len() < 1 && e@ == short_read() && final(self).remaining()
                    == old(self).remaining(),
            },
    {
        match self.take(1) {
            Ok(s) => Ok(s[0]),
            Err(e) => Err(e),
        }
    }

    /// Reads a big-endian number of two bytes.
    pub fn read_u16(&mut self) -> (r: Result<u16, HashIOError>)
        ensures
            match r {
                Ok(v) => old(self).remaining().len() >= 2 && v == u16_from_be(old(self).remaining()) && final(self).remaining()
                    == old(self).remaining().skip(2),
                Err(e) => old(self).remaining().len() < 2 && e@ == short_read() && final(self).remaining()
                    == old(self).remaining(),
            },
    {
        match self.take(2) {
            Ok(s) => Ok(be_read_u16(s)),
            Err(e) => Err(e),
        }
    }

    /// Reads a big-endian number of four bytes.
    pub fn read_u32(&mut self) -> (r: Result<u32, HashIOError>)
        ensures
            match r {
                Ok(v) => old(self).remaining().len() >= 4 && v == u32_from_be(old(self).remaining()) && final(self).remaining()
                    == old(self).remaining().skip(4),
                Err(e) => old(self).remaining().len() < 4 && e@ == short_read() && final(self).remaining()
                    == old(self).remaining(),
            },
    {
        match self.take(4) {
            Ok(s) => Ok(be_read_u32(s)),
            Err(e) => Err(e),
        }
    }

    /// Reads a big-endian number of eight bytes.
    pub fn read_u64(&mut self) -> (r: Result<u64, HashIOError>)
        ensures
            match r {
                Ok(v) => old(self).remaining().len() >= 8 && v == u64_from_be(old(self).remaining()) && final(self).remaining()
                    == old(self).remaining().skip(8),
                Err(e) => old(self).remaining().len() < 8 && e@ == short_read() && final(self).remaining()
                    == old(self).remaining(),
            },
    {
        match self.take(8) {
            Ok(s) => Ok(be_read_u64(s)),
            Err(e) => Err(e),
        }
    }

    /// Reads a signed big-endian number of four bytes.
    pub fn read_i32(&mut self) -> (r: Result<i32, HashIOError>)
        ensures
            match r {
                Ok(v) => old(self).remaining().len() >= 4 && v == i32_of_bits(u32_from_be(old(self).remaining())) && final(self).remaining()
                    == old(self).remaining().skip(4),
                Err(e) => old(self).remaining().len() < 4 && e@ == short_read() && final(self).remaining()
                    == old(self).remaining(),
            },
    {
        match self.take(4) {
            Ok(s) => Ok(be_read_i32(s)),
            Err(e) => Err(e),
        }
    }

    /// Reads a signed big-endian number of eight bytes.
    pub fn read_i64(&mut self) -> (r: Result<i64, HashIOError>)
        ensures
            match r {
                Ok(v) => old(self).remaining().len() >= 8 && v == i64_of_bits(u64_from_be(old(self).remaining())) && final(self).remaining()
                    == old(self).remaining().skip(8),
                Err(e) => old(self).remaining().len() < 8 && e@ == short_read() && final(self).remaining()
                    == old(self).remaining(),
            },
    {
        match self.take(8) {
            Ok(s) => Ok(be_read_i64(s)),
            Err(e) => Err(e),
        }
    }

    /// Reads the 32 bytes of a hash.
    pub fn read_hash(&mut self) -> (r: Result<Hash32, HashIOError>)
        ensures
            match r {
                Ok(h) => old(self).remaining().len() >= 32 && h@ == old(self).remaining().subrange(0, 32)
                    && final(self).remaining() == old(self).remaining().skip(32),
                Err(e) => old(self).remaining().len() < 32 && e@ == short_read() && final(
                    self
                ).remaining() == old(self).remaining(),
            },
    {
        match self.take(32) {
            Ok(s) => {
                let mut bytes = [0u8; 32];
                let mut i: usize = 0;
                while i < 32
                    invariant
                        i <= 32,
                        s@.len() == 32,
                        forall|k: int| 0 <= k < i ==> bytes@[k] == s@[k],
                    decreases 32 - i,
                {
                    bytes[i] = s[i];
                    i += 1;
                }
                assert(bytes@ =~= s@);
                Ok(Hash32 { bytes })
            },
            Err(e) => Err(e),
        }
    }
}

} // verus!
