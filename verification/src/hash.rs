//! The 32-byte digest that addresses every stored value.

use crypto::digest::Digest;
use crypto::sha2::Sha256;
use vstd::prelude::*;
use vstd::utf8::encode_utf8;

verus! {

/// What SHA-256 returns for a byte string.
pub uninterp spec fn sha256(data: Seq<u8>) -> Seq<u8>;

/// The largest input, in bytes, whose bit length the digest can still count.
pub open spec fn digest_input_limit() -> int {
    0x2000_0000_0000_0000
}

/// Thirty-two zero bytes.
pub open spec fn zero_bytes() -> Seq<u8> {
    Seq::new(32, |i: int| 0u8)
}

/// The digest of a byte string, always 32 bytes long.
pub open spec fn digest(data: Seq<u8>) -> Seq<u8> {
    if sha256(data).len() == 32 {
        sha256(data)
    } else {
        zero_bytes()
    }
}

/// Runs `crypto::sha2::Sha256` over `data`: `new`, one `input`, then `result`
/// into a 32-byte buffer. The contract names the bytes that come out; the call
/// panics once the input's bit length no longer fits 64 bits, which the
/// precondition leaves out.
#[verifier::external_body]
fn sha256_of(data: &[u8]) -> (out: [u8; 32])
    requires
        data@.len() < digest_input_limit(),
    ensures
        out@ == sha256(data@),
{
    let mut hasher = Sha256::new();
    hasher.input(data);
    let mut out = [0u8; 32];
    hasher.result(&mut out);
    out
}

/// Calls `String::push`, which appends one character.
#[verifier::external_body]
pub(crate) fn push_char(s: &mut String, c: char)
    ensures
        final(s)@ == old(s)@.push(c),
{
    s.push(c)
}

/// The lowercase hexadecimal digit for a value below sixteen.
pub open spec fn hex_digit(n: int) -> char {
    if n == 0 {
        '0'
    } else if n == 1 {
        '1'
    } else if n == 2 {
        '2'
    } else if n == 3 {
        '3'
    } else if n == 4 {
        '4'
    } else if n == 5 {
        '5'
    } else if n == 6 {
        '6'
    } else if n == 7 {
        '7'
    } else if n == 8 {
        '8'
    } else if n == 9 {
        '9'
    } else if n == 10 {
        'a'
    } else if n == 11 {
        'b'
    } else if n == 12 {
        'c'
    } else if n == 13 {
        'd'
    } else if n == 14 {
        'e'
    } else {
        'f'
    }
}

/// The hexadecimal rendering of a byte string: two digits per byte, the high
/// half first.
pub open spec fn hex_of(bytes: Seq<u8>) -> Seq<char> {
    Seq::new(
        2 * bytes.len(),
        |i: int|
            if i % 2 == 0 {
                hex_digit(bytes[i / 2] as int / 16)
            } else {
                hex_digit(bytes[i / 2] as int % 16)
            },
    )
}

/// Different bytes have different renderings.
pub proof fn lemma_hex_injective(a: Seq<u8>, b: Seq<u8>)
    requires
        hex_of(a) == hex_of(b),
    ensures
        a == b,
{
    assert(hex_of(a).len() == 2 * a.len());
    assert(hex_of(b).len() == 2 * b.len());
    assert forall|i: int| 0 <= i < a.len() implies a[i] == b[i] by {
        let x = a[i] as int;
        let y = b[i] as int;
        assert((2 * i) / 2 == i && (2 * i) % 2 == 0);
        assert((2 * i + 1) / 2 == i && (2 * i + 1) % 2 == 1);
        assert(hex_of(a)[2 * i] == hex_digit(x / 16));
        assert(hex_of(b)[2 * i] == hex_digit(y / 16));
        assert(hex_of(a)[2 * i + 1] == hex_digit(x % 16));
        assert(hex_of(b)[2 * i + 1] == hex_digit(y % 16));
        assert(x / 16 == y / 16);
        assert(x % 16 == y % 16);
    }
    assert(a =~= b);
}

/// The lowercase hexadecimal digit for a value below sixteen.
fn hex_char(n: u8) -> (c: char)
    requires
        n < 16,
    ensures
        c == hex_digit(n as int),
{
    if n == 0 {
        '0'
    } else if n == 1 {
        '1'
    } else if n == 2 {
        '2'
    } else if n == 3 {
        '3'
    } else if n == 4 {
        '4'
    } else if n == 5 {
        '5'
    } else if n == 6 {
        '6'
    } else if n == 7 {
        '7'
    } else if n == 8 {
        '8'
    } else if n == 9 {
        '9'
    } else if n == 10 {
        'a'
    } else if n == 11 {
        'b'
    } else if n == 12 {
        'c'
    } else if n == 13 {
        'd'
    } else if n == 14 {
        'e'
    } else {
        'f'
    }
}

/// A 32-byte content or type address.
#[derive(Clone, Copy, Debug, PartialEq, Eq, PartialOrd, Ord, Hash)]
pub struct Hash32 {
    pub bytes: [u8; 32],
}

impl View for Hash32 {
    type V = Seq<u8>;

    open spec fn view(&self) -> Seq<u8> {
        self.bytes@
    }
}

impl Hash32 {
    /// The sentinel for "no value": all zeros. It addresses nothing.
    pub fn none() -> (h: Hash32)
        ensures
            h@ == zero_bytes(),
    {
        let h = Hash32 { bytes: [0u8; 32] };
        assert(h@ =~= zero_bytes());
        h
    }

    /// The digest of `data`.
    pub fn hash_bytes(data: &[u8]) -> (h: Hash32)
        requires
            data@.len() < digest_input_limit(),
        ensures
            h@ == digest(data@),
    {
        Hash32 { bytes: sha256_of(data) }
    }

    /// The digest of `data`, unless it is too long for the digest to count.
    pub fn try_hash_bytes(data: &[u8]) -> (r: Option<Hash32>)
        ensures
            match r {
                Some(h) => data@.len() < digest_input_limit() && h@ == digest(data@),
                None => data@.len() >= digest_input_limit(),
            },
    {
        if data.len() as u64 >= 0x2000_0000_0000_0000u64 {
            None
        } else {
            Some(Hash32::hash_bytes(data))
        }
    }

    /// The digest of the UTF-8 bytes of `text`.
    pub fn hash_string(text: &str) -> (h: Hash32)
        requires
            encode_utf8(text@).len() < digest_input_limit(),
        ensures
            h@ == digest(encode_utf8(text@)),
    {
        Hash32::hash_bytes(text.as_bytes())
    }

    /// The 32 bytes.
    pub fn get_bytes(&self) -> (b: [u8; 32])
        ensures
            b@ == self@,
    {
        self.bytes
    }

    /// Appends the hexadecimal digits of the bytes `from..to` to `out`.
    pub(crate) fn push_hex(&self, out: &mut String, from: usize, to: usize)
        requires
            from <= to <= 32,
        ensures
            final(out)@ == old(out)@ + hex_of(self@).subrange(2 * from, 2 * to),
    {
        let mut i: usize = from;
        assert(old(out)@ + hex_of(self@).subrange(2 * from, 2 * from) =~= old(out)@);
        while i < to
            invariant
                from <= i <= to <= 32,
                out@ == old(out)@ + hex_of(self@).subrange(2 * from, 2 * i),
            decreases to - i,
        {
            let b: u8 = self.bytes[i];
            let ghost before = out@;
            push_char(out, hex_char(b / 16));
            push_char(out, hex_char(b % 16));
            assert(out@ =~= old(out)@ + hex_of(self@).subrange(2 * from, 2 * (i + 1)));
            i += 1;
        }
    }

    /// The lowercase hexadecimal rendering, 64 characters long.
    pub fn as_string(&self) -> (s: String)
        ensures
            s@ == hex_of(self@),
            s@.len() == 64,
    {
        let mut s = String::new();
        self.push_hex(&mut s, 0, 32);
        assert(s@ =~= hex_of(self@));
        s
    }

    /// Whether the two hashes hold the same bytes.
    pub fn same(&self, other: &Hash32) -> (r: bool)
        ensures
            r == (self@ == other@),
    {
        let mut i: usize = 0;
        while i < 32
            invariant
                i <= 32,
                forall|k: int| 0 <= k < i ==> self@[k] == other@[k],
            decreases 32 - i,
        {
            if self.bytes[i] != other.bytes[i] {
                return false;
            }
            i += 1;
        }
        assert(self@ =~= other@);
        true
    }
}

} // verus!
