//! Byte-level helpers shared by both codecs: big-endian 32-bit fields,
//! first-occurrence search for a delimiter byte, and UTF-8 views of byte
//! ranges.

use vstd::prelude::*;
use vstd::slice::slice_index_get;
use vstd::string::StringSliceAdditionalSpecFns;
use vstd::utf8::valid_utf8;

verus! {

/// The 32-bit value held by four big-endian bytes.
pub open spec fn be32_val(b: Seq<u8>) -> u32 {
    ((b[0] as u32) << 24) | ((b[1] as u32) << 16) | ((b[2] as u32) << 8) | (b[3] as u32)
}

/// The four big-endian bytes of a 32-bit value.
pub open spec fn be32_bytes(n: u32) -> Seq<u8> {
    seq![
        ((n >> 24) & 0xff) as u8,
        ((n >> 16) & 0xff) as u8,
        ((n >> 8) & 0xff) as u8,
        (n & 0xff) as u8,
    ]
}

/// Writing a 32-bit value big-endian and reading it back is the identity.
pub proof fn lemma_be32_round_trip(n: u32)
    ensures
        be32_val(be32_bytes(n)) == n,
{
    assert(((((n >> 24) & 0xff) as u8 as u32) << 24) | ((((n >> 16) & 0xff) as u8 as u32) << 16)
        | ((((n >> 8) & 0xff) as u8 as u32) << 8) | ((n & 0xff) as u8 as u32) == n)
        by (bit_vector);
}

/// Reads the big-endian 32-bit value of four bytes.
pub fn be32_read(b0: u8, b1: u8, b2: u8, b3: u8) -> (r: u32)
    ensures
        r == be32_val(seq![b0, b1, b2, b3]),
{
    ((b0 as u32) << 24) | ((b1 as u32) << 16) | ((b2 as u32) << 8) | (b3 as u32)
}

/// Appends the four big-endian bytes of `n` to `out`.
pub fn be32_write(n: u32, out: &mut Vec<u8>)
    ensures
        final(out)@ == old(out)@ + be32_bytes(n),
{
    out.push(((n >> 24) & 0xff) as u8);
    out.push(((n >> 16) & 0xff) as u8);
    out.push(((n >> 8) & 0xff) as u8);
    out.push((n & 0xff) as u8);
    assert(out@ =~= old(out)@ + be32_bytes(n));
}

/// The index of the first occurrence of `token` in `s`, if any.
pub open spec fn find_byte(s: Seq<u8>, token: u8) -> Option<int>
    decreases s.len(),
{
    if s.len() == 0 {
        None
    } else if s[0] == token {
        Some(0)
    } else {
        match find_byte(s.drop_first(), token) {
            Some(i) => Some(i + 1),
            None => None,
        }
    }
}

/// `find_byte` returns the least index holding `token`, or `None` when no
/// position holds it.
pub proof fn lemma_find_byte(s: Seq<u8>, token: u8)
    ensures
        match find_byte(s, token) {
            Some(i) => 0 <= i < s.len() && s[i] == token && forall|j: int|
                0 <= j < i ==> s[j] != token,
            None => forall|j: int| 0 <= j < s.len() ==> s[j] != token,
        },
    decreases s.len(),
{
    if s.len() != 0 && s[0] != token {
        let s2 = s.drop_first();
        lemma_find_byte(s2, token);
        match find_byte(s2, token) {
            Some(i) => {
                assert(s[i + 1] == s2[i]);
                assert forall|j: int| 0 <= j < i + 1 implies s[j] != token by {
                    if j > 0 {
                        assert(s2[j - 1] != token);
                    }
                }
            },
            None => {
                assert forall|j: int| 0 <= j < s.len() implies s[j] != token by {
                    if j > 0 {
                        assert(s2[j - 1] != token);
                    }
                }
            },
        }
    }
}

/// A position holding `token` below which none does is the one `find_byte`
/// returns.
pub proof fn lemma_find_byte_at(s: Seq<u8>, token: u8, i: int)
    requires
        0 <= i < s.len(),
        s[i] == token,
        forall|j: int| 0 <= j < i ==> s[j] != token,
    ensures
        find_byte(s, token) == Some(i),
{
    lemma_find_byte(s, token);
    match find_byte(s, token) {
        Some(k) => {
            if k < i {
                assert(s[k] != token);
            }
            if k > i {
                assert(s[i] != token);
            }
        },
        None => {
            assert(s[i] != token);
        },
    }
}

/// When no position of `s` holds `token`, `find_byte` returns `None`.
pub proof fn lemma_find_byte_none(s: Seq<u8>, token: u8)
    requires
        forall|j: int| 0 <= j < s.len() ==> s[j] != token,
    ensures
        find_byte(s, token) is None,
{
    lemma_find_byte(s, token);
    match find_byte(s, token) {
        Some(k) => {
            assert(s[k] != token);
        },
        None => {},
    }
}

/// Scans `data` from position `from` for the first occurrence of `token`,
/// returning its absolute index.
pub fn find_byte_in(data: &[u8], from: usize, token: u8) -> (r: Option<usize>)
    requires
        from <= data@.len(),
    ensures
        match r {
            Some(i) => from <= i < data@.len() && find_byte(data@.skip(from as int), token)
                == Some(i - from),
            None => find_byte(data@.skip(from as int), token) is None,
        },
{
    let ghost s = data@.skip(from as int);
    let n = data.len();
    let mut i = from;
    while i < n
        invariant
            from <= i <= n,
            n == data@.len(),
            s == data@.skip(from as int),
            forall|j: int| from <= j < i ==> data@[j] != token,
        decreases n - i,
    {
        if *slice_index_get(data, i) == token {
            proof {
                assert(forall|j: int| 0 <= j < i - from ==> s[j] == data@[j + from]);
                lemma_find_byte_at(s, token, i - from);
            }
            return Some(i);
        }
        i = i + 1;
    }
    proof {
        assert(forall|j: int| 0 <= j < s.len() ==> s[j] == data@[j + from]);
        lemma_find_byte_none(s, token);
    }
    None
}

/// Views a byte range as text. Relies on `core::str::from_utf8`: it returns a
/// string slice over exactly the given bytes when they are valid UTF-8, and an
/// error otherwise.
#[verifier::external_body]
pub(crate) fn utf8_view<'a>(v: &'a [u8]) -> (r: Option<&'a str>)
    ensures
        r is Some <==> valid_utf8(v@),
        r is Some ==> r->0.spec_bytes() == v@,
{
    core::str::from_utf8(v).ok()
}

} // verus!
