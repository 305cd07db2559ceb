//! Byte-level helpers shared by the token codec and the password hasher:
//! building byte vectors, comparing byte regions, and moving between byte
//! sequences and `String`s through vstd's UTF-8 model.

use vstd::prelude::*;
use vstd::utf8::*;

verus! {

/// Relies on `String::from_utf8`: returns the string whose UTF-8 encoding is
/// exactly the given bytes, and fails precisely on bytes that are not valid
/// UTF-8.
#[verifier::external_body]
pub(crate) fn utf8_to_string(v: Vec<u8>) -> (r: Option<String>)
    ensures
        match r {
            Some(s) => encode_utf8(s@) == v@,
            None => !valid_utf8(v@),
        },
{
    match String::from_utf8(v) {
        Ok(s) => Some(s),
        Err(_) => None,
    }
}

/// True when every byte of the sequence is in the ASCII range.
pub open spec fn ascii_bytes(b: Seq<u8>) -> bool {
    forall|i: int| 0 <= i < b.len() ==> b[i] < 128
}

/// The characters an all-ASCII byte sequence stands for, one per byte.
pub open spec fn bytes_as_chars(b: Seq<u8>) -> Seq<char> {
    Seq::new(b.len(), |i: int| b[i] as char)
}

/// An all-ASCII byte sequence is valid UTF-8 and decodes byte-for-byte.
pub proof fn lemma_ascii_bytes_utf8(b: Seq<u8>)
    requires
        ascii_bytes(b),
    ensures
        valid_utf8(b),
        encode_utf8(bytes_as_chars(b)) == b,
        decode_utf8(b) == bytes_as_chars(b),
{
    let cs = bytes_as_chars(b);
    assert forall|i: int| 0 <= i < cs.len() implies '\0' <= #[trigger] cs[i] <= '\u{7f}' by {
        let x = b[i];
        assert(cs[i] == x as char);
        assert(x < 128);
    }
    assert(is_ascii_chars(cs));
    is_ascii_chars_encode_utf8(cs);
    assert forall|i: int| 0 <= i < cs.len() implies #[trigger] encode_utf8(cs)[i] == b[i] by {
        let x = b[i];
        assert(cs[i] as u8 == encode_utf8(cs)[i]);
        assert((x as char) as u8 == x);
    }
    assert(encode_utf8(cs) =~= b);
    encode_utf8_valid_utf8(cs);
    encode_utf8_decode_utf8(cs);
}


/// Appends every byte of `src` to `out`.
pub(crate) fn push_all(out: &mut Vec<u8>, src: &[u8])
    ensures
        final(out)@ == old(out)@ + src@,
{
    let mut i: usize = 0;
    while i < src.len()
        invariant
            i <= src@.len(),
            out@ == old(out)@ + src@.subrange(0, i as int),
        decreases src@.len() - i,
    {
        out.push(src[i]);
        assert(old(out)@ + src@.subrange(0, i + 1 as int) =~= (old(out)@ + src@.subrange(
            0,
            i as int,
        )).push(src@[i as int]));
        i += 1;
    }
    assert(src@.subrange(0, src@.len() as int) =~= src@);
}

/// Whether the bytes of `lit` occur in `v` starting at `at`.
pub(crate) fn region_matches(v: &[u8], at: usize, lit: &[u8]) -> (r: bool)
    requires
        at <= v@.len(),
    ensures
        r == (at + lit@.len() <= v@.len() && v@.subrange(at as int, at + lit@.len()) == lit@),
{
    if v.len() - at < lit.len() {
        return false;
    }
    let mut i: usize = 0;
    while i < lit.len()
        invariant
            i <= lit@.len(),
            at + lit@.len() <= v@.len(),
            v@.len() <= usize::MAX,
            v@.subrange(at as int, at + i) == lit@.subrange(0, i as int),
        decreases lit@.len() - i,
    {
        assert(at + i < v@.len());
        if v[at + i] != lit[i] {
            assert(v@.subrange(at as int, at + lit@.len())[i as int] != lit@[i as int]);
            return false;
        }
        assert(v@.subrange(at as int, at + i + 1) =~= v@.subrange(at as int, at + i).push(
            v@[at + i],
        ));
        assert(lit@.subrange(0, i + 1 as int) =~= lit@.subrange(0, i as int).push(lit@[i as int]));
        i += 1;
    }
    assert(v@.subrange(at as int, at + lit@.len()) =~= lit@.subrange(0, lit@.len() as int));
    assert(lit@.subrange(0, lit@.len() as int) =~= lit@);
    true
}

/// Copies the byte region `[from, to)` into a fresh vector.
pub(crate) fn region_to_vec(b: &[u8], from: usize, to: usize) -> (r: Vec<u8>)
    requires
        from <= to <= b@.len(),
    ensures
        r@ == b@.subrange(from as int, to as int),
{
    let mut out: Vec<u8> = Vec::new();
    let mut i: usize = from;
    let total = b.len();
    proof {
        assert(b@.len() == total);
        assert(b@.subrange(from as int, from as int) =~= Seq::<u8>::empty());
    }
    while i < to
        invariant
            from <= i <= to <= b@.len(),
            b@.len() <= usize::MAX,
            out@ == b@.subrange(from as int, i as int),
        decreases to - i,
    {
        out.push(b[i]);
        assert(b@.subrange(from as int, i + 1 as int) =~= b@.subrange(from as int, i as int).push(
            b@[i as int],
        ));
        i += 1;
    }
    out
}

/// Whether two byte slices hold the same bytes.
pub(crate) fn bytes_eq(a: &[u8], b: &[u8]) -> (r: bool)
    ensures
        r == (a@ == b@),
{
    if a.len() != b.len() {
        return false;
    }
    let r = region_matches(a, 0, b);
    assert(a@.subrange(0, a@.len() as int) =~= a@);
    r
}

} // verus!
