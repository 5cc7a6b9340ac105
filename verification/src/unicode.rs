//! UTF-8 decoding over the bytes of a `str`, and the character classes the
//! lexer asks the standard library about.

use vstd::prelude::*;
use vstd::utf8::*;
use vstd::string::StringSliceAdditionalSpecFns;

verus! {

broadcast use vstd::seq_lib::group_seq_properties;

/// The scalar whose UTF-8 encoding starts at byte `i`.
pub open spec fn scalar_at(b: Seq<u8>, i: int) -> char {
    decode_first_scalar(b.skip(i)) as char
}

/// The length in bytes of the scalar that starts at byte `i`.
pub open spec fn scalar_len(b: Seq<u8>, i: int) -> int {
    length_of_first_scalar(b.skip(i))
}

pub proof fn lemma_scalar_len_bounds(b: Seq<u8>, i: int)
    ensures
        1 <= scalar_len(b, i) <= 4,
{
}

/// `i` is a position of `b` from which the rest of `b` is well formed UTF-8.
pub open spec fn valid_from(b: Seq<u8>, i: int) -> bool {
    0 <= i <= b.len() && valid_utf8(b.skip(i))
}

/// Whether the standard library classes `c` as alphabetic (`char::is_alphabetic`).
pub uninterp spec fn char_is_alphabetic(c: char) -> bool;

/// Whether the standard library classes `c` as alphanumeric (`char::is_alphanumeric`).
pub uninterp spec fn char_is_alphanumeric(c: char) -> bool;

/// Calls `char::is_alphabetic`. The Unicode property tables are not restated:
/// the contract names the result by the character alone.
#[verifier::external_body]
pub fn is_alphabetic(c: char) -> (b: bool)
    ensures
        b == char_is_alphabetic(c),
{
    c.is_alphabetic()
}

/// Calls `char::is_alphanumeric`. As for `is_alphabetic`, the result is named by
/// the character alone; its documentation defines it as `is_alphabetic` or
/// `is_numeric`, so an alphabetic character is alphanumeric.
#[verifier::external_body]
pub fn is_alphanumeric(c: char) -> (b: bool)
    ensures
        b == char_is_alphanumeric(c),
        char_is_alphabetic(c) ==> b,
{
    c.is_alphanumeric()
}

/// Calls `char::from_u32`, which yields the character with that code when the
/// value is a Unicode scalar value and `None` otherwise.
#[verifier::external_body]
fn char_from_u32(u: u32) -> (r: Option<char>)
    ensures
        is_scalar(u) ==> r == Some(u as char),
        !is_scalar(u) ==> r is None,
{
    char::from_u32(u)
}

/// Calls `std::str::from_utf8`, which accepts exactly the well formed UTF-8 byte
/// strings and yields the string they encode.
#[verifier::external_body]
pub fn str_from_utf8(b: &[u8]) -> (s: &str)
    requires
        valid_utf8(b@),
    ensures
        s@ == decode_utf8(b@),
{
    std::str::from_utf8(b).unwrap()
}

/// The bytes of a string decoded from well formed bytes are those bytes.
pub proof fn lemma_str_from_utf8_bytes(s: &str, b: Seq<u8>)
    requires
        valid_utf8(b),
        s@ == decode_utf8(b),
    ensures
        s.spec_bytes() == b,
{
    decode_utf8_encode_utf8(b);
}

/// The bytes of any string are well formed from every character boundary; in
/// particular from the start.
pub proof fn lemma_str_bytes_valid(s: &str)
    ensures
        valid_from(s.spec_bytes(), 0),
{
    encode_utf8_valid_utf8(s@);
    assert(s.spec_bytes().skip(0) =~= s.spec_bytes());
}

/// Stepping over one scalar keeps the rest well formed.
pub proof fn lemma_step_scalar(b: Seq<u8>, i: int)
    requires
        valid_from(b, i),
        i < b.len(),
    ensures
        valid_first_scalar(b.skip(i)),
        1 <= scalar_len(b, i) <= b.len() - i,
        valid_from(b, i + scalar_len(b, i)),
        is_leading_byte_width_1(b[i]) ==> scalar_len(b, i) == 1 && scalar_at(b, i) == b[i]
            as char,
{
    let s = b.skip(i);
    assert(s.len() > 0);
    let l = length_of_first_scalar(s);
    assert(pop_first_scalar(s) =~= b.skip(i + l));
    if is_leading_byte_width_1(b[i]) {
        assert(s[0] == b[i]);
        let x = b[i];
        assert((x & 0x7F) == x) by (bit_vector)
            requires
                x <= 0x7f,
        ;
    }
}

/// A byte that cannot continue a multi byte sequence starts a scalar, so the rest
/// from there is well formed.
pub proof fn lemma_valid_at_lead_byte(b: Seq<u8>, i: int, k: int)
    requires
        valid_from(b, i),
        i <= k < b.len(),
        !is_continuation_byte(b[k]),
    ensures
        valid_from(b, k),
{
    let s = b.skip(i);
    is_char_boundary_iff_not_is_continuation_byte(s, k - i);
    valid_utf8_split(s, k - i);
    assert(s.subrange(k - i, s.len() as int) =~= b.skip(k));
}

/// The bytes between two positions from which the text is well formed are well
/// formed themselves.
pub proof fn lemma_valid_between(b: Seq<u8>, i: int, j: int)
    requires
        valid_from(b, i),
        valid_from(b, j),
        i <= j,
    ensures
        valid_utf8(b.subrange(i, j)),
{
    let s = b.skip(i);
    if j < b.len() {
        let t = b.skip(j);
        assert(t.len() > 0);
        assert(t[0] == b[j]);
        assert(s[j - i] == b[j]);
        is_char_boundary_iff_not_is_continuation_byte(s, j - i);
    } else {
        is_char_boundary_start_end_of_seq(s);
        assert(j - i == s.len());
    }
    valid_utf8_split(s, j - i);
    assert(s.subrange(0, j - i) =~= b.subrange(i, j));
}

/// Decode the scalar that starts at byte `i`.
pub fn decode_at(b: &[u8], i: usize) -> (r: (char, usize))
    requires
        valid_from(b@, i as int),
        i < b@.len(),
    ensures
        r.0 == scalar_at(b@, i as int),
        r.1 as int == scalar_len(b@, i as int),
        1 <= r.1 <= b@.len() - i,
        valid_from(b@, i + r.1),
{
    proof {
        lemma_step_scalar(b@, i as int);
    }
    let ghost s = b@.skip(i as int);
    assert(s[0] == b@[i as int]);
    let b0 = b[i];
    let cp: u32;
    let len: usize;
    if b0 < 0x80 {
        cp = (b0 & 0x7F) as u32;
        len = 1;
    } else if b0 < 0xE0 {
        assert(s[1] == b@[i + 1]);
        let b1 = b[i + 1];
        cp = (((b0 & 0x1F) as u32) << 6) | ((b1 & 0x3f) as u32);
        len = 2;
    } else if b0 < 0xF0 {
        assert(s[1] == b@[i + 1]);
        assert(s[2] == b@[i + 2]);
        let b1 = b[i + 1];
        let b2 = b[i + 2];
        cp = (((b0 & 0x0F) as u32) << 12) | (((b1 & 0x3f) as u32) << 6) | ((b2 & 0x3f) as u32);
        len = 3;
    } else {
        assert(s[1] == b@[i + 1]);
        assert(s[2] == b@[i + 2]);
        assert(s[3] == b@[i + 3]);
        let b1 = b[i + 1];
        let b2 = b[i + 2];
        let b3 = b[i + 3];
        cp = (((b0 & 0x07) as u32) << 18) | (((b1 & 0x3f) as u32) << 12) | (((b2 & 0x3f) as u32)
            << 6) | ((b3 & 0x3f) as u32);
        len = 4;
    }
    assert(cp == decode_first_scalar(s));
    proof {
        let w = length_of_first_scalar(s);
        assert(not_surrogate(cp));
        assert(not_overlong_encoding(cp, w));
        if w == 1 {
            assert(cp <= 0x7f) by (bit_vector)
                requires
                    cp == (b0 & 0x7F) as u32,
            ;
        } else if w == 2 {
            let b1 = s[1];
            assert(cp <= 0x7ff) by (bit_vector)
                requires
                    cp == (((b0 & 0x1F) as u32) << 6) | ((b1 & 0x3f) as u32),
            ;
        } else if w == 3 {
            let b1 = s[1];
            let b2 = s[2];
            assert(cp <= 0xffff) by (bit_vector)
                requires
                    cp == (((b0 & 0x0F) as u32) << 12) | (((b1 & 0x3f) as u32) << 6) | ((b2
                        & 0x3f) as u32),
            ;
        }
        assert(is_scalar(cp));
    }
    match char_from_u32(cp) {
        Some(c) => (c, len),
        None => (' ', len),
    }
}

} // verus!
