//! Decimal integers: reading them from token text and writing them as text.

use vstd::prelude::*;

verus! {

pub open spec fn is_digit_char(c: char) -> bool {
    '0' <= c <= '9'
}

/// The value of a string of decimal digits.
pub open spec fn decimal_value(s: Seq<char>) -> int
    decreases s.len(),
{
    if s.len() == 0 {
        0
    } else {
        10 * decimal_value(s.drop_last()) + (s.last() as int - '0' as int)
    }
}

/// What `str::parse::<i64>` yields: an optional sign followed by at least one
/// decimal digit, whose value fits in an `i64`.
pub open spec fn parse_i64_spec(s: Seq<char>) -> Option<i64> {
    let neg = s.len() > 0 && s[0] == '-';
    let digits = if s.len() > 0 && (s[0] == '-' || s[0] == '+') {
        s.drop_first()
    } else {
        s
    };
    if digits.len() == 0 || !(forall|i: int| 0 <= i < digits.len() ==> is_digit_char(
        #[trigger] digits[i],
    )) {
        None
    } else {
        let v = if neg {
            -decimal_value(digits)
        } else {
            decimal_value(digits)
        };
        if i64::MIN <= v <= i64::MAX {
            Some(v as i64)
        } else {
            None
        }
    }
}

/// Calls `str::parse::<i64>`, which accepts an optional `+` or `-` followed by
/// one or more ASCII digits whose value is in range, and rejects everything else.
#[verifier::external_body]
pub fn parse_i64(s: &str) -> (r: Option<i64>)
    ensures
        r == parse_i64_spec(s@),
{
    s.parse::<i64>().ok()
}

} // verus!

verus! {

/// The ASCII decimal digits of `n`, most significant first.
pub open spec fn digit_bytes(n: nat) -> Seq<u8>
    decreases n,
{
    if n < 10 {
        seq![(48 + n) as u8]
    } else {
        digit_bytes(n / 10).push((48 + n % 10) as u8)
    }
}

/// The decimal text of an integer, with a leading `-` when negative.
pub open spec fn int_text(v: int) -> Seq<char> {
    let b = if v < 0 {
        seq![45u8] + digit_bytes((-v) as nat)
    } else {
        digit_bytes(v as nat)
    };
    b.map_values(|x: u8| x as char)
}

pub proof fn lemma_ascii_utf8(b: Seq<u8>)
    requires
        forall|i: int| 0 <= i < b.len() ==> #[trigger] b[i] < 128,
    ensures
        vstd::utf8::valid_utf8(b),
        vstd::utf8::decode_utf8(b) == b.map_values(|x: u8| x as char),
    decreases b.len(),
{
    if b.len() > 0 {
        let rest = b.subrange(1, b.len() as int);
        lemma_ascii_utf8(rest);
        assert(vstd::utf8::pop_first_scalar(b) =~= rest);
        let x = b[0];
        assert((x & 0x7F) == x) by (bit_vector)
            requires
                x < 128,
        ;
        assert(b.map_values(|x: u8| x as char) =~= seq![b[0] as char] + rest.map_values(
            |x: u8| x as char,
        ));
    } else {
        assert(b.map_values(|x: u8| x as char) =~= Seq::<char>::empty());
    }
}

proof fn lemma_digit_bytes_ascii(n: nat)
    ensures
        forall|i: int| 0 <= i < digit_bytes(n).len() ==> 48 <= #[trigger] digit_bytes(n)[i] <= 57,
        1 <= digit_bytes(n).len(),
    decreases n,
{
    if n >= 10 {
        lemma_digit_bytes_ascii(n / 10);
    }
}

fn digits_of(n: u64) -> (v: Vec<u8>)
    ensures
        v@ == digit_bytes(n as nat),
{
    let mut m = n;
    let mut acc: Vec<u8> = Vec::new();
    while m >= 10
        invariant
            digit_bytes(n as nat) == digit_bytes(m as nat) + acc@,
        decreases m,
    {
        let d = (m % 10) as u8;
        let ghost old_acc = acc@;
        acc.insert(0, 48 + d);
        assert(digit_bytes(m as nat) == digit_bytes((m / 10) as nat).push((48 + m % 10) as u8));
        assert(digit_bytes(m as nat) + old_acc =~= digit_bytes((m / 10) as nat) + acc@);
        m = m / 10;
    }
    let ghost old_acc = acc@;
    acc.insert(0, 48 + (m as u8));
    assert(acc@ =~= digit_bytes(m as nat) + old_acc);
    acc
}

fn ascii_to_string(b: &Vec<u8>) -> (s: String)
    requires
        forall|i: int| 0 <= i < b@.len() ==> #[trigger] b@[i] < 128,
    ensures
        s@ == b@.map_values(|x: u8| x as char),
{
    proof {
        lemma_ascii_utf8(b@);
    }
    let t = crate::unicode::str_from_utf8(b.as_slice());
    <String as vstd::string::StringExecFns>::from_str(t)
}

/// The decimal text of a signed integer.
pub fn fmt_i64(v: i64) -> (s: String)
    ensures
        s@ == int_text(v as int),
{
    let mag: u64 = if v < 0 {
        if v == i64::MIN {
            9223372036854775808u64
        } else {
            (-v) as u64
        }
    } else {
        v as u64
    };
    let mut b = digits_of(mag);
    proof {
        lemma_digit_bytes_ascii(mag as nat);
    }
    if v < 0 {
        let ghost d = b@;
        b.insert(0, 45u8);
        assert(b@ =~= seq![45u8] + d);
    }
    ascii_to_string(&b)
}

/// The decimal text of an unsigned integer.
pub fn fmt_u64(v: u64) -> (s: String)
    ensures
        s@ == int_text(v as int),
{
    let b = digits_of(v);
    proof {
        lemma_digit_bytes_ascii(v as nat);
    }
    ascii_to_string(&b)
}

/// The decimal text of a count.
pub fn fmt_usize(v: usize) -> (s: String)
    ensures
        s@ == int_text(v as int),
{
    let b = digits_of(v as u64);
    proof {
        lemma_digit_bytes_ascii(v as nat);
    }
    ascii_to_string(&b)
}

} // verus!
