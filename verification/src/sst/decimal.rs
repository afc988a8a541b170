//! Decimal text of unsigned integers, as used in file names and in the
//! skip index.

use vstd::prelude::*;
use vstd::utf8::*;
use vstd::string::*;
use crate::sst::disktable::byte_utils::ByteUtils;

verus! {

/// `b` is one of the ASCII digits `0` to `9`.
pub open spec fn is_digit(b: u8) -> bool {
    48 <= b <= 57
}

/// Every byte of `s` is an ASCII digit.
pub open spec fn all_digits(s: Seq<u8>) -> bool {
    forall|i: int| 0 <= i < s.len() ==> is_digit(#[trigger] s[i])
}

/// The number that the digits of `s` spell, most significant digit first.
pub open spec fn digits_value(s: Seq<u8>) -> nat
    decreases s.len(),
{
    if s.len() == 0 {
        0
    } else {
        digits_value(s.drop_last()) * 10 + (s.last() - 48) as nat
    }
}

/// The number written in `s`: one or more ASCII digits and nothing else.
pub open spec fn parse_decimal(s: Seq<u8>) -> Option<nat> {
    if s.len() > 0 && all_digits(s) {
        Some(digits_value(s))
    } else {
        None
    }
}

/// The shortest decimal spelling of `n`, as ASCII bytes.
pub open spec fn decimal_bytes(n: nat) -> Seq<u8>
    decreases n,
{
    if n < 10 {
        seq![(48 + n) as u8]
    } else {
        decimal_bytes(n / 10).push((48 + n % 10) as u8)
    }
}

/// The shortest decimal spelling of `n`, as text.
pub open spec fn decimal_chars(n: nat) -> Seq<char> {
    decimal_bytes(n).map_values(|b: u8| b as char)
}

/// A spelling holds digits only and is never empty.
pub proof fn lemma_decimal_bytes_digits(n: nat)
    ensures
        decimal_bytes(n).len() > 0,
        all_digits(decimal_bytes(n)),
    decreases n,
{
    if n >= 10 {
        lemma_decimal_bytes_digits(n / 10);
    }
}

/// Reading a spelling back gives the number that was spelled.
pub proof fn lemma_parse_decimal_bytes(n: nat)
    ensures
        parse_decimal(decimal_bytes(n)) == Some(n),
    decreases n,
{
    lemma_decimal_bytes_digits(n);
    let s = decimal_bytes(n);
    if n >= 10 {
        lemma_parse_decimal_bytes(n / 10);
        lemma_decimal_bytes_digits(n / 10);
        assert(s.drop_last() =~= decimal_bytes(n / 10));
        assert(s.last() == (48 + n % 10) as u8);
        assert(digits_value(s) == digits_value(s.drop_last()) * 10 + (s.last() - 48) as nat);
    } else {
        assert(s.drop_last() =~= Seq::<u8>::empty());
        assert(digits_value(s.drop_last()) == 0);
        assert(digits_value(s) == digits_value(s.drop_last()) * 10 + (s.last() - 48) as nat);
    }
}

/// The text of a spelling is ASCII, so its UTF-8 bytes are the spelling.
pub proof fn lemma_decimal_chars_utf8(n: nat)
    ensures
        encode_utf8(decimal_chars(n)) == decimal_bytes(n),
{
    lemma_decimal_bytes_digits(n);
    let chars = decimal_chars(n);
    let bytes = decimal_bytes(n);
    assert forall|i: int| 0 <= i < chars.len() implies '\0' <= #[trigger] chars[i] <= '\u{7f}' by {
        assert(is_digit(bytes[i]));
    }
    is_ascii_chars_encode_utf8(chars);
    assert forall|i: int| 0 <= i < bytes.len() implies encode_utf8(chars)[i] == bytes[i] by {
        assert(is_digit(bytes[i]));
        assert(chars[i] as u8 == encode_utf8(chars)[i]);
    }
    assert(encode_utf8(chars) =~= bytes);
}

/// Digits spell at least what any of their prefixes spell.
pub proof fn lemma_digits_value_prefix(s: Seq<u8>, k: int)
    requires
        all_digits(s),
        0 <= k <= s.len(),
    ensures
        digits_value(s.take(k)) <= digits_value(s),
    decreases s.len(),
{
    if k < s.len() {
        assert(all_digits(s.drop_last())) by {
            assert forall|i: int| 0 <= i < s.drop_last().len() implies is_digit(
                #[trigger] s.drop_last()[i],
            ) by {
                assert(s.drop_last()[i] == s[i]);
            }
        }
        lemma_digits_value_prefix(s.drop_last(), k);
        assert(s.drop_last().take(k) =~= s.take(k));
        assert(is_digit(s.last()));
    } else {
        assert(s.take(k) =~= s);
    }
}

/// Spells `n` in decimal.
pub fn decimal_digits(n: u64) -> (v: Vec<u8>)
    ensures
        v@ == decimal_bytes(n as nat),
    decreases n,
{
    if n < 10 {
        let mut v: Vec<u8> = Vec::new();
        v.push(48u8 + (n as u8));
        assert(v@ =~= decimal_bytes(n as nat));
        v
    } else {
        let mut v = decimal_digits(n / 10);
        v.push(48u8 + ((n % 10) as u8));
        v
    }
}

/// Spells `n` in decimal, as text.
pub fn decimal_string(n: u64) -> (s: String)
    ensures
        s@ == decimal_chars(n as nat),
{
    let digits = decimal_digits(n);
    proof {
        lemma_decimal_chars_utf8(n as nat);
        encode_utf8_valid_utf8(decimal_chars(n as nat));
        encode_utf8_decode_utf8(decimal_chars(n as nat));
    }
    match ByteUtils::as_string(digits.as_slice()) {
        Ok(s) => s,
        Err(_) => String::new(),
    }
}

/// The decimal spelling of `n`, with a minus sign before a negative
/// number.
pub open spec fn signed_chars(n: int) -> Seq<char> {
    if n < 0 {
        seq!['-'] + decimal_chars((-n) as nat)
    } else {
        decimal_chars(n as nat)
    }
}

/// Spells `n` in decimal, as text, with a minus sign before a negative
/// number.
pub fn signed_string(n: i64) -> (s: String)
    ensures
        s@ == signed_chars(n as int),
{
    if n < 0 {
        let magnitude: u64 = (-(n + 1)) as u64 + 1;
        let mut s = String::from_str("-");
        proof {
            reveal_strlit("-");
            assert("-"@ =~= seq!['-']);
        }
        s.append(decimal_string(magnitude).as_str());
        s
    } else {
        decimal_string(n as u64)
    }
}

/// What `parse_u64` yields for `s`.
pub open spec fn spec_parse_u64(s: Seq<u8>) -> Option<u64> {
    match parse_decimal(s) {
        Some(n) if n <= u64::MAX => Some(n as u64),
        _ => None,
    }
}

/// Reads a decimal number; `None` where the bytes are not digits only, are
/// empty, or spell a number beyond `u64`.
pub fn parse_u64(bytes: &[u8]) -> (r: Option<u64>)
    ensures
        r == spec_parse_u64(bytes@),
{
    if bytes.len() == 0 {
        return None;
    }
    let mut acc: u64 = 0;
    let mut i: usize = 0;
    while i < bytes.len()
        invariant
            i <= bytes.len(),
            all_digits(bytes@.take(i as int)),
            acc == digits_value(bytes@.take(i as int)),
        decreases bytes.len() - i,
    {
        let b = bytes[i];
        if b < 48 || b > 57 {
            assert(!all_digits(bytes@)) by {
                assert(!is_digit(bytes@[i as int]));
            }
            return None;
        }
        proof {
            let next = bytes@.take(i + 1);
            assert(next.drop_last() =~= bytes@.take(i as int));
            assert(next.last() == b);
            assert forall|j: int| 0 <= j < next.len() implies is_digit(#[trigger] next[j]) by {
                if j < i {
                    assert(bytes@.take(i as int)[j] == next[j]);
                }
            }
        }
        let d: u64 = (b - 48) as u64;
        let grown = match acc.checked_mul(10) {
            Some(m) => m.checked_add(d),
            None => None,
        };
        match grown {
            Some(g) => {
                acc = g;
            },
            None => {
                proof {
                    if all_digits(bytes@) {
                        lemma_digits_value_prefix(bytes@, i + 1);
                    }
                }
                return None;
            },
        }
        i += 1;
    }
    assert(bytes@.take(i as int) =~= bytes@);
    Some(acc)
}

} // verus!
