//! Little-endian length prefixes and UTF-8 payloads.

use vstd::prelude::*;
use vstd::utf8::*;
use vstd::string::*;
use crate::sst::error::Error;

verus! {

/// The number that `bytes` spell, least significant byte first.
pub open spec fn le_value(bytes: Seq<u8>) -> nat
    decreases bytes.len(),
{
    if bytes.len() == 0 {
        0
    } else {
        bytes[0] as nat + 256 * le_value(bytes.drop_first())
    }
}

/// The `width` lowest bytes of `n`, least significant byte first.
pub open spec fn le_bytes(n: nat, width: nat) -> Seq<u8>
    decreases width,
{
    if width == 0 {
        Seq::empty()
    } else {
        seq![(n % 256) as u8] + le_bytes(n / 256, (width - 1) as nat)
    }
}

/// Little-endian bytes are as many as asked for.
pub proof fn lemma_le_bytes_len(n: nat, width: nat)
    ensures
        le_bytes(n, width).len() == width,
    decreases width,
{
    if width > 0 {
        lemma_le_bytes_len(n / 256, (width - 1) as nat);
    }
}

/// The bytes of a number that is short enough spell the number.
pub proof fn lemma_le_value_of_bytes(n: nat, width: nat)
    requires
        width == 4 && n <= u32::MAX || width == 8 && n <= u64::MAX,
    ensures
        le_value(le_bytes(n, width)) == n,
{
    reveal_with_fuel(le_bytes, 9);
    reveal_with_fuel(le_value, 9);
    let b = le_bytes(n, width);
    lemma_le_bytes_len(n, width);
    assert(b.drop_first() =~= le_bytes(n / 256, (width - 1) as nat));
    lemma_le_value_unfold(b);
    if width == 4 {
        assert(b =~= seq![
            (n % 256) as u8,
            (n / 256 % 256) as u8,
            (n / 256 / 256 % 256) as u8,
            (n / 256 / 256 / 256 % 256) as u8,
        ]);
    } else {
        assert(b =~= seq![
            (n % 256) as u8,
            (n / 256 % 256) as u8,
            (n / 256 / 256 % 256) as u8,
            (n / 256 / 256 / 256 % 256) as u8,
            (n / 256 / 256 / 256 / 256 % 256) as u8,
            (n / 256 / 256 / 256 / 256 / 256 % 256) as u8,
            (n / 256 / 256 / 256 / 256 / 256 / 256 % 256) as u8,
            (n / 256 / 256 / 256 / 256 / 256 / 256 / 256 % 256) as u8,
        ]);
    }
}

/// The number that 4 or 8 bytes spell, written out.
pub proof fn lemma_le_value_unfold(b: Seq<u8>)
    requires
        b.len() == 4 || b.len() == 8,
    ensures
        b.len() == 4 ==> le_value(b) == b[0] + 256 * (b[1] + 256 * (b[2] + 256 * b[3])),
        b.len() == 8 ==> le_value(b) == b[0] + 256 * (b[1] + 256 * (b[2] + 256 * (b[3] + 256 * (b[4]
            + 256 * (b[5] + 256 * (b[6] + 256 * b[7])))))),
        b.len() == 4 ==> le_value(b) <= u32::MAX,
        b.len() == 8 ==> le_value(b) <= u64::MAX,
{
    let b1 = b.drop_first();
    let b2 = b1.drop_first();
    let b3 = b2.drop_first();
    let b4 = b3.drop_first();
    assert(b1[0] == b[1] && b2[0] == b[2] && b3[0] == b[3]);
    if b.len() == 4 {
        assert(le_value(b4) == 0);
        assert(le_value(b3) == b[3]);
        assert(le_value(b2) == b[2] + 256 * le_value(b3));
        assert(le_value(b1) == b[1] + 256 * le_value(b2));
    } else {
        let b5 = b4.drop_first();
        let b6 = b5.drop_first();
        let b7 = b6.drop_first();
        let b8 = b7.drop_first();
        assert(b4[0] == b[4] && b5[0] == b[5] && b6[0] == b[6] && b7[0] == b[7]);
        assert(le_value(b8) == 0);
        assert(le_value(b7) == b[7]);
        assert(le_value(b6) == b[6] + 256 * le_value(b7));
        assert(le_value(b5) == b[5] + 256 * le_value(b6));
        assert(le_value(b4) == b[4] + 256 * le_value(b5));
        assert(le_value(b3) == b[3] + 256 * le_value(b4));
        assert(le_value(b2) == b[2] + 256 * le_value(b3));
        assert(le_value(b1) == b[1] + 256 * le_value(b2));
    }
}

/// What `as_usize` yields for `bytes`.
pub open spec fn spec_as_usize(bytes: Seq<u8>) -> Result<usize, Error> {
    if bytes.len() == 4 && le_value(bytes) <= usize::MAX {
        Ok(le_value(bytes) as usize)
    } else {
        Err(Error::CorruptData)
    }
}

/// What `as_u64` yields for `bytes`.
pub open spec fn spec_as_u64(bytes: Seq<u8>) -> Result<u64, Error> {
    if bytes.len() == 8 {
        Ok(le_value(bytes) as u64)
    } else {
        Err(Error::CorruptData)
    }
}

/// What `as_string` yields for `bytes`, as text.
pub open spec fn spec_as_string(bytes: Seq<u8>) -> Result<Seq<char>, Error> {
    if valid_utf8(bytes) {
        Ok(decode_utf8(bytes))
    } else {
        Err(Error::CorruptData)
    }
}

/// What `from_usize` yields for `n`.
pub open spec fn spec_from_usize(n: usize) -> Result<Seq<u8>, Error> {
    if n <= u32::MAX {
        Ok(le_bytes(n as nat, 4))
    } else {
        Err(Error::CorruptData)
    }
}

/// `std::str::from_utf8`: succeeds exactly on well-formed UTF-8 and then
/// returns the bytes as they are, seen as text.
#[verifier::external_body]
fn str_from_utf8<'a>(bytes: &'a [u8]) -> (r: Option<&'a str>)
    ensures
        r is Some <==> valid_utf8(bytes@),
        r matches Some(s) ==> s.spec_bytes() == bytes@,
{
    match std::str::from_utf8(bytes) {
        Ok(s) => Some(s),
        Err(_) => None,
    }
}

/// Conversions between integers, text and their byte forms.
pub struct ByteUtils;

impl ByteUtils {
    /// Reads a 4-byte little-endian size.
    ///
    /// Fails with `CorruptData` if `array` is not 4 bytes long or spells a
    /// number beyond `usize`.
    pub fn as_usize(array: &[u8]) -> (r: Result<usize, Error>)
        ensures
            r == spec_as_usize(array@),
    {
        if array.len() != 4 {
            return Err(Error::CorruptData);
        }
        proof {
            lemma_le_value_unfold(array@);
        }
        let n: u32 = array[0] as u32 + 256 * (array[1] as u32 + 256 * (array[2] as u32 + 256
            * (array[3] as u32)));
        Ok(n as usize)
    }

    /// Reads an 8-byte little-endian offset.
    ///
    /// Fails with `CorruptData` if `array` is not 8 bytes long.
    pub fn as_u64(array: &[u8]) -> (r: Result<u64, Error>)
        ensures
            r == spec_as_u64(array@),
    {
        if array.len() != 8 {
            return Err(Error::CorruptData);
        }
        proof {
            lemma_le_value_unfold(array@);
        }
        let high: u64 = array[4] as u64 + 256 * (array[5] as u64 + 256 * (array[6] as u64 + 256
            * (array[7] as u64)));
        let low: u64 = array[0] as u64 + 256 * (array[1] as u64 + 256 * (array[2] as u64 + 256
            * (array[3] as u64)));
        Ok(low + 0x1_0000_0000 * high)
    }

    /// Decodes UTF-8 text.
    ///
    /// Fails with `CorruptData` if `array` is not well-formed UTF-8.
    pub fn as_string(array: &[u8]) -> (r: Result<String, Error>)
        ensures
            (match r {
                Ok(s) => Ok(s@),
                Err(e) => Err(e),
            }) == spec_as_string(array@),
    {
        match str_from_utf8(array) {
            Some(s) => {
                proof {
                    encode_utf8_decode_utf8(s@);
                }
                Ok(s.to_owned())
            },
            None => Err(Error::CorruptData),
        }
    }

    /// Writes a size as 4 little-endian bytes.
    ///
    /// Fails with `CorruptData` if `n` needs more than 4 bytes.
    pub fn from_usize(n: usize) -> (r: Result<[u8; 4], Error>)
        ensures
            (match r {
                Ok(a) => Ok(a@),
                Err(e) => Err(e),
            }) == spec_from_usize(n),
    {
        if n > 0xffff_ffff {
            return Err(Error::CorruptData);
        }
        let a: [u8; 4] = [
            (n % 256) as u8,
            (n / 256 % 256) as u8,
            (n / 256 / 256 % 256) as u8,
            (n / 256 / 256 / 256 % 256) as u8,
        ];
        proof {
            reveal_with_fuel(le_bytes, 5);
            assert(a@ =~= le_bytes(n as nat, 4));
        }
        Ok(a)
    }

    /// Writes an offset as 8 little-endian bytes.
    pub fn from_u64(n: u64) -> (r: [u8; 8])
        ensures
            r@ == le_bytes(n as nat, 8),
    {
        let a: [u8; 8] = [
            (n % 256) as u8,
            (n / 256 % 256) as u8,
            (n / 256 / 256 % 256) as u8,
            (n / 256 / 256 / 256 % 256) as u8,
            (n / 256 / 256 / 256 / 256 % 256) as u8,
            (n / 256 / 256 / 256 / 256 / 256 % 256) as u8,
            (n / 256 / 256 / 256 / 256 / 256 / 256 % 256) as u8,
            (n / 256 / 256 / 256 / 256 / 256 / 256 / 256 % 256) as u8,
        ];
        proof {
            reveal_with_fuel(le_bytes, 9);
            assert(a@ =~= le_bytes(n as nat, 8));
        }
        a
    }
}

/// Appends the bytes of `src` to `dst`.
pub fn append_bytes(dst: &mut Vec<u8>, src: &[u8])
    ensures
        final(dst)@ == old(dst)@ + src@,
{
    dst.extend_from_slice(src);
    assert(dst@ =~= old(dst)@ + src@);
}

} // verus!
