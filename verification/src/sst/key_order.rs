//! The byte-wise order in which keys are kept and searched.

use vstd::prelude::*;
use vstd::utf8::*;

verus! {

/// `a` comes strictly before `b` in lexicographic byte order.
pub open spec fn bytes_lt(a: Seq<u8>, b: Seq<u8>) -> bool
    decreases a.len(),
{
    if b.len() == 0 {
        false
    } else if a.len() == 0 {
        true
    } else if a[0] != b[0] {
        a[0] < b[0]
    } else {
        bytes_lt(a.drop_first(), b.drop_first())
    }
}

/// No key comes before itself.
pub proof fn lemma_lt_irreflexive(a: Seq<u8>)
    ensures
        !bytes_lt(a, a),
    decreases a.len(),
{
    if a.len() > 0 {
        lemma_lt_irreflexive(a.drop_first());
    }
}

/// The order is transitive.
pub proof fn lemma_lt_transitive(a: Seq<u8>, b: Seq<u8>, c: Seq<u8>)
    requires
        bytes_lt(a, b),
        bytes_lt(b, c),
    ensures
        bytes_lt(a, c),
    decreases a.len(),
{
    if a.len() > 0 && a[0] == b[0] && b[0] == c[0] {
        lemma_lt_transitive(a.drop_first(), b.drop_first(), c.drop_first());
    }
}

/// Two keys never come before each other.
pub proof fn lemma_lt_asymmetric(a: Seq<u8>, b: Seq<u8>)
    requires
        bytes_lt(a, b),
    ensures
        !bytes_lt(b, a),
{
    if bytes_lt(b, a) {
        lemma_lt_transitive(a, b, a);
        lemma_lt_irreflexive(a);
    }
}

/// Of two different keys one comes before the other.
pub proof fn lemma_lt_connected(a: Seq<u8>, b: Seq<u8>)
    requires
        !bytes_lt(a, b),
        !bytes_lt(b, a),
    ensures
        a == b,
    decreases a.len(),
{
    if a.len() > 0 && b.len() > 0 {
        lemma_lt_connected(a.drop_first(), b.drop_first());
        assert(a =~= seq![a[0]] + a.drop_first());
        assert(b =~= seq![b[0]] + b.drop_first());
    } else {
        assert(a =~= b);
    }
}

/// Keys that agree on their first `n` bytes are ordered as what follows.
pub proof fn lemma_lt_common_prefix(a: Seq<u8>, b: Seq<u8>, n: int)
    requires
        0 <= n <= a.len(),
        n <= b.len(),
        a.subrange(0, n) == b.subrange(0, n),
    ensures
        bytes_lt(a, b) == bytes_lt(a.skip(n), b.skip(n)),
    decreases n,
{
    if n > 0 {
        assert(a[0] == a.subrange(0, n)[0]);
        assert(b[0] == b.subrange(0, n)[0]);
        let a1 = a.drop_first();
        let b1 = b.drop_first();
        assert(a1.subrange(0, n - 1) =~= a.subrange(0, n).drop_first());
        assert(b1.subrange(0, n - 1) =~= b.subrange(0, n).drop_first());
        lemma_lt_common_prefix(a1, b1, n - 1);
        assert(a1.skip(n - 1) =~= a.skip(n));
        assert(b1.skip(n - 1) =~= b.skip(n));
    } else {
        assert(a.skip(0) =~= a);
        assert(b.skip(0) =~= b);
    }
}

/// How one key stands to another.
#[derive(Debug, Clone, Copy, PartialEq, Eq, Structural)]
pub enum KeyOrder {
    /// The first key comes before the second.
    Before,
    /// Both keys are the same bytes.
    Same,
    /// The first key comes after the second.
    After,
}

/// The standing of `a` to `b`, as a value.
pub open spec fn key_order(a: Seq<u8>, b: Seq<u8>) -> KeyOrder {
    if bytes_lt(a, b) {
        KeyOrder::Before
    } else if a == b {
        KeyOrder::Same
    } else {
        KeyOrder::After
    }
}

/// Orders two keys byte by byte.
pub fn compare_keys(a: &[u8], b: &[u8]) -> (r: KeyOrder)
    ensures
        r == key_order(a@, b@),
        r is After <==> bytes_lt(b@, a@),
{
    let mut i: usize = 0;
    while i < a.len() && i < b.len()
        invariant
            i <= a.len(),
            i <= b.len(),
            a@.subrange(0, i as int) == b@.subrange(0, i as int),
        decreases a.len() - i,
    {
        if a[i] != b[i] {
            proof {
                lemma_lt_common_prefix(a@, b@, i as int);
                lemma_lt_common_prefix(b@, a@, i as int);
                assert(a@.skip(i as int)[0] == a@[i as int]);
                assert(b@.skip(i as int)[0] == b@[i as int]);
            }
            if a[i] < b[i] {
                return KeyOrder::Before;
            } else {
                return KeyOrder::After;
            }
        }
        proof {
            assert(a@.subrange(0, i + 1) =~= a@.subrange(0, i as int).push(a@[i as int]));
            assert(b@.subrange(0, i + 1) =~= b@.subrange(0, i as int).push(b@[i as int]));
        }
        i += 1;
    }
    proof {
        lemma_lt_common_prefix(a@, b@, i as int);
        lemma_lt_common_prefix(b@, a@, i as int);
        lemma_lt_irreflexive(a@);
        if a.len() == b.len() {
            assert(a@ =~= a@.subrange(0, i as int));
            assert(b@ =~= b@.subrange(0, i as int));
        }
    }
    if a.len() == b.len() {
        KeyOrder::Same
    } else if a.len() < b.len() {
        KeyOrder::Before
    } else {
        KeyOrder::After
    }
}

/// The key `a` comes strictly before the key `b`: their UTF-8 bytes do.
pub open spec fn key_lt(a: Seq<char>, b: Seq<char>) -> bool {
    bytes_lt(encode_utf8(a), encode_utf8(b))
}

/// Texts with the same UTF-8 bytes are the same text.
pub proof fn lemma_utf8_injective(a: Seq<char>, b: Seq<char>)
    requires
        encode_utf8(a) == encode_utf8(b),
    ensures
        a == b,
{
    encode_utf8_decode_utf8(a);
    encode_utf8_decode_utf8(b);
}

/// Of two different keys one comes before the other.
pub proof fn lemma_key_lt_connected(a: Seq<char>, b: Seq<char>)
    requires
        !key_lt(a, b),
        !key_lt(b, a),
    ensures
        a == b,
{
    lemma_lt_connected(encode_utf8(a), encode_utf8(b));
    lemma_utf8_injective(a, b);
}

/// Orders two keys by their UTF-8 bytes.
pub fn compare_strs(a: &str, b: &str) -> (r: KeyOrder)
    ensures
        r is Before <==> key_lt(a@, b@),
        r is Same <==> a@ == b@,
        r is After <==> key_lt(b@, a@),
{
    let r = compare_keys(a.as_bytes(), b.as_bytes());
    proof {
        if r is Same {
            lemma_utf8_injective(a@, b@);
        }
        lemma_lt_irreflexive(encode_utf8(a@));
        if key_lt(a@, b@) {
            lemma_lt_asymmetric(encode_utf8(a@), encode_utf8(b@));
        }
    }
    r
}

} // verus!
