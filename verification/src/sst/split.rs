//! Cutting bytes at a separator: the lines of a text file and the fields
//! of a line.

use vstd::prelude::*;

verus! {

/// The line terminator.
pub const LF: u8 = 10;

/// The number of bytes of `bytes` that come before its first `sep`; all of
/// them if it holds none.
pub open spec fn index_of_byte(bytes: Seq<u8>, sep: u8) -> int
    decreases bytes.len(),
{
    if bytes.len() == 0 || bytes[0] == sep {
        0
    } else {
        1 + index_of_byte(bytes.drop_first(), sep)
    }
}

/// `index_of_byte` finds the first separator.
pub proof fn lemma_index_of_byte(bytes: Seq<u8>, sep: u8)
    ensures
        0 <= index_of_byte(bytes, sep) <= bytes.len(),
        forall|i: int| 0 <= i < index_of_byte(bytes, sep) ==> bytes[i] != sep,
        index_of_byte(bytes, sep) < bytes.len() ==> bytes[index_of_byte(bytes, sep)] == sep,
    decreases bytes.len(),
{
    if bytes.len() > 0 && bytes[0] != sep {
        lemma_index_of_byte(bytes.drop_first(), sep);
        assert forall|i: int| 0 <= i < index_of_byte(bytes, sep) implies bytes[i] != sep by {
            if i > 0 {
                assert(bytes[i] == bytes.drop_first()[i - 1]);
            }
        }
    }
}

/// The first separator is found where the bytes before hold none.
pub proof fn lemma_index_of_byte_is(bytes: Seq<u8>, sep: u8, n: int)
    requires
        0 <= n <= bytes.len(),
        forall|i: int| 0 <= i < n ==> bytes[i] != sep,
        n < bytes.len() ==> bytes[n] == sep,
    ensures
        index_of_byte(bytes, sep) == n,
{
    lemma_index_of_byte(bytes, sep);
}

/// The lines of a text: the bytes between line terminators. A last line
/// needs no terminator, and an empty text has no line.
pub open spec fn lines(bytes: Seq<u8>) -> Seq<Seq<u8>>
    decreases bytes.len(),
{
    if bytes.len() == 0 {
        Seq::empty()
    } else {
        let n = index_of_byte(bytes, LF);
        if 0 <= n < bytes.len() {
            seq![bytes.take(n)] + lines(bytes.skip(n + 1))
        } else {
            seq![bytes]
        }
    }
}

/// Lines that end in their terminator are read back one by one.
pub proof fn lemma_lines_first(line: Seq<u8>, rest: Seq<u8>)
    requires
        forall|i: int| 0 <= i < line.len() ==> line[i] != LF,
    ensures
        lines(line + seq![LF] + rest) == seq![line] + lines(rest),
{
    let bytes = line + seq![LF] + rest;
    lemma_index_of_byte_is(bytes, LF, line.len() as int);
    assert(bytes.take(line.len() as int) =~= line);
    assert(bytes.skip(line.len() as int + 1) =~= rest);
}

/// Text made of terminated lines, followed by more text, has the lines
/// of both.
pub proof fn lemma_lines_concat(a: Seq<u8>, b: Seq<u8>)
    requires
        a.len() > 0 ==> a.last() == LF,
    ensures
        lines(a + b) == lines(a) + lines(b),
    decreases a.len(),
{
    if a.len() == 0 {
        assert(a + b =~= b);
        assert(lines(a) + lines(b) =~= lines(b));
    } else {
        let n = index_of_byte(a, LF);
        lemma_index_of_byte(a, LF);
        assert(n < a.len()) by {
            if n >= a.len() {
                assert(a[a.len() - 1] != LF);
            }
        }
        lemma_index_of_byte_is(a + b, LF, n);
        let rest = a.skip(n + 1);
        assert((a + b).take(n) =~= a.take(n));
        assert((a + b).skip(n + 1) =~= rest + b);
        if rest.len() > 0 {
            assert(rest.last() == a.last());
        }
        lemma_lines_concat(rest, b);
        assert(lines(a + b) =~= lines(a) + lines(b));
    }
}

/// Finds the first `sep` of `bytes` at or after `start`; the length of
/// `bytes` if there is none.
pub fn find_byte(bytes: &[u8], start: usize, sep: u8) -> (end: usize)
    requires
        start <= bytes@.len(),
    ensures
        start <= end <= bytes@.len(),
        end == start + index_of_byte(bytes@.skip(start as int), sep),
{
    let mut end = start;
    proof {
        lemma_index_of_byte(bytes@.skip(start as int), sep);
    }
    while end < bytes.len() && bytes[end] != sep
        invariant
            start <= end <= bytes@.len(),
            forall|i: int| start <= i < end ==> bytes@[i] != sep,
        decreases bytes.len() - end,
    {
        end += 1;
    }
    proof {
        let tail = bytes@.skip(start as int);
        assert forall|i: int| 0 <= i < end - start implies tail[i] != sep by {
            assert(tail[i] == bytes@[start + i]);
        }
        lemma_index_of_byte_is(tail, sep, end - start);
    }
    end
}

} // verus!
