//! Byte scanning: locating a terminator, splitting a record into fields,
//! and stripping trailing line ends.  The spec functions here are the
//! vocabulary of the framer's and the parser's contracts.

use vstd::prelude::*;

verus! {

/// The line terminator.
pub const NL: u8 = 10;

/// An optional carriage return preceding the terminator.
pub const CR: u8 = 13;

/// Index of the first occurrence of `b` in `s`, if any.
pub open spec fn find_byte(s: Seq<u8>, b: u8) -> Option<int>
    decreases s.len(),
{
    if s.len() == 0 {
        None
    } else if s[0] == b {
        Some(0int)
    } else {
        match find_byte(s.skip(1), b) {
            Some(i) => Some(i + 1),
            None => None,
        }
    }
}

/// `find_byte` returns the first occurrence: an in-range index holding `b`
/// with nothing equal to `b` before it, or `None` when `b` does not occur.
pub proof fn lemma_find_byte(s: Seq<u8>, b: u8)
    ensures
        match find_byte(s, b) {
            Some(i) => 0 <= i < s.len() && s[i] == b && (forall|j: int|
                0 <= j < i ==> s[j] != b),
            None => forall|j: int| 0 <= j < s.len() ==> s[j] != b,
        },
    decreases s.len(),
{
    if s.len() == 0 {
    } else if s[0] == b {
    } else {
        lemma_find_byte(s.skip(1), b);
        match find_byte(s.skip(1), b) {
            Some(i) => {
                assert(s.skip(1)[i] == s[i + 1]);
                assert forall|j: int| 0 <= j < i + 1 implies s[j] != b by {
                    if j >= 1 {
                        assert(s.skip(1)[j - 1] == s[j]);
                    }
                }
            },
            None => {
                assert forall|j: int| 0 <= j < s.len() implies s[j] != b by {
                    if j >= 1 {
                        assert(s.skip(1)[j - 1] == s[j]);
                    }
                }
            },
        }
    }
}

/// The first occurrence determines `find_byte`: if `s[i] == b` and no
/// earlier position holds `b`, then `find_byte` returns `i`.
pub proof fn lemma_find_byte_is_first(s: Seq<u8>, b: u8, i: int)
    requires
        0 <= i < s.len(),
        s[i] == b,
        forall|j: int| 0 <= j < i ==> s[j] != b,
    ensures
        find_byte(s, b) == Some(i),
    decreases s.len(),
{
    if i == 0 {
    } else {
        assert(s.skip(1)[i - 1] == s[i]);
        assert(forall|j: int| 0 <= j < i - 1 ==> s.skip(1)[j] == s[j + 1]);
        lemma_find_byte_is_first(s.skip(1), b, i - 1);
    }
}

/// When `b` occurs nowhere in `s`, `find_byte` returns `None`.
pub proof fn lemma_find_byte_absent(s: Seq<u8>, b: u8)
    requires
        forall|j: int| 0 <= j < s.len() ==> s[j] != b,
    ensures
        find_byte(s, b) is None,
    decreases s.len(),
{
    if s.len() == 0 {
    } else {
        assert(forall|j: int| 0 <= j < s.len() - 1 ==> s.skip(1)[j] == s[j + 1]);
        lemma_find_byte_absent(s.skip(1), b);
    }
}

/// First occurrence of `b` in `s` at or after `start`, as an absolute
/// index.
pub fn find_byte_from(s: &[u8], start: usize, b: u8) -> (r: Option<usize>)
    requires
        start <= s@.len(),
    ensures
        match r {
            Some(p) => start <= p < s@.len() && s@[p as int] == b && (forall|j: int|
                start <= j < p ==> s@[j] != b) && find_byte(s@.skip(start as int), b)
                == Some(p - start),
            None => (forall|j: int| start <= j < s@.len() ==> s@[j] != b) && find_byte(
                s@.skip(start as int),
                b,
            ) is None,
        },
{
    let ghost suffix = s@.skip(start as int);
    let mut i: usize = start;
    while i < s.len()
        invariant
            start <= i <= s@.len(),
            suffix == s@.skip(start as int),
            forall|j: int| start <= j < i ==> s@[j] != b,
        decreases s@.len() - i,
    {
        if s[i] == b {
            proof {
                assert(forall|j: int| 0 <= j < suffix.len() ==> suffix[j] == s@[start + j]);
                lemma_find_byte_is_first(suffix, b, i - start);
            }
            return Some(i);
        }
        i = i + 1;
    }
    proof {
        assert(forall|j: int| 0 <= j < suffix.len() ==> suffix[j] == s@[start + j]);
        lemma_find_byte_absent(suffix, b);
    }
    None
}

#[via_fn]
proof fn split_on_decreases(s: Seq<u8>, sep: u8) {
    lemma_find_byte(s, sep);
}

/// The parts of `s` between occurrences of `sep`.  Splitting always yields
/// at least one part; an empty `s` yields one empty part.
pub open spec fn split_on(s: Seq<u8>, sep: u8) -> Seq<Seq<u8>>
    decreases s.len(),
    via split_on_decreases
{
    match find_byte(s, sep) {
        None => seq![s],
        Some(i) => seq![s.take(i)] + split_on(s.skip(i + 1), sep),
    }
}

/// `s` with every trailing line-terminator and carriage-return byte
/// removed.
pub open spec fn strip_line_ends(s: Seq<u8>) -> Seq<u8>
    decreases s.len(),
{
    if s.len() > 0 && (s.last() == NL || s.last() == CR) {
        strip_line_ends(s.drop_last())
    } else {
        s
    }
}

/// Removes every trailing line-terminator and carriage-return byte in
/// place.
pub fn strip_trailing_line_ends(buf: &mut Vec<u8>)
    ensures
        final(buf)@ == strip_line_ends(old(buf)@),
{
    loop
        invariant
            strip_line_ends(buf@) == strip_line_ends(old(buf)@),
        decreases buf@.len(),
    {
        let n = buf.len();
        if n == 0 {
            return ;
        }
        let last = buf[n - 1];
        if last == NL || last == CR {
            assert(buf@.last() == last);
            buf.pop();
        } else {
            return ;
        }
    }
}

} // verus!
