//! Byte-level view of a source document.
//!
//! Scanning works on the UTF-8 bytes of the input; text handed back to
//! callers is the character sequence a byte range decodes to. Every byte
//! position the scanners stop at is either an ASCII byte or the byte right
//! after one, so it always falls on a character boundary.

use vstd::prelude::*;
use vstd::utf8::*;
use vstd::string::*;

verus! {

broadcast use {vstd::utf8::group_utf8_lib, vstd::string::group_string_axioms};

/// The bytes of a character sequence.
pub open spec fn bytes_of(s: Seq<char>) -> Seq<u8> {
    encode_utf8(s)
}

/// The characters that the bytes `b[start..end]` encode.
pub open spec fn text_of(b: Seq<u8>, start: int, end: int) -> Seq<char> {
    decode_utf8(b.subrange(start, end))
}

/// Number of `\n` bytes in `b[..pos]`.
pub open spec fn count_newlines(b: Seq<u8>, pos: int) -> nat
    decreases pos,
{
    if pos <= 0 || pos > b.len() {
        0
    } else {
        count_newlines(b, pos - 1) + if b[pos - 1] == 0x0A {
            1nat
        } else {
            0nat
        }
    }
}

/// 1-based line number of byte position `pos`.
pub open spec fn line_of(b: Seq<u8>, pos: int) -> nat {
    1 + count_newlines(b, pos)
}

/// A position the crate may cut the source at: in bounds and on a
/// character boundary.
pub open spec fn cut_ok(b: Seq<u8>, pos: int) -> bool {
    0 <= pos <= b.len() && is_char_boundary(b, pos)
}

pub proof fn lemma_count_newlines_bound(b: Seq<u8>, pos: int)
    requires
        0 <= pos <= b.len(),
    ensures
        count_newlines(b, pos) <= pos,
    decreases pos,
{
    if pos > 0 {
        lemma_count_newlines_bound(b, pos - 1);
    }
}

pub proof fn lemma_count_newlines_monotone(b: Seq<u8>, p: int, q: int)
    requires
        0 <= p <= q <= b.len(),
    ensures
        count_newlines(b, p) <= count_newlines(b, q),
    decreases q - p,
{
    if p < q {
        lemma_count_newlines_monotone(b, p, q - 1);
    }
}

pub proof fn lemma_valid_bytes(s: Seq<char>)
    ensures
        valid_utf8(bytes_of(s)),
        decode_utf8(bytes_of(s)) == s,
{
}

proof fn lemma_boundary_after_ascii(b: Seq<u8>, i: int)
    requires
        valid_utf8(b),
        is_char_boundary(b, i),
        0 <= i < b.len(),
        b[i] < 0x80,
    ensures
        is_char_boundary(b, i + 1),
    decreases b.len(),
{
    reveal_with_fuel(is_char_boundary, 2);
    if i == 0 {
        assert(length_of_first_scalar(b) == 1);
    } else {
        let l = length_of_first_scalar(b);
        let rest = pop_first_scalar(b);
        assert(is_char_boundary(rest, i - l));
        assert(valid_utf8(rest));
        assert(rest[i - l] == b[i]);
        lemma_boundary_after_ascii(rest, i - l);
    }
}

/// An ASCII byte starts a character, and so does the byte after it.
pub proof fn lemma_ascii_cut(b: Seq<u8>, i: int)
    requires
        valid_utf8(b),
        0 <= i < b.len(),
        b[i] < 0x80,
    ensures
        cut_ok(b, i),
        cut_ok(b, i + 1),
{
    is_char_boundary_iff_not_is_continuation_byte(b, i);
    lemma_boundary_after_ascii(b, i);
}

pub proof fn lemma_end_cut(b: Seq<u8>)
    requires
        valid_utf8(b),
    ensures
        cut_ok(b, b.len() as int),
        cut_ok(b, 0),
{
    is_char_boundary_start_end_of_seq(b);
}

proof fn lemma_boundary_shift(b: Seq<u8>, start: int, end: int)
    requires
        valid_utf8(b),
        cut_ok(b, start),
        cut_ok(b, end),
        start <= end,
    ensures
        valid_utf8(b.subrange(start, b.len() as int)),
        is_char_boundary(b.subrange(start, b.len() as int), end - start),
{
    let sub = b.subrange(start, b.len() as int);
    valid_utf8_split(b, start);
    if end == b.len() {
        is_char_boundary_start_end_of_seq(sub);
    } else {
        is_char_boundary_iff_not_is_continuation_byte(b, end);
        assert(sub[end - start] == b[end]);
        is_char_boundary_iff_not_is_continuation_byte(sub, end - start);
    }
}

/// Text between two cut points is the text up to a cut point between
/// them followed by the text after it.
pub proof fn lemma_text_concat(b: Seq<u8>, a: int, m: int, c: int)
    requires
        valid_utf8(b),
        cut_ok(b, a),
        cut_ok(b, m),
        cut_ok(b, c),
        a <= m <= c,
    ensures
        text_of(b, a, c) == text_of(b, a, m) + text_of(b, m, c),
{
    let t = b.subrange(a, b.len() as int);
    lemma_boundary_shift(b, a, c);
    valid_utf8_split(t, c - a);
    let u = t.subrange(0, c - a);
    assert(u =~= b.subrange(a, c));
    if m == c {
        is_char_boundary_start_end_of_seq(u);
    } else {
        is_char_boundary_iff_not_is_continuation_byte(b, m);
        assert(u[m - a] == b[m]);
        is_char_boundary_iff_not_is_continuation_byte(u, m - a);
    }
    decode_utf8_split(u, m - a);
    assert(u.subrange(0, m - a) =~= b.subrange(a, m));
    assert(u.subrange(m - a, u.len() as int) =~= b.subrange(m, c));
}

/// The text of all of a string's bytes is the string.
pub proof fn lemma_text_all(s: Seq<char>)
    ensures
        text_of(bytes_of(s), 0, bytes_of(s).len() as int) == s,
{
    assert(bytes_of(s).subrange(0, bytes_of(s).len() as int) =~= bytes_of(s));
}

/// `s[start..end]` for byte positions on character boundaries.
pub fn slice_str<'a>(s: &'a str, start: usize, end: usize) -> (r: &'a str)
    requires
        start <= end,
        cut_ok(s.spec_bytes(), start as int),
        cut_ok(s.spec_bytes(), end as int),
    ensures
        r.spec_bytes() == s.spec_bytes().subrange(start as int, end as int),
        r@ == text_of(s.spec_bytes(), start as int, end as int),
{
    let ghost b = s.spec_bytes();
    proof {
        lemma_valid_bytes(s@);
        lemma_boundary_shift(b, start as int, end as int);
    }
    let (_, tail) = s.split_at(start);
    let (mid, _) = tail.split_at(end - start);
    proof {
        assert(mid.spec_bytes() =~= b.subrange(start as int, end as int));
        lemma_valid_bytes(mid@);
    }
    mid
}

/// String equality by bytes: two strings are equal exactly when their
/// UTF-8 encodings are.
pub fn str_eq(a: &str, b: &str) -> (r: bool)
    ensures
        r == (a@ == b@),
{
    let x = a.as_bytes();
    let y = b.as_bytes();
    proof {
        lemma_valid_bytes(a@);
        lemma_valid_bytes(b@);
    }
    if x.len() != y.len() {
        proof {
            assert(a.spec_bytes() != b.spec_bytes());
        }
        return false;
    }
    let mut k: usize = 0;
    while k < x.len()
        invariant
            x@ == a.spec_bytes(),
            y@ == b.spec_bytes(),
            x@.len() == y@.len(),
            k <= x@.len(),
            forall|j: int| 0 <= j < k ==> x@[j] == y@[j],
        decreases x@.len() - k,
    {
        if x[k] != y[k] {
            proof {
                assert(a.spec_bytes() != b.spec_bytes());
            }
            return false;
        }
        k = k + 1;
    }
    proof {
        assert(x@ =~= y@);
        lemma_valid_bytes(a@);
        lemma_valid_bytes(b@);
    }
    true
}

/// `needle` occurs somewhere in `hay` (the empty string occurs everywhere).
pub open spec fn has_infix(hay: Seq<char>, needle: Seq<char>) -> bool {
    exists|i: int| 0 <= i <= hay.len() - needle.len() && #[trigger] hay.subrange(i, i + needle.len()) == needle
}

/// Does `hay[at..]` start with all of `needle`?
fn chars_match_at(hay: &Vec<char>, at: usize, needle: &Vec<char>) -> (r: bool)
    requires
        at + needle@.len() <= hay@.len(),
    ensures
        r == (hay@.subrange(at as int, at + needle@.len()) == needle@),
{
    let hl = hay.len();
    let mut k: usize = 0;
    while k < needle.len()
        invariant
            hl == hay@.len(),
            at + needle@.len() <= hay@.len(),
            k <= needle@.len(),
            forall|j: int| 0 <= j < k ==> hay@[at + j] == needle@[j],
        decreases needle@.len() - k,
    {
        if hay[at + k] != needle[k] {
            proof {
                assert(hay@.subrange(at as int, at + needle@.len())[k as int] != needle@[k as int]);
            }
            return false;
        }
        k = k + 1;
    }
    proof {
        assert(hay@.subrange(at as int, at + needle@.len()) =~= needle@);
    }
    true
}

/// `str::starts_with`.
pub fn str_starts_with(hay: &str, needle: &str) -> (r: bool)
    ensures
        r == needle@.is_prefix_of(hay@),
{
    let h = crate::escape::str_chars(hay);
    let n = crate::escape::str_chars(needle);
    if n.len() > h.len() {
        return false;
    }
    chars_match_at(&h, 0, &n)
}

/// `str::ends_with`.
pub fn str_ends_with(hay: &str, needle: &str) -> (r: bool)
    ensures
        r == needle@.is_suffix_of(hay@),
{
    let h = crate::escape::str_chars(hay);
    let n = crate::escape::str_chars(needle);
    if n.len() > h.len() {
        return false;
    }
    chars_match_at(&h, h.len() - n.len(), &n)
}

/// `str::contains` for a string needle.
pub fn str_contains(hay: &str, needle: &str) -> (r: bool)
    ensures
        r == has_infix(hay@, needle@),
{
    let h = crate::escape::str_chars(hay);
    let n = crate::escape::str_chars(needle);
    if n.len() > h.len() {
        return false;
    }
    let last = h.len() - n.len();
    let mut i: usize = 0;
    loop
        invariant
            h@ == hay@,
            n@ == needle@,
            last == h@.len() - n@.len(),
            i <= last,
            forall|j: int| 0 <= j < i ==> #[trigger] h@.subrange(j, j + n@.len()) != n@,
        decreases last - i,
    {
        if chars_match_at(&h, i, &n) {
            return true;
        }
        if i == last {
            return false;
        }
        i = i + 1;
    }
}

} // verus!
