//! XML escaping, entity decoding and XML-name predicates.
//!
//! Every helper here is specified over the character sequence of its input:
//! the escapers replace `&`, `<`, `>` (and `"` for attribute literals) with
//! entity references and drop the control characters XML forbids; the
//! decoder understands the five predefined entities plus numeric character
//! references and passes everything else through verbatim.

use std::borrow::Cow;
use vstd::prelude::*;
use vstd::std_specs::iter::IteratorSpec;

verus! {

broadcast use vstd::string::group_string_axioms;

/// Appending one character to a `String` extends its character sequence by
/// that character (documented behaviour of `String::push`).
pub assume_specification[ std::string::String::push ](s: &mut std::string::String, ch: char)
    ensures
        final(s)@ == old(s)@.push(ch),
;

/// `char::from_u32` yields the character with that scalar value exactly when
/// the value is a Unicode scalar (documented behaviour of `char::from_u32`).
pub assume_specification[ char::from_u32 ](i: u32) -> (r: Option<char>)
    ensures
        r == (if vstd::utf8::is_scalar(i) {
            Some(i as char)
        } else {
            None::<char>
        }),
;

// ─── XML-name predicates ─────────────────────────────────────────────────

/// ASCII letter or `_`: the bytes an XML name may start with.
pub open spec fn name_start_byte(b: u8) -> bool {
    (0x41 <= b && b <= 0x5A) || (0x61 <= b && b <= 0x7A) || b == 0x5F
}

/// ASCII letter, digit, `-`, `_` or `.`: the bytes an XML name may continue with.
pub open spec fn name_char_byte(b: u8) -> bool {
    name_start_byte(b) || (0x30 <= b && b <= 0x39) || b == 0x2D || b == 0x2E
}

/// Character-level counterpart of [`name_start_byte`].
pub open spec fn name_start_char(c: char) -> bool {
    ('A' <= c && c <= 'Z') || ('a' <= c && c <= 'z') || c == '_'
}

/// Character-level counterpart of [`name_char_byte`].
pub open spec fn name_char_char(c: char) -> bool {
    name_start_char(c) || ('0' <= c && c <= '9') || c == '-' || c == '.'
}

/// A syntactically valid XML name as the crate recognizes it: non-empty,
/// starting with a name-start character, continuing with name characters.
pub open spec fn valid_name(s: Seq<char>) -> bool {
    &&& s.len() > 0
    &&& name_start_char(s[0])
    &&& forall|i: int| 1 <= i < s.len() ==> #[trigger] name_char_char(s[i])
}

/// `true` when `b` could be the first byte of an XML name (letter or `_`).
pub fn is_name_start(b: u8) -> (r: bool)
    ensures
        r == name_start_byte(b),
{
    (b >= 0x41 && b <= 0x5A) || (b >= 0x61 && b <= 0x7A) || b == 0x5F
}

/// `true` when `b` can appear in an XML name body (alphanumeric, `-`, `_`, `.`).
pub fn is_name_char(b: u8) -> (r: bool)
    ensures
        r == name_char_byte(b),
{
    is_name_start(b) || (b >= 0x30 && b <= 0x39) || b == 0x2D || b == 0x2E
}

fn is_name_start_ch(c: char) -> (r: bool)
    ensures
        r == name_start_char(c),
{
    ('A' <= c && c <= 'Z') || ('a' <= c && c <= 'z') || c == '_'
}

fn is_name_char_ch(c: char) -> (r: bool)
    ensures
        r == name_char_char(c),
{
    is_name_start_ch(c) || ('0' <= c && c <= '9') || c == '-' || c == '.'
}

/// `true` when `name` is a syntactically valid XML name as recognized by the
/// rest of the crate (non-empty, starts with a name-start character, every
/// subsequent character is a name character). Only ASCII names qualify.
pub fn is_valid_name(name: &str) -> (r: bool)
    ensures
        r == valid_name(name@),
{
    let ghost all = name@;
    let mut it = name.chars();
    let ghost mut k: int = 0;
    let mut first = true;
    loop
        invariant
            all == name@,
            it.remaining() == all.skip(k),
            0 <= k <= all.len(),
            0 <= k,
            first == (k == 0),
            k > 0 ==> name_start_char(all[0]),
            forall|i: int| 1 <= i < k ==> #[trigger] name_char_char(all[i]),
        ensures
            k == all.len(),
            first == (k == 0),
            k > 0 ==> name_start_char(all[0]),
            forall|i: int| 1 <= i < k ==> #[trigger] name_char_char(all[i]),
        decreases all.len() - k,
    {
        match it.next() {
            Some(c) => {
                proof {
                    assert(all.skip(k).len() > 0);
                    assert(all.skip(k)[0] == all[k]);
                }
                if first {
                    if !is_name_start_ch(c) {
                        assert(c == all[0]);
                        return false;
                    }
                } else {
                    if !is_name_char_ch(c) {
                        assert(c == all[k] && !name_char_char(all[k]));
                        return false;
                    }
                }
                proof {
                    assert(all.skip(k).drop_first() =~= all.skip(k + 1));
                    k = k + 1;
                }
                first = false;
            },
            None => {
                break ;
            },
        }
    }
    !first
}

// ─── XML whitespace ──────────────────────────────────────────────────────

/// One of the four XML whitespace characters.
pub open spec fn xml_space(c: char) -> bool {
    c == ' ' || c == '\t' || c == '\r' || c == '\n'
}

/// `true` when every character of `s` is XML whitespace (`' '`, `'\t'`,
/// `'\r'`, `'\n'`). Unlike `str::trim`, non-ASCII spaces do not count.
pub fn is_xml_whitespace_only(s: &str) -> (r: bool)
    ensures
        r == (forall|i: int| 0 <= i < s@.len() ==> #[trigger] xml_space(s@[i])),
{
    let ghost all = s@;
    let mut it = s.chars();
    let ghost mut k: int = 0;
    loop
        invariant
            all == s@,
            it.remaining() == all.skip(k),
            0 <= k <= all.len(),
            forall|i: int| 0 <= i < k ==> #[trigger] xml_space(all[i]),
        ensures
            k == all.len(),
            forall|i: int| 0 <= i < k ==> #[trigger] xml_space(all[i]),
        decreases all.len() - k,
    {
        match it.next() {
            Some(c) => {
                proof {
                    assert(all.skip(k).len() > 0);
                    assert(all.skip(k)[0] == all[k]);
                }
                if !(c == ' ' || c == '\t' || c == '\r' || c == '\n') {
                    assert(c == all[k] && !xml_space(all[k]));
                    return false;
                }
                proof {
                    assert(all.skip(k).drop_first() =~= all.skip(k + 1));
                    k = k + 1;
                }
            },
            None => {
                break ;
            },
        }
    }
    true
}

// ─── Escaping ────────────────────────────────────────────────────────────

/// Control characters XML 1.0 forbids in content: C0 other than TAB, LF and
/// CR, plus DEL and the C1 range.
pub open spec fn illegal_control(c: char) -> bool {
    let u = c as u32;
    (u < 0x20 && u != 0x09 && u != 0x0A && u != 0x0D) || u == 0x7F || (0x80 <= u && u <= 0x9F)
}

/// What one character becomes in escaped text content.
pub open spec fn escape_text_char(c: char) -> Seq<char> {
    if c == '&' {
        seq!['&', 'a', 'm', 'p', ';']
    } else if c == '<' {
        seq!['&', 'l', 't', ';']
    } else if c == '>' {
        seq!['&', 'g', 't', ';']
    } else if illegal_control(c) {
        Seq::empty()
    } else {
        seq![c]
    }
}

/// What one character becomes inside a double-quoted attribute literal.
pub open spec fn escape_attr_char(c: char) -> Seq<char> {
    if c == '"' {
        seq!['&', 'q', 'u', 'o', 't', ';']
    } else {
        escape_text_char(c)
    }
}

/// XML text escaping of a whole character sequence.
pub open spec fn spec_escape_text(s: Seq<char>) -> Seq<char> {
    s.flat_map(|c: char| escape_text_char(c))
}

/// XML attribute-literal escaping of a whole character sequence.
pub open spec fn spec_escape_attr(s: Seq<char>) -> Seq<char> {
    s.flat_map(|c: char| escape_attr_char(c))
}

proof fn lemma_escape_text_step(s: Seq<char>, k: int)
    requires
        0 <= k < s.len(),
    ensures
        spec_escape_text(s.take(k + 1)) == spec_escape_text(s.take(k)) + escape_text_char(s[k]),
{
    s.lemma_flat_map_take_append(|c: char| escape_text_char(c), k);
}

proof fn lemma_escape_attr_step(s: Seq<char>, k: int)
    requires
        0 <= k < s.len(),
    ensures
        spec_escape_attr(s.take(k + 1)) == spec_escape_attr(s.take(k)) + escape_attr_char(s[k]),
{
    s.lemma_flat_map_take_append(|c: char| escape_attr_char(c), k);
}

proof fn lemma_escape_text_identity(s: Seq<char>)
    requires
        forall|i: int| 0 <= i < s.len() ==> escape_text_char(#[trigger] s[i]) == seq![s[i]],
    ensures
        spec_escape_text(s) == s,
    decreases s.len(),
{
    if s.len() > 0 {
        let k = s.len() - 1;
        lemma_escape_text_identity(s.take(k));
        lemma_escape_text_step(s, k);
        assert(s.take(k).take(k) =~= s.take(k));
        assert(s.take(k + 1) =~= s);
        assert(s.take(k) + seq![s[k]] =~= s);
    }
}

proof fn lemma_escape_attr_identity(s: Seq<char>)
    requires
        forall|i: int| 0 <= i < s.len() ==> escape_attr_char(#[trigger] s[i]) == seq![s[i]],
    ensures
        spec_escape_attr(s) == s,
    decreases s.len(),
{
    if s.len() > 0 {
        let k = s.len() - 1;
        lemma_escape_attr_identity(s.take(k));
        lemma_escape_attr_step(s, k);
        assert(s.take(k).take(k) =~= s.take(k));
        assert(s.take(k + 1) =~= s);
        assert(s.take(k) + seq![s[k]] =~= s);
    }
}

/// No markup delimiter in `s`: no `<`, no `>`, and (for attribute
/// literals) no `"`.
pub open spec fn markup_free(s: Seq<char>, quote_too: bool) -> bool {
    forall|i: int| 0 <= i < s.len() ==> #[trigger] s[i] != '<' && s[i] != '>' && (quote_too ==> s[i] != '"')
}

/// Escaped text never holds a raw `<` or `>`, and an escaped attribute
/// value never holds a raw `<`, `>` or `"`: escaped input cannot open or
/// close markup, nor end the attribute literal it is written into.
pub proof fn law_escaped_is_markup_free(s: Seq<char>)
    ensures
        markup_free(spec_escape_text(s), false),
        markup_free(spec_escape_attr(s), true),
    decreases s.len(),
{
    if s.len() > 0 {
        let k = s.len() - 1;
        law_escaped_is_markup_free(s.take(k));
        lemma_escape_text_step(s, k);
        lemma_escape_attr_step(s, k);
        assert(s.take(k).take(k) =~= s.take(k));
        assert(s.take(k + 1) =~= s);
        let t = spec_escape_text(s);
        let a = spec_escape_attr(s);
        let tp = spec_escape_text(s.take(k));
        let ap = spec_escape_attr(s.take(k));
        assert forall|i: int| 0 <= i < t.len() implies #[trigger] t[i] != '<' && t[i] != '>' by {
            if i >= tp.len() {
                assert(t[i] == escape_text_char(s[k])[i - tp.len()]);
            } else {
                assert(t[i] == tp[i]);
            }
        }
        assert forall|i: int| 0 <= i < a.len() implies #[trigger] a[i] != '<' && a[i] != '>' && a[i] != '"' by {
            if i >= ap.len() {
                assert(a[i] == escape_attr_char(s[k])[i - ap.len()]);
            } else {
                assert(a[i] == ap[i]);
            }
        }
    }
}

proof fn lemma_escape_text_prefix(s: Seq<char>, j: int)
    requires
        0 <= j <= s.len(),
    ensures
        spec_escape_text(s.take(j)).len() <= spec_escape_text(s).len(),
        forall|i: int|
            0 <= i < spec_escape_text(s.take(j)).len() ==> #[trigger] spec_escape_text(s.take(j))[i]
                == spec_escape_text(s)[i],
    decreases s.len() - j,
{
    if j == s.len() {
        assert(s.take(j) =~= s);
    } else {
        lemma_escape_text_step(s, j);
        lemma_escape_text_prefix(s, j + 1);
        let a = spec_escape_text(s.take(j));
        let b = spec_escape_text(s.take(j + 1));
        assert forall|i: int| 0 <= i < a.len() implies #[trigger] a[i] == spec_escape_text(s)[i] by {
            assert(b[i] == a[i]);
        }
    }
}

proof fn lemma_escape_attr_prefix(s: Seq<char>, j: int)
    requires
        0 <= j <= s.len(),
    ensures
        spec_escape_attr(s.take(j)).len() <= spec_escape_attr(s).len(),
        forall|i: int|
            0 <= i < spec_escape_attr(s.take(j)).len() ==> #[trigger] spec_escape_attr(s.take(j))[i]
                == spec_escape_attr(s)[i],
    decreases s.len() - j,
{
    if j == s.len() {
        assert(s.take(j) =~= s);
    } else {
        lemma_escape_attr_step(s, j);
        lemma_escape_attr_prefix(s, j + 1);
        let a = spec_escape_attr(s.take(j));
        let b = spec_escape_attr(s.take(j + 1));
        assert forall|i: int| 0 <= i < a.len() implies #[trigger] a[i] == spec_escape_attr(s)[i] by {
            assert(b[i] == a[i]);
        }
    }
}

proof fn lemma_semicolon_at(t: Seq<char>, from: int, semi: int, limit: int)
    requires
        0 <= from <= semi,
        semi < limit,
        semi < t.len(),
        t[semi] == ';',
        forall|i: int| from <= i < semi ==> t[i] != ';',
    ensures
        first_semicolon(t, from, limit) == Some(semi),
    decreases semi - from,
{
    if from < semi {
        lemma_semicolon_at(t, from + 1, semi, limit);
    }
}

/// Decoding at an escaped character reference written at `p` (`&` then
/// `body` then `;`, all inside `t`) gives the character `c` followed by
/// the decoding after the `;`.
proof fn lemma_decode_reference(t: Seq<char>, p: int, body: Seq<char>, c: char)
    requires
        0 <= p,
        p + body.len() + 2 <= t.len(),
        1 <= body.len() <= 4,
        t[p] == '&',
        forall|i: int| 0 <= i < body.len() ==> t[p + 1 + i] == #[trigger] body[i] && body[i] != ';',
        t[p + 1 + body.len()] == ';',
        decode_one(body) == Some(c),
    ensures
        decode_entities_from(t, p) == seq![c] + decode_entities_from(t, p + body.len() + 2),
{
    let limit = if p + 16 < t.len() {
        p + 16
    } else {
        t.len() as int
    };
    let semi = p + 1 + body.len();
    assert forall|i: int| p + 1 <= i < semi implies t[i] != ';' by {
        assert(t[p + 1 + (i - p - 1)] == body[i - p - 1]);
    }
    lemma_semicolon_at(t, p + 1, semi, limit);
    assert(t.subrange(p + 1, semi) =~= body);
    assert(entity_at(t, p) == Some((c, semi + 1)));
}

proof fn lemma_decode_escaped_text_from(s: Seq<char>, k: int)
    requires
        0 <= k <= s.len(),
        forall|i: int| 0 <= i < s.len() ==> !illegal_control(#[trigger] s[i]),
    ensures
        decode_entities_from(spec_escape_text(s), spec_escape_text(s.take(k)).len() as int) == s.skip(k),
    decreases s.len() - k,
{
    let t = spec_escape_text(s);
    let p = spec_escape_text(s.take(k)).len() as int;
    if k == s.len() {
        assert(s.take(k) =~= s);
        assert(s.skip(k) =~= Seq::<char>::empty());
    } else {
        lemma_decode_escaped_text_from(s, k + 1);
        lemma_escape_text_step(s, k);
        lemma_escape_text_prefix(s, k + 1);
        let e = escape_text_char(s[k]);
        let b = spec_escape_text(s.take(k + 1));
        assert forall|i: int| 0 <= i < e.len() implies t[p + i] == #[trigger] e[i] by {
            assert(b[p + i] == e[i]);
        }
        let c = s[k];
        if c == '&' {
            lemma_decode_reference(t, p, seq!['a', 'm', 'p'], '&');
        } else if c == '<' {
            lemma_decode_reference(t, p, seq!['l', 't'], '<');
        } else if c == '>' {
            lemma_decode_reference(t, p, seq!['g', 't'], '>');
        } else {
            assert(!illegal_control(s[k]));
            assert(e =~= seq![c]);
            assert(e[0] == c);
            assert(t[p] == c);
        }
        assert(s.skip(k) =~= seq![c] + s.skip(k + 1));
    }
}

proof fn lemma_decode_escaped_attr_from(s: Seq<char>, k: int)
    requires
        0 <= k <= s.len(),
        forall|i: int| 0 <= i < s.len() ==> !illegal_control(#[trigger] s[i]),
    ensures
        decode_entities_from(spec_escape_attr(s), spec_escape_attr(s.take(k)).len() as int) == s.skip(k),
    decreases s.len() - k,
{
    let t = spec_escape_attr(s);
    let p = spec_escape_attr(s.take(k)).len() as int;
    if k == s.len() {
        assert(s.take(k) =~= s);
        assert(s.skip(k) =~= Seq::<char>::empty());
    } else {
        lemma_decode_escaped_attr_from(s, k + 1);
        lemma_escape_attr_step(s, k);
        lemma_escape_attr_prefix(s, k + 1);
        let e = escape_attr_char(s[k]);
        let b = spec_escape_attr(s.take(k + 1));
        assert forall|i: int| 0 <= i < e.len() implies t[p + i] == #[trigger] e[i] by {
            assert(b[p + i] == e[i]);
        }
        let c = s[k];
        if c == '"' {
            lemma_decode_reference(t, p, seq!['q', 'u', 'o', 't'], '"');
        } else if c == '&' {
            lemma_decode_reference(t, p, seq!['a', 'm', 'p'], '&');
        } else if c == '<' {
            lemma_decode_reference(t, p, seq!['l', 't'], '<');
        } else if c == '>' {
            lemma_decode_reference(t, p, seq!['g', 't'], '>');
        } else {
            assert(!illegal_control(s[k]));
            assert(e =~= seq![c]);
            assert(e[0] == c);
            assert(t[p] == c);
        }
        assert(s.skip(k) =~= seq![c] + s.skip(k + 1));
    }
}

/// Decoding entity references undoes escaping: text (or an attribute
/// value) escaped and then decoded comes back unchanged, as long as it
/// holds none of the control characters XML forbids (escaping drops
/// those).
pub proof fn law_decode_inverts_escape(s: Seq<char>)
    requires
        forall|i: int| 0 <= i < s.len() ==> !illegal_control(#[trigger] s[i]),
    ensures
        spec_decode_entities(spec_escape_text(s)) == s,
        spec_decode_entities(spec_escape_attr(s)) == s,
{
    lemma_decode_escaped_text_from(s, 0);
    lemma_decode_escaped_attr_from(s, 0);
    assert(s.take(0) =~= Seq::<char>::empty());
    assert(spec_escape_text(Seq::<char>::empty()) =~= Seq::<char>::empty());
    assert(spec_escape_attr(Seq::<char>::empty()) =~= Seq::<char>::empty());
    assert(s.skip(0) =~= s);
}

fn is_illegal_control(ch: char) -> (r: bool)
    ensures
        r == illegal_control(ch),
{
    let c = ch as u32;
    (c < 0x20 && c != 0x09 && c != 0x0A && c != 0x0D) || c == 0x7F || (0x80 <= c && c <= 0x9F)
}

/// Append `value` into `out` with XML text escaping (`&`, `<`, `>`),
/// dropping XML-illegal control characters.
pub fn push_escaped_text(out: &mut String, value: &str)
    ensures
        final(out)@ == old(out)@ + spec_escape_text(value@),
{
    push_escaped(out, value, false);
}

/// Append `value` into `out`, escaping the characters that have meaning
/// inside a double-quoted attribute literal (`&`, `<`, `>`, `"`) and
/// dropping XML-illegal control characters.
pub fn push_escaped_attr(out: &mut String, value: &str)
    ensures
        final(out)@ == old(out)@ + spec_escape_attr(value@),
{
    push_escaped(out, value, true);
}

fn push_escaped_char(out: &mut String, ch: char, quote: bool)
    ensures
        quote ==> final(out)@ == old(out)@ + escape_attr_char(ch),
        !quote ==> final(out)@ == old(out)@ + escape_text_char(ch),
{
    let ghost before = out@;
    if ch == '&' {
        out.push('&');
        out.push('a');
        out.push('m');
        out.push('p');
        out.push(';');
        assert(out@ =~= before + seq!['&', 'a', 'm', 'p', ';']);
    } else if ch == '<' {
        out.push('&');
        out.push('l');
        out.push('t');
        out.push(';');
        assert(out@ =~= before + seq!['&', 'l', 't', ';']);
    } else if ch == '>' {
        out.push('&');
        out.push('g');
        out.push('t');
        out.push(';');
        assert(out@ =~= before + seq!['&', 'g', 't', ';']);
    } else if quote && ch == '"' {
        out.push('&');
        out.push('q');
        out.push('u');
        out.push('o');
        out.push('t');
        out.push(';');
        assert(out@ =~= before + seq!['&', 'q', 'u', 'o', 't', ';']);
    } else if is_illegal_control(ch) {
        assert(out@ =~= before + Seq::<char>::empty());
    } else {
        out.push(ch);
        assert(out@ =~= before + seq![ch]);
    }
}

fn push_escaped(out: &mut String, value: &str, quote: bool)
    ensures
        quote ==> final(out)@ == old(out)@ + spec_escape_attr(value@),
        !quote ==> final(out)@ == old(out)@ + spec_escape_text(value@),
{
    let ghost all = value@;
    let ghost start = out@;
    let mut it = value.chars();
    let ghost mut k: int = 0;
    proof {
        assert(all.take(0) =~= Seq::<char>::empty());
        assert(spec_escape_text(Seq::<char>::empty()) =~= Seq::<char>::empty());
        assert(spec_escape_attr(Seq::<char>::empty()) =~= Seq::<char>::empty());
    }
    loop
        invariant
            it.remaining() == all.skip(k),
            0 <= k <= all.len(),
            quote ==> out@ == start + spec_escape_attr(all.take(k)),
            !quote ==> out@ == start + spec_escape_text(all.take(k)),
        ensures
            k == all.len(),
            quote ==> out@ == start + spec_escape_attr(all.take(k)),
            !quote ==> out@ == start + spec_escape_text(all.take(k)),
        decreases all.len() - k,
    {
        match it.next() {
            Some(ch) => {
                proof {
                    assert(all.skip(k).len() > 0);
                    assert(all.skip(k)[0] == all[k]);
                    lemma_escape_text_step(all, k);
                    lemma_escape_attr_step(all, k);
                }
                push_escaped_char(out, ch, quote);
                proof {
                    assert(all.skip(k).drop_first() =~= all.skip(k + 1));
                    k = k + 1;
                }
            },
            None => {
                break ;
            },
        }
    }
    proof {
        assert(all.take(k) =~= all);
    }
}

/// A character that escaping rewrites: `&`, `<`, `>`, a forbidden control
/// character, and (in attribute literals) `"`.
pub open spec fn needs_escape(c: char, quote: bool) -> bool {
    c == '&' || c == '<' || c == '>' || (quote && c == '"') || illegal_control(c)
}

/// Does escaping change anything about `value`? Scans the characters once.
fn needs_rewrite(value: &str, quote: bool) -> (r: bool)
    ensures
        r == exists|i: int| 0 <= i < value@.len() && needs_escape(#[trigger] value@[i], quote),
        !r && quote ==> spec_escape_attr(value@) == value@,
        !r && !quote ==> spec_escape_text(value@) == value@,
{
    let ghost all = value@;
    let mut it = value.chars();
    let ghost mut k: int = 0;
    loop
        invariant
            it.remaining() == all.skip(k),
            0 <= k <= all.len(),
            forall|i: int| 0 <= i < k ==> escape_text_char(#[trigger] all[i]) == seq![all[i]],
            quote ==> forall|i: int| 0 <= i < k ==> escape_attr_char(#[trigger] all[i]) == seq![all[i]],
            forall|i: int| 0 <= i < k ==> !needs_escape(#[trigger] all[i], quote),
            all == value@,
        ensures
            k == all.len(),
            forall|i: int| 0 <= i < k ==> !needs_escape(#[trigger] all[i], quote),
        decreases all.len() - k,
    {
        match it.next() {
            Some(ch) => {
                proof {
                    assert(all.skip(k).len() > 0);
                    assert(all.skip(k)[0] == all[k]);
                }
                if ch == '&' || ch == '<' || ch == '>' || (quote && ch == '"') || is_illegal_control(ch) {
                    proof {
                        assert(needs_escape(all[k], quote));
                    }
                    return true;
                }
                proof {
                    assert(all.skip(k).drop_first() =~= all.skip(k + 1));
                    k = k + 1;
                }
            },
            None => {
                break ;
            },
        }
    }
    proof {
        if quote {
            lemma_escape_attr_identity(all);
        }
        lemma_escape_text_identity(all);
    }
    false
}

proof fn lemma_escape_no_control(s: Seq<char>)
    ensures
        forall|i: int| 0 <= i < spec_escape_text(s).len() ==> !illegal_control(#[trigger] spec_escape_text(s)[i]),
        forall|i: int| 0 <= i < spec_escape_attr(s).len() ==> !illegal_control(#[trigger] spec_escape_attr(s)[i]),
    decreases s.len(),
{
    if s.len() > 0 {
        let k = s.len() - 1;
        lemma_escape_no_control(s.take(k));
        lemma_escape_text_step(s, k);
        lemma_escape_attr_step(s, k);
        assert(s.take(k).take(k) =~= s.take(k));
        assert(s.take(k + 1) =~= s);
        let t = spec_escape_text(s);
        let a = spec_escape_attr(s);
        let tp = spec_escape_text(s.take(k));
        let ap = spec_escape_attr(s.take(k));
        assert forall|i: int| 0 <= i < t.len() implies !illegal_control(#[trigger] t[i]) by {
            if i >= tp.len() {
                assert(t[i] == escape_text_char(s[k])[i - tp.len()]);
            } else {
                assert(t[i] == tp[i]);
            }
        }
        assert forall|i: int| 0 <= i < a.len() implies !illegal_control(#[trigger] a[i]) by {
            if i >= ap.len() {
                assert(a[i] == escape_attr_char(s[k])[i - ap.len()]);
            } else {
                assert(a[i] == ap[i]);
            }
        }
    }
}

/// Attribute escaping leaves no `"` and no `<` in its output.
pub(crate) proof fn lemma_escape_attr_plain(s: Seq<char>)
    ensures
        forall|i: int| 0 <= i < spec_escape_attr(s).len() ==> #[trigger] spec_escape_attr(s)[i] != '"'
            && spec_escape_attr(s)[i] != '<',
    decreases s.len(),
{
    if s.len() > 0 {
        let k = s.len() - 1;
        lemma_escape_attr_plain(s.take(k));
        lemma_escape_attr_step(s, k);
        assert(s.take(k + 1) =~= s);
        let a = spec_escape_attr(s);
        let ap = spec_escape_attr(s.take(k));
        assert forall|i: int| 0 <= i < a.len() implies #[trigger] a[i] != '"' && a[i] != '<' by {
            if i >= ap.len() {
                assert(a[i] == escape_attr_char(s[k])[i - ap.len()]);
            } else {
                assert(a[i] == ap[i]);
            }
        }
    } else {
        assert(spec_escape_attr(s) =~= Seq::<char>::empty());
    }
}

/// Escaping never shortens text free of forbidden control characters, and
/// keeps its length only when no character needs escaping.
proof fn lemma_escape_len(s: Seq<char>)
    requires
        forall|i: int| 0 <= i < s.len() ==> !illegal_control(#[trigger] s[i]),
    ensures
        spec_escape_text(s).len() >= s.len(),
        spec_escape_text(s).len() == s.len() ==> forall|i: int| 0 <= i < s.len() ==> !needs_escape(#[trigger] s[i], false),
        spec_escape_attr(s).len() >= s.len(),
        spec_escape_attr(s).len() == s.len() ==> forall|i: int| 0 <= i < s.len() ==> !needs_escape(#[trigger] s[i], true),
    decreases s.len(),
{
    if s.len() > 0 {
        let k = s.len() - 1;
        let p = s.take(k);
        assert forall|i: int| 0 <= i < p.len() implies !illegal_control(#[trigger] p[i]) by {
            assert(p[i] == s[i]);
        }
        lemma_escape_len(p);
        lemma_escape_text_step(s, k);
        lemma_escape_attr_step(s, k);
        assert(p.take(k) =~= p);
        assert(s.take(k + 1) =~= s);
        assert(!illegal_control(s[k]));
        assert forall|i: int| 0 <= i < s.len() && spec_escape_text(s).len() == s.len() implies !needs_escape(#[trigger] s[i], false) by {
            if i < k {
                assert(p[i] == s[i]);
            }
        }
        assert forall|i: int| 0 <= i < s.len() && spec_escape_attr(s).len() == s.len() implies !needs_escape(#[trigger] s[i], true) by {
            if i < k {
                assert(p[i] == s[i]);
            }
        }
    }
}

/// Escaping leaves `s` unchanged exactly when no character of it needs
/// escaping.
proof fn lemma_escape_unchanged(s: Seq<char>)
    ensures
        (spec_escape_text(s) == s) <==> !exists|i: int| 0 <= i < s.len() && needs_escape(#[trigger] s[i], false),
        (spec_escape_attr(s) == s) <==> !exists|i: int| 0 <= i < s.len() && needs_escape(#[trigger] s[i], true),
{
    lemma_escape_no_control(s);
    if !exists|i: int| 0 <= i < s.len() && needs_escape(#[trigger] s[i], false) {
        assert forall|i: int| 0 <= i < s.len() implies escape_text_char(#[trigger] s[i]) == seq![s[i]] by {
            assert(!needs_escape(s[i], false));
        }
        lemma_escape_text_identity(s);
    }
    if !exists|i: int| 0 <= i < s.len() && needs_escape(#[trigger] s[i], true) {
        assert forall|i: int| 0 <= i < s.len() implies escape_attr_char(#[trigger] s[i]) == seq![s[i]] by {
            assert(!needs_escape(s[i], true));
        }
        lemma_escape_attr_identity(s);
    }
    if spec_escape_text(s) == s {
        assert forall|i: int| 0 <= i < s.len() implies !illegal_control(#[trigger] s[i]) by {
            assert(spec_escape_text(s)[i] == s[i]);
        }
        lemma_escape_len(s);
    }
    if spec_escape_attr(s) == s {
        assert forall|i: int| 0 <= i < s.len() implies !illegal_control(#[trigger] s[i]) by {
            assert(spec_escape_attr(s)[i] == s[i]);
        }
        lemma_escape_len(s);
    }
}

/// Escape `value` for use as XML text content.
///
/// Replaces `&`, `<`, `>` with their entity references. Quotes are left
/// alone. Control characters that XML 1.0 forbids in content are dropped.
/// Borrows when nothing needs rewriting.
pub fn escape_text(value: &str) -> (r: Cow<'_, str>)
    ensures
        r@ == spec_escape_text(value@),
        (r is Borrowed) <==> spec_escape_text(value@) == value@,
        r matches Cow::Borrowed(v) ==> v == value,
{
    proof {
        lemma_escape_unchanged(value@);
    }
    if !needs_rewrite(value, false) {
        return Cow::Borrowed(value);
    }
    let mut out = String::new();
    push_escaped_text(&mut out, value);
    Cow::Owned(out)
}

/// Escape `value` for use inside a double-quoted XML attribute literal.
///
/// Replaces `&`, `<`, `>`, and `"` with their entity references; drops
/// XML-illegal control characters. Borrows when nothing needs rewriting.
pub fn escape_attr(value: &str) -> (r: Cow<'_, str>)
    ensures
        r@ == spec_escape_attr(value@),
        (r is Borrowed) <==> spec_escape_attr(value@) == value@,
        r matches Cow::Borrowed(v) ==> v == value,
{
    proof {
        lemma_escape_unchanged(value@);
    }
    if !needs_rewrite(value, true) {
        return Cow::Borrowed(value);
    }
    let mut out = String::new();
    push_escaped_attr(&mut out, value);
    Cow::Owned(out)
}


// ─── Entity reference decoding ───────────────────────────────────────────

/// The characters of `s`, collected for random access.
pub fn str_chars(s: &str) -> (r: Vec<char>)
    ensures
        r@ == s@,
{
    let ghost all = s@;
    let mut out: Vec<char> = Vec::new();
    let mut it = s.chars();
    loop
        invariant
            it.remaining() == all.skip(out@.len() as int),
            out@ == all.take(out@.len() as int),
            out@.len() <= all.len(),
        ensures
            out@ == all,
        decreases all.len() - out@.len(),
    {
        match it.next() {
            Some(c) => {
                proof {
                    assert(all.skip(out@.len() as int).len() > 0);
                    assert(all.skip(out@.len() as int)[0] == all[out@.len() as int]);
                    assert(all.skip(out@.len() as int).drop_first() =~= all.skip(out@.len() as int + 1));
                }
                out.push(c);
                proof {
                    assert(out@ =~= all.take(out@.len() as int));
                }
            },
            None => {
                proof {
                    assert(out@ =~= all);
                }
                break ;
            },
        }
    }
    out
}

/// Value of `c` as a digit in base `radix` (10 or 16), if it is one.
pub open spec fn digit_value(c: char, radix: nat) -> Option<nat> {
    let v: int = if '0' <= c && c <= '9' {
        (c as u32) - ('0' as u32)
    } else if 'a' <= c && c <= 'f' {
        (c as u32) - ('a' as u32) + 10
    } else if 'A' <= c && c <= 'F' {
        (c as u32) - ('A' as u32) + 10
    } else {
        radix as int
    };
    if v < radix {
        Some(v as nat)
    } else {
        None
    }
}

/// Value of a run of digits in base `radix`; `None` if any character is not a digit.
pub open spec fn digits_value(s: Seq<char>, radix: nat) -> Option<nat>
    decreases s.len(),
{
    if s.len() == 0 {
        Some(0)
    } else {
        match (digits_value(s.drop_last(), radix), digit_value(s.last(), radix)) {
            (Some(v), Some(d)) => Some(v * radix + d),
            _ => None,
        }
    }
}

/// Unsigned 32-bit integer syntax as accepted by `u32::from_str_radix`: an
/// optional `+`, then one or more digits, with a value that fits in `u32`.
pub open spec fn parse_u32(s: Seq<char>, radix: nat) -> Option<u32> {
    let d = if s.len() > 0 && s[0] == '+' {
        s.drop_first()
    } else {
        s
    };
    if d.len() == 0 {
        None
    } else {
        match digits_value(d, radix) {
            Some(v) => if v <= u32::MAX {
                Some(v as u32)
            } else {
                None
            },
            None => None,
        }
    }
}

/// Scalar values XML 1.0 admits as characters (minus the restricted DEL and
/// C1 ranges of XML 1.1).
pub open spec fn xml_char_code(c: u32) -> bool {
    c == 0x09 || c == 0x0A || c == 0x0D || (0x20 <= c && c <= 0x7E) || (0xA0 <= c && c <= 0xD7FF)
        || (0xE000 <= c && c <= 0xFFFD) || (0x10000 <= c && c <= 0x10FFFF)
}

/// The character an entity body (the text between `&` and `;`) stands for:
/// one of the five predefined entities, or a decimal (`#NNN`) or
/// hexadecimal (`#xHH`) character reference to an XML character.
pub open spec fn decode_one(body: Seq<char>) -> Option<char> {
    if body == seq!['a', 'm', 'p'] {
        Some('&')
    } else if body == seq!['l', 't'] {
        Some('<')
    } else if body == seq!['g', 't'] {
        Some('>')
    } else if body == seq!['a', 'p', 'o', 's'] {
        Some('\'')
    } else if body == seq!['q', 'u', 'o', 't'] {
        Some('"')
    } else if body.len() > 0 && body[0] == '#' {
        let digits = body.drop_first();
        let code = if digits.len() > 0 && (digits[0] == 'x' || digits[0] == 'X') {
            parse_u32(digits.drop_first(), 16)
        } else {
            parse_u32(digits, 10)
        };
        match code {
            Some(c) => if xml_char_code(c) {
                Some(c as char)
            } else {
                None
            },
            None => None,
        }
    } else {
        None
    }
}

/// Index of the first `;` in `s[from..limit]`.
pub open spec fn first_semicolon(s: Seq<char>, from: int, limit: int) -> Option<int>
    decreases limit - from,
{
    if from >= limit || from < 0 || from >= s.len() {
        None
    } else if s[from] == ';' {
        Some(from)
    } else {
        first_semicolon(s, from + 1, limit)
    }
}

/// The entity reference starting at the `&` at `i`: the decoded character
/// and the index just past its `;`. The `;` is searched in the 15
/// characters after the `&` (every recognized entity is ASCII, so this is the
/// same window as 15 bytes).
pub open spec fn entity_at(s: Seq<char>, i: int) -> Option<(char, int)> {
    let limit = if i + 16 < s.len() {
        i + 16
    } else {
        s.len() as int
    };
    match first_semicolon(s, i + 1, limit) {
        Some(j) => match decode_one(s.subrange(i + 1, j)) {
            Some(ch) => Some((ch, j + 1)),
            None => None,
        },
        None => None,
    }
}

/// Entity-decoded form of `s[i..]`: recognized references become their
/// character, everything else (including unknown or malformed references)
/// is copied verbatim.
pub open spec fn decode_entities_from(s: Seq<char>, i: int) -> Seq<char>
    decreases s.len() - i,
{
    if i < 0 || i >= s.len() {
        Seq::empty()
    } else if s[i] == '&' {
        match entity_at(s, i) {
            Some((ch, next)) => if i < next <= s.len() {
                seq![ch] + decode_entities_from(s, next)
            } else {
                Seq::empty()
            },
            None => seq!['&'] + decode_entities_from(s, i + 1),
        }
    } else {
        seq![s[i]] + decode_entities_from(s, i + 1)
    }
}

/// Entity-decoded form of `s`.
pub open spec fn spec_decode_entities(s: Seq<char>) -> Seq<char> {
    decode_entities_from(s, 0)
}

proof fn lemma_first_semicolon_bounds(s: Seq<char>, from: int, limit: int)
    requires
        0 <= from,
    ensures
        first_semicolon(s, from, limit) matches Some(j) ==> from <= j < limit && 0 <= j < s.len()
            && s[j] == ';',
        first_semicolon(s, from, limit) is None ==> forall|k: int|
            from <= k < limit && 0 <= k < s.len() ==> s[k] != ';',
    decreases limit - from,
{
    if from >= limit || from < 0 || from >= s.len() {
    } else if s[from] == ';' {
    } else {
        lemma_first_semicolon_bounds(s, from + 1, limit);
    }
}

fn find_semicolon(s: &Vec<char>, from: usize, limit: usize) -> (r: Option<usize>)
    requires
        from <= limit <= s@.len(),
    ensures
        r == (match first_semicolon(s@, from as int, limit as int) {
            Some(j) => Some(j as usize),
            None => None::<usize>,
        }),
        r matches Some(j) ==> j < limit,
    decreases limit - from,
{
    if from >= limit {
        None
    } else if s[from] == ';' {
        Some(from)
    } else {
        find_semicolon(s, from + 1, limit)
    }
}

fn digit_of(c: char, radix: u32) -> (r: Option<u32>)
    requires
        radix == 10 || radix == 16,
    ensures
        r == (match digit_value(c, radix as nat) {
            Some(v) => Some(v as u32),
            None => None::<u32>,
        }),
        r matches Some(v) ==> v < radix,
{
    let v: u32 = if '0' <= c && c <= '9' {
        (c as u32) - ('0' as u32)
    } else if 'a' <= c && c <= 'f' {
        (c as u32) - ('a' as u32) + 10
    } else if 'A' <= c && c <= 'F' {
        (c as u32) - ('A' as u32) + 10
    } else {
        radix
    };
    if v < radix {
        Some(v)
    } else {
        None
    }
}

proof fn lemma_digits_value_grows(s: Seq<char>, radix: nat, k: int)
    requires
        radix >= 1,
        0 <= k <= s.len(),
        digits_value(s.take(k), radix) is Some,
        digits_value(s, radix) is Some,
    ensures
        digits_value(s, radix)->0 >= digits_value(s.take(k), radix)->0,
    decreases s.len() - k,
{
    if k == s.len() {
        assert(s.take(k) =~= s);
    } else {
        let t = s.take(k + 1);
        assert(t.drop_last() =~= s.take(k));
        let p = digits_value(s.take(k), radix)->0;
        assert(digits_value(t, radix) is Some) by {
            lemma_digits_prefix_some(s, radix, k + 1);
        }
        let d = digit_value(t.last(), radix)->0;
        assert(p * radix + d >= p) by (nonlinear_arith)
            requires
                radix >= 1,
        ;
        lemma_digits_value_grows(s, radix, k + 1);
    }
}

proof fn lemma_digits_prefix_some(s: Seq<char>, radix: nat, k: int)
    requires
        0 <= k <= s.len(),
        digits_value(s, radix) is Some,
    ensures
        digits_value(s.take(k), radix) is Some,
    decreases s.len() - k,
{
    if k == s.len() {
        assert(s.take(k) =~= s);
    } else {
        lemma_digits_prefix_some(s, radix, k + 1);
        assert(s.take(k + 1).drop_last() =~= s.take(k));
    }
}

/// `u32::from_str_radix`-compatible parse of `s[start..end]`.
pub(crate) fn parse_u32_range(s: &Vec<char>, start: usize, end: usize, radix: u32) -> (r: Option<u32>)
    requires
        start <= end <= s@.len(),
        radix == 10 || radix == 16,
    ensures
        r == parse_u32(s@.subrange(start as int, end as int), radix as nat),
{
    let ghost full = s@.subrange(start as int, end as int);
    let mut i = start;
    if i < end && s[i] == '+' {
        i = i + 1;
    }
    let ghost d = s@.subrange(i as int, end as int);
    proof {
        if full.len() > 0 && full[0] == '+' {
            assert(full.drop_first() =~= d);
        } else {
            assert(full =~= d);
        }
    }
    if i == end {
        return None;
    }
    let first = i;
    let mut acc: u32 = 0;
    proof {
        assert(d.take(0) =~= Seq::<char>::empty());
    }
    while i < end
        invariant
            first <= i <= end <= s@.len(),
            d == s@.subrange(first as int, end as int),
            radix == 10 || radix == 16,
            digits_value(d.take(i - first), radix as nat) == Some(acc as nat),
            parse_u32(s@.subrange(start as int, end as int), radix as nat) == (match digits_value(
                d,
                radix as nat,
            ) {
                Some(v) => if v <= u32::MAX {
                    Some(v as u32)
                } else {
                    None
                },
                None => None,
            }),
        decreases end - i,
    {
        let dv = match digit_of(s[i], radix) {
            Some(v) => v,
            None => {
                proof {
                    let t = d.take(i - first + 1);
                    assert(t.drop_last() =~= d.take(i - first));
                    assert(t.last() == s@[i as int]);
                    if digits_value(d, radix as nat) is Some {
                        lemma_digits_prefix_some(d, radix as nat, i - first + 1);
                    }
                }
                return None;
            },
        };
        proof {
            let t = d.take(i - first + 1);
            assert(t.drop_last() =~= d.take(i - first));
            assert(t.last() == s@[i as int]);
        }
        if acc > (u32::MAX - dv) / radix {
            proof {
                let t = d.take(i - first + 1);
                assert(acc * radix + dv > u32::MAX) by (nonlinear_arith)
                    requires
                        acc > (u32::MAX - dv) as int / radix as int,
                        radix == 10 || radix == 16,
                        dv < radix,
                ;
                if digits_value(d, radix as nat) is Some {
                    lemma_digits_value_grows(d, radix as nat, i - first + 1);
                }
            }
            return None;
        }
        proof {
            assert(acc * radix + dv <= u32::MAX) by (nonlinear_arith)
                requires
                    acc <= (u32::MAX - dv) as int / radix as int,
                    radix == 10 || radix == 16,
                    dv < radix,
            ;
        }
        acc = acc * radix + dv;
        i = i + 1;
    }
    proof {
        assert(d.take(i - first) =~= d);
    }
    Some(acc)
}

fn slice_is(s: &Vec<char>, start: usize, end: usize, want: &[char]) -> (r: bool)
    requires
        start <= end <= s@.len(),
    ensures
        r == (s@.subrange(start as int, end as int) == want@),
{
    if end - start != want.len() {
        return false;
    }
    let mut k: usize = 0;
    while k < want.len()
        invariant
            start <= end <= s@.len(),
            end - start == want@.len(),
            k <= want@.len(),
            forall|j: int| 0 <= j < k ==> s@[start + j] == want@[j],
        decreases want@.len() - k,
    {
        if s[start + k] != want[k] {
            proof {
                assert(s@.subrange(start as int, end as int)[k as int] != want@[k as int]);
            }
            return false;
        }
        k = k + 1;
    }
    proof {
        assert(s@.subrange(start as int, end as int) =~= want@);
    }
    true
}

fn is_xml_char_code(c: u32) -> (r: bool)
    ensures
        r == xml_char_code(c),
{
    c == 0x09 || c == 0x0A || c == 0x0D || (0x20 <= c && c <= 0x7E) || (0xA0 <= c && c <= 0xD7FF)
        || (0xE000 <= c && c <= 0xFFFD) || (0x10000 <= c && c <= 0x10FFFF)
}

fn decode_one_entity(s: &Vec<char>, start: usize, end: usize) -> (r: Option<char>)
    requires
        start <= end <= s@.len(),
    ensures
        r == decode_one(s@.subrange(start as int, end as int)),
{
    let ghost body = s@.subrange(start as int, end as int);
    if slice_is(s, start, end, &['a', 'm', 'p']) {
        return Some('&');
    }
    if slice_is(s, start, end, &['l', 't']) {
        return Some('<');
    }
    if slice_is(s, start, end, &['g', 't']) {
        return Some('>');
    }
    if slice_is(s, start, end, &['a', 'p', 'o', 's']) {
        return Some('\'');
    }
    if slice_is(s, start, end, &['q', 'u', 'o', 't']) {
        return Some('"');
    }
    if start < end && s[start] == '#' {
        let ghost digits = body.drop_first();
        proof {
            assert(digits =~= s@.subrange(start + 1, end as int));
        }
        let code = if start + 1 < end && (s[start + 1] == 'x' || s[start + 1] == 'X') {
            proof {
                assert(digits.drop_first() =~= s@.subrange(start + 2, end as int));
            }
            parse_u32_range(s, start + 2, end, 16)
        } else {
            parse_u32_range(s, start + 1, end, 10)
        };
        match code {
            Some(c) => {
                if is_xml_char_code(c) {
                    let ch = char::from_u32(c);
                    proof {
                        assert(vstd::utf8::is_scalar(c));
                    }
                    ch
                } else {
                    None
                }
            },
            None => None,
        }
    } else {
        None
    }
}

/// Decode the five XML predefined entity references (`&amp;`, `&lt;`,
/// `&gt;`, `&apos;`, `&quot;`) plus numeric character references
/// (`&#NNN;` and `&#xHH;`) in `value`. Unknown entity references and
/// malformed numeric references are passed through verbatim. Borrows
/// when `value` holds no `&` at all.
pub fn decode_entities(value: &str) -> (r: Cow<'_, str>)
    ensures
        r@ == spec_decode_entities(value@),
        (r is Borrowed) <==> !value@.contains('&'),
        r matches Cow::Borrowed(v) ==> v == value,
{
    let cs = str_chars(value);
    let mut k: usize = 0;
    while k < cs.len()
        invariant
            cs@ == value@,
            k <= cs@.len(),
            forall|j: int| 0 <= j < k ==> cs@[j] != '&',
        decreases cs@.len() - k,
    {
        if cs[k] == '&' {
            proof {
                assert(value@[k as int] == '&');
            }
            return Cow::Owned(decode_entities_owned(value));
        }
        k = k + 1;
    }
    proof {
        lemma_decode_plain(value@, 0);
        assert(value@.skip(0) =~= value@);
    }
    Cow::Borrowed(value)
}

proof fn lemma_decode_plain(s: Seq<char>, i: int)
    requires
        0 <= i <= s.len(),
        !s.contains('&'),
    ensures
        decode_entities_from(s, i) == s.skip(i),
    decreases s.len() - i,
{
    if i < s.len() {
        lemma_decode_plain(s, i + 1);
        assert(s[i] != '&');
        assert(s.skip(i) =~= seq![s[i]] + s.skip(i + 1));
    } else {
        assert(s.skip(i) =~= Seq::<char>::empty());
    }
}

/// The text of a copy-on-write string, owned.
pub(crate) fn cow_into_string(c: Cow<'_, str>) -> (r: String)
    ensures
        r@ == c@,
{
    match c {
        Cow::Borrowed(v) => v.to_owned(),
        Cow::Owned(o) => o,
    }
}

/// Entity-decoded form of `value`, always allocated.
fn decode_entities_owned(value: &str) -> (r: String)
    ensures
        r@ == spec_decode_entities(value@),
{
    let s = str_chars(value);
    let n = s.len();
    let mut out = String::new();
    let mut i: usize = 0;
    while i < n
        invariant
            n == s@.len(),
            s@ == value@,
            i <= n,
            out@ + decode_entities_from(s@, i as int) == spec_decode_entities(s@),
        decreases n - i,
    {
        if s[i] == '&' {
            let limit = if n - i > 16 {
                i + 16
            } else {
                n
            };
            proof {
                lemma_first_semicolon_bounds(s@, i + 1, limit as int);
            }
            let hit = match find_semicolon(&s, i + 1, limit) {
                Some(j) => match decode_one_entity(&s, i + 1, j) {
                    Some(ch) => Some((ch, j + 1)),
                    None => None,
                },
                None => None,
            };
            match hit {
                Some((ch, next)) => {
                    proof {
                        assert(entity_at(s@, i as int) == Some((ch, next as int)));
                        assert(out@.push(ch) + decode_entities_from(s@, next as int) =~= out@ + (
                        seq![ch] + decode_entities_from(s@, next as int)));
                    }
                    out.push(ch);
                    i = next;
                },
                None => {
                    proof {
                        assert(entity_at(s@, i as int) is None);
                        assert(out@.push('&') + decode_entities_from(s@, i + 1) =~= out@ + (
                        seq!['&'] + decode_entities_from(s@, i + 1)));
                    }
                    out.push('&');
                    i = i + 1;
                },
            }
        } else {
            proof {
                assert(out@.push(s@[i as int]) + decode_entities_from(s@, i + 1) =~= out@ + (
                seq![s@[i as int]] + decode_entities_from(s@, i + 1)));
            }
            out.push(s[i]);
            i = i + 1;
        }
    }
    proof {
        assert(out@ + Seq::<char>::empty() =~= out@);
    }
    out
}

} // verus!
