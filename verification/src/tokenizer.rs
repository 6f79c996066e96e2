//! Tag-level tokenizer.
//!
//! Scans the input once, emitting one [`Token`] per XML tag found plus the
//! byte ranges of comments and CDATA brackets ("trivia"). Text between tags
//! is skipped; the document keeps the raw source byte-for-byte.
//!
//! Recognized tag forms: `<name attr="value" …>` (open), `<name … />`
//! (self-close) and `</name>` (close). A `<` that is not followed by a
//! name-start byte (or `/` plus a name-start byte) is ordinary text, so prose
//! like "if x < 3" survives parsing untouched.

use crate::error::{
    AttrFault, MalformedAttrKind, MalformedTagKind, ParseError, ParseFailure, TagFault,
};
use crate::escape::{decode_entities, is_name_char, is_name_start, name_char_byte, name_start_byte, spec_decode_entities};
use crate::source::{
    cut_ok, lemma_ascii_cut, lemma_count_newlines_bound, lemma_count_newlines_monotone,
    lemma_end_cut, lemma_valid_bytes, line_of, slice_str, text_of,
};
use crate::types::{attrs_view, has_attr_named, SourcePosition, SourceSpan};
use vstd::prelude::*;
use vstd::string::*;

verus! {

broadcast use {vstd::utf8::group_utf8_lib, vstd::string::group_string_axioms};

/// Largest input (in bytes) the scanner handles: offsets and line numbers
/// are stored as `u32`.
pub open spec fn input_ok(b: Seq<u8>) -> bool {
    vstd::utf8::valid_utf8(b) && b.len() <= 4_294_967_294
}

// ─── byte-level grammar ──────────────────────────────────────────────────

/// `u8::is_ascii_whitespace`: space, tab, LF, FF, CR.
pub open spec fn ascii_ws(x: u8) -> bool {
    x == 0x20 || x == 0x09 || x == 0x0A || x == 0x0C || x == 0x0D
}

/// End of the run of name-char bytes starting at `i`.
pub open spec fn name_end(b: Seq<u8>, i: int) -> int
    decreases b.len() - i,
{
    if 0 <= i < b.len() && name_char_byte(b[i]) {
        name_end(b, i + 1)
    } else {
        i
    }
}

/// End of the run of ASCII whitespace starting at `i`.
pub open spec fn ws_end(b: Seq<u8>, i: int) -> int
    decreases b.len() - i,
{
    if 0 <= i < b.len() && ascii_ws(b[i]) {
        ws_end(b, i + 1)
    } else {
        i
    }
}

/// Position of the first `"` at or after `i` (or the end of input).
pub open spec fn quote_end(b: Seq<u8>, i: int) -> int
    decreases b.len() - i,
{
    if 0 <= i < b.len() && b[i] != 0x22 {
        quote_end(b, i + 1)
    } else {
        i
    }
}

/// The character that starts at byte `i`, or NUL past the end.
pub open spec fn first_char(b: Seq<u8>, i: int) -> char {
    if 0 <= i < b.len() {
        text_of(b, i, b.len() as int)[0]
    } else {
        '\0'
    }
}

/// One `name="value"` attribute at `i`: its name, its entity-decoded value
/// and the position just past the closing quote.
pub open spec fn attr_at(b: Seq<u8>, i: int, tag: Seq<char>) -> Result<
    (Seq<char>, Seq<char>, int),
    ParseFailure,
> {
    let line = line_of(b, i);
    if !(0 <= i < b.len() && name_start_byte(b[i])) {
        Err(
            ParseFailure::MalformedAttribute {
                tag,
                kind: AttrFault::UnexpectedNameStart { found: first_char(b, i) },
                line,
            },
        )
    } else {
        let ke = name_end(b, i + 1);
        let key = text_of(b, i, ke);
        if !(ke < b.len() && b[ke] == 0x3D) {
            Err(
                ParseFailure::MalformedAttribute {
                    tag,
                    kind: AttrFault::ExpectedEquals { attr: key },
                    line,
                },
            )
        } else if !(ke + 1 < b.len() && b[ke + 1] == 0x22) {
            Err(
                ParseFailure::MalformedAttribute {
                    tag,
                    kind: AttrFault::ExpectedOpenQuote { attr: key },
                    line,
                },
            )
        } else {
            let ve = quote_end(b, ke + 2);
            if ve >= b.len() {
                Err(
                    ParseFailure::MalformedAttribute {
                        tag,
                        kind: AttrFault::UnterminatedValue { attr: key },
                        line,
                    },
                )
            } else {
                Ok((key, spec_decode_entities(text_of(b, ke + 2, ve)), ve + 1))
            }
        }
    }
}

/// The attribute list of an opening tag from `i`, appended to `acc`: the
/// attributes, whether the tag self-closes, and the position just past its
/// terminator (`>` or `/>`). Repeated attribute names are rejected.
pub open spec fn attr_list(
    b: Seq<u8>,
    i: int,
    acc: Seq<(Seq<char>, Seq<char>)>,
    tag: Seq<char>,
    tag_line: nat,
) -> Result<(Seq<(Seq<char>, Seq<char>)>, bool, int), ParseFailure>
    decreases b.len() - i,
{
    let j = ws_end(b, i);
    if j < 0 || j >= b.len() {
        Err(
            ParseFailure::MalformedTag {
                kind: TagFault::UnterminatedOpenTag { tag },
                line: tag_line,
            },
        )
    } else if b[j] == 0x3E {
        Ok((acc, false, j + 1))
    } else if b[j] == 0x2F {
        if j + 1 < b.len() && b[j + 1] == 0x3E {
            Ok((acc, true, j + 2))
        } else {
            Err(
                ParseFailure::MalformedTag {
                    kind: TagFault::ExpectedCloseSlashAngle { tag },
                    line: tag_line,
                },
            )
        }
    } else {
        match attr_at(b, j, tag) {
            Err(e) => Err(e),
            Ok((key, value, e)) => if has_attr_named(acc, key) {
                Err(ParseFailure::DuplicateAttr { tag, attr: key, line: line_of(b, j) })
            } else if i < e <= b.len() {
                attr_list(b, e, acc.push((key, value)), tag, tag_line)
            } else {
                Err(
                    ParseFailure::MalformedTag {
                        kind: TagFault::UnterminatedOpenTag { tag },
                        line: tag_line,
                    },
                )
            },
        }
    }
}

/// Mathematical form of a [`Token`]: byte span `[start, end)`.
pub enum TokenModel {
    Open { name: Seq<char>, attrs: Seq<(Seq<char>, Seq<char>)>, start: int, end: int },
    Close { name: Seq<char>, start: int, end: int },
    SelfClose { name: Seq<char>, attrs: Seq<(Seq<char>, Seq<char>)>, start: int, end: int },
}

impl TokenModel {
    pub open spec fn start(self) -> int {
        match self {
            TokenModel::Open { start, .. } => start,
            TokenModel::Close { start, .. } => start,
            TokenModel::SelfClose { start, .. } => start,
        }
    }

    pub open spec fn end(self) -> int {
        match self {
            TokenModel::Open { end, .. } => end,
            TokenModel::Close { end, .. } => end,
            TokenModel::SelfClose { end, .. } => end,
        }
    }
}

/// The tag starting at the `<` at `start`, and the position just past it.
pub open spec fn tag_at(b: Seq<u8>, start: int) -> Result<(TokenModel, int), ParseFailure> {
    let sline = line_of(b, start);
    if start + 1 < b.len() && b[start + 1] == 0x2F {
        let ne = name_end(b, start + 2);
        let name = text_of(b, start + 2, ne);
        let j = ws_end(b, ne);
        if j >= b.len() || b[j] != 0x3E {
            Err(
                ParseFailure::MalformedTag {
                    kind: TagFault::ExpectedCloseAngle { tag: name },
                    line: sline,
                },
            )
        } else {
            Ok((TokenModel::Close { name, start, end: j + 1 }, j + 1))
        }
    } else {
        let ne = name_end(b, start + 1);
        let name = text_of(b, start + 1, ne);
        match attr_list(b, ne, Seq::empty(), name, sline) {
            Ok((attrs, self_closing, end)) => if self_closing {
                Ok((TokenModel::SelfClose { name, attrs, start, end }, end))
            } else {
                Ok((TokenModel::Open { name, attrs, start, end }, end))
            },
            Err(e) => Err(e),
        }
    }
}

/// `b[i..]` starts with `pat`.
pub open spec fn starts_at(b: Seq<u8>, i: int, pat: Seq<u8>) -> bool {
    0 <= i && i + pat.len() <= b.len() && b.subrange(i, i + pat.len()) == pat
}

/// First position at or after `i` where `pat` occurs.
pub open spec fn find_pat(b: Seq<u8>, i: int, pat: Seq<u8>) -> Option<int>
    decreases b.len() + 1 - i,
{
    if i < 0 || i + pat.len() > b.len() {
        None
    } else if starts_at(b, i, pat) {
        Some(i)
    } else {
        find_pat(b, i + 1, pat)
    }
}

pub open spec fn comment_open() -> Seq<u8> {
    seq![0x3Cu8, 0x21, 0x2D, 0x2D]
}

pub open spec fn comment_close() -> Seq<u8> {
    seq![0x2Du8, 0x2D, 0x3E]
}

pub open spec fn cdata_open() -> Seq<u8> {
    seq![0x3Cu8, 0x21, 0x5B, 0x43, 0x44, 0x41, 0x54, 0x41, 0x5B]
}

pub open spec fn cdata_close() -> Seq<u8> {
    seq![0x5Du8, 0x5D, 0x3E]
}

/// The bytes at `i` look like the body of a tag: a name-start byte, or `/`
/// followed by one.
pub open spec fn looks_like_tag(b: Seq<u8>, i: int) -> bool {
    0 <= i < b.len() && if b[i] == 0x2F {
        i + 1 < b.len() && name_start_byte(b[i + 1])
    } else {
        name_start_byte(b[i])
    }
}

/// What the scanner does at one position.
pub enum ScanStep {
    Tag(TokenModel, int),
    Trivia(Seq<(int, int)>, int),
    Skip,
    Fail(ParseFailure),
}

#[verifier::opaque]
pub open spec fn scan_step(b: Seq<u8>, i: int) -> ScanStep {
    if !(0 <= i < b.len()) || b[i] != 0x3C {
        ScanStep::Skip
    } else if starts_at(b, i, comment_open()) {
        match find_pat(b, i + 4, comment_close()) {
            None => ScanStep::Fail(
                ParseFailure::MalformedTag {
                    kind: TagFault::UnterminatedComment,
                    line: line_of(b, i),
                },
            ),
            Some(k) => ScanStep::Trivia(seq![(i, k + 3)], k + 3),
        }
    } else if starts_at(b, i, cdata_open()) {
        match find_pat(b, i + 9, cdata_close()) {
            None => ScanStep::Fail(
                ParseFailure::MalformedTag { kind: TagFault::UnterminatedCdata, line: line_of(b, i) },
            ),
            Some(k) => ScanStep::Trivia(seq![(i, i + 9), (k, k + 3)], k + 3),
        }
    } else if looks_like_tag(b, i + 1) {
        match tag_at(b, i) {
            Ok((t, n)) => ScanStep::Tag(t, n),
            Err(e) => ScanStep::Fail(e),
        }
    } else {
        ScanStep::Skip
    }
}

/// Prefix `(ts0, vs0)` onto a scan result.
pub open spec fn join_scan(
    ts0: Seq<TokenModel>,
    vs0: Seq<(int, int)>,
    r: Result<(Seq<TokenModel>, Seq<(int, int)>), ParseFailure>,
) -> Result<(Seq<TokenModel>, Seq<(int, int)>), ParseFailure> {
    match r {
        Ok((ts, vs)) => Ok((ts0 + ts, vs0 + vs)),
        Err(e) => Err(e),
    }
}

/// Tokens and trivia ranges of `b[i..]`, or the first error met.
pub open spec fn scan_from(b: Seq<u8>, i: int) -> Result<
    (Seq<TokenModel>, Seq<(int, int)>),
    ParseFailure,
>
    decreases b.len() - i,
{
    if i < 0 || i >= b.len() {
        Ok((Seq::empty(), Seq::empty()))
    } else {
        match scan_step(b, i) {
            ScanStep::Skip => scan_from(b, i + 1),
            ScanStep::Tag(t, n) => if i < n <= b.len() {
                join_scan(seq![t], Seq::empty(), scan_from(b, n))
            } else {
                Ok((Seq::empty(), Seq::empty()))
            },
            ScanStep::Trivia(r, n) => if i < n <= b.len() {
                join_scan(Seq::empty(), r, scan_from(b, n))
            } else {
                Ok((Seq::empty(), Seq::empty()))
            },
            ScanStep::Fail(e) => Err(e),
        }
    }
}

/// Tokens and trivia of the whole input.
pub open spec fn spec_tokenize(b: Seq<u8>) -> Result<(Seq<TokenModel>, Seq<(int, int)>), ParseFailure> {
    scan_from(b, 0)
}

// ─── lemmas about the scans ──────────────────────────────────────────────

proof fn lemma_name_end(b: Seq<u8>, i: int)
    requires
        vstd::utf8::valid_utf8(b),
        cut_ok(b, i),
    ensures
        i <= name_end(b, i) <= b.len(),
        cut_ok(b, name_end(b, i)),
        name_end(b, i) < b.len() ==> !name_char_byte(b[name_end(b, i)]),
        forall|k: int| i <= k < name_end(b, i) ==> name_char_byte(#[trigger] b[k]),
    decreases b.len() - i,
{
    if 0 <= i < b.len() && name_char_byte(b[i]) {
        lemma_ascii_cut(b, i);
        lemma_name_end(b, i + 1);
    }
}

proof fn lemma_ws_end(b: Seq<u8>, i: int)
    requires
        vstd::utf8::valid_utf8(b),
        cut_ok(b, i),
    ensures
        i <= ws_end(b, i) <= b.len(),
        cut_ok(b, ws_end(b, i)),
        ws_end(b, i) < b.len() ==> !ascii_ws(b[ws_end(b, i)]),
        forall|k: int| i <= k < ws_end(b, i) ==> ascii_ws(#[trigger] b[k]),
    decreases b.len() - i,
{
    if 0 <= i < b.len() && ascii_ws(b[i]) {
        lemma_ascii_cut(b, i);
        lemma_ws_end(b, i + 1);
    }
}

proof fn lemma_quote_end(b: Seq<u8>, i: int)
    requires
        0 <= i <= b.len(),
    ensures
        i <= quote_end(b, i) <= b.len(),
        quote_end(b, i) < b.len() ==> b[quote_end(b, i)] == 0x22,
        forall|k: int| i <= k < quote_end(b, i) ==> #[trigger] b[k] != 0x22,
    decreases b.len() - i,
{
    if 0 <= i < b.len() && b[i] != 0x22 {
        lemma_quote_end(b, i + 1);
    }
}

proof fn lemma_line_step(b: Seq<u8>, i: int)
    requires
        0 <= i < b.len(),
    ensures
        line_of(b, i + 1) == line_of(b, i) + if b[i] == 0x0A {
            1nat
        } else {
            0nat
        },
        line_of(b, i + 1) <= i + 2,
{
    lemma_count_newlines_bound(b, i + 1);
}

// ─── exec scanners ───────────────────────────────────────────────────────

fn skip_ws(bytes: &[u8], i: usize, line: u32) -> (r: (usize, u32))
    requires
        i <= bytes@.len(),
        bytes@.len() <= 4_294_967_294,
        line == line_of(bytes@, i as int),
    ensures
        r.0 == ws_end(bytes@, i as int),
        r.1 == line_of(bytes@, r.0 as int),
        i <= r.0 <= bytes@.len(),
{
    let mut j = i;
    let mut ln = line;
    while j < bytes.len() && (bytes[j] == 0x20 || bytes[j] == 0x09 || bytes[j] == 0x0A || bytes[j]
        == 0x0C || bytes[j] == 0x0D)
        invariant
            i <= j <= bytes@.len(),
            bytes@.len() <= 4_294_967_294,
            ln == line_of(bytes@, j as int),
            ws_end(bytes@, i as int) == ws_end(bytes@, j as int),
        decreases bytes@.len() - j,
    {
        proof {
            lemma_line_step(bytes@, j as int);
        }
        if bytes[j] == 0x0A {
            ln = ln + 1;
        }
        j = j + 1;
    }
    (j, ln)
}

fn scan_name_end(bytes: &[u8], i: usize) -> (r: usize)
    requires
        i <= bytes@.len(),
    ensures
        r == name_end(bytes@, i as int),
        i <= r <= bytes@.len(),
{
    let mut j = i;
    while j < bytes.len() && is_name_char(bytes[j])
        invariant
            i <= j <= bytes@.len(),
            name_end(bytes@, i as int) == name_end(bytes@, j as int),
        decreases bytes@.len() - j,
    {
        j = j + 1;
    }
    j
}

/// Narrow a byte offset into the (bounded) input to `u32`.
fn offset_u32(n: usize) -> (r: u32)
    requires
        n <= u32::MAX,
    ensures
        r == n,
{
    n as u32
}

/// Read the character at byte position `i` (for diagnostics).
fn next_char_at(input: &str, i: usize) -> (r: char)
    requires
        cut_ok(input.spec_bytes(), i as int),
    ensures
        r == first_char(input.spec_bytes(), i as int),
{
    let n = input.as_bytes().len();
    if i >= n {
        return '\0';
    }
    proof {
        lemma_valid_bytes(input@);
        lemma_end_cut(input.spec_bytes());
    }
    let tail = slice_str(input, i, n);
    let mut it = tail.chars();
    proof {
        let sub = input.spec_bytes().subrange(i as int, n as int);
        assert(sub.len() > 0);
        assert(tail@.len() > 0);
    }
    match it.next() {
        Some(c) => c,
        None => '\0',
    }
}

struct ParsedAttribute {
    key: String,
    value: String,
    end: usize,
    line: u32,
}

fn parse_attribute(input: &str, bytes: &[u8], tag_name: &String, start: usize, line: u32) -> (r:
    Result<ParsedAttribute, ParseError>)
    requires
        bytes@ == input.spec_bytes(),
        input_ok(bytes@),
        cut_ok(bytes@, start as int),
        line == line_of(bytes@, start as int),
    ensures
        match r {
            Ok(p) => attr_at(bytes@, start as int, tag_name@) == Ok::<
                (Seq<char>, Seq<char>, int),
                ParseFailure,
            >((p.key@, p.value@, p.end as int)) && p.line == line_of(bytes@, p.end as int) && start
                < p.end <= bytes@.len() && cut_ok(bytes@, p.end as int),
            Err(e) => attr_at(bytes@, start as int, tag_name@) == Err::<
                (Seq<char>, Seq<char>, int),
                ParseFailure,
            >(e@),
        },
{
    let ghost b = bytes@;
    let n = bytes.len();
    if start >= n || !is_name_start(bytes[start]) {
        let found = next_char_at(input, start);
        return Err(
            ParseError::MalformedAttribute {
                tag: tag_name.clone(),
                kind: MalformedAttrKind::UnexpectedNameStart { found },
                line,
            },
        );
    }
    proof {
        lemma_ascii_cut(b, start as int);
        lemma_name_end(b, start + 1);
    }
    let ke = scan_name_end(bytes, start + 1);
    let key = slice_str(input, start, ke).to_owned();
    if ke >= n || bytes[ke] != 0x3D {
        return Err(
            ParseError::MalformedAttribute {
                tag: tag_name.clone(),
                kind: MalformedAttrKind::ExpectedEquals { attr: key },
                line,
            },
        );
    }
    if ke + 1 >= n || bytes[ke + 1] != 0x22 {
        return Err(
            ParseError::MalformedAttribute {
                tag: tag_name.clone(),
                kind: MalformedAttrKind::ExpectedOpenQuote { attr: key },
                line,
            },
        );
    }
    let vs = ke + 2;
    let mut i = vs;
    let mut ln = line;
    proof {
        assert forall|q: int| start <= q < ke implies #[trigger] b[q] != 0x0A by {
            if q > start {
                lemma_name_end(b, start + 1);
            }
        }
        lemma_no_newline_run_tail(b, start as int, ke as int);
        lemma_line_step(b, ke as int);
        lemma_line_step(b, ke + 1);
        lemma_ascii_cut(b, ke + 1);
        lemma_quote_end(b, vs as int);
    }
    while i < n && bytes[i] != 0x22
        invariant
            vs <= i <= n,
            n == b.len(),
            b == bytes@,
            input_ok(b),
            ln == line_of(b, i as int),
            quote_end(b, vs as int) == quote_end(b, i as int),
        decreases n - i,
    {
        proof {
            lemma_line_step(b, i as int);
        }
        if bytes[i] == 0x0A {
            ln = ln + 1;
        }
        i = i + 1;
    }
    if i >= n {
        return Err(
            ParseError::MalformedAttribute {
                tag: tag_name.clone(),
                kind: MalformedAttrKind::UnterminatedValue { attr: key },
                line,
            },
        );
    }
    proof {
        lemma_ascii_cut(b, i as int);
        lemma_line_step(b, i as int);
    }
    let raw_value = slice_str(input, vs, i);
    let value = crate::escape::cow_into_string(decode_entities(raw_value));
    Ok(ParsedAttribute { key, value, end: i + 1, line: ln })
}

struct AttributeList {
    attrs: Vec<(String, String)>,
    self_closing: bool,
    end: usize,
    line: u32,
}

fn has_key(attrs: &Vec<(String, String)>, key: &String) -> (r: bool)
    ensures
        r == has_attr_named(attrs_view(attrs@), key@),
{
    let mut k: usize = 0;
    while k < attrs.len()
        invariant
            k <= attrs@.len(),
            forall|j: int| 0 <= j < k ==> attrs@[j].0@ != key@,
        decreases attrs@.len() - k,
    {
        if attrs[k].0 == *key {
            proof {
                assert(attrs_view(attrs@)[k as int].0 == key@);
            }
            return true;
        }
        k = k + 1;
    }
    proof {
        if has_attr_named(attrs_view(attrs@), key@) {
            let j = choose|j: int|
                0 <= j < attrs_view(attrs@).len() && #[trigger] attrs_view(attrs@)[j].0 == key@;
            assert(attrs@[j].0@ == key@);
        }
    }
    false
}

fn parse_attribute_list(
    input: &str,
    bytes: &[u8],
    tag_name: &String,
    tag_line: u32,
    start: usize,
    line: u32,
) -> (r: Result<AttributeList, ParseError>)
    requires
        bytes@ == input.spec_bytes(),
        input_ok(bytes@),
        cut_ok(bytes@, start as int),
        line == line_of(bytes@, start as int),
    ensures
        match r {
            Ok(l) => attr_list(bytes@, start as int, Seq::empty(), tag_name@, tag_line as nat)
                == Ok::<(Seq<(Seq<char>, Seq<char>)>, bool, int), ParseFailure>(
                (attrs_view(l.attrs@), l.self_closing, l.end as int),
            ) && l.line == line_of(bytes@, l.end as int) && start < l.end <= bytes@.len()
                && cut_ok(bytes@, l.end as int),
            Err(e) => attr_list(bytes@, start as int, Seq::empty(), tag_name@, tag_line as nat)
                == Err::<(Seq<(Seq<char>, Seq<char>)>, bool, int), ParseFailure>(e@),
        },
{
    let ghost b = bytes@;
    let n = bytes.len();
    let mut attrs: Vec<(String, String)> = Vec::new();
    let mut i = start;
    let mut ln = line;
    proof {
        assert(attrs_view(attrs@) =~= Seq::<(Seq<char>, Seq<char>)>::empty());
    }
    loop
        invariant
            b == bytes@,
            n == b.len(),
            b == input.spec_bytes(),
            input_ok(b),
            start <= i <= n,
            cut_ok(b, i as int),
            ln == line_of(b, i as int),
            attr_list(b, start as int, Seq::empty(), tag_name@, tag_line as nat) == attr_list(
                b,
                i as int,
                attrs_view(attrs@),
                tag_name@,
                tag_line as nat,
            ),
        decreases n - i,
    {
        let (j, jl) = skip_ws(bytes, i, ln);
        proof {
            lemma_ws_end(b, i as int);
        }
        if j >= n {
            return Err(
                ParseError::MalformedTag {
                    kind: MalformedTagKind::UnterminatedOpenTag { tag: tag_name.clone() },
                    line: tag_line,
                },
            );
        }
        if bytes[j] == 0x3E {
            proof {
                lemma_ascii_cut(b, j as int);
                lemma_line_step(b, j as int);
            }
            return Ok(AttributeList { attrs, self_closing: false, end: j + 1, line: jl });
        }
        if bytes[j] == 0x2F {
            if j + 1 >= n || bytes[j + 1] != 0x3E {
                return Err(
                    ParseError::MalformedTag {
                        kind: MalformedTagKind::ExpectedCloseSlashAngle { tag: tag_name.clone() },
                        line: tag_line,
                    },
                );
            }
            proof {
                lemma_ascii_cut(b, j + 1);
                lemma_line_step(b, j as int);
                lemma_line_step(b, j + 1);
            }
            return Ok(AttributeList { attrs, self_closing: true, end: j + 2, line: jl });
        }
        let parsed = match parse_attribute(input, bytes, tag_name, j, jl) {
            Ok(p) => p,
            Err(e) => {
                return Err(e);
            },
        };
        if has_key(&attrs, &parsed.key) {
            return Err(
                ParseError::DuplicateAttr { tag: tag_name.clone(), attr: parsed.key, line: jl },
            );
        }
        let ghost before = attrs_view(attrs@);
        let end = parsed.end;
        let pl = parsed.line;
        attrs.push((parsed.key, parsed.value));
        proof {
            assert(attrs_view(attrs@) =~= before.push((attrs@.last().0@, attrs@.last().1@)));
        }
        i = end;
        ln = pl;
    }
}

/// A tag token, with its span (offsets and lines) in the source.
#[derive(Debug)]
pub(crate) enum Token {
    Open { name: String, attrs: Vec<(String, String)>, span: SourceSpan, body_start: usize },
    Close { name: String, span: SourceSpan, body_end: usize },
    SelfClose { name: String, attrs: Vec<(String, String)>, span: SourceSpan },
}

impl Token {
    pub(crate) open spec fn model(&self) -> TokenModel {
        match self {
            Token::Open { name, attrs, span, .. } => TokenModel::Open {
                name: name@,
                attrs: attrs_view(attrs@),
                start: span.start.offset as int,
                end: span.end.offset as int,
            },
            Token::Close { name, span, .. } => TokenModel::Close {
                name: name@,
                start: span.start.offset as int,
                end: span.end.offset as int,
            },
            Token::SelfClose { name, attrs, span } => TokenModel::SelfClose {
                name: name@,
                attrs: attrs_view(attrs@),
                start: span.start.offset as int,
                end: span.end.offset as int,
            },
        }
    }

    pub(crate) open spec fn span(&self) -> SourceSpan {
        match self {
            Token::Open { span, .. } => *span,
            Token::Close { span, .. } => *span,
            Token::SelfClose { span, .. } => *span,
        }
    }

    /// The token's span and body positions agree with the source `b`.
    pub(crate) open spec fn placed(&self, b: Seq<u8>) -> bool {
        let sp = self.span();
        &&& sp.start.line == line_of(b, sp.start.offset as int)
        &&& sp.end.line == line_of(b, sp.end.offset as int)
        &&& sp.start.offset < sp.end.offset <= b.len()
        &&& cut_ok(b, sp.start.offset as int)
        &&& cut_ok(b, sp.end.offset as int)
        &&& match self {
            Token::Open { body_start, .. } => *body_start == sp.end.offset,
            Token::Close { body_end, .. } => *body_end == sp.start.offset,
            Token::SelfClose { .. } => true,
        }
    }
}

fn parse_tag(input: &str, bytes: &[u8], start: usize, start_line: u32) -> (r: Result<
    (Token, usize, u32),
    ParseError,
>)
    requires
        bytes@ == input.spec_bytes(),
        input_ok(bytes@),
        0 <= start < bytes@.len(),
        bytes@[start as int] == 0x3C,
        looks_like_tag(bytes@, start + 1),
        start_line == line_of(bytes@, start as int),
    ensures
        match r {
            Ok((t, next, nl)) => tag_at(bytes@, start as int) == Ok::<(TokenModel, int), ParseFailure>(
                (t.model(), next as int),
            ) && t.placed(bytes@) && t.span().start.offset == start && t.span().end.offset == next
                && nl == line_of(bytes@, next as int),
            Err(e) => tag_at(bytes@, start as int) == Err::<(TokenModel, int), ParseFailure>(e@),
        },
{
    let ghost b = bytes@;
    let n = bytes.len();
    proof {
        lemma_ascii_cut(b, start as int);
        lemma_count_newlines_bound(b, start as int);
    }
    let span_start = SourcePosition { line: start_line, offset: offset_u32(start) };
    if start + 1 < n && bytes[start + 1] == 0x2F {
        proof {
            lemma_ascii_cut(b, start + 1);
            lemma_name_end(b, start + 2);
            lemma_line_step(b, start as int);
            lemma_line_step(b, start + 1);
        }
        let ne = scan_name_end(bytes, start + 2);
        let name = slice_str(input, start + 2, ne).to_owned();
        proof {
            lemma_count_newlines_monotone(b, start + 2, ne as int);
            let k = start + 2;
            assert forall|q: int| k <= q < ne implies #[trigger] b[q] != 0x0A by {
                lemma_name_end(b, k as int);
            }
            lemma_no_newline_run(b, k as int, ne as int);
        }
        let (j, jl) = skip_ws(bytes, ne, start_line);
        proof {
            lemma_ws_end(b, ne as int);
        }
        if j >= n || bytes[j] != 0x3E {
            return Err(
                ParseError::MalformedTag {
                    kind: MalformedTagKind::ExpectedCloseAngle { tag: name },
                    line: start_line,
                },
            );
        }
        proof {
            lemma_ascii_cut(b, j as int);
            lemma_line_step(b, j as int);
            lemma_count_newlines_bound(b, j + 1);
        }
        let end = j + 1;
        let span_end = SourcePosition { line: jl, offset: offset_u32(end) };
        let tok = Token::Close { name, span: SourceSpan { start: span_start, end: span_end }, body_end: start };
        return Ok((tok, end, jl));
    }
    proof {
        lemma_ascii_cut(b, start as int);
        lemma_name_end(b, start + 1);
        lemma_line_step(b, start as int);
    }
    let ne = scan_name_end(bytes, start + 1);
    let name = slice_str(input, start + 1, ne).to_owned();
    proof {
        let k = start + 1;
        assert forall|q: int| k <= q < ne implies #[trigger] b[q] != 0x0A by {
            lemma_name_end(b, k as int);
        }
        lemma_no_newline_run(b, start as int, ne as int);
    }
    let list = match parse_attribute_list(input, bytes, &name, start_line, ne, start_line) {
        Ok(l) => l,
        Err(e) => {
            return Err(e);
        },
    };
    proof {
        lemma_count_newlines_bound(b, list.end as int);
    }
    let end = list.end;
    let span = SourceSpan { start: span_start, end: SourcePosition { line: list.line, offset: offset_u32(end) } };
    let tok = if list.self_closing {
        Token::SelfClose { name, attrs: list.attrs, span }
    } else {
        Token::Open { name, attrs: list.attrs, span, body_start: end }
    };
    Ok((tok, end, list.line))
}

proof fn lemma_no_newline_run(b: Seq<u8>, i: int, j: int)
    requires
        0 <= i <= j <= b.len(),
        forall|q: int| i < q < j ==> #[trigger] b[q] != 0x0A,
        i < b.len() ==> b[i] != 0x0A || i == j,
    ensures
        line_of(b, j) == line_of(b, i) || (i < j && line_of(b, j) == line_of(b, i + 1)),
        (i < j && b[i] != 0x0A) ==> line_of(b, j) == line_of(b, i),
    decreases j - i,
{
    if i < j {
        lemma_no_newline_run_tail(b, i + 1, j);
    }
}

proof fn lemma_no_newline_run_tail(b: Seq<u8>, i: int, j: int)
    requires
        0 <= i <= j <= b.len(),
        forall|q: int| i <= q < j ==> #[trigger] b[q] != 0x0A,
    ensures
        line_of(b, j) == line_of(b, i),
    decreases j - i,
{
    if i < j {
        lemma_no_newline_run_tail(b, i, j - 1);
    }
}

pub(crate) fn starts_with_at(bytes: &[u8], i: usize, pat: &[u8]) -> (r: bool)
    requires
        i <= bytes@.len(),
    ensures
        r == starts_at(bytes@, i as int, pat@),
{
    if pat.len() > bytes.len() - i {
        return false;
    }
    let end = i + pat.len();
    let mut k: usize = 0;
    while k < pat.len()
        invariant
            i + pat@.len() <= bytes@.len(),
            end == i + pat@.len(),
            k <= pat@.len(),
            forall|q: int| 0 <= q < k ==> bytes@[i + q] == pat@[q],
        decreases pat@.len() - k,
    {
        if bytes[i + k] != pat[k] {
            proof {
                assert(bytes@.subrange(i as int, i + pat@.len())[k as int] != pat@[k as int]);
            }
            return false;
        }
        k = k + 1;
    }
    proof {
        assert(bytes@.subrange(i as int, i + pat@.len()) =~= pat@);
    }
    true
}

/// Scan from `from` for `terminator`; on a match return the index just past
/// it and the line there.
fn scan_to_terminator(bytes: &[u8], from: usize, start_line: u32, terminator: &[u8]) -> (r:
    Option<(usize, u32)>)
    requires
        from <= bytes@.len() <= 4_294_967_294,
        start_line == line_of(bytes@, from as int),
        terminator@.len() == 3,
        forall|q: int| 0 <= q < 3 ==> #[trigger] terminator@[q] != 0x0A,
    ensures
        match r {
            Some((next, nl)) => find_pat(bytes@, from as int, terminator@) == Some(next - 3)
                && nl == line_of(bytes@, next as int) && from + 3 <= next <= bytes@.len(),
            None => find_pat(bytes@, from as int, terminator@) is None,
        },
{
    let ghost b = bytes@;
    let n = bytes.len();
    let mut i = from;
    let mut line = start_line;
    while i < n && n - i >= 3
        invariant
            from <= i <= n,
            n == b.len(),
            b == bytes@,
            n <= 4_294_967_294,
            terminator@.len() == 3,
            forall|q: int| 0 <= q < 3 ==> #[trigger] terminator@[q] != 0x0A,
            line == line_of(b, i as int),
            find_pat(b, from as int, terminator@) == find_pat(b, i as int, terminator@),
        decreases n - i,
    {
        if starts_with_at(bytes, i, terminator) {
            proof {
                assert forall|q: int| i <= q < i + 3 implies #[trigger] b[q] != 0x0A by {
                    assert(b.subrange(i as int, i + 3)[q - i] == terminator@[q - i]);
                }
                lemma_no_newline_run_tail(b, i as int, i + 3);
            }
            return Some((i + 3, line));
        }
        proof {
            lemma_line_step(b, i as int);
        }
        if bytes[i] == 0x0A {
            line = line + 1;
        }
        i = i + 1;
    }
    None
}

/// Result of tokenization: the tag tokens plus the byte ranges of comments
/// and CDATA brackets, both in ascending source order.
pub(crate) struct TokenStream {
    pub tokens: Vec<Token>,
    pub trivia: Vec<(usize, usize)>,
}

/// The models of a token list.
pub(crate) open spec fn tokens_model(v: Seq<Token>) -> Seq<TokenModel> {
    Seq::new(v.len(), |i: int| v[i].model())
}

/// Every token is placed in `b`, and tokens come in order without overlap.
pub(crate) open spec fn tokens_placed(v: Seq<Token>, b: Seq<u8>) -> bool {
    &&& forall|k: int| 0 <= k < v.len() ==> #[trigger] v[k].placed(b)
    &&& forall|k: int, l: int|
        0 <= k < l < v.len() ==> #[trigger] v[k].span().end.offset <= #[trigger] v[l].span().start.offset
}

/// Trivia ranges are in bounds, on character boundaries, ordered.
pub(crate) open spec fn trivia_placed(v: Seq<(usize, usize)>, b: Seq<u8>) -> bool {
    &&& forall|k: int|
        0 <= k < v.len() ==> #[trigger] v[k].0 <= v[k].1 && cut_ok(b, v[k].0 as int) && cut_ok(
            b,
            v[k].1 as int,
        )
    &&& forall|k: int, l: int| 0 <= k < l < v.len() ==> #[trigger] v[k].1 <= #[trigger] v[l].0
}

pub(crate) open spec fn trivia_model(v: Seq<(usize, usize)>) -> Seq<(int, int)> {
    Seq::new(v.len(), |i: int| (v[i].0 as int, v[i].1 as int))
}

fn comment_open_bytes() -> (r: [u8; 4])
    ensures
        r@ == comment_open(),
{
    let r = [0x3Cu8, 0x21, 0x2D, 0x2D];
    proof {
        assert(r@ =~= comment_open());
    }
    r
}

fn comment_close_bytes() -> (r: [u8; 3])
    ensures
        r@ == comment_close(),
{
    let r = [0x2Du8, 0x2D, 0x3E];
    proof {
        assert(r@ =~= comment_close());
    }
    r
}

pub(crate) fn cdata_open_bytes() -> (r: [u8; 9])
    ensures
        r@ == cdata_open(),
{
    let r = [0x3Cu8, 0x21, 0x5B, 0x43, 0x44, 0x41, 0x54, 0x41, 0x5B];
    proof {
        assert(r@ =~= cdata_open());
    }
    r
}

fn cdata_close_bytes() -> (r: [u8; 3])
    ensures
        r@ == cdata_close(),
{
    let r = [0x5Du8, 0x5D, 0x3E];
    proof {
        assert(r@ =~= cdata_close());
    }
    r
}

/// `true` if the bytes starting at `i` look like the body of a tag.
fn looks_like_tag_start(bytes: &[u8], i: usize) -> (r: bool)
    ensures
        r == looks_like_tag(bytes@, i as int),
{
    if i >= bytes.len() {
        return false;
    }
    if bytes[i] == 0x2F {
        i + 1 < bytes.len() && is_name_start(bytes[i + 1])
    } else {
        is_name_start(bytes[i])
    }
}

/// What [`scan_at`] found at one position.
enum Found {
    Nothing,
    Comment { next: usize, line: u32 },
    Cdata { next: usize, line: u32 },
    Tag { tok: Token, next: usize, line: u32 },
}

/// One step of the scanner at byte `i`: a comment, a CDATA section, a tag,
/// or nothing to record.
fn scan_at(input: &str, bytes: &[u8], i: usize, line: u32) -> (r: Result<Found, ParseError>)
    requires
        bytes@ == input.spec_bytes(),
        input_ok(bytes@),
        i < bytes@.len(),
        line == line_of(bytes@, i as int),
    ensures
        match r {
            Err(e) => scan_step(bytes@, i as int) == ScanStep::Fail(e@),
            Ok(Found::Nothing) => scan_step(bytes@, i as int) == ScanStep::Skip,
            Ok(Found::Comment { next, line: nl }) => {
                &&& scan_step(bytes@, i as int) == ScanStep::Trivia(
                    seq![(i as int, next as int)],
                    next as int,
                )
                &&& i < next <= bytes@.len()
                &&& cut_ok(bytes@, i as int)
                &&& cut_ok(bytes@, next as int)
                &&& nl == line_of(bytes@, next as int)
            },
            Ok(Found::Cdata { next, line: nl }) => {
                &&& scan_step(bytes@, i as int) == ScanStep::Trivia(
                    seq![(i as int, i + 9), (next - 3, next as int)],
                    next as int,
                )
                &&& i + 9 <= next - 3
                &&& next <= bytes@.len()
                &&& cut_ok(bytes@, i as int)
                &&& cut_ok(bytes@, i + 9)
                &&& cut_ok(bytes@, next - 3)
                &&& cut_ok(bytes@, next as int)
                &&& nl == line_of(bytes@, next as int)
            },
            Ok(Found::Tag { tok, next, line: nl }) => {
                &&& scan_step(bytes@, i as int) == ScanStep::Tag(tok.model(), next as int)
                &&& tok.placed(bytes@)
                &&& tok.span().start.offset == i
                &&& tok.span().end.offset == next
                &&& nl == line_of(bytes@, next as int)
            },
        },
{
    let ghost b = bytes@;
    proof {
        reveal(scan_step);
    }
    if bytes[i] != 0x3C {
        return Ok(Found::Nothing);
    }
    proof {
        lemma_ascii_cut(b, i as int);
    }
    let c_open = comment_open_bytes();
    if starts_with_at(bytes, i, &c_open) {
        proof {
            assert forall|q: int| i as int <= q < i + 4 implies #[trigger] b[q] != 0x0A by {
                assert(b.subrange(i as int, i + 4)[q - i] == comment_open()[q - i]);
            }
            lemma_no_newline_run_tail(b, i as int, i + 4);
        }
        let c_close = comment_close_bytes();
        return match scan_to_terminator(bytes, i + 4, line, &c_close) {
            None => Err(ParseError::MalformedTag { kind: MalformedTagKind::UnterminatedComment, line }),
            Some((next, nl)) => {
                proof {
                    lemma_find_pat(b, i + 4, comment_close());
                    assert(b.subrange(next - 3, next as int)[2] == comment_close()[2]);
                    lemma_ascii_cut(b, next - 1);
                }
                Ok(Found::Comment { next, line: nl })
            },
        };
    }
    let d_open = cdata_open_bytes();
    if starts_with_at(bytes, i, &d_open) {
        proof {
            assert forall|q: int| i as int <= q < i + 9 implies #[trigger] b[q] != 0x0A by {
                assert(b.subrange(i as int, i + 9)[q - i] == cdata_open()[q - i]);
            }
            lemma_no_newline_run_tail(b, i as int, i + 9);
            assert(b.subrange(i as int, i + 9)[8] == cdata_open()[8]);
            lemma_ascii_cut(b, i + 8);
        }
        let d_close = cdata_close_bytes();
        return match scan_to_terminator(bytes, i + 9, line, &d_close) {
            None => Err(ParseError::MalformedTag { kind: MalformedTagKind::UnterminatedCdata, line }),
            Some((next, nl)) => {
                proof {
                    lemma_find_pat(b, i + 9, cdata_close());
                    assert(b.subrange(next - 3, next as int)[0] == cdata_close()[0]);
                    assert(b.subrange(next - 3, next as int)[2] == cdata_close()[2]);
                    lemma_ascii_cut(b, next - 3);
                    lemma_ascii_cut(b, next - 1);
                }
                Ok(Found::Cdata { next, line: nl })
            },
        };
    }
    if looks_like_tag_start(bytes, i + 1) {
        return match parse_tag(input, bytes, i, line) {
            Ok((tok, next, nl)) => Ok(Found::Tag { tok, next, line: nl }),
            Err(e) => Err(e),
        };
    }
    Ok(Found::Nothing)
}

/// Tokenize the entire input, returning every tag in source order plus the
/// byte ranges of every comment / CDATA bracket. Returns the first error met.
pub(crate) fn tokenize(input: &str) -> (r: Result<TokenStream, ParseError>)
    requires
        input_ok(input.spec_bytes()),
    ensures
        match r {
            Ok(ts) => spec_tokenize(input.spec_bytes()) == Ok::<
                (Seq<TokenModel>, Seq<(int, int)>),
                ParseFailure,
            >((tokens_model(ts.tokens@), trivia_model(ts.trivia@))) && tokens_placed(
                ts.tokens@,
                input.spec_bytes(),
            ) && trivia_placed(ts.trivia@, input.spec_bytes()),
            Err(e) => spec_tokenize(input.spec_bytes()) == Err::<
                (Seq<TokenModel>, Seq<(int, int)>),
                ParseFailure,
            >(e@),
        },
{
    let bytes = input.as_bytes();
    let ghost b = bytes@;
    let n = bytes.len();
    let mut tokens: Vec<Token> = Vec::new();
    let mut trivia: Vec<(usize, usize)> = Vec::new();
    let mut i: usize = 0;
    let mut line: u32 = 1;
    proof {
        assert(tokens_model(tokens@) =~= Seq::<TokenModel>::empty());
        assert(trivia_model(trivia@) =~= Seq::<(int, int)>::empty());
        lemma_join_empty(scan_from(b, 0));
    }
    while i < n
        invariant
            b == bytes@,
            b == input.spec_bytes(),
            n == b.len(),
            input_ok(b),
            i <= n,
            line == line_of(b, i as int),
            spec_tokenize(b) == join_scan(
                tokens_model(tokens@),
                trivia_model(trivia@),
                scan_from(b, i as int),
            ),
            tokens_placed(tokens@, b),
            forall|k: int| 0 <= k < tokens@.len() ==> #[trigger] tokens@[k].span().end.offset <= i,
            trivia_placed(trivia@, b),
            forall|k: int| 0 <= k < trivia@.len() ==> #[trigger] trivia@[k].1 <= i,
        decreases n - i,
    {
        let ghost old_tm = tokens_model(tokens@);
        let ghost old_tv = trivia_model(trivia@);
        let found = match scan_at(input, bytes, i, line) {
            Ok(f) => f,
            Err(e) => {
                return Err(e);
            },
        };
        match found {
            Found::Nothing => {
                proof {
                    lemma_line_step(b, i as int);
                }
                if bytes[i] == 0x0A {
                    line = line + 1;
                }
                i = i + 1;
            },
            Found::Comment { next, line: nl } => {
                trivia.push((i, next));
                proof {
                    assert(trivia_model(trivia@) =~= old_tv + seq![(i as int, next as int)]);
                    assert(old_tm =~= old_tm + Seq::<TokenModel>::empty());
                    lemma_join_assoc(
                        old_tm,
                        old_tv,
                        Seq::empty(),
                        seq![(i as int, next as int)],
                        scan_from(b, next as int),
                    );
                }
                i = next;
                line = nl;
            },
            Found::Cdata { next, line: nl } => {
                trivia.push((i, i + 9));
                trivia.push((next - 3, next));
                proof {
                    assert(trivia_model(trivia@) =~= old_tv + seq![
                        (i as int, i + 9),
                        (next - 3, next as int),
                    ]);
                    assert(old_tm =~= old_tm + Seq::<TokenModel>::empty());
                    lemma_join_assoc(
                        old_tm,
                        old_tv,
                        Seq::empty(),
                        seq![(i as int, i + 9), (next - 3, next as int)],
                        scan_from(b, next as int),
                    );
                }
                i = next;
                line = nl;
            },
            Found::Tag { tok, next, line: nl } => {
                let ghost tm = tok.model();
                tokens.push(tok);
                proof {
                    assert(tokens_model(tokens@) =~= old_tm + seq![tm]);
                    assert(old_tv =~= old_tv + Seq::<(int, int)>::empty());
                    lemma_join_assoc(old_tm, old_tv, seq![tm], Seq::empty(), scan_from(b, next as int));
                }
                i = next;
                line = nl;
            },
        }
    }
    proof {
        assert(tokens_model(tokens@) + Seq::<TokenModel>::empty() =~= tokens_model(tokens@));
        assert(trivia_model(trivia@) + Seq::<(int, int)>::empty() =~= trivia_model(trivia@));
    }
    Ok(TokenStream { tokens, trivia })
}

proof fn lemma_find_pat(b: Seq<u8>, i: int, pat: Seq<u8>)
    ensures
        match find_pat(b, i, pat) {
            Some(k) => i <= k && starts_at(b, k, pat),
            None => true,
        },
    decreases b.len() + 1 - i,
{
    if !(i < 0 || i + pat.len() > b.len()) && !starts_at(b, i, pat) {
        lemma_find_pat(b, i + 1, pat);
    }
}

proof fn lemma_join_empty(r: Result<(Seq<TokenModel>, Seq<(int, int)>), ParseFailure>)
    ensures
        join_scan(Seq::empty(), Seq::empty(), r) == r,
{
    match r {
        Ok((ts, vs)) => {
            assert(Seq::<TokenModel>::empty() + ts =~= ts);
            assert(Seq::<(int, int)>::empty() + vs =~= vs);
        },
        Err(_) => {},
    }
}

proof fn lemma_join_assoc(
    ts: Seq<TokenModel>,
    vs: Seq<(int, int)>,
    ts2: Seq<TokenModel>,
    vs2: Seq<(int, int)>,
    r: Result<(Seq<TokenModel>, Seq<(int, int)>), ParseFailure>,
)
    ensures
        join_scan(ts, vs, join_scan(ts2, vs2, r)) == join_scan(ts + ts2, vs + vs2, r),
{
    match r {
        Ok((a, c)) => {
            assert(ts + (ts2 + a) =~= ts + ts2 + a);
            assert(vs + (vs2 + c) =~= vs + vs2 + c);
        },
        Err(_) => {},
    }
}

} // verus!
