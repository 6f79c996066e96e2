//! CSS-subset selector parser: a recursive-descent reading of the grammar in
//! [`super::grammar`].

use super::ast::{
    compounds_view, preds_view, prefix_view, Combinator, CompiledSelector, Compound, CompoundModel, PredModel,
    Predicate, Simple, SimpleModel,
};
use super::error::{SelectorError, SelectorFailure, SyntaxKind};
use super::grammar::{
    at_byte, digit_end, expected, max_compound, max_not_depth, max_predicates, max_union, op_predicate,
    sp_attr_pred, close_bracket, sp_chain, sp_compound, sp_preds, sp_pseudo, sp_quoted, sp_simple, sp_uint, sp_union,
    spec_selector, syntax, unicode_ws, build_compound, simple_result,
};
use crate::escape::{decode_entities, is_name_char, is_name_start, parse_u32_range, str_chars};
use crate::source::{bytes_of, cut_ok, lemma_ascii_cut, lemma_end_cut, lemma_valid_bytes, slice_str, str_eq, text_of};
use crate::tokenizer::{name_end, quote_end, ws_end};
use vstd::prelude::*;
use vstd::string::*;

verus! {

broadcast use {vstd::utf8::group_utf8_lib, vstd::string::group_string_axioms};

/// Maximum nesting depth of `:not(...)`.
pub const MAX_NOT_DEPTH: u32 = 64;

/// Maximum number of simple selectors in one compound chain.
pub const MAX_COMPOUND_LEN: usize = 64;

/// Maximum number of comma-separated compounds in a selector union.
pub const MAX_UNION_LEN: usize = 64;

/// Maximum number of predicates on one simple selector.
pub const MAX_PREDICATES_PER_SIMPLE: usize = 32;

/// Maximum number of digits read for an `:nth-child` argument.
pub const MAX_DIGITS: usize = 11;

struct Parser<'a> {
    bytes: &'a [u8],
    src: &'a str,
    pos: usize,
    /// Current `:not(` nesting depth.
    not_depth: u32,
}

proof fn lemma_name_run(b: Seq<u8>, i: int)
    requires
        0 <= i <= b.len(),
    ensures
        i <= name_end(b, i) <= b.len(),
        forall|k: int| i <= k < name_end(b, i) ==> crate::escape::name_char_byte(#[trigger] b[k]),
    decreases b.len() - i,
{
    if i < b.len() && crate::escape::name_char_byte(b[i]) {
        lemma_name_run(b, i + 1);
    }
}

proof fn lemma_ws_run(b: Seq<u8>, i: int)
    requires
        0 <= i <= b.len(),
    ensures
        i <= ws_end(b, i) <= b.len(),
    decreases b.len() - i,
{
    if i < b.len() && crate::tokenizer::ascii_ws(b[i]) {
        lemma_ws_run(b, i + 1);
    }
}

proof fn lemma_digit_run(b: Seq<u8>, i: int)
    requires
        0 <= i <= b.len(),
    ensures
        i <= digit_end(b, i) <= b.len(),
        forall|k: int| i <= k < digit_end(b, i) ==> 0x30 <= #[trigger] b[k] <= 0x39,
    decreases b.len() - i,
{
    if i < b.len() && 0x30 <= b[i] <= 0x39 {
        lemma_digit_run(b, i + 1);
    }
}

proof fn lemma_quote_run(b: Seq<u8>, i: int)
    requires
        0 <= i <= b.len(),
    ensures
        i <= quote_end(b, i) <= b.len(),
        quote_end(b, i) < b.len() ==> b[quote_end(b, i)] == 0x22,
    decreases b.len() - i,
{
    if i < b.len() && b[i] != 0x22 {
        lemma_quote_run(b, i + 1);
    }
}

/// A run of ASCII bytes `b[i..j]` (after an ASCII byte or the start) is cut
/// at character boundaries on both ends.
proof fn lemma_ascii_run_cut(b: Seq<u8>, i: int, j: int)
    requires
        vstd::utf8::valid_utf8(b),
        0 <= i < j <= b.len(),
        forall|k: int| i <= k < j ==> #[trigger] b[k] < 0x80,
    ensures
        cut_ok(b, i),
        cut_ok(b, j),
{
    lemma_ascii_cut(b, i);
    lemma_ascii_cut(b, j - 1);
}

impl<'a> Parser<'a> {
    spec fn wf(&self) -> bool {
        &&& self.bytes@ == self.src.spec_bytes()
        &&& vstd::utf8::valid_utf8(self.bytes@)
        &&& self.pos <= self.bytes@.len()
        &&& self.bytes@.len() <= usize::MAX
    }

    spec fn b(&self) -> Seq<u8> {
        self.bytes@
    }

    fn new(src: &'a str) -> (r: Parser<'a>)
        ensures
            r.wf(),
            r.pos == 0,
            r.not_depth == 0,
            r.bytes@ == src.spec_bytes(),
    {
        proof {
            lemma_valid_bytes(src@);
        }
        let bytes = src.as_bytes();
        let _n = bytes.len();
        Parser { bytes, src, pos: 0, not_depth: 0 }
    }

    fn peek_is(&self, c: u8) -> (r: bool)
        requires
            self.wf(),
        ensures
            r == at_byte(self.bytes@, self.pos as int, c),
    {
        self.pos < self.bytes.len() && self.bytes[self.pos] == c
    }

    fn at_end(&self) -> (r: bool)
        requires
            self.wf(),
        ensures
            r == (self.pos >= self.bytes@.len()),
    {
        self.pos >= self.bytes.len()
    }

    fn syntax_error(&self, kind: SyntaxKind) -> (r: SelectorError)
        ensures
            r@ == syntax(kind@, self.pos as int),
    {
        SelectorError::Syntax { kind, at: self.pos }
    }

    fn expect(&mut self, byte: u8, label: &'static str) -> (r: Result<(), SelectorError>)
        requires
            old(self).wf(),
        ensures
            final(self).wf(),
            final(self).bytes == old(self).bytes,
            final(self).src == old(self).src,
            final(self).not_depth == old(self).not_depth,
            final(self).pos >= old(self).pos,
            match r {
                Ok(()) => at_byte(old(self).bytes@, old(self).pos as int, byte) && final(self).pos
                    == old(self).pos + 1,
                Err(e) => !at_byte(old(self).bytes@, old(self).pos as int, byte) && e@ == expected(
                    label@,
                    old(self).pos as int,
                ) && final(self).pos == old(self).pos,
            },
    {
        if self.peek_is(byte) {
            self.pos = self.pos + 1;
            Ok(())
        } else {
            Err(SelectorError::Syntax { kind: SyntaxKind::Expected { what: label }, at: self.pos })
        }
    }

    fn skip_ws(&mut self)
        requires
            old(self).wf(),
        ensures
            final(self).wf(),
            final(self).bytes == old(self).bytes,
            final(self).src == old(self).src,
            final(self).not_depth == old(self).not_depth,
            final(self).pos >= old(self).pos,
            final(self).pos == ws_end(old(self).bytes@, old(self).pos as int),
    {
        let ghost start = self.pos as int;
        proof {
            lemma_ws_run(self.bytes@, start);
        }
        while self.pos < self.bytes.len() && (self.bytes[self.pos] == 0x20 || self.bytes[self.pos]
            == 0x09 || self.bytes[self.pos] == 0x0A || self.bytes[self.pos] == 0x0C
            || self.bytes[self.pos] == 0x0D)
            invariant
                self.wf(),
                self.bytes == old(self).bytes,
                self.src == old(self).src,
                self.not_depth == old(self).not_depth,
                start <= self.pos,
                ws_end(self.bytes@, start) == ws_end(self.bytes@, self.pos as int),
            decreases self.bytes@.len() - self.pos,
        {
            self.pos = self.pos + 1;
        }
    }

    fn skip_ws_returning_seen(&mut self) -> (r: bool)
        requires
            old(self).wf(),
        ensures
            final(self).wf(),
            final(self).bytes == old(self).bytes,
            final(self).src == old(self).src,
            final(self).not_depth == old(self).not_depth,
            final(self).pos >= old(self).pos,
            final(self).pos == ws_end(old(self).bytes@, old(self).pos as int),
            r == (final(self).pos > old(self).pos),
    {
        let start = self.pos;
        self.skip_ws();
        self.pos > start
    }

    /// Read a name whose first byte is at the cursor.
    fn read_name(&mut self) -> (r: String)
        requires
            old(self).wf(),
            old(self).pos < old(self).bytes@.len(),
            crate::escape::name_start_byte(old(self).bytes@[old(self).pos as int]),
        ensures
            final(self).wf(),
            final(self).bytes == old(self).bytes,
            final(self).src == old(self).src,
            final(self).not_depth == old(self).not_depth,
            final(self).pos >= old(self).pos,
            final(self).pos == name_end(old(self).bytes@, old(self).pos as int),
            r@ == text_of(old(self).bytes@, old(self).pos as int, final(self).pos as int),
    {
        let start = self.pos;
        let ghost b = self.bytes@;
        proof {
            lemma_name_run(b, start as int);
        }
        while self.pos < self.bytes.len() && is_name_char(self.bytes[self.pos])
            invariant
                self.wf(),
                self.bytes == old(self).bytes,
                self.src == old(self).src,
                self.not_depth == old(self).not_depth,
                b == self.bytes@,
                start <= self.pos,
                name_end(b, start as int) == name_end(b, self.pos as int),
            decreases self.bytes@.len() - self.pos,
        {
            self.pos = self.pos + 1;
        }
        proof {
            lemma_name_run(b, start as int);
            assert forall|k: int| start <= k < self.pos implies #[trigger] b[k] < 0x80 by {
                assert(crate::escape::name_char_byte(b[k]));
            }
            lemma_ascii_run_cut(b, start as int, self.pos as int);
        }
        slice_str(self.src, start, self.pos).to_owned()
    }

    /// Read a pseudo-class name (which may contain `-`) at the cursor.
    fn read_pseudo_name(&mut self) -> (r: String)
        requires
            old(self).wf(),
            old(self).pos < old(self).bytes@.len(),
            crate::escape::name_start_byte(old(self).bytes@[old(self).pos as int]),
        ensures
            final(self).wf(),
            final(self).bytes == old(self).bytes,
            final(self).src == old(self).src,
            final(self).not_depth == old(self).not_depth,
            final(self).pos >= old(self).pos,
            final(self).pos == name_end(old(self).bytes@, old(self).pos as int),
            r@ == text_of(old(self).bytes@, old(self).pos as int, final(self).pos as int),
    {
        self.read_name()
    }

    /// Read a double-quoted value, decoding entity references.
    fn read_quoted_string(&mut self) -> (r: Result<String, SelectorError>)
        requires
            old(self).wf(),
        ensures
            final(self).wf(),
            final(self).bytes == old(self).bytes,
            final(self).src == old(self).src,
            final(self).not_depth == old(self).not_depth,
            final(self).pos >= old(self).pos,
            match r {
                Ok(v) => sp_quoted(old(self).bytes@, old(self).pos as int) == Ok::<
                    (Seq<char>, int),
                    SelectorFailure,
                >((v@, final(self).pos as int)),
                Err(e) => sp_quoted(old(self).bytes@, old(self).pos as int) == Err::<
                    (Seq<char>, int),
                    SelectorFailure,
                >(e@),
            },
    {
        let ghost b = self.bytes@;
        if let Err(e) = self.expect(0x22, "'\"'") {
            return Err(e);
        }
        let start = self.pos;
        proof {
            lemma_quote_run(b, start as int);
            lemma_ascii_cut(b, start - 1);
        }
        while self.pos < self.bytes.len() && self.bytes[self.pos] != 0x22
            invariant
                self.wf(),
                self.bytes == old(self).bytes,
                self.src == old(self).src,
                self.not_depth == old(self).not_depth,
                b == self.bytes@,
                start <= self.pos,
                quote_end(b, start as int) == quote_end(b, self.pos as int),
            decreases self.bytes@.len() - self.pos,
        {
            self.pos = self.pos + 1;
        }
        if self.at_end() {
            return Err(SelectorError::UnexpectedEnd);
        }
        proof {
            lemma_ascii_cut(b, self.pos as int);
        }
        let value = crate::escape::cow_into_string(decode_entities(slice_str(self.src, start, self.pos)));
        self.pos = self.pos + 1;
        Ok(value)
    }

    /// Read an unsigned decimal integer (at most 11 digits, fitting `u32`).
    fn read_unsigned_int(&mut self) -> (r: Result<u32, SelectorError>)
        requires
            old(self).wf(),
        ensures
            final(self).wf(),
            final(self).bytes == old(self).bytes,
            final(self).src == old(self).src,
            final(self).not_depth == old(self).not_depth,
            final(self).pos >= old(self).pos,
            match r {
                Ok(n) => sp_uint(old(self).bytes@, old(self).pos as int) == Ok::<
                    (nat, int),
                    SelectorFailure,
                >((n as nat, final(self).pos as int)),
                Err(e) => sp_uint(old(self).bytes@, old(self).pos as int) == Err::<
                    (nat, int),
                    SelectorFailure,
                >(e@),
            },
    {
        let ghost b = self.bytes@;
        let start = self.pos;
        proof {
            lemma_digit_run(b, start as int);
        }
        while self.pos < self.bytes.len() && 0x30 <= self.bytes[self.pos] && self.bytes[self.pos] <= 0x39
            invariant
                self.wf(),
                self.bytes == old(self).bytes,
                self.src == old(self).src,
                self.not_depth == old(self).not_depth,
                b == self.bytes@,
                start == old(self).pos,
                start <= self.pos <= start + MAX_DIGITS,
                digit_end(b, start as int) == digit_end(b, self.pos as int),
            decreases self.bytes@.len() - self.pos,
        {
            if self.pos - start >= MAX_DIGITS {
                proof {
                    lemma_digit_run(b, self.pos + 1);
                }
                return Err(self.syntax_error(SyntaxKind::IntegerOutOfRange));
            }
            self.pos = self.pos + 1;
        }
        if start == self.pos {
            return Err(self.syntax_error(SyntaxKind::ExpectedDigit));
        }
        proof {
            lemma_digit_run(b, start as int);
            assert forall|k: int| start <= k < self.pos implies #[trigger] b[k] < 0x80 by {}
            lemma_ascii_run_cut(b, start as int, self.pos as int);
        }
        let digits = str_chars(slice_str(self.src, start, self.pos));
        let n = digits.len();
        proof {
            assert(digits@.subrange(0, n as int) =~= digits@);
        }
        match parse_u32_range(&digits, 0, n, 10) {
            Some(v) => Ok(v),
            None => Err(self.syntax_error(SyntaxKind::IntegerOutOfRange)),
        }
    }

    /// Parse an attribute predicate `[…]` whose `[` is at the cursor.
    fn parse_attribute_predicate(&mut self) -> (r: Result<Predicate, SelectorError>)
        requires
            old(self).wf(),
            at_byte(old(self).bytes@, old(self).pos as int, 0x5B),
        ensures
            final(self).wf(),
            final(self).bytes == old(self).bytes,
            final(self).src == old(self).src,
            final(self).not_depth == old(self).not_depth,
            match r {
                Ok(p) => sp_attr_pred(old(self).bytes@, old(self).pos as int) == Ok::<
                    (PredModel, int),
                    SelectorFailure,
                >((p.model(), final(self).pos as int)),
                Err(e) => sp_attr_pred(old(self).bytes@, old(self).pos as int) == Err::<
                    (PredModel, int),
                    SelectorFailure,
                >(e@),
            },
            r is Ok ==> final(self).pos > old(self).pos,
    {
        let ghost b = self.bytes@;
        self.pos = self.pos + 1;
        self.skip_ws();
        if !(self.pos < self.bytes.len() && is_name_start(self.bytes[self.pos])) {
            return Err(self.syntax_error(SyntaxKind::Expected { what: "attribute name after '['" }));
        }
        proof {
            lemma_name_run(b, self.pos as int);
        }
        let name = self.read_name();
        let name_end = self.pos;
        self.skip_ws();
        if self.peek_is(0x5D) {
            self.pos = self.pos + 1;
            return Ok(Predicate::HasAttr(name));
        }
        self.pos = name_end;
        if self.peek_is(0x3D) {
            self.pos = self.pos + 1;
            let value = match self.read_quoted_string() {
                Ok(v) => v,
                Err(e) => {
                    return Err(e);
                },
            };
            self.skip_ws();
            if let Err(e) = self.expect(0x5D, "']'") {
                return Err(e);
            }
            Ok(Predicate::AttrEquals(name, value))
        } else if self.peek_is(0x5E) || self.peek_is(0x24) || self.peek_is(0x2A) {
            let op = self.bytes[self.pos];
            self.parse_two_char_op(name, 0x3D, op)
        } else {
            Err(self.syntax_error(SyntaxKind::Expected { what: "attribute operator or ']'" }))
        }
    }

    /// Parse the rest of `[name OP= "value"]` where the cursor is at the
    /// operator's first byte `op` and the second byte must be
    /// `expected_second`.
    fn parse_two_char_op(&mut self, name: String, expected_second: u8, op: u8) -> (r: Result<
        Predicate,
        SelectorError,
    >)
        requires
            old(self).wf(),
            at_byte(old(self).bytes@, old(self).pos as int, op),
            expected_second == 0x3D,
        ensures
            final(self).wf(),
            final(self).bytes == old(self).bytes,
            final(self).src == old(self).src,
            final(self).not_depth == old(self).not_depth,
            final(self).pos >= old(self).pos,
            match r {
                Ok(p) => {
                    &&& at_byte(old(self).bytes@, old(self).pos + 1, 0x3D)
                    &&& sp_quoted(old(self).bytes@, old(self).pos + 2) matches Ok((v, q))
                    &&& close_bracket(old(self).bytes@, ws_end(old(self).bytes@, q), op_predicate(op, name@, v))
                        == Ok::<(PredModel, int), SelectorFailure>((p.model(), final(self).pos as int))
                },
                Err(e) => if !at_byte(old(self).bytes@, old(self).pos + 1, 0x3D) {
                    e@ == expected("'='"@, old(self).pos + 1)
                } else {
                    match sp_quoted(old(self).bytes@, old(self).pos + 2) {
                        Err(f) => e@ == f,
                        Ok((v, q)) => close_bracket(old(self).bytes@, ws_end(old(self).bytes@, q), op_predicate(op, name@, v))
                            == Err::<(PredModel, int), SelectorFailure>(e@),
                    }
                },
            },
    {
        self.pos = self.pos + 1;
        if let Err(e) = self.expect(expected_second, "'='") {
            return Err(e);
        }
        let value = match self.read_quoted_string() {
            Ok(v) => v,
            Err(e) => {
                return Err(e);
            },
        };
        self.skip_ws();
        if let Err(e) = self.expect(0x5D, "']'") {
            return Err(e);
        }
        if op == 0x5E {
            Ok(Predicate::AttrStartsWith(name, value))
        } else if op == 0x24 {
            Ok(Predicate::AttrEndsWith(name, value))
        } else {
            Ok(Predicate::AttrContains(name, value))
        }
    }

    /// Parse a pseudo-class whose `:` is at the cursor.
    fn parse_pseudo(&mut self) -> (r: Result<Predicate, SelectorError>)
        requires
            old(self).wf(),
            old(self).not_depth <= MAX_NOT_DEPTH,
            at_byte(old(self).bytes@, old(self).pos as int, 0x3A),
        ensures
            final(self).wf(),
            final(self).bytes == old(self).bytes,
            final(self).src == old(self).src,
            final(self).not_depth == old(self).not_depth,
            match r {
                Ok(p) => sp_pseudo(old(self).bytes@, old(self).pos as int, old(self).not_depth as nat)
                    == Ok::<(PredModel, int), SelectorFailure>((p.model(), final(self).pos as int)),
                Err(e) => sp_pseudo(old(self).bytes@, old(self).pos as int, old(self).not_depth as nat)
                    == Err::<(PredModel, int), SelectorFailure>(e@),
            },
            r is Ok ==> final(self).pos > old(self).pos,
        decreases old(self).bytes@.len() - old(self).pos, 0int,
    {
        let ghost b = self.bytes@;
        let ghost p0 = self.pos as int;
        self.pos = self.pos + 1;
        if !(self.pos < self.bytes.len() && is_name_start(self.bytes[self.pos])) {
            return Err(self.syntax_error(SyntaxKind::Expected { what: "pseudo-class name after ':'" }));
        }
        proof {
            lemma_name_run(b, self.pos as int);
        }
        let name = self.read_pseudo_name();
        if str_eq(name.as_str(), "first-child") {
            Ok(Predicate::FirstChild)
        } else if str_eq(name.as_str(), "nth-child") {
            if let Err(e) = self.expect(0x28, "'(' after :nth-child") {
                return Err(e);
            }
            let n = match self.read_unsigned_int() {
                Ok(n) => n,
                Err(e) => {
                    return Err(e);
                },
            };
            if n == 0 {
                return Err(self.syntax_error(SyntaxKind::NthChildMustBeOneOrGreater));
            }
            if let Err(e) = self.expect(0x29, "')' after nth-child argument") {
                return Err(e);
            }
            Ok(Predicate::NthChild(n))
        } else if str_eq(name.as_str(), "not") {
            if let Err(e) = self.expect(0x28, "'(' after :not") {
                return Err(e);
            }
            if self.not_depth >= MAX_NOT_DEPTH {
                return Err(self.syntax_error(SyntaxKind::NotNestingTooDeep { max: MAX_NOT_DEPTH }));
            }
            self.skip_ws();
            self.not_depth = self.not_depth + 1;
            let inner = self.parse_simple();
            self.not_depth = self.not_depth - 1;
            let inner = match inner {
                Ok(s) => s,
                Err(e) => {
                    return Err(e);
                },
            };
            self.skip_ws();
            if let Err(e) = self.expect(0x29, "')' after :not argument") {
                return Err(e);
            }
            Ok(Predicate::Not(Box::new(inner)))
        } else {
            Err(self.syntax_error(SyntaxKind::UnsupportedPseudoClass { name }))
        }
    }

    /// Parse a simple selector at the cursor.
    fn parse_simple(&mut self) -> (r: Result<Simple, SelectorError>)
        requires
            old(self).wf(),
            old(self).not_depth <= MAX_NOT_DEPTH,
        ensures
            final(self).wf(),
            final(self).bytes == old(self).bytes,
            final(self).src == old(self).src,
            final(self).not_depth == old(self).not_depth,
            match r {
                Ok(s) => sp_simple(old(self).bytes@, old(self).pos as int, old(self).not_depth as nat)
                    == Ok::<(SimpleModel, int), SelectorFailure>((s.model(), final(self).pos as int))
                    && final(self).pos > old(self).pos,
                Err(e) => sp_simple(old(self).bytes@, old(self).pos as int, old(self).not_depth as nat)
                    == Err::<(SimpleModel, int), SelectorFailure>(e@),
            },
        decreases old(self).bytes@.len() - old(self).pos, 2int,
    {
        let ghost b = self.bytes@;
        let ghost p0 = self.pos as int;
        let ghost d = self.not_depth as nat;
        let star = self.peek_is(0x2A);
        let named = self.pos < self.bytes.len() && is_name_start(self.bytes[self.pos]);
        let tag = if star {
            self.pos = self.pos + 1;
            None
        } else if named {
            proof {
                lemma_name_run(b, p0);
                lemma_name_run(b, p0 + 1);
            }
            Some(self.read_name())
        } else {
            None
        };
        let ghost p1 = self.pos as int;
        let ghost tag_model = match &tag {
            Some(t) => Some(t@),
            None => None,
        };
        proof {
            assert(sp_simple(b, p0, d) == simple_result(star, named, tag_model, sp_preds(b, p1, d, Seq::empty())));
        }
        let mut predicates: Vec<Predicate> = Vec::new();
        proof {
            assert(preds_view(predicates@) =~= Seq::<PredModel>::empty());
        }
        while self.peek_is(0x5B) || self.peek_is(0x3A)
            invariant
                self.wf(),
                self.bytes == old(self).bytes,
                self.src == old(self).src,
                self.not_depth == old(self).not_depth,
                self.not_depth <= MAX_NOT_DEPTH,
                b == self.bytes@,
                p0 == old(self).pos,
                d == old(self).not_depth,
                p0 <= p1 <= self.pos <= b.len(),
                predicates@.len() <= MAX_PREDICATES_PER_SIMPLE,
                predicates@.len() > 0 ==> self.pos > p1,
                sp_preds(b, p1, d, Seq::empty()) == sp_preds(b, self.pos as int, d, preds_view(predicates@)),
                sp_simple(b, p0, d) == simple_result(star, named, tag_model, sp_preds(b, p1, d, Seq::empty())),
                (star || named) ==> p1 > p0,
            decreases b.len() - self.pos,
        {
            let ghost pb = self.pos as int;
            let item = if self.peek_is(0x5B) {
                self.parse_attribute_predicate()
            } else {
                self.parse_pseudo()
            };
            let item = match item {
                Ok(x) => x,
                Err(e) => {
                    return Err(e);
                },
            };
            let ghost before = preds_view(predicates@);
            predicates.push(item);
            proof {
                assert(preds_view(predicates@) =~= before.push(item.model()));
            }
            if predicates.len() > MAX_PREDICATES_PER_SIMPLE {
                return Err(self.syntax_error(SyntaxKind::TooManyPredicates { max: MAX_PREDICATES_PER_SIMPLE }));
            }
        }
        if !star && !named && predicates.len() == 0 {
            return Err(self.syntax_error(SyntaxKind::Expected { what: "tag name, '*', or predicate" }));
        }
        let s = Simple { tag, predicates };
        proof {
            assert(s.model().preds =~= preds_view(s.predicates@));
        }
        Ok(s)
    }

    /// Parse a compound selector (leading whitespace skipped); the cursor
    /// ends at the end of input or just before a `,`.
    fn parse_compound(&mut self) -> (r: Result<Compound, SelectorError>)
        requires
            old(self).wf(),
            old(self).not_depth == 0,
        ensures
            final(self).wf(),
            final(self).bytes == old(self).bytes,
            final(self).src == old(self).src,
            final(self).not_depth == 0,
            match r {
                Ok(c) => sp_compound(old(self).bytes@, old(self).pos as int) == Ok::<
                    (CompoundModel, int),
                    SelectorFailure,
                >((c.model(), final(self).pos as int)) && final(self).pos > old(self).pos,
                Err(e) => sp_compound(old(self).bytes@, old(self).pos as int) == Err::<
                    (CompoundModel, int),
                    SelectorFailure,
                >(e@),
            },
    {
        let ghost b = self.bytes@;
        let ghost p0 = self.pos as int;
        self.skip_ws();
        let first = match self.parse_simple() {
            Ok(s) => s,
            Err(e) => {
                return Err(e);
            },
        };
        let mut simples: Vec<Simple> = Vec::new();
        simples.push(first);
        let mut links: Vec<Combinator> = Vec::new();
        proof {
            assert(simples_view(simples@) =~= seq![first.model()]);
        }
        loop
            invariant_except_break
                sp_compound(b, p0) == sp_chain(b, self.pos as int, simples_view(simples@), links@),
            invariant
                self.wf(),
                self.bytes == old(self).bytes,
                self.src == old(self).src,
                self.not_depth == 0,
                b == self.bytes@,
                p0 == old(self).pos,
                self.pos > p0,
                simples@.len() == links@.len() + 1,
                simples@.len() <= MAX_COMPOUND_LEN,
            ensures
                sp_compound(b, p0) == Ok::<(CompoundModel, int), SelectorFailure>(
                    (build_compound(simples_view(simples@), links@), self.pos as int),
                ),
            decreases b.len() - self.pos,
        {
            let saved = self.pos;
            let had_ws = self.skip_ws_returning_seen();
            if self.at_end() || self.peek_is(0x2C) {
                self.pos = saved;
                self.skip_ws();
                break;
            }
            let combinator = if self.peek_is(0x3E) {
                self.pos = self.pos + 1;
                self.skip_ws();
                Combinator::Child
            } else if had_ws {
                Combinator::Descendant
            } else {
                return Err(self.syntax_error(SyntaxKind::Expected { what: "combinator or ','" }));
            };
            let next = match self.parse_simple() {
                Ok(s) => s,
                Err(e) => {
                    return Err(e);
                },
            };
            let ghost sv = simples_view(simples@);
            simples.push(next);
            links.push(combinator);
            proof {
                assert(simples_view(simples@) =~= sv.push(next.model()));
            }
            if simples.len() > MAX_COMPOUND_LEN {
                return Err(SelectorError::Syntax { kind: SyntaxKind::CompoundTooLong { max: MAX_COMPOUND_LEN }, at: self.pos });
            }
        }
        let ghost sv = simples_view(simples@);
        let ghost lv = links@;
        let n = links.len();
        let subject = simples.pop().unwrap();
        let mut prefix: Vec<(Combinator, Simple)> = Vec::new();
        while links.len() > 0
            invariant
                links@ == lv.subrange(0, links@.len() as int),
                simples@.len() == links@.len(),
                forall|j: int| 0 <= j < simples@.len() ==> #[trigger] simples@[j].model() == sv[j],
                prefix@.len() + links@.len() == n,
                n == lv.len(),
                sv.len() == n + 1,
                forall|k: int|
                    0 <= k < prefix@.len() ==> (#[trigger] prefix@[k]).0 == lv[n - 1 - k]
                        && prefix@[k].1.model() == sv[n - 1 - k],
            decreases links@.len(),
        {
            let link = links.pop().unwrap();
            let simple = simples.pop().unwrap();
            prefix.push((link, simple));
        }
        let c = Compound { subject, prefix };
        proof {
            assert(c.model() == build_compound(sv, lv)) by {
                assert(prefix_view(c.prefix@) =~= build_compound(sv, lv).prefix);
            }
        }
        Ok(c)
    }
}

/// The models of a list of simples.
pub open spec fn simples_view(v: Seq<Simple>) -> Seq<SimpleModel> {
    Seq::new(v.len(), |i: int| v[i].model())
}

/// `str::trim(s).is_empty()`: every character is Unicode whitespace.
fn is_blank(s: &str) -> (r: bool)
    ensures
        r == (forall|i: int| 0 <= i < s@.len() ==> unicode_ws(#[trigger] s@[i])),
{
    let cs = str_chars(s);
    let mut k: usize = 0;
    while k < cs.len()
        invariant
            cs@ == s@,
            k <= cs@.len(),
            forall|i: int| 0 <= i < k ==> unicode_ws(#[trigger] s@[i]),
        decreases cs@.len() - k,
    {
        let c = cs[k];
        let ws = ('\t' <= c && c <= '\r') || c == ' ' || c == '\u{85}' || c == '\u{A0}' || c
            == '\u{1680}' || ('\u{2000}' <= c && c <= '\u{200A}') || c == '\u{2028}' || c == '\u{2029}'
            || c == '\u{202F}' || c == '\u{205F}' || c == '\u{3000}';
        if !ws {
            return false;
        }
        k = k + 1;
    }
    true
}

/// Compile a selector string.
pub fn parse(input: &str) -> (r: Result<CompiledSelector, SelectorError>)
    ensures
        match r {
            Ok(c) => spec_selector(input@) == Ok::<Seq<CompoundModel>, SelectorFailure>(
                compounds_view(c.compounds@),
            ),
            Err(e) => spec_selector(input@) == Err::<Seq<CompoundModel>, SelectorFailure>(e@),
        },
{
    if is_blank(input) {
        return Err(SelectorError::Empty);
    }
    let mut p = Parser::new(input);
    let ghost b = p.bytes@;
    let first = match p.parse_compound() {
        Ok(c) => c,
        Err(e) => {
            return Err(e);
        },
    };
    let mut compounds: Vec<Compound> = Vec::new();
    compounds.push(first);
    proof {
        assert(compounds_view(compounds@) =~= seq![first.model()]);
    }
    while !p.at_end()
        invariant
            p.wf(),
            p.not_depth == 0,
            b == p.bytes@,
            b == bytes_of(input@),
            p.pos > 0,
            compounds@.len() <= MAX_UNION_LEN,
            spec_selector(input@) == sp_union(b, p.pos as int, compounds_view(compounds@)),
        decreases b.len() - p.pos,
    {
        let ghost p0 = p.pos as int;
        if let Err(e) = p.expect(0x2C, "','") {
            return Err(e);
        }
        p.skip_ws();
        if p.at_end() {
            return Err(SelectorError::UnexpectedEnd);
        }
        let next = match p.parse_compound() {
            Ok(c) => c,
            Err(e) => {
                return Err(e);
            },
        };
        let ghost cv = compounds_view(compounds@);
        compounds.push(next);
        proof {
            assert(compounds_view(compounds@) =~= cv.push(next.model()));
        }
        if compounds.len() > MAX_UNION_LEN {
            return Err(SelectorError::Syntax { kind: SyntaxKind::UnionTooLarge { max: MAX_UNION_LEN }, at: p.pos });
        }
    }
    Ok(CompiledSelector { compounds })
}

} // verus!
