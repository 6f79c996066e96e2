//! The selector grammar, as functions on the bytes of a selector string.
//!
//! ```text
//! selector   := compound ( WS* "," WS* compound )*
//! compound   := simple ( combinator simple )*
//! combinator := WS* ">" WS*  |  WS+
//! simple     := ( "*" | name ) predicate*  |  predicate+
//! predicate  := "[" WS* name ( ( "=" | "^=" | "$=" | "*=" ) quoted )? WS* "]"
//!             | ":" pseudo
//! pseudo     := "first-child" | "nth-child(" digits ")" | "not(" WS* simple WS* ")"
//! quoted     := '"' chars '"'          (entity references decoded)
//! ```
//!
//! Limits: 64 compounds per union, 64 simples per compound, 32 predicates
//! per simple, 64 levels of `:not`, 11 digits in an `:nth-child` argument.

use super::ast::{Combinator, CompoundModel, PredModel, SimpleModel};
use super::error::{SelectorFailure, SyntaxFault};
use crate::escape::{name_start_byte, parse_u32, spec_decode_entities};
use crate::source::{bytes_of, text_of};
use crate::tokenizer::{name_end, quote_end, ws_end};
use vstd::prelude::*;

verus! {

pub open spec fn max_union() -> nat {
    64
}

pub open spec fn max_compound() -> nat {
    64
}

pub open spec fn max_predicates() -> nat {
    32
}

pub open spec fn max_not_depth() -> nat {
    64
}

pub open spec fn max_digits() -> nat {
    11
}

/// `b[p]` exists and is `c`.
pub open spec fn at_byte(b: Seq<u8>, p: int, c: u8) -> bool {
    0 <= p < b.len() && b[p] == c
}

pub open spec fn syntax(kind: SyntaxFault, at: int) -> SelectorFailure {
    SelectorFailure::Syntax { kind, at: at as nat }
}

pub open spec fn expected(what: Seq<char>, at: int) -> SelectorFailure {
    SelectorFailure::Syntax { kind: SyntaxFault::Expected { what }, at: at as nat }
}

/// End of the run of ASCII digits starting at `i`.
pub open spec fn digit_end(b: Seq<u8>, i: int) -> int
    decreases b.len() - i,
{
    if 0 <= i < b.len() && 0x30 <= b[i] <= 0x39 {
        digit_end(b, i + 1)
    } else {
        i
    }
}

/// A double-quoted value at `p`: its entity-decoded text and the position
/// past the closing quote.
pub open spec fn sp_quoted(b: Seq<u8>, p: int) -> Result<(Seq<char>, int), SelectorFailure> {
    if !at_byte(b, p, 0x22) {
        Err(expected("'\"'"@, p))
    } else {
        let e = quote_end(b, p + 1);
        if e >= b.len() {
            Err(SelectorFailure::UnexpectedEnd)
        } else {
            Ok((spec_decode_entities(text_of(b, p + 1, e)), e + 1))
        }
    }
}

/// An unsigned decimal integer at `p` (at most 11 digits, fitting `u32`).
pub open spec fn sp_uint(b: Seq<u8>, p: int) -> Result<(nat, int), SelectorFailure> {
    let e = digit_end(b, p);
    if e - p > max_digits() {
        Err(syntax(SyntaxFault::IntegerOutOfRange, p + max_digits()))
    } else if e == p {
        Err(syntax(SyntaxFault::ExpectedDigit, p))
    } else {
        match parse_u32(text_of(b, p, e), 10) {
            Some(v) => Ok((v as nat, e)),
            None => Err(syntax(SyntaxFault::IntegerOutOfRange, e)),
        }
    }
}

/// The predicate for a two-character operator introduced by byte `c`.
pub open spec fn op_predicate(c: u8, name: Seq<char>, value: Seq<char>) -> PredModel {
    if c == 0x5E {
        PredModel::AttrStartsWith(name, value)
    } else if c == 0x24 {
        PredModel::AttrEndsWith(name, value)
    } else {
        PredModel::AttrContains(name, value)
    }
}

/// An attribute predicate `[…]` whose `[` is at `p`. Whitespace may stand
/// right after `[` and right before `]`.
pub open spec fn sp_attr_pred(b: Seq<u8>, p: int) -> Result<(PredModel, int), SelectorFailure> {
    let q = ws_end(b, p + 1);
    if !(0 <= q < b.len() && name_start_byte(b[q])) {
        Err(expected("attribute name after '['"@, q))
    } else {
        let ne = name_end(b, q);
        let name = text_of(b, q, ne);
        let m = ws_end(b, ne);
        if at_byte(b, m, 0x5D) {
            Ok((PredModel::HasAttr(name), m + 1))
        } else if at_byte(b, ne, 0x3D) {
            match sp_quoted(b, ne + 1) {
                Err(e) => Err(e),
                Ok((v, r)) => close_bracket(b, ws_end(b, r), PredModel::AttrEquals(name, v)),
            }
        } else if at_byte(b, ne, 0x5E) || at_byte(b, ne, 0x24) || at_byte(b, ne, 0x2A) {
            if !at_byte(b, ne + 1, 0x3D) {
                Err(expected("'='"@, ne + 1))
            } else {
                match sp_quoted(b, ne + 2) {
                    Err(e) => Err(e),
                    Ok((v, r)) => close_bracket(b, ws_end(b, r), op_predicate(b[ne], name, v)),
                }
            }
        } else {
            Err(expected("attribute operator or ']'"@, ne))
        }
    }
}

/// The predicate `pr`, if the `]` that closes it is at `t`.
pub open spec fn close_bracket(b: Seq<u8>, t: int, pr: PredModel) -> Result<(PredModel, int), SelectorFailure> {
    if at_byte(b, t, 0x5D) {
        Ok((pr, t + 1))
    } else {
        Err(expected("']'"@, t))
    }
}

/// A pseudo-class whose `:` is at `p`, inside `depth` levels of `:not`.
pub open spec fn sp_pseudo(b: Seq<u8>, p: int, depth: nat) -> Result<(PredModel, int), SelectorFailure>
    decreases b.len() - p, 0int,
{
    let q = p + 1;
    if !(0 <= q < b.len() && name_start_byte(b[q])) {
        Err(expected("pseudo-class name after ':'"@, q))
    } else {
        let ne = name_end(b, q);
        let name = text_of(b, q, ne);
        if name == "first-child"@ {
            Ok((PredModel::FirstChild, ne))
        } else if name == "nth-child"@ {
            if !at_byte(b, ne, 0x28) {
                Err(expected("'(' after :nth-child"@, ne))
            } else {
                match sp_uint(b, ne + 1) {
                    Err(e) => Err(e),
                    Ok((n, r)) => if n == 0 {
                        Err(syntax(SyntaxFault::NthChildMustBeOneOrGreater, r))
                    } else if !at_byte(b, r, 0x29) {
                        Err(expected("')' after nth-child argument"@, r))
                    } else {
                        Ok((PredModel::NthChild(n), r + 1))
                    },
                }
            }
        } else if name == "not"@ {
            if !at_byte(b, ne, 0x28) {
                Err(expected("'(' after :not"@, ne))
            } else if depth >= max_not_depth() {
                Err(syntax(SyntaxFault::NotNestingTooDeep { max: max_not_depth() }, ne + 1))
            } else if p < ws_end(b, ne + 1) <= b.len() {
                match sp_simple(b, ws_end(b, ne + 1), depth + 1) {
                    Err(e) => Err(e),
                    Ok((s, r)) => if !at_byte(b, ws_end(b, r), 0x29) {
                        Err(expected("')' after :not argument"@, ws_end(b, r)))
                    } else {
                        Ok((PredModel::Not(Box::new(s)), ws_end(b, r) + 1))
                    },
                }
            } else {
                Err(SelectorFailure::UnexpectedEnd)
            }
        } else {
            Err(syntax(SyntaxFault::UnsupportedPseudoClass { name }, ne))
        }
    }
}

/// The predicates from `p` on, appended to `acc`.
pub open spec fn sp_preds(b: Seq<u8>, p: int, depth: nat, acc: Seq<PredModel>) -> Result<
    (Seq<PredModel>, int),
    SelectorFailure,
>
    decreases b.len() - p, 1int,
{
    if at_byte(b, p, 0x5B) || at_byte(b, p, 0x3A) {
        let step = if at_byte(b, p, 0x5B) {
            sp_attr_pred(b, p)
        } else {
            sp_pseudo(b, p, depth)
        };
        match step {
            Err(e) => Err(e),
            Ok((pr, r)) => if acc.len() + 1 > max_predicates() {
                Err(syntax(SyntaxFault::TooManyPredicates { max: max_predicates() }, r))
            } else if p < r <= b.len() {
                sp_preds(b, r, depth, acc.push(pr))
            } else {
                Err(SelectorFailure::UnexpectedEnd)
            },
        }
    } else {
        Ok((acc, p))
    }
}

/// The simple selector made of an optional `*` / tag marker and the result
/// of reading its predicates.
pub open spec fn simple_result(
    star: bool,
    named: bool,
    tag: Option<Seq<char>>,
    res: Result<(Seq<PredModel>, int), SelectorFailure>,
) -> Result<(SimpleModel, int), SelectorFailure> {
    match res {
        Err(e) => Err(e),
        Ok((preds, r)) => if !star && !named && preds.len() == 0 {
            Err(expected("tag name, '*', or predicate"@, r))
        } else {
            Ok((SimpleModel { tag, preds }, r))
        },
    }
}

/// A simple selector at `p`, inside `depth` levels of `:not`.
pub open spec fn sp_simple(b: Seq<u8>, p: int, depth: nat) -> Result<(SimpleModel, int), SelectorFailure>
    decreases b.len() - p, 2int,
{
    let star = at_byte(b, p, 0x2A);
    let named = 0 <= p < b.len() && name_start_byte(b[p]);
    let p1 = if star {
        p + 1
    } else if named {
        name_end(b, p)
    } else {
        p
    };
    let tag = if !star && named {
        Some(text_of(b, p, p1))
    } else {
        None
    };
    if p <= p1 <= b.len() {
        simple_result(star, named, tag, sp_preds(b, p1, depth, Seq::empty()))
    } else {
        Err(SelectorFailure::UnexpectedEnd)
    }
}

/// A compound from its simples (left to right) and the combinators between
/// them.
pub open spec fn build_compound(simples: Seq<SimpleModel>, links: Seq<Combinator>) -> CompoundModel {
    let n = links.len();
    CompoundModel {
        subject: simples.last(),
        prefix: Seq::new(n, |k: int| (links[n - 1 - k], simples[n - 1 - k])),
    }
}

/// The rest of a compound chain from `p`, after the simples and links read
/// so far.
pub open spec fn sp_chain(
    b: Seq<u8>,
    p: int,
    simples: Seq<SimpleModel>,
    links: Seq<Combinator>,
) -> Result<(CompoundModel, int), SelectorFailure>
    decreases b.len() - p,
{
    let q = ws_end(b, p);
    if q >= b.len() || q < 0 || b[q] == 0x2C {
        Ok((build_compound(simples, links), q))
    } else if b[q] != 0x3E && q == p {
        Err(expected("combinator or ','"@, q))
    } else {
        let comb = if b[q] == 0x3E {
            Combinator::Child
        } else {
            Combinator::Descendant
        };
        let s_at = if b[q] == 0x3E {
            ws_end(b, q + 1)
        } else {
            q
        };
        match sp_simple(b, s_at, 0) {
            Err(e) => Err(e),
            Ok((s, r)) => if simples.len() + 1 > max_compound() {
                Err(syntax(SyntaxFault::CompoundTooLong { max: max_compound() }, r))
            } else if p < r <= b.len() {
                sp_chain(b, r, simples.push(s), links.push(comb))
            } else {
                Err(SelectorFailure::UnexpectedEnd)
            },
        }
    }
}

/// A compound selector at `p` (leading whitespace skipped).
pub open spec fn sp_compound(b: Seq<u8>, p: int) -> Result<(CompoundModel, int), SelectorFailure> {
    match sp_simple(b, ws_end(b, p), 0) {
        Err(e) => Err(e),
        Ok((s, r)) => sp_chain(b, r, seq![s], Seq::empty()),
    }
}

/// The remaining `, compound` items of a union from `p`, after `acc`.
pub open spec fn sp_union(b: Seq<u8>, p: int, acc: Seq<CompoundModel>) -> Result<
    Seq<CompoundModel>,
    SelectorFailure,
>
    decreases b.len() - p,
{
    if p < 0 || p >= b.len() {
        Ok(acc)
    } else if b[p] != 0x2C {
        Err(expected("','"@, p))
    } else {
        let q = ws_end(b, p + 1);
        if q >= b.len() {
            Err(SelectorFailure::UnexpectedEnd)
        } else {
            match sp_compound(b, q) {
                Err(e) => Err(e),
                Ok((c, r)) => if acc.len() + 1 > max_union() {
                    Err(syntax(SyntaxFault::UnionTooLarge { max: max_union() }, r))
                } else if p < r <= b.len() {
                    sp_union(b, r, acc.push(c))
                } else {
                    Err(SelectorFailure::UnexpectedEnd)
                },
            }
        }
    }
}

/// `char::is_whitespace`: the Unicode `White_Space` characters.
pub open spec fn unicode_ws(c: char) -> bool {
    ||| '\t' <= c <= '\r'
    ||| c == ' '
    ||| c == '\u{85}'
    ||| c == '\u{A0}'
    ||| c == '\u{1680}'
    ||| '\u{2000}' <= c <= '\u{200A}'
    ||| c == '\u{2028}'
    ||| c == '\u{2029}'
    ||| c == '\u{202F}'
    ||| c == '\u{205F}'
    ||| c == '\u{3000}'
}

/// The compiled form of selector text `s`, or the failure.
pub open spec fn spec_selector(s: Seq<char>) -> Result<Seq<CompoundModel>, SelectorFailure> {
    if forall|i: int| 0 <= i < s.len() ==> unicode_ws(#[trigger] s[i]) {
        Err(SelectorFailure::Empty)
    } else {
        let b = bytes_of(s);
        match sp_compound(b, 0) {
            Err(e) => Err(e),
            Ok((c, r)) => if 0 < r <= b.len() {
                sp_union(b, r, seq![c])
            } else {
                Err(SelectorFailure::UnexpectedEnd)
            },
        }
    }
}


proof fn lemma_ws_end_fixed(b: Seq<u8>, p: int)
    ensures
        ws_end(b, p) >= p,
        ws_end(b, ws_end(b, p)) == ws_end(b, p),
    decreases b.len() - p,
{
    if 0 <= p < b.len() && crate::tokenizer::ascii_ws(b[p]) {
        lemma_ws_end_fixed(b, p + 1);
    }
}

proof fn lemma_name_end_past(b: Seq<u8>, p: int)
    ensures
        name_end(b, p) >= p,
        0 <= p < b.len() && crate::escape::name_char_byte(b[p]) ==> name_end(b, p) > p,
    decreases b.len() - p,
{
    if 0 <= p < b.len() && crate::escape::name_char_byte(b[p]) {
        lemma_name_end_past(b, p + 1);
    }
}

proof fn lemma_preds_advance(b: Seq<u8>, p: int, depth: nat, acc: Seq<PredModel>)
    ensures
        sp_preds(b, p, depth, acc) matches Ok((res, r)) ==> r >= p && (res.len() > acc.len() ==> r > p)
            && res.len() >= acc.len(),
    decreases b.len() - p,
{
    if at_byte(b, p, 0x5B) || at_byte(b, p, 0x3A) {
        let step = if at_byte(b, p, 0x5B) {
            sp_attr_pred(b, p)
        } else {
            sp_pseudo(b, p, depth)
        };
        if let Ok((pr, r)) = step {
            if acc.len() + 1 <= max_predicates() && p < r <= b.len() {
                lemma_preds_advance(b, r, depth, acc.push(pr));
            }
        }
    }
}

proof fn lemma_simple_advances(b: Seq<u8>, p: int, depth: nat)
    ensures
        sp_simple(b, p, depth) matches Ok((_, r)) ==> r > p,
{
    let star = at_byte(b, p, 0x2A);
    let named = 0 <= p < b.len() && name_start_byte(b[p]);
    lemma_name_end_past(b, p);
    let p1 = if star {
        p + 1
    } else if named {
        name_end(b, p)
    } else {
        p
    };
    lemma_preds_advance(b, p1, depth, Seq::empty());
}

/// Whitespace before a `>` combinator does not matter: the rest of a
/// compound chain read from before the whitespace is what it is when read
/// from the `>` itself, so `a>b` and `a >b` compile alike (and, since the
/// simple after a `>` is read past any whitespace, so do `a> b` and
/// `a > b`).
pub proof fn law_child_combinator_spacing(
    b: Seq<u8>,
    p: int,
    simples: Seq<SimpleModel>,
    links: Seq<Combinator>,
)
    requires
        0 <= p,
        ws_end(b, p) < b.len(),
        b[ws_end(b, p)] == 0x3E,
    ensures
        sp_chain(b, p, simples, links) == sp_chain(b, ws_end(b, p), simples, links),
        sp_chain(b, p, simples, links) == match sp_simple(b, ws_end(b, ws_end(b, p) + 1), 0) {
            Err(e) => Err(e),
            Ok((s, r)) => if simples.len() + 1 > max_compound() {
                Err(syntax(SyntaxFault::CompoundTooLong { max: max_compound() }, r))
            } else if r <= b.len() {
                sp_chain(b, r, simples.push(s), links.push(Combinator::Child))
            } else {
                Err(SelectorFailure::UnexpectedEnd)
            },
        },
{
    let q = ws_end(b, p);
    lemma_ws_end_fixed(b, p);
    lemma_ws_end_fixed(b, q + 1);
    lemma_simple_advances(b, ws_end(b, q + 1), 0);
}

} // verus!
