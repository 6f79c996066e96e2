//! Errors from [`Selector::parse`](super::Selector::parse).

use crate::render::{decimal, push_decimal, push_str};
use vstd::prelude::*;

verus! {

/// An error returned when a selector string fails to parse.
#[derive(Debug, Clone, PartialEq, Eq)]
#[non_exhaustive]
pub enum SelectorError {
    /// Selector string was empty (or only whitespace).
    Empty,
    /// Unexpected end of input.
    UnexpectedEnd,
    /// Syntax error at byte offset `at`; `kind` discriminates the failure.
    Syntax {
        /// Specific failure mode.
        kind: SyntaxKind,
        /// 0-based byte offset within the selector string.
        at: usize,
    },
}

/// Specific kinds of [`SelectorError::Syntax`].
///
/// The size and depth caps are machine-actionable; `Expected` covers the
/// "parser wanted token X next" cases, with `what` a fixed description
/// written by this crate.
#[derive(Debug, Clone, PartialEq, Eq)]
#[non_exhaustive]
pub enum SyntaxKind {
    /// Selector union (`a, b, c, …`) exceeded the implementation cap.
    UnionTooLarge {
        /// Implementation cap on union size.
        max: usize,
    },
    /// Compound chain (`a b c …`) exceeded the implementation cap.
    CompoundTooLong {
        /// Implementation cap on compound length.
        max: usize,
    },
    /// A simple selector carried more predicates than the cap allows.
    TooManyPredicates {
        /// Implementation cap on predicates per simple selector.
        max: usize,
    },
    /// `:not(:not(…))` nested deeper than the cap allows.
    NotNestingTooDeep {
        /// Implementation cap on `:not` nesting depth.
        max: u32,
    },
    /// `:foo` where `foo` is not a supported pseudo-class.
    UnsupportedPseudoClass {
        /// Pseudo-class identifier that follows the `:`.
        name: String,
    },
    /// `:nth-child(N)` with `N == 0`; siblings are 1-indexed.
    NthChildMustBeOneOrGreater,
    /// An integer literal exceeded `u32::MAX` or its digit budget.
    IntegerOutOfRange,
    /// Expected an ASCII digit but found another byte.
    ExpectedDigit,
    /// The parser expected a specific token or structure here.
    Expected {
        /// Human description of the expected token, e.g. `"']'"`.
        what: &'static str,
    },
}

/// Mathematical form of [`SyntaxKind`].
pub enum SyntaxFault {
    UnionTooLarge { max: nat },
    CompoundTooLong { max: nat },
    TooManyPredicates { max: nat },
    NotNestingTooDeep { max: nat },
    UnsupportedPseudoClass { name: Seq<char> },
    NthChildMustBeOneOrGreater,
    IntegerOutOfRange,
    ExpectedDigit,
    Expected { what: Seq<char> },
}

/// Mathematical form of [`SelectorError`].
pub enum SelectorFailure {
    Empty,
    UnexpectedEnd,
    Syntax { kind: SyntaxFault, at: nat },
}

impl View for SyntaxKind {
    type V = SyntaxFault;

    open spec fn view(&self) -> SyntaxFault {
        match self {
            SyntaxKind::UnionTooLarge { max } => SyntaxFault::UnionTooLarge { max: *max as nat },
            SyntaxKind::CompoundTooLong { max } => SyntaxFault::CompoundTooLong { max: *max as nat },
            SyntaxKind::TooManyPredicates { max } => SyntaxFault::TooManyPredicates { max: *max as nat },
            SyntaxKind::NotNestingTooDeep { max } => SyntaxFault::NotNestingTooDeep { max: *max as nat },
            SyntaxKind::UnsupportedPseudoClass { name } => SyntaxFault::UnsupportedPseudoClass {
                name: name@,
            },
            SyntaxKind::NthChildMustBeOneOrGreater => SyntaxFault::NthChildMustBeOneOrGreater,
            SyntaxKind::IntegerOutOfRange => SyntaxFault::IntegerOutOfRange,
            SyntaxKind::ExpectedDigit => SyntaxFault::ExpectedDigit,
            SyntaxKind::Expected { what } => SyntaxFault::Expected { what: what@ },
        }
    }
}

impl View for SelectorError {
    type V = SelectorFailure;

    open spec fn view(&self) -> SelectorFailure {
        match self {
            SelectorError::Empty => SelectorFailure::Empty,
            SelectorError::UnexpectedEnd => SelectorFailure::UnexpectedEnd,
            SelectorError::Syntax { kind, at } => SelectorFailure::Syntax { kind: kind@, at: *at as nat },
        }
    }
}

/// Human-readable rendering of a [`SyntaxFault`].
pub open spec fn syntax_fault_text(k: SyntaxFault) -> Seq<char> {
    match k {
        SyntaxFault::UnionTooLarge { max } => "selector union exceeds maximum size of "@ + decimal(max),
        SyntaxFault::CompoundTooLong { max } => "compound chain exceeds maximum length of "@ + decimal(
            max,
        ),
        SyntaxFault::TooManyPredicates { max } => "simple selector carries more than "@ + decimal(max)
            + " predicates"@,
        SyntaxFault::NotNestingTooDeep { max } => ":not nesting exceeds maximum of "@ + decimal(max),
        SyntaxFault::UnsupportedPseudoClass { name } => "unsupported pseudo-class :"@ + name,
        SyntaxFault::NthChildMustBeOneOrGreater =>
            ":nth-child argument must be 1 or greater (siblings are 1-indexed)"@,
        SyntaxFault::IntegerOutOfRange => "integer out of range"@,
        SyntaxFault::ExpectedDigit => "expected digit"@,
        SyntaxFault::Expected { what } => "expected "@ + what,
    }
}

/// Human-readable rendering of a [`SelectorFailure`].
pub open spec fn selector_failure_text(e: SelectorFailure) -> Seq<char> {
    match e {
        SelectorFailure::Empty => "selector is empty"@,
        SelectorFailure::UnexpectedEnd => "unexpected end of selector"@,
        SelectorFailure::Syntax { kind, at } => "syntax error at offset "@ + decimal(at) + ": "@
            + syntax_fault_text(kind),
    }
}

impl SyntaxKind {
    /// Human-readable description of this failure mode.
    pub fn message(&self) -> (r: String)
        ensures
            r@ == syntax_fault_text(self@),
    {
        let mut out = String::new();
        match self {
            SyntaxKind::UnionTooLarge { max } => {
                push_str(&mut out, "selector union exceeds maximum size of ");
                push_decimal(&mut out, *max as u64);
            },
            SyntaxKind::CompoundTooLong { max } => {
                push_str(&mut out, "compound chain exceeds maximum length of ");
                push_decimal(&mut out, *max as u64);
            },
            SyntaxKind::TooManyPredicates { max } => {
                push_str(&mut out, "simple selector carries more than ");
                push_decimal(&mut out, *max as u64);
                push_str(&mut out, " predicates");
            },
            SyntaxKind::NotNestingTooDeep { max } => {
                push_str(&mut out, ":not nesting exceeds maximum of ");
                push_decimal(&mut out, *max as u64);
            },
            SyntaxKind::UnsupportedPseudoClass { name } => {
                push_str(&mut out, "unsupported pseudo-class :");
                push_str(&mut out, name.as_str());
            },
            SyntaxKind::NthChildMustBeOneOrGreater => {
                push_str(&mut out, ":nth-child argument must be 1 or greater (siblings are 1-indexed)");
            },
            SyntaxKind::IntegerOutOfRange => {
                push_str(&mut out, "integer out of range");
            },
            SyntaxKind::ExpectedDigit => {
                push_str(&mut out, "expected digit");
            },
            SyntaxKind::Expected { what } => {
                push_str(&mut out, "expected ");
                push_str(&mut out, what);
            },
        }
        proof {
            assert(out@ =~= syntax_fault_text(self@));
        }
        out
    }
}

impl SelectorError {
    /// Human-readable message.
    pub fn message(&self) -> (r: String)
        ensures
            r@ == selector_failure_text(self@),
    {
        let mut out = String::new();
        match self {
            SelectorError::Empty => {
                push_str(&mut out, "selector is empty");
            },
            SelectorError::UnexpectedEnd => {
                push_str(&mut out, "unexpected end of selector");
            },
            SelectorError::Syntax { kind, at } => {
                push_str(&mut out, "syntax error at offset ");
                push_decimal(&mut out, *at as u64);
                push_str(&mut out, ": ");
                let k = kind.message();
                push_str(&mut out, k.as_str());
            },
        }
        proof {
            assert(out@ =~= selector_failure_text(self@));
        }
        out
    }
}

} // verus!
