//! CSS-subset selectors.
//!
//! See [`Selector::parse`] for the supported grammar.

pub mod ast;
pub mod error;
pub mod grammar;
pub mod matcher;
pub mod parser;

pub use error::{SelectorError, SyntaxKind};

use crate::source::bytes_of;
use crate::types::{elem_ok, ranges_view, trivia_ok, ElementData, ElementRef};
use ast::{compounds_view, CompiledSelector, CompoundModel};
use error::SelectorFailure;
use grammar::spec_selector;
use matcher::{matches_in, refs_elems, refs_into};
use vstd::prelude::*;

verus! {

/// A compiled CSS-subset selector.
///
/// Parse once with [`Selector::parse`], then reuse against many documents.
///
/// ```text
/// selector    := compound ( "," compound )*
/// compound    := simple ( ( " " | " > " ) simple )*
/// simple      := ( tag | "*" ) predicate*
/// predicate   := "[" name ( ( "=" | "^=" | "$=" | "*=" ) "value" )? "]"
///              | ":first-child"
///              | ":nth-child(" n ")"
///              | ":not(" simple ")"
/// ```
///
/// Not supported: sibling combinators (`~`, `+`), `:has()`, attribute
/// operators `~=` / `|=`, and case-insensitive flags.
#[derive(Debug)]
pub struct Selector {
    compiled: CompiledSelector,
}

impl View for Selector {
    type V = Seq<CompoundModel>;

    closed spec fn view(&self) -> Seq<CompoundModel> {
        compounds_view(self.compiled.compounds@)
    }
}

impl Selector {
    /// Compile a selector string.
    ///
    /// Fails if the string is empty (or only whitespace), ends unexpectedly,
    /// or contains a syntax error.
    pub fn parse(input: &str) -> (r: Result<Selector, SelectorError>)
        ensures
            match r {
                Ok(s) => spec_selector(input@) == Ok::<Seq<CompoundModel>, SelectorFailure>(s@),
                Err(e) => spec_selector(input@) == Err::<Seq<CompoundModel>, SelectorFailure>(e@),
            },
    {
        match parser::parse(input) {
            Ok(compiled) => Ok(Selector { compiled }),
            Err(e) => Err(e),
        }
    }
}

impl std::str::FromStr for Selector {
    type Err = SelectorError;

    /// Equivalent to [`Selector::parse`].
    fn from_str(input: &str) -> (r: Result<Self, Self::Err>)
        ensures
            match r {
                Ok(s) => spec_selector(input@) == Ok::<Seq<CompoundModel>, SelectorFailure>(s@),
                Err(e) => spec_selector(input@) == Err::<Seq<CompoundModel>, SelectorFailure>(e@),
            },
    {
        Self::parse(input)
    }
}

/// Every element of the forest `roots` (with no ancestors above it) that
/// `sel` matches, in document order.
pub fn select<'a>(
    roots: &'a Vec<ElementData>,
    raw: &'a str,
    trivia: &'a [(usize, usize)],
    sel: &Selector,
) -> (r: Vec<ElementRef<'a>>)
    requires
        forall|k: int|
            0 <= k < roots@.len() ==> elem_ok(#[trigger] roots@[k].model(), bytes_of(raw@)),
        trivia_ok(ranges_view(trivia@), bytes_of(raw@)),
        bytes_of(raw@).len() <= u32::MAX,
    ensures
        refs_into(r@, raw@, ranges_view(trivia@)),
        refs_elems(r@) == matches_in(sel@, crate::types::elems_view(roots@), 0, Seq::empty()),
{
    matcher::collect_matches(roots, raw, trivia, &sel.compiled)
}

} // verus!
