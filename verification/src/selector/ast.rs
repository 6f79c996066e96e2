//! Compiled selector AST. See [`Selector`](super::Selector) for the public
//! type.

use vstd::prelude::*;

verus! {

/// A compiled selector: one or more `Compound`s joined by `,` (union).
#[derive(Debug)]
pub struct CompiledSelector {
    pub compounds: Vec<Compound>,
}

/// A compound selector: one or more simple selectors joined by combinators.
///
/// e.g. `phase > task` is a compound with two simples (`phase`, `task`)
/// joined by [`Combinator::Child`].
#[derive(Debug)]
pub struct Compound {
    /// The rightmost (subject) simple selector.
    pub subject: Simple,
    /// Ancestors, each paired with the combinator that leads towards the
    /// subject, stored right-to-left: `prefix[0]` is the simple immediately
    /// to the left of `subject`.
    pub prefix: Vec<(Combinator, Simple)>,
}

/// Combinator between two simple selectors in a compound.
#[derive(Debug, Clone, Copy, PartialEq, Eq)]
pub enum Combinator {
    /// `a b`: descendant at any depth.
    Descendant,
    /// `a > b`: direct child.
    Child,
}

/// A simple selector: a tag (or `*`) plus attribute and pseudo predicates.
#[derive(Debug)]
pub struct Simple {
    /// `None` for `*` (or an omitted tag).
    pub tag: Option<String>,
    pub predicates: Vec<Predicate>,
}

/// A single attribute or pseudo-class predicate on a simple selector.
#[derive(Debug)]
pub enum Predicate {
    HasAttr(String),
    AttrEquals(String, String),
    AttrStartsWith(String, String),
    AttrEndsWith(String, String),
    AttrContains(String, String),
    FirstChild,
    NthChild(u32),
    Not(Box<Simple>),
}

/// Mathematical form of a [`Simple`].
pub struct SimpleModel {
    pub tag: Option<Seq<char>>,
    pub preds: Seq<PredModel>,
}

/// Mathematical form of a [`Predicate`].
pub enum PredModel {
    HasAttr(Seq<char>),
    AttrEquals(Seq<char>, Seq<char>),
    AttrStartsWith(Seq<char>, Seq<char>),
    AttrEndsWith(Seq<char>, Seq<char>),
    AttrContains(Seq<char>, Seq<char>),
    FirstChild,
    NthChild(nat),
    Not(Box<SimpleModel>),
}

/// Mathematical form of a [`Compound`].
pub struct CompoundModel {
    pub subject: SimpleModel,
    pub prefix: Seq<(Combinator, SimpleModel)>,
}

impl Simple {
    pub open spec fn model(&self) -> SimpleModel
        decreases self,
    {
        SimpleModel {
            tag: match &self.tag {
                Some(t) => Some(t@),
                None => None,
            },
            preds: Seq::new(
                self.predicates@.len(),
                |i: int|
                    if 0 <= i < self.predicates@.len() {
                        self.predicates@[i].model()
                    } else {
                        PredModel::FirstChild
                    },
            ),
        }
    }
}

impl Predicate {
    pub open spec fn model(&self) -> PredModel
        decreases self,
    {
        match self {
            Predicate::HasAttr(n) => PredModel::HasAttr(n@),
            Predicate::AttrEquals(n, v) => PredModel::AttrEquals(n@, v@),
            Predicate::AttrStartsWith(n, v) => PredModel::AttrStartsWith(n@, v@),
            Predicate::AttrEndsWith(n, v) => PredModel::AttrEndsWith(n@, v@),
            Predicate::AttrContains(n, v) => PredModel::AttrContains(n@, v@),
            Predicate::FirstChild => PredModel::FirstChild,
            Predicate::NthChild(k) => PredModel::NthChild(*k as nat),
            Predicate::Not(inner) => PredModel::Not(Box::new((**inner).model())),
        }
    }
}

/// The models of a predicate list.
pub open spec fn preds_view(v: Seq<Predicate>) -> Seq<PredModel> {
    Seq::new(v.len(), |i: int| v[i].model())
}

/// The models of a prefix list.
pub open spec fn prefix_view(v: Seq<(Combinator, Simple)>) -> Seq<(Combinator, SimpleModel)> {
    Seq::new(v.len(), |i: int| (v[i].0, v[i].1.model()))
}

impl Compound {
    pub open spec fn model(&self) -> CompoundModel {
        CompoundModel { subject: self.subject.model(), prefix: prefix_view(self.prefix@) }
    }
}

/// The models of a compound list.
pub open spec fn compounds_view(v: Seq<Compound>) -> Seq<CompoundModel> {
    Seq::new(v.len(), |i: int| v[i].model())
}

} // verus!
