//! The [`Markdown`] document: the result of [`crate::parse`].

use crate::source::{bytes_of, cut_ok};
use crate::tokenizer::{input_ok, trivia_model, trivia_placed};
use crate::selector::matcher::{matches_in, refs_elems, refs_into};
use crate::selector::Selector;
use crate::pattern::Pattern;
use crate::json::{JsonModel, JsonValue};
use crate::serialize::{json_doc, json_roots, xml_doc, SerializeOpts};
use crate::escape::spec_escape_text;
use crate::mutate::{
    content_splices, count_self_closing, first_bad_attr, pattern_misses, pairs_view, regex_splices, selected, spliced,
    update_splices,
    MutateError, MutationReport,
};
use vstd::string::*;
use crate::types::{elem_ok, elem_ref_ok, elems_ok, ranges_view, elems_view, trivia_ok, ElemModel, ElemRefModel, ElementData, ElementRef};
use vstd::prelude::*;

verus! {

/// Mathematical form of a parsed document: its source text, its root
/// elements, and the byte ranges of its comments and CDATA brackets.
pub struct DocModel {
    pub raw: Seq<char>,
    pub roots: Seq<ElemModel>,
    pub trivia: Seq<(int, int)>,
}

/// A parsed markdown + embedded XML document.
///
/// Holds the original source, the parsed element tree, and the byte ranges
/// of any XML trivia (comments, CDATA brackets) the parser skipped; those
/// ranges are excluded from element text.
#[derive(Debug)]
pub struct Markdown {
    raw: String,
    roots: Vec<ElementData>,
    trivia: Vec<(usize, usize)>,
}

/// A document whose elements and trivia all sit in its source.
pub open spec fn doc_ok(d: DocModel) -> bool {
    let b = bytes_of(d.raw);
    &&& input_ok(b)
    &&& elems_ok(d.roots, b, 0, b.len() as int)
    &&& trivia_ok(d.trivia, b)
}

impl View for Markdown {
    type V = DocModel;

    closed spec fn view(&self) -> DocModel {
        DocModel {
            raw: self.raw@,
            roots: elems_view(self.roots@),
            trivia: trivia_model(self.trivia@),
        }
    }
}

impl std::str::FromStr for Markdown {
    type Err = crate::error::ParseError;

    /// Equivalent to [`crate::parse::parse`].
    fn from_str(input: &str) -> (r: Result<Self, Self::Err>)
        ensures
            match r {
                Ok(d) => d@.raw == input@ && crate::parse::spec_parse(bytes_of(input@)) == Ok::<
                    (Seq<ElemModel>, Seq<(int, int)>),
                    crate::error::ParseFailure,
                >((d@.roots, d@.trivia)),
                Err(e) => crate::parse::spec_parse(bytes_of(input@)) == Err::<
                    (Seq<ElemModel>, Seq<(int, int)>),
                    crate::error::ParseFailure,
                >(e@),
            },
    {
        crate::parse::parse(input)
    }
}

impl Markdown {
    /// Every document sits in its own source.
    #[verifier::type_invariant]
    pub open spec fn inv(self) -> bool {
        doc_ok(self@)
    }

    /// Assemble a document from its parts.
    pub(crate) fn from_parts(raw: String, roots: Vec<ElementData>, trivia: Vec<(usize, usize)>) -> (r:
        Markdown)
        requires
            input_ok(bytes_of(raw@)),
            elems_ok(elems_view(roots@), bytes_of(raw@), 0, bytes_of(raw@).len() as int),
            trivia_placed(trivia@, bytes_of(raw@)),
        ensures
            r@ == (DocModel {
                raw: raw@,
                roots: elems_view(roots@),
                trivia: trivia_model(trivia@),
            }),
    {
        let r = Markdown { raw, roots, trivia };
        proof {
            let b = bytes_of(r@.raw);
            assert forall|k: int| 0 <= k < r@.trivia.len() implies (#[trigger] r@.trivia[k]).0
                <= r@.trivia[k].1 && cut_ok(b, r@.trivia[k].0) && cut_ok(b, r@.trivia[k].1) by {
                assert(r.trivia@[k].0 <= r.trivia@[k].1);
            }
            assert forall|k: int, l: int| 0 <= k < l < r@.trivia.len() implies #[trigger] r@.trivia[k].1
                <= #[trigger] r@.trivia[l].0 by {
                assert(r.trivia@[k].1 <= r.trivia@[l].0);
            }
        }
        r
    }

    /// The original document source, byte-for-byte.
    pub fn raw(&self) -> (r: &str)
        ensures
            r@ == self@.raw,
    {
        self.raw.as_str()
    }

    /// Count of top-level elements.
    pub fn root_count(&self) -> (r: usize)
        ensures
            r == self@.roots.len(),
    {
        self.roots.len()
    }

    /// The document source (a document displays as its source).
    pub fn to_string(&self) -> (r: String)
        ensures
            r@ == self@.raw,
    {
        self.raw.clone()
    }

    /// The top-level (root) elements of the document, in source order.
    pub fn root_elements(&self) -> (r: Vec<ElementRef<'_>>)
        ensures
            r@.len() == self@.roots.len(),
            forall|k: int|
                0 <= k < r@.len() ==> (#[trigger] r@[k])@ == (ElemRefModel {
                    elem: self@.roots[k],
                    raw: self@.raw,
                    trivia: self@.trivia,
                }),
    {
        proof {
            use_type_invariant(self);
        }
        let mut out: Vec<ElementRef<'_>> = Vec::new();
        let mut k: usize = 0;
        while k < self.roots.len()
            invariant
                k <= self.roots@.len(),
                out@.len() == k,
                doc_ok(self@),
                forall|j: int|
                    0 <= j < k ==> (#[trigger] out@[j])@ == (ElemRefModel {
                        elem: self@.roots[j],
                        raw: self@.raw,
                        trivia: self@.trivia,
                    }),
            decreases self.roots@.len() - k,
        {
            proof {
                assert(self@.roots[k as int] == self.roots@[k as int].model());
                assert(elem_ok(self@.roots[k as int], bytes_of(self@.raw)));
            }
            out.push(ElementRef::new(&self.roots[k], self.raw.as_str(), self.trivia.as_slice()));
            k = k + 1;
        }
        out
    }

    /// Query the document with a compiled selector: every matching element
    /// in document order, each at most once.
    pub fn select(&self, sel: &Selector) -> (r: Vec<ElementRef<'_>>)
        ensures
            refs_into(r@, self@.raw, self@.trivia),
            refs_elems(r@) == matches_in(sel@, self@.roots, 0, Seq::empty()),
    {
        proof {
            use_type_invariant(self);
            assert forall|k: int| 0 <= k < self.roots@.len() implies elem_ok(
                #[trigger] self.roots@[k].model(),
                bytes_of(self.raw@),
            ) by {
                assert(self@.roots[k] == self.roots@[k].model());
            }
        }
        crate::selector::select(&self.roots, self.raw.as_str(), self.trivia.as_slice(), sel)
    }

    /// Update or insert attributes on every element matching `sel`,
    /// returning the new document source; this document is unchanged.
    ///
    /// An attribute already present gets the new value; others are
    /// appended after the existing ones. The rewritten opening tag uses
    /// canonical spacing and escapes values. Every name in `new_attrs` must
    /// be a valid XML name and no name may repeat (see
    /// [`Self::try_update`] for a checked variant).
    pub fn update(&self, sel: &Selector, new_attrs: &[(&str, &str)]) -> (r: String)
        requires
            first_bad_attr(pairs_view(new_attrs@), 0) is None,
        ensures
            r@ == spliced(bytes_of(self@.raw), update_splices(selected(self@, sel@), pairs_view(new_attrs@))).0,
    {
        crate::mutate::update(self, sel, new_attrs)
    }

    /// Replace the inner content of every element matching `sel` with
    /// `new_body` (written verbatim), returning the new document source.
    pub fn replace_content(&self, sel: &Selector, new_body: &str) -> (r: String)
        ensures
            r@ == spliced(bytes_of(self@.raw), content_splices(selected(self@, sel@), new_body@)).0,
    {
        crate::mutate::replace_content(self, sel, new_body)
    }

    /// Like [`Self::replace_content`], with `new_body` XML-escaped first: use
    /// this for replacement text from untrusted sources.
    pub fn replace_text(&self, sel: &Selector, new_body: &str) -> (r: String)
        ensures
            r@ == spliced(
                bytes_of(self@.raw),
                content_splices(selected(self@, sel@), spec_escape_text(new_body@)),
            ).0,
    {
        crate::mutate::replace_text(self, sel, new_body)
    }

    /// Checked variant of [`Self::update`]: a report with the rewritten
    /// document and counts, or the first invalid or repeated attribute name.
    pub fn try_update(&self, sel: &Selector, new_attrs: &[(&str, &str)]) -> (r: Result<
        MutationReport,
        MutateError,
    >)
        ensures
            match first_bad_attr(pairs_view(new_attrs@), 0) {
                Some(f) => r matches Err(e) && e@ == f,
                None => r matches Ok(rep) && (rep.output@, rep.applied as nat, rep.skipped_overlaps as nat)
                    == spliced(
                    bytes_of(self@.raw),
                    update_splices(selected(self@, sel@), pairs_view(new_attrs@)),
                ) && rep.skipped_self_closing == 0,
            },
    {
        crate::mutate::try_update(self, sel, new_attrs)
    }

    /// Like [`Self::replace_content`], returning a report with the rewritten
    /// document, the number of splices applied, skipped as nested in an
    /// outer match, and skipped as self-closing.
    pub fn replace_content_report(&self, sel: &Selector, new_body: &str) -> (r: MutationReport)
        ensures
            (r.output@, r.applied as nat, r.skipped_overlaps as nat) == spliced(
                bytes_of(self@.raw),
                content_splices(selected(self@, sel@), new_body@),
            ),
            r.skipped_self_closing == count_self_closing(selected(self@, sel@)),
    {
        crate::mutate::try_replace_content(self, sel, new_body)
    }

    /// Replace every match of `pattern` inside the content of each element
    /// matching `sel` with `replacement`, returning the new document source.
    /// `replacement` is written verbatim: `$1` / `$name` / `${name}` are not
    /// expanded.
    pub fn replace_in(&self, sel: &Selector, pattern: &Pattern, replacement: &str) -> (r: String)
        ensures
            r@ == spliced(
                bytes_of(self@.raw),
                regex_splices(selected(self@, sel@), bytes_of(self@.raw), pattern@, replacement@),
            ).0,
            pattern_misses(self@, sel@, pattern@) ==> r@ == self@.raw,
    {
        crate::mutate::replace_in(self, sel, pattern, replacement)
    }

    /// Like [`Self::replace_in`], with `replacement` XML-escaped first.
    pub fn replace_text_in(&self, sel: &Selector, pattern: &Pattern, replacement: &str) -> (r: String)
        ensures
            r@ == spliced(
                bytes_of(self@.raw),
                regex_splices(
                    selected(self@, sel@),
                    bytes_of(self@.raw),
                    pattern@,
                    spec_escape_text(replacement@),
                ),
            ).0,
            pattern_misses(self@, sel@, pattern@) ==> r@ == self@.raw,
    {
        crate::mutate::replace_text_in(self, sel, pattern, replacement)
    }

    /// Like [`Self::replace_in`], returning the full report.
    pub fn replace_in_report(&self, sel: &Selector, pattern: &Pattern, replacement: &str) -> (r:
        MutationReport)
        ensures
            (r.output@, r.applied as nat, r.skipped_overlaps as nat) == spliced(
                bytes_of(self@.raw),
                regex_splices(selected(self@, sel@), bytes_of(self@.raw), pattern@, replacement@),
            ),
            r.skipped_self_closing == count_self_closing(selected(self@, sel@)),
            pattern_misses(self@, sel@, pattern@) ==> r.output@ == self@.raw,
    {
        crate::mutate::try_replace_in(self, sel, pattern, replacement)
    }

    /// Serialize the parsed elements as XML, dropping the surrounding
    /// markdown text. Pass [`SerializeOpts::pretty`] for indented output.
    pub fn to_xml(&self, opts: &SerializeOpts) -> (r: String)
        ensures
            r@ == xml_doc(self@.raw, self@.trivia, opts@, self@.roots),
    {
        crate::serialize::to_xml(self, opts)
    }

    /// The element tree as JSON: an array of the root elements, each an
    /// object with `tag`, `attrs` (decoded values), `text` (the element's
    /// own text, decoded, without child markup or comments), `children`,
    /// `selfClosing` and `location` (`{start: {line, offset}, end: ...}`).
    pub fn to_json(&self) -> (r: JsonValue)
        ensures
            r.model() == JsonModel::Array(json_roots(self@.raw, self@.trivia, self@.roots)),
    {
        crate::serialize::to_json(self)
    }

    /// [`Self::to_json`] shaped by `opts`: `strip_text` empties the text of
    /// every element that has children; `wrap_in` wraps the array as
    /// `{name: [...]}`.
    pub fn to_json_with(&self, opts: &SerializeOpts) -> (r: JsonValue)
        ensures
            r.model() == json_doc(self@.raw, self@.trivia, opts@, self@.roots),
    {
        crate::serialize::to_json_with(self, opts)
    }

    /// The root elements' data.
    pub(crate) fn roots_internal(&self) -> (r: &Vec<ElementData>)
        ensures
            elems_view(r@) == self@.roots,
    {
        &self.roots
    }

    /// The trivia (comment and CDATA bracket) byte ranges.
    pub(crate) fn trivia(&self) -> (r: &[(usize, usize)])
        ensures
            ranges_view(r@) == self@.trivia,
    {
        self.trivia.as_slice()
    }
}

/// A query lists the matching elements in document order, each at most
/// once: their start offsets strictly increase.
pub proof fn law_select_in_document_order(d: DocModel, sel: Seq<crate::selector::ast::CompoundModel>)
    requires
        doc_ok(d),
    ensures
        forall|i: int, j: int|
            0 <= i < j < selected(d, sel).len() ==> (#[trigger] selected(d, sel)[i]).start < (#[trigger] selected(
                d,
                sel,
            )[j]).start,
{
    let b = bytes_of(d.raw);
    crate::selector::matcher::lemma_matches_in_ordered(sel, d.roots, 0, Seq::empty(), b, 0, b.len() as int);
    crate::selector::matcher::lemma_ordered_starts(selected(d, sel), b);
}

} // verus!
