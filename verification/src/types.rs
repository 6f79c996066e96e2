//! Core data types used across the crate.

use crate::source::{bytes_of, cut_ok, line_of, slice_str, text_of};
use vstd::prelude::*;
use vstd::string::*;

verus! {

/// A position in the source document.
///
/// `line` is 1-based; `offset` is the 0-based byte offset from the start of
/// the document. Ordering is lexicographic by `(line, offset)`.
#[derive(Debug, Clone, Copy, PartialEq, Eq, Hash, PartialOrd, Ord)]
pub struct SourcePosition {
    /// 1-based line number.
    pub line: u32,
    /// 0-based byte offset from the start of the document.
    pub offset: u32,
}

/// A half-open span of source positions: `[start, end)`.
#[derive(Debug, Clone, Copy, PartialEq, Eq, Hash, PartialOrd, Ord)]
pub struct SourceSpan {
    /// Inclusive start position.
    pub start: SourcePosition,
    /// Exclusive end position.
    pub end: SourcePosition,
}

/// Owned data backing every parsed element. Callers normally reach it
/// through an [`ElementRef`] borrowed from a [`crate::Markdown`].
#[derive(Debug)]
pub struct ElementData {
    pub tag: String,
    /// Attributes in source order.
    pub attrs: Vec<(String, String)>,
    /// Byte offset where the inner content starts.
    pub content_start: usize,
    /// Byte offset where the inner content ends (exclusive).
    pub content_end: usize,
    /// Direct child elements, in source order.
    pub children: Vec<ElementData>,
    /// Span of the full element including its tags.
    pub span: SourceSpan,
    /// `true` for `<tag/>`; `false` for `<tag>…</tag>`.
    pub self_closing: bool,
}

/// Mathematical form of an element: tag, decoded attributes, byte ranges,
/// lines and children.
pub struct ElemModel {
    pub tag: Seq<char>,
    pub attrs: Seq<(Seq<char>, Seq<char>)>,
    pub content_start: int,
    pub content_end: int,
    pub children: Seq<ElemModel>,
    pub start: int,
    pub end: int,
    pub start_line: int,
    pub end_line: int,
    pub self_closing: bool,
}

/// The view of an attribute list: each `(name, value)` pair as characters.
pub open spec fn attrs_view(a: Seq<(String, String)>) -> Seq<(Seq<char>, Seq<char>)> {
    Seq::new(a.len(), |i: int| (a[i].0@, a[i].1@))
}

pub open spec fn empty_elem() -> ElemModel {
    ElemModel {
        tag: Seq::empty(),
        attrs: Seq::empty(),
        content_start: 0,
        content_end: 0,
        children: Seq::empty(),
        start: 0,
        end: 0,
        start_line: 0,
        end_line: 0,
        self_closing: false,
    }
}

impl ElementData {
    /// The mathematical form of this element.
    pub open spec fn model(&self) -> ElemModel
        decreases self,
    {
        ElemModel {
            tag: self.tag@,
            attrs: attrs_view(self.attrs@),
            content_start: self.content_start as int,
            content_end: self.content_end as int,
            children: Seq::new(
                self.children@.len(),
                |i: int|
                    if 0 <= i < self.children@.len() {
                        self.children@[i].model()
                    } else {
                        empty_elem()
                    },
            ),
            start: self.span.start.offset as int,
            end: self.span.end.offset as int,
            start_line: self.span.start.line as int,
            end_line: self.span.end.line as int,
            self_closing: self.self_closing,
        }
    }
}

/// An element sits in the source `b`: its offsets are ordered, fall on
/// character boundaries, its lines match its offsets, and its children are
/// ordered, inside its content, and in place themselves.
pub open spec fn elem_ok(e: ElemModel, b: Seq<u8>) -> bool
    decreases e,
{
    &&& 0 <= e.start < e.end <= b.len()
    &&& e.start < e.content_start <= e.content_end <= e.end
    &&& cut_ok(b, e.start)
    &&& cut_ok(b, e.end)
    &&& cut_ok(b, e.content_start)
    &&& cut_ok(b, e.content_end)
    &&& e.start_line == line_of(b, e.start)
    &&& e.end_line == line_of(b, e.end)
    &&& forall|k: int|
        0 <= k < e.children.len() ==> e.content_start <= (#[trigger] e.children[k]).start && e.children[k].end
            <= e.content_end
    &&& forall|k: int, l: int|
        0 <= k < l < e.children.len() ==> #[trigger] e.children[k].end <= #[trigger] e.children[l].start
    &&& forall|k: int| 0 <= k < e.children.len() ==> elem_ok(#[trigger] e.children[k], b)
}

/// A list of sibling elements sits in `b`, in order, between `lo` and `hi`.
pub open spec fn elems_ok(v: Seq<ElemModel>, b: Seq<u8>, lo: int, hi: int) -> bool {
    &&& forall|k: int| 0 <= k < v.len() ==> lo <= (#[trigger] v[k]).start && v[k].end <= hi
    &&& forall|k: int, l: int| 0 <= k < l < v.len() ==> #[trigger] v[k].end <= #[trigger] v[l].start
    &&& forall|k: int| 0 <= k < v.len() ==> elem_ok(#[trigger] v[k], b)
}

/// The models of a list of elements.
pub open spec fn elems_view(v: Seq<ElementData>) -> Seq<ElemModel> {
    Seq::new(v.len(), |i: int| v[i].model())
}

/// Value of the first attribute named `name`, if any.
pub open spec fn attr_lookup(attrs: Seq<(Seq<char>, Seq<char>)>, name: Seq<char>) -> Option<
    Seq<char>,
>
    decreases attrs.len(),
{
    if attrs.len() == 0 {
        None
    } else if attrs[0].0 == name {
        Some(attrs[0].1)
    } else {
        attr_lookup(attrs.drop_first(), name)
    }
}

/// Does any attribute carry the name `name`?
pub open spec fn has_attr_named(attrs: Seq<(Seq<char>, Seq<char>)>, name: Seq<char>) -> bool {
    exists|i: int| 0 <= i < attrs.len() && #[trigger] attrs[i].0 == name
}

pub proof fn lemma_attr_lookup_some(attrs: Seq<(Seq<char>, Seq<char>)>, name: Seq<char>)
    ensures
        attr_lookup(attrs, name) is Some <==> has_attr_named(attrs, name),
        attr_lookup(attrs, name) matches Some(v) ==> exists|i: int|
            0 <= i < attrs.len() && attrs[i].0 == name && attrs[i].1 == v && (forall|j: int|
                0 <= j < i ==> attrs[j].0 != name),
    decreases attrs.len(),
{
    if attrs.len() > 0 {
        lemma_attr_lookup_some(attrs.drop_first(), name);
        if attrs[0].0 == name {
            assert(attrs[0].0 == name);
        } else {
            if has_attr_named(attrs, name) {
                let i = choose|i: int| 0 <= i < attrs.len() && #[trigger] attrs[i].0 == name;
                assert(attrs.drop_first()[i - 1].0 == name);
            }
            if has_attr_named(attrs.drop_first(), name) {
                let i = choose|i: int|
                    0 <= i < attrs.drop_first().len() && #[trigger] attrs.drop_first()[i].0 == name;
                assert(attrs[i + 1].0 == name);
            }
            if let Some(v) = attr_lookup(attrs, name) {
                let i = choose|i: int|
                    0 <= i < attrs.drop_first().len() && attrs.drop_first()[i].0 == name
                        && attrs.drop_first()[i].1 == v && (forall|j: int|
                        0 <= j < i ==> attrs.drop_first()[j].0 != name);
                assert(attrs[i + 1].0 == name && attrs[i + 1].1 == v);
                assert forall|j: int| 0 <= j < i + 1 implies attrs[j].0 != name by {
                    if j > 0 {
                        assert(attrs.drop_first()[j - 1] == attrs[j]);
                    }
                }
            }
        }
    }
}

/// Look up `name` in an attribute list, returning the first match's value.
pub(crate) fn find_attr<'a>(attrs: &'a Vec<(String, String)>, name: &str) -> (r: Option<&'a String>)
    ensures
        match r {
            Some(v) => attr_lookup(attrs_view(attrs@), name@) == Some(v@),
            None => attr_lookup(attrs_view(attrs@), name@) is None,
        },
{
    let mut k: usize = 0;
    proof {
        assert(attrs_view(attrs@).skip(0) =~= attrs_view(attrs@));
    }
    while k < attrs.len()
        invariant
            k <= attrs@.len(),
            attr_lookup(attrs_view(attrs@), name@) == attr_lookup(
                attrs_view(attrs@).skip(k as int),
                name@,
            ),
        decreases attrs@.len() - k,
    {
        let ghost rest = attrs_view(attrs@).skip(k as int);
        proof {
            assert(rest[0] == (attrs@[k as int].0@, attrs@[k as int].1@));
            assert(rest.drop_first() =~= attrs_view(attrs@).skip(k + 1));
        }
        if crate::source::str_eq(attrs[k].0.as_str(), name) {
            return Some(&attrs[k].1);
        }
        k = k + 1;
    }
    None
}

/// Trivia ranges (comments and CDATA brackets) sit in `b`: each on
/// character boundaries, in ascending order without overlap.
pub open spec fn trivia_ok(t: Seq<(int, int)>, b: Seq<u8>) -> bool {
    &&& forall|k: int|
        0 <= k < t.len() ==> (#[trigger] t[k]).0 <= t[k].1 && cut_ok(b, t[k].0) && cut_ok(b, t[k].1)
    &&& forall|k: int, l: int| 0 <= k < l < t.len() ==> #[trigger] t[k].1 <= #[trigger] t[l].0
}

/// The trivia ranges as integer pairs.
pub open spec fn ranges_view(v: Seq<(usize, usize)>) -> Seq<(int, int)> {
    Seq::new(v.len(), |i: int| (v[i].0 as int, v[i].1 as int))
}

/// Mathematical form of an [`ElementRef`]: the element, the source text of
/// its document, and the document's trivia ranges.
pub struct ElemRefModel {
    pub elem: ElemModel,
    pub raw: Seq<char>,
    pub trivia: Seq<(int, int)>,
}

/// A reference to a parsed element, borrowing from the owning
/// [`crate::Markdown`] document. Methods return references into the
/// original document where possible.
#[derive(Debug, Clone, Copy)]
pub struct ElementRef<'a> {
    pub(crate) data: &'a ElementData,
    pub(crate) raw: &'a str,
    pub(crate) trivia: &'a [(usize, usize)],
}

impl<'a> View for ElementRef<'a> {
    type V = ElemRefModel;

    closed spec fn view(&self) -> ElemRefModel {
        ElemRefModel { elem: self.data.model(), raw: self.raw@, trivia: ranges_view(self.trivia@) }
    }
}

/// An element reference whose element and trivia sit in its source.
pub open spec fn elem_ref_ok(r: ElemRefModel) -> bool {
    &&& elem_ok(r.elem, bytes_of(r.raw))
    &&& trivia_ok(r.trivia, bytes_of(r.raw))
    &&& bytes_of(r.raw).len() <= u32::MAX
}

/// The byte span of each child, in order.
pub open spec fn child_spans(e: ElemModel) -> Seq<(int, int)> {
    Seq::new(e.children.len(), |k: int| (e.children[k].start, e.children[k].end))
}

/// The trivia ranges that reach into `[lo, hi)`.
pub open spec fn trivia_within(t: Seq<(int, int)>, lo: int, hi: int) -> Seq<(int, int)> {
    t.filter(|r: (int, int)| r.1 > lo && r.0 < hi)
}

/// Two ascending interval lists merged by start (the first list wins ties).
pub open spec fn merge_by_start(a: Seq<(int, int)>, c: Seq<(int, int)>) -> Seq<(int, int)>
    decreases a.len() + c.len(),
{
    if a.len() == 0 {
        c
    } else if c.len() == 0 {
        a
    } else if a[0].0 <= c[0].0 {
        seq![a[0]] + merge_by_start(a.drop_first(), c)
    } else {
        seq![c[0]] + merge_by_start(a, c.drop_first())
    }
}

pub open spec fn min_int(x: int, y: int) -> int {
    if x <= y {
        x
    } else {
        y
    }
}

pub open spec fn max_int(x: int, y: int) -> int {
    if x >= y {
        x
    } else {
        y
    }
}

/// The non-empty text runs of `b[cursor..end]` that lie between the markup
/// intervals `ivs` (visited in order; each run is cut at the next interval's
/// start and resumes at its end).
pub open spec fn gaps(b: Seq<u8>, cursor: int, end: int, ivs: Seq<(int, int)>) -> Seq<Seq<char>>
    decreases ivs.len(),
{
    if ivs.len() == 0 {
        if cursor < end {
            seq![text_of(b, cursor, end)]
        } else {
            Seq::empty()
        }
    } else {
        let seg_end = max_int(min_int(ivs[0].0, end), cursor);
        let next = min_int(max_int(ivs[0].1, cursor), end);
        let rest = gaps(b, next, end, ivs.drop_first());
        if cursor < seg_end {
            seq![text_of(b, cursor, seg_end)] + rest
        } else {
            rest
        }
    }
}

/// The text of an element: its content with child element markup and
/// trivia (comments, CDATA brackets) cut out, as the runs in between.
pub open spec fn text_segments(r: ElemRefModel) -> Seq<Seq<char>> {
    let e = r.elem;
    gaps(
        bytes_of(r.raw),
        e.content_start,
        e.content_end,
        merge_by_start(child_spans(e), trivia_within(r.trivia, e.content_start, e.content_end)),
    )
}

/// The characters of each string in a list.
pub open spec fn strs_view(v: Seq<&str>) -> Seq<Seq<char>> {
    Seq::new(v.len(), |i: int| v[i]@)
}

impl<'a> ElementRef<'a> {
    /// Every element reference sits in its source.
    #[verifier::type_invariant]
    pub open spec fn inv(self) -> bool {
        elem_ref_ok(self@)
    }

    /// A reference to `data` inside the document with source `raw` and
    /// trivia ranges `trivia`.
    pub(crate) fn new(data: &'a ElementData, raw: &'a str, trivia: &'a [(usize, usize)]) -> (r: Self)
        requires
            elem_ref_ok(ElemRefModel { elem: data.model(), raw: raw@, trivia: ranges_view(trivia@) }),
        ensures
            r@ == (ElemRefModel { elem: data.model(), raw: raw@, trivia: ranges_view(trivia@) }),
    {
        ElementRef { data, raw, trivia }
    }

    /// The element's tag name.
    pub fn tag(&self) -> (r: &'a str)
        ensures
            r@ == self@.elem.tag,
    {
        let d: &'a ElementData = self.data;
        d.tag.as_str()
    }

    /// Look up an attribute by name: the value of the attribute with that
    /// name, if the element has one.
    pub fn attr(&self, name: &str) -> (r: Option<&'a str>)
        ensures
            match r {
                Some(v) => attr_lookup(self@.elem.attrs, name@) == Some(v@),
                None => attr_lookup(self@.elem.attrs, name@) is None,
            },
    {
        let d: &'a ElementData = self.data;
        match find_attr(&d.attrs, name) {
            Some(v) => Some(v.as_str()),
            None => None,
        }
    }

    /// Every attribute on this element, in source order.
    pub fn attrs(&self) -> (r: Vec<(&'a str, &'a str)>)
        ensures
            r@.len() == self@.elem.attrs.len(),
            forall|k: int|
                0 <= k < r@.len() ==> (#[trigger] r@[k]).0@ == self@.elem.attrs[k].0 && r@[k].1@
                    == self@.elem.attrs[k].1,
    {
        let d: &'a ElementData = self.data;
        let mut out: Vec<(&'a str, &'a str)> = Vec::new();
        let mut k: usize = 0;
        while k < d.attrs.len()
            invariant
                k <= d.attrs@.len(),
                out@.len() == k,
                forall|j: int|
                    0 <= j < k ==> (#[trigger] out@[j]).0@ == d.attrs@[j].0@ && out@[j].1@
                        == d.attrs@[j].1@,
            decreases d.attrs@.len() - k,
        {
            out.push((d.attrs[k].0.as_str(), d.attrs[k].1.as_str()));
            k = k + 1;
        }
        out
    }

    /// Inner content as a slice of the original document: the body between
    /// the opening and closing tags, or an empty string for `<tag/>`.
    pub fn content(&self) -> (r: &'a str)
        ensures
            r@ == text_of(bytes_of(self@.raw), self@.elem.content_start, self@.elem.content_end),
    {
        proof {
            use_type_invariant(self);
        }
        let d: &'a ElementData = self.data;
        slice_str(self.raw, d.content_start, d.content_end)
    }

    /// The element's direct children, in source order.
    pub fn children(&self) -> (r: Vec<ElementRef<'a>>)
        ensures
            r@.len() == self@.elem.children.len(),
            forall|k: int|
                0 <= k < r@.len() ==> (#[trigger] r@[k])@ == (ElemRefModel {
                    elem: self@.elem.children[k],
                    raw: self@.raw,
                    trivia: self@.trivia,
                }),
    {
        proof {
            use_type_invariant(self);
        }
        let d: &'a ElementData = self.data;
        let mut out: Vec<ElementRef<'a>> = Vec::new();
        let mut k: usize = 0;
        while k < d.children.len()
            invariant
                k <= d.children@.len(),
                out@.len() == k,
                elem_ref_ok(self@),
                self@.elem == d.model(),
                forall|j: int|
                    0 <= j < k ==> (#[trigger] out@[j])@ == (ElemRefModel {
                        elem: self@.elem.children[j],
                        raw: self@.raw,
                        trivia: self@.trivia,
                    }),
            decreases d.children@.len() - k,
        {
            let c: &'a ElementData = &d.children[k];
            proof {
                assert(self@.elem.children[k as int] == c.model());
                assert(elem_ok(self@.elem.children[k as int], bytes_of(self@.raw)));
            }
            out.push(ElementRef { data: c, raw: self.raw, trivia: self.trivia });
            k = k + 1;
        }
        out
    }

    /// Source span covering the full element (opening tag through closing
    /// tag, or the entire self-closing tag).
    pub fn location(&self) -> (r: SourceSpan)
        ensures
            r.start.offset == self@.elem.start,
            r.start.line == self@.elem.start_line,
            r.end.offset == self@.elem.end,
            r.end.line == self@.elem.end_line,
    {
        self.data.span
    }

    /// Byte range of the inner content within the document source.
    pub(crate) fn content_range(&self) -> (r: (usize, usize))
        ensures
            r.0 == self@.elem.content_start,
            r.1 == self@.elem.content_end,
    {
        (self.data.content_start, self.data.content_end)
    }

    /// `true` if this element was written as `<tag/>` rather than
    /// `<tag>…</tag>`.
    pub fn is_self_closing(&self) -> (r: bool)
        ensures
            r == self@.elem.self_closing,
    {
        self.data.self_closing
    }

    /// Query this element's subtree with a compiled selector: the matches
    /// among its descendants, in document order. The element itself and
    /// its ancestors are not part of the search.
    pub fn select(&self, sel: &crate::selector::Selector) -> (r: Vec<ElementRef<'a>>)
        ensures
            crate::selector::matcher::refs_into(r@, self@.raw, self@.trivia),
            crate::selector::matcher::refs_elems(r@) == crate::selector::matcher::matches_in(
                sel@,
                self@.elem.children,
                0,
                Seq::empty(),
            ),
    {
        proof {
            use_type_invariant(self);
        }
        let d: &'a ElementData = self.data;
        proof {
            assert forall|k: int| 0 <= k < d.children@.len() implies elem_ok(
                #[trigger] d.children@[k].model(),
                bytes_of(self.raw@),
            ) by {
                assert(self@.elem.children[k] == d.children@[k].model());
            }
            assert(elems_view(d.children@) =~= self@.elem.children);
        }
        crate::selector::select(&d.children, self.raw, self.trivia, sel)
    }

    /// The element's source text, from its opening `<` through its closing
    /// `>`.
    pub fn to_string(&self) -> (r: String)
        ensures
            r@ == text_of(bytes_of(self@.raw), self@.elem.start, self@.elem.end),
    {
        proof {
            use_type_invariant(self);
        }
        let d: &'a ElementData = self.data;
        slice_str(self.raw, d.span.start.offset as usize, d.span.end.offset as usize).to_owned()
    }
}

proof fn lemma_merge_left(a: Seq<(int, int)>, c: Seq<(int, int)>)
    requires
        a.len() > 0,
        c.len() == 0 || a[0].0 <= c[0].0,
    ensures
        merge_by_start(a, c) == seq![a[0]] + merge_by_start(a.drop_first(), c),
{
    if c.len() == 0 {
        assert(merge_by_start(a.drop_first(), c) == a.drop_first());
        assert(seq![a[0]] + a.drop_first() =~= a);
    }
}

proof fn lemma_merge_right(a: Seq<(int, int)>, c: Seq<(int, int)>)
    requires
        c.len() > 0,
        a.len() == 0 || a[0].0 > c[0].0,
    ensures
        merge_by_start(a, c) == seq![c[0]] + merge_by_start(a, c.drop_first()),
{
    if a.len() == 0 {
        assert(seq![c[0]] + c.drop_first() =~= c);
    }
}

pub proof fn lemma_gaps_step(b: Seq<u8>, cursor: int, end: int, iv: (int, int), rest: Seq<(int, int)>)
    ensures
        gaps(b, cursor, end, seq![iv] + rest) == {
            let seg_end = max_int(min_int(iv.0, end), cursor);
            let next = min_int(max_int(iv.1, cursor), end);
            if cursor < seg_end {
                seq![text_of(b, cursor, seg_end)] + gaps(b, next, end, rest)
            } else {
                gaps(b, next, end, rest)
            }
        },
{
    assert((seq![iv] + rest).drop_first() =~= rest);
}

impl<'a> ElementRef<'a> {
    /// Inner text segments, in source order, with child element markup
    /// stripped. Comment and CDATA brackets are excluded as well.
    ///
    /// For `<task>do <em>thing</em> now</task>` this yields `"do "` and
    /// `" now"`. Self-closing elements yield nothing.
    #[verifier::rlimit(40)]
    pub fn text(&self) -> (r: Vec<&'a str>)
        ensures
            strs_view(r@) == text_segments(self@),
    {
        proof {
            use_type_invariant(self);
        }
        let d: &'a ElementData = self.data;
        let raw: &'a str = self.raw;
        let trivia: &'a [(usize, usize)] = self.trivia;
        let ghost b = bytes_of(raw@);
        let ghost e = d.model();
        let ghost tr = ranges_view(trivia@);
        let start = d.content_start;
        let end = d.content_end;
        let ghost pred = |r: (int, int)| r.1 > start && r.0 < end;
        // The trivia ranges that reach into the content.
        let mut tv: Vec<(usize, usize)> = Vec::new();
        let mut k: usize = 0;
        proof {
            assert(tr.take(0) =~= Seq::<(int, int)>::empty());
            reveal(Seq::filter);
            assert(ranges_view(tv@) =~= tr.take(0).filter(pred));
        }
        while k < trivia.len()
            invariant
                k <= trivia@.len(),
                tr == ranges_view(trivia@),
                pred == (|r: (int, int)| r.1 > start && r.0 < end),
                ranges_view(tv@) == tr.take(k as int).filter(pred),
                forall|j: int| 0 <= j < tv@.len() ==> exists|m: int| 0 <= m < trivia@.len() && #[trigger] tv@[j] == trivia@[m],
            decreases trivia@.len() - k,
        {
            let item = trivia[k];
            proof {
                assert(tr.take(k + 1) =~= tr.take(k as int).push(tr[k as int]));
                tr.take(k as int).lemma_filter_push(tr[k as int], pred);
            }
            if item.1 > start && item.0 < end {
                tv.push(item);
                proof {
                    assert(ranges_view(tv@) =~= tr.take(k as int).filter(pred).push(tr[k as int]));
                    assert(tv@[tv@.len() - 1] == trivia@[k as int]);
                }
            }
            k = k + 1;
        }
        proof {
            assert(tr.take(trivia@.len() as int) =~= tr);
            assert forall|j: int| 0 <= j < tv@.len() implies cut_ok(b, (#[trigger] tv@[j]).0 as int) && cut_ok(b, tv@[j].1 as int) by {
                let m = choose|m: int| 0 <= m < trivia@.len() && tv@[j] == trivia@[m];
                assert(cut_ok(b, self@.trivia[m].0) && cut_ok(b, self@.trivia[m].1));
            }
        }
        let ghost tw = ranges_view(tv@);
        let ghost cs = child_spans(e);
        let nc = d.children.len();
        let nt = tv.len();
        proof {
            assert(elem_ok(e, b));
        }
        let mut out: Vec<&'a str> = Vec::new();
        let mut cursor = start;
        let mut ci: usize = 0;
        let mut ti: usize = 0;
        proof {
            assert(cs.skip(0) =~= cs);
            assert(tw.skip(0) =~= tw);
            assert(strs_view(out@) + gaps(b, start as int, end as int, merge_by_start(cs, tw)) =~= gaps(b, start as int, end as int, merge_by_start(cs, tw)));
        }
        while ci < nc || ti < nt
            invariant
                elem_ref_ok(self@),
                elem_ok(e, b),
                cs.len() == nc,
                tw.len() == nt,
                e == d.model(),
                b == bytes_of(raw@),
                raw@ == self@.raw,
                tw == ranges_view(tv@),
                cs == child_spans(e),
                nc == d.children@.len(),
                nt == tv@.len(),
                ci <= nc,
                ti <= nt,
                start == e.content_start,
                end == e.content_end,
                start <= cursor <= end,
                cut_ok(b, cursor as int),
                forall|j: int| 0 <= j < tv@.len() ==> cut_ok(b, (#[trigger] tv@[j]).0 as int) && cut_ok(b, tv@[j].1 as int),
                strs_view(out@) + gaps(b, cursor as int, end as int, merge_by_start(cs.skip(ci as int), tw.skip(ti as int)))
                    == text_segments(self@),
            decreases nc - ci + nt - ti,
        {
            let ghost mc = cs.skip(ci as int);
            let ghost mt = tw.skip(ti as int);
            let (s, f) = if ci < nc && (ti >= nt || (d.children[ci].span.start.offset as usize) <= tv[ti].0) {
                let c = &d.children[ci];
                proof {
                    assert(e.children[ci as int] == c.model());
                    assert(mc[0] == cs[ci as int]);
                    if ti < nt {
                        assert(mt[0] == tw[ti as int]);
                    }
                    lemma_merge_left(mc, mt);
                    assert(mc.drop_first() =~= cs.skip(ci + 1));
                    assert(elem_ok(e, b));
                    assert(elem_ok(e.children[ci as int], b));
                }
                ci = ci + 1;
                (c.span.start.offset as usize, c.span.end.offset as usize)
            } else {
                let t = tv[ti];
                proof {
                    assert(mt[0] == tw[ti as int]);
                    if ci < nc {
                        assert(mc[0] == cs[ci as int]);
                        assert(e.children[ci as int] == d.children@[ci as int].model());
                    }
                    lemma_merge_right(mc, mt);
                    assert(mt.drop_first() =~= tw.skip(ti + 1));
                    assert(cut_ok(b, tv@[ti as int].0 as int));
                }
                ti = ti + 1;
                t
            };
            let seg_end = if s < end { s } else { end };
            let seg_end = if seg_end > cursor { seg_end } else { cursor };
            proof {
                lemma_gaps_step(b, cursor as int, end as int, (s as int, f as int), merge_by_start(cs.skip(ci as int), tw.skip(ti as int)));
            }
            if cursor < seg_end {
                let seg = slice_str(raw, cursor, seg_end);
                let ghost before = strs_view(out@);
                out.push(seg);
                proof {
                    assert(strs_view(out@) =~= before.push(seg@));
                    assert(before.push(seg@) + gaps(b, (min_int(max_int(f as int, cursor as int), end as int)), end as int, merge_by_start(cs.skip(ci as int), tw.skip(ti as int))) =~= before + (seq![seg@] + gaps(b, (min_int(max_int(f as int, cursor as int), end as int)), end as int, merge_by_start(cs.skip(ci as int), tw.skip(ti as int)))));
                }
            }
            let nxt = if f > cursor { f } else { cursor };
            cursor = if nxt < end { nxt } else { end };
        }
        proof {
            assert(cs.skip(ci as int).len() == 0);
            assert(tw.skip(ti as int).len() == 0);
        }
        if cursor < end {
            let seg = slice_str(raw, cursor, end);
            let ghost before = strs_view(out@);
            out.push(seg);
            proof {
                assert(strs_view(out@) =~= before + seq![seg@]);
            }
        } else {
            proof {
                assert(strs_view(out@) + Seq::<Seq<char>>::empty() =~= strs_view(out@));
            }
        }
        out
    }
}

/// The trivia ranges that reach into `[from, to)`, in order.
pub(crate) fn trivia_in(trivia: &[(usize, usize)], from: usize, to: usize) -> (r: Vec<(usize, usize)>)
    ensures
        ranges_view(r@) == trivia_within(ranges_view(trivia@), from as int, to as int),
        forall|j: int| 0 <= j < r@.len() ==> exists|m: int| 0 <= m < trivia@.len() && #[trigger] r@[j] == trivia@[m],
{
    let ghost tr = ranges_view(trivia@);
    let ghost pred = |r: (int, int)| r.1 > from && r.0 < to;
    let mut tv: Vec<(usize, usize)> = Vec::new();
    let mut k: usize = 0;
    proof {
        assert(tr.take(0) =~= Seq::<(int, int)>::empty());
        reveal(Seq::filter);
        assert(ranges_view(tv@) =~= tr.take(0).filter(pred));
    }
    while k < trivia.len()
        invariant
            k <= trivia@.len(),
            tr == ranges_view(trivia@),
            pred == (|r: (int, int)| r.1 > from && r.0 < to),
            ranges_view(tv@) == tr.take(k as int).filter(pred),
            forall|j: int| 0 <= j < tv@.len() ==> exists|m: int| 0 <= m < trivia@.len() && #[trigger] tv@[j] == trivia@[m],
        decreases trivia@.len() - k,
    {
        let item = trivia[k];
        proof {
            assert(tr.take(k + 1) =~= tr.take(k as int).push(tr[k as int]));
            tr.take(k as int).lemma_filter_push(tr[k as int], pred);
        }
        if item.1 > from && item.0 < to {
            tv.push(item);
            proof {
                assert(ranges_view(tv@) =~= tr.take(k as int).filter(pred).push(tr[k as int]));
                assert(tv@[tv@.len() - 1] == trivia@[k as int]);
            }
        }
        k = k + 1;
    }
    proof {
        assert(tr.take(trivia@.len() as int) =~= tr);
    }
    tv
}

/// The text runs of `raw[from..to]` between the intervals `ivs` (see
/// [`gaps`]).
pub(crate) fn gap_runs<'a>(raw: &'a str, from: usize, to: usize, ivs: &Vec<(usize, usize)>) -> (r: Vec<
    &'a str,
>)
    requires
        from <= to <= bytes_of(raw@).len(),
        cut_ok(bytes_of(raw@), from as int),
        cut_ok(bytes_of(raw@), to as int),
        forall|j: int|
            0 <= j < ivs@.len() ==> cut_ok(bytes_of(raw@), (#[trigger] ivs@[j]).0 as int) && cut_ok(
                bytes_of(raw@),
                ivs@[j].1 as int,
            ),
    ensures
        strs_view(r@) == gaps(bytes_of(raw@), from as int, to as int, ranges_view(ivs@)),
{
    let ghost b = bytes_of(raw@);
    let ghost iv = ranges_view(ivs@);
    let mut out: Vec<&'a str> = Vec::new();
    let mut cursor = from;
    let mut i: usize = 0;
    proof {
        assert(iv.skip(0) =~= iv);
        assert(strs_view(out@) + gaps(b, from as int, to as int, iv) =~= gaps(b, from as int, to as int, iv));
    }
    while i < ivs.len()
        invariant
            b == bytes_of(raw@),
            iv == ranges_view(ivs@),
            i <= ivs@.len(),
            from <= cursor <= to,
            to <= b.len(),
            cut_ok(b, cursor as int),
            cut_ok(b, to as int),
            forall|j: int|
                0 <= j < ivs@.len() ==> cut_ok(b, (#[trigger] ivs@[j]).0 as int) && cut_ok(b, ivs@[j].1 as int),
            strs_view(out@) + gaps(b, cursor as int, to as int, iv.skip(i as int)) == gaps(b, from as int, to as int, iv),
        decreases ivs@.len() - i,
    {
        let (s, f) = ivs[i];
        proof {
            assert(iv.skip(i as int) =~= seq![(s as int, f as int)] + iv.skip(i + 1));
            lemma_gaps_step(b, cursor as int, to as int, (s as int, f as int), iv.skip(i + 1));
            assert(cut_ok(b, ivs@[i as int].0 as int) && cut_ok(b, ivs@[i as int].1 as int));
        }
        let seg_end = if s < to { s } else { to };
        let seg_end = if seg_end > cursor { seg_end } else { cursor };
        if cursor < seg_end {
            let seg = slice_str(raw, cursor, seg_end);
            let ghost before = strs_view(out@);
            out.push(seg);
            proof {
                assert(strs_view(out@) =~= before.push(seg@));
                let rest = gaps(b, min_int(max_int(f as int, cursor as int), to as int), to as int, iv.skip(i + 1));
                assert(before.push(seg@) + rest =~= before + (seq![seg@] + rest));
            }
        }
        let nxt = if f > cursor { f } else { cursor };
        cursor = if nxt < to { nxt } else { to };
        i = i + 1;
    }
    if cursor < to {
        let seg = slice_str(raw, cursor, to);
        let ghost before = strs_view(out@);
        out.push(seg);
        proof {
            assert(iv.skip(i as int) =~= Seq::<(int, int)>::empty());
            assert(strs_view(out@) =~= before + seq![seg@]);
        }
    } else {
        proof {
            assert(iv.skip(i as int) =~= Seq::<(int, int)>::empty());
            assert(strs_view(out@) + Seq::<Seq<char>>::empty() =~= strs_view(out@));
        }
    }
    out
}

} // verus!
