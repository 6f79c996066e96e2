//! Serialization of parsed elements back to text or structured forms.
//!
//! - [`Markdown::to_xml`]: every root element as XML, dropping the
//!   surrounding markdown text.
//! - [`Markdown::to_json`]: the element tree as a [`JsonValue`], suitable
//!   for crossing process or language boundaries.

use crate::document::Markdown;
use crate::escape::{
    decode_entities, is_xml_whitespace_only, push_escaped_attr, push_escaped_text, spec_decode_entities,
    illegal_control, spec_escape_attr, spec_escape_text, xml_space,
};
use crate::json::{json_seq, entries_seq, lemma_array_model, lemma_object_model, strip_non_leaf_text, strip_spec, JsonModel, JsonValue};
use crate::render::push_str;
use crate::source::{bytes_of, count_newlines, cut_ok, slice_str, text_of};
use crate::types::{
    elem_ok, gaps, ranges_view, strs_view, text_segments, trivia_ok, trivia_within, ElemModel,
    ElemRefModel, ElementData, ElementRef,
};
use vstd::prelude::*;
use vstd::string::*;

verus! {

broadcast use {vstd::utf8::group_utf8_lib, vstd::string::group_string_axioms};

/// Options for [`Markdown::to_xml`] (and the shape of
/// [`Markdown::to_json_with`]).
#[derive(Debug, Clone, PartialEq, Eq)]
#[non_exhaustive]
pub struct SerializeOpts {
    /// Indentation string. When set, child elements are nested on their own
    /// lines with this prefix per level; `None` yields single-line output.
    pub indent: Option<String>,
    /// When true, empty elements are emitted as `<tag/>`. When false they
    /// stay `<tag></tag>` unless the source already used self-close syntax.
    pub self_close_empty: bool,
    /// When true, drop text that appears between child elements. The text
    /// inside leaf elements (`<task>body</task>`) is kept either way.
    pub strip_text: bool,
    /// When set, wrap the output in one synthetic root element with this
    /// tag name, turning a multi-root fragment into a single-root document.
    pub wrap_in: Option<String>,
}

/// Mathematical form of [`SerializeOpts`].
pub struct OptsModel {
    pub indent: Option<Seq<char>>,
    pub self_close_empty: bool,
    pub strip_text: bool,
    pub wrap_in: Option<Seq<char>>,
}

pub open spec fn opt_str_view(o: Option<String>) -> Option<Seq<char>> {
    match o {
        Some(s) => Some(s@),
        None => None,
    }
}

impl View for SerializeOpts {
    type V = OptsModel;

    open spec fn view(&self) -> OptsModel {
        OptsModel {
            indent: opt_str_view(self.indent),
            self_close_empty: self.self_close_empty,
            strip_text: self.strip_text,
            wrap_in: opt_str_view(self.wrap_in),
        }
    }
}

impl Default for SerializeOpts {
    /// Tight output: no indentation, no empty-tag collapsing, text kept, no
    /// wrapper.
    fn default() -> (r: SerializeOpts)
        ensures
            r@ == (OptsModel { indent: None, self_close_empty: false, strip_text: false, wrap_in: None }),
    {
        SerializeOpts { indent: None, self_close_empty: false, strip_text: false, wrap_in: None }
    }
}

impl SerializeOpts {
    /// Tight defaults; the same as [`SerializeOpts::default`].
    pub fn new() -> (r: SerializeOpts)
        ensures
            r@ == (OptsModel { indent: None, self_close_empty: false, strip_text: false, wrap_in: None }),
    {
        SerializeOpts { indent: None, self_close_empty: false, strip_text: false, wrap_in: None }
    }

    /// Pretty-print defaults: 2-space indentation, self-close empty tags.
    pub fn pretty() -> (r: SerializeOpts)
        ensures
            r@ == (OptsModel {
                indent: Some(seq![' ', ' ']),
                self_close_empty: true,
                strip_text: false,
                wrap_in: None,
            }),
    {
        let indent = "  ".to_owned();
        proof {
            reveal_strlit("  ");
            assert(indent@ =~= seq![' ', ' ']);
        }
        SerializeOpts { indent: Some(indent), self_close_empty: true, strip_text: false, wrap_in: None }
    }

    /// Pretty-print, drop inter-element text, and wrap in a `<markdown>`
    /// root: a single-root XML document without the markdown prose.
    pub fn structured() -> (r: SerializeOpts)
        ensures
            r@ == (OptsModel {
                indent: Some(seq![' ', ' ']),
                self_close_empty: true,
                strip_text: true,
                wrap_in: Some(seq!['m', 'a', 'r', 'k', 'd', 'o', 'w', 'n']),
            }),
    {
        let r = SerializeOpts::pretty().strip_text(true).with_root("markdown");
        proof {
            reveal_strlit("markdown");
            assert("markdown"@ =~= seq!['m', 'a', 'r', 'k', 'd', 'o', 'w', 'n']);
        }
        r
    }

    /// Set the indentation prefix used once per nesting level.
    pub fn with_indent(self, indent: &str) -> (r: SerializeOpts)
        ensures
            r@ == (OptsModel { indent: Some(indent@), ..self@ }),
    {
        SerializeOpts { indent: Some(indent.to_owned()), ..self }
    }

    /// Disable indentation: everything on one line.
    pub fn compact(self) -> (r: SerializeOpts)
        ensures
            r@ == (OptsModel { indent: None, ..self@ }),
    {
        SerializeOpts { indent: None, ..self }
    }

    /// Collapse empty elements to `<tag/>`.
    pub fn self_close_empty(self) -> (r: SerializeOpts)
        ensures
            r@ == (OptsModel { self_close_empty: true, ..self@ }),
    {
        SerializeOpts { self_close_empty: true, ..self }
    }

    /// Keep empty elements as `<tag></tag>` (source self-close form is
    /// always preserved).
    pub fn expand_empty(self) -> (r: SerializeOpts)
        ensures
            r@ == (OptsModel { self_close_empty: false, ..self@ }),
    {
        SerializeOpts { self_close_empty: false, ..self }
    }

    /// Set whether text between child elements is dropped.
    pub fn strip_text(self, on: bool) -> (r: SerializeOpts)
        ensures
            r@ == (OptsModel { strip_text: on, ..self@ }),
    {
        SerializeOpts { strip_text: on, ..self }
    }

    /// Wrap the output in a `<name>…</name>` root element.
    pub fn with_root(self, name: &str) -> (r: SerializeOpts)
        ensures
            r@ == (OptsModel { wrap_in: Some(name@), ..self@ }),
    {
        SerializeOpts { wrap_in: Some(name.to_owned()), ..self }
    }
}

// ─── text pieces ─────────────────────────────────────────────────────────

/// The escaped forms of `segs`, concatenated.
pub open spec fn escape_all(segs: Seq<Seq<char>>) -> Seq<char>
    decreases segs.len(),
{
    if segs.len() == 0 {
        Seq::empty()
    } else {
        escape_all(segs.drop_last()) + spec_escape_text(segs.last())
    }
}

/// Some segment holds a character other than XML whitespace.
pub open spec fn has_nonblank(segs: Seq<Seq<char>>) -> bool {
    exists|i: int, j: int| 0 <= i < segs.len() && 0 <= j < segs[i].len() && !xml_space(#[trigger] segs[i][j])
}

/// The text runs of `b[from..to]` between the trivia ranges `tv`.
pub open spec fn plain_runs(b: Seq<u8>, tv: Seq<(int, int)>, from: int, to: int) -> Seq<Seq<char>> {
    gaps(b, from, to, trivia_within(tv, from, to))
}

// ─── XML, mathematically ─────────────────────────────────────────────────

/// The options that shape one element's XML.
pub struct EmitOpts {
    pub indent: Option<Seq<char>>,
    pub self_close_empty: bool,
    pub strip_text: bool,
}

pub open spec fn emit_opts(o: OptsModel) -> EmitOpts {
    EmitOpts { indent: o.indent, self_close_empty: o.self_close_empty, strip_text: o.strip_text }
}

/// The options used for mixed content: the same, without indentation.
pub open spec fn tight_opts(o: EmitOpts) -> EmitOpts {
    EmitOpts { indent: None, ..o }
}

/// `depth` copies of the indentation string (nothing without indentation).
pub open spec fn indent_text(o: EmitOpts, depth: nat) -> Seq<char>
    decreases depth,
{
    match o.indent {
        None => Seq::empty(),
        Some(s) => if depth == 0 {
            Seq::empty()
        } else {
            indent_text(o, (depth - 1) as nat) + s
        },
    }
}

/// ` name="escaped value"` for every attribute, in order.
pub open spec fn attrs_xml(attrs: Seq<(Seq<char>, Seq<char>)>) -> Seq<char>
    decreases attrs.len(),
{
    if attrs.len() == 0 {
        Seq::empty()
    } else {
        attrs_xml(attrs.drop_last()) + seq![' '] + crate::mutate::attr_text(attrs.last().0, attrs.last().1)
    }
}

/// The direct text segments of `e` in the document `raw` with trivia `tv`.
pub open spec fn direct_text(raw: Seq<char>, tv: Seq<(int, int)>, e: ElemModel) -> Seq<Seq<char>> {
    text_segments(ElemRefModel { elem: e, raw, trivia: tv })
}

/// The XML of element `e` at nesting `depth`.
pub open spec fn xml_elem(raw: Seq<char>, tv: Seq<(int, int)>, o: EmitOpts, e: ElemModel, depth: nat) -> Seq<
    char,
>
    decreases e, 0int,
{
    let segs = direct_text(raw, tv, e);
    let has_text = has_nonblank(segs);
    let head = indent_text(o, depth) + seq!['<'] + e.tag + attrs_xml(e.attrs);
    if e.children.len() == 0 && !has_text && (e.self_closing || o.self_close_empty) {
        head + seq!['/', '>']
    } else {
        let body = if e.children.len() == 0 {
            escape_all(segs)
        } else if o.indent is Some {
            if has_text && !o.strip_text {
                xml_tight(raw, tv, tight_opts(o), e.children, 0, e.content_start, e.content_end, depth)
            } else {
                xml_pretty(raw, tv, o, e.children, 0, depth) + seq!['\n'] + indent_text(o, depth)
            }
        } else {
            xml_tight(raw, tv, o, e.children, 0, e.content_start, e.content_end, depth)
        };
        head + seq!['>'] + body + seq!['<', '/'] + e.tag + seq!['>']
    }
}

/// Children `cs[k..]` of a parent at `depth`, each on its own line.
pub open spec fn xml_pretty(
    raw: Seq<char>,
    tv: Seq<(int, int)>,
    o: EmitOpts,
    cs: Seq<ElemModel>,
    k: int,
    depth: nat,
) -> Seq<char>
    decreases cs, cs.len() - k,
{
    if k < 0 || k >= cs.len() {
        Seq::empty()
    } else {
        seq!['\n'] + xml_elem(raw, tv, o, cs[k], depth + 1) + xml_pretty(raw, tv, o, cs, k + 1, depth)
    }
}

/// Children `cs[k..]` of a parent at `depth`, interleaved with the escaped
/// text around them from `cursor` to the end of the parent's content `end`
/// (text dropped under `strip_text`).
pub open spec fn xml_tight(
    raw: Seq<char>,
    tv: Seq<(int, int)>,
    o: EmitOpts,
    cs: Seq<ElemModel>,
    k: int,
    cursor: int,
    end: int,
    depth: nat,
) -> Seq<char>
    decreases cs, cs.len() - k,
{
    let b = bytes_of(raw);
    if k < 0 || k >= cs.len() {
        if cursor < end && !o.strip_text {
            escape_all(plain_runs(b, tv, cursor, end))
        } else {
            Seq::empty()
        }
    } else {
        let c = cs[k];
        let seg_end = if c.start < end {
            c.start
        } else {
            end
        };
        let text = if !o.strip_text {
            escape_all(plain_runs(b, tv, cursor, seg_end))
        } else {
            Seq::empty()
        };
        text + xml_elem(raw, tv, o, c, depth + 1) + xml_tight(raw, tv, o, cs, k + 1, c.end, end, depth)
    }
}

/// The root elements `rs`, each preceded by a line break when indenting
/// (except the very first one of an unwrapped document).
pub open spec fn xml_roots(raw: Seq<char>, tv: Seq<(int, int)>, o: OptsModel, rs: Seq<ElemModel>) -> Seq<
    char,
>
    decreases rs.len(),
{
    if rs.len() == 0 {
        Seq::empty()
    } else {
        let i = rs.len() - 1;
        xml_roots(raw, tv, o, rs.drop_last()) + (if (i > 0 || o.wrap_in is Some) && o.indent is Some {
            seq!['\n']
        } else {
            Seq::empty()
        }) + xml_elem(raw, tv, emit_opts(o), rs.last(), if o.wrap_in is Some {
            1nat
        } else {
            0nat
        })
    }
}

/// The XML of a whole document: its root elements, optionally inside a
/// synthetic wrapper element.
pub open spec fn xml_doc(raw: Seq<char>, tv: Seq<(int, int)>, o: OptsModel, rs: Seq<ElemModel>) -> Seq<char> {
    match o.wrap_in {
        Some(name) => seq!['<'] + name + seq!['>'] + xml_roots(raw, tv, o, rs) + (if o.indent is Some {
            seq!['\n']
        } else {
            Seq::empty()
        }) + seq!['<', '/'] + name + seq!['>'],
        None => xml_roots(raw, tv, o, rs),
    }
}

// ─── XML emission ────────────────────────────────────────────────────────

/// What an emitter needs of its arguments: the element and trivia sit in
/// the source, and nesting stays within bounds.
pub open spec fn emit_ready(el: ElemModel, raw: Seq<char>, tv: Seq<(int, int)>, depth: int) -> bool {
    &&& elem_ok(el, bytes_of(raw))
    &&& trivia_ok(tv, bytes_of(raw))
    &&& bytes_of(raw).len() <= u32::MAX - 1
    &&& 0 <= depth
    &&& depth + (el.end - el.start) <= u32::MAX
}

fn indent_for(opts: &SerializeOpts, depth: usize, out: &mut String)
    ensures
        final(out)@ == old(out)@ + indent_text(emit_opts(opts@), depth as nat),
{
    let ghost o = emit_opts(opts@);
    let ghost start = out@;
    match &opts.indent {
        Some(indent) => {
            let mut k: usize = 0;
            while k < depth
                invariant
                    k <= depth,
                    o == emit_opts(opts@),
                    opts.indent == Some(*indent),
                    out@ == start + indent_text(o, k as nat),
                decreases depth - k,
            {
                let ghost before = out@;
                push_str(out, indent.as_str());
                proof {
                    assert(indent_text(o, (k + 1) as nat) == indent_text(o, k as nat) + indent@);
                    assert(out@ =~= start + indent_text(o, (k + 1) as nat));
                }
                k = k + 1;
            }
        },
        None => {
            proof {
                assert(out@ =~= start + indent_text(o, depth as nat));
            }
        },
    }
}

/// Append each run of `runs`, escaped.
fn push_escaped_runs(out: &mut String, runs: &Vec<&str>)
    ensures
        final(out)@ == old(out)@ + escape_all(strs_view(runs@)),
{
    let ghost start = out@;
    let mut k: usize = 0;
    proof {
        assert(strs_view(runs@).take(0) =~= Seq::<Seq<char>>::empty());
        assert(out@ =~= start + escape_all(strs_view(runs@).take(0)));
    }
    while k < runs.len()
        invariant
            k <= runs@.len(),
            out@ == start + escape_all(strs_view(runs@).take(k as int)),
        decreases runs@.len() - k,
    {
        push_escaped_text(out, runs[k]);
        proof {
            let v = strs_view(runs@);
            assert(v.take(k + 1).drop_last() =~= v.take(k as int));
            assert(v.take(k + 1).last() == runs@[k as int]@);
            assert(out@ =~= start + escape_all(v.take(k + 1)));
        }
        k = k + 1;
    }
    proof {
        assert(strs_view(runs@).take(runs@.len() as int) =~= strs_view(runs@));
    }
}

/// Does some segment hold a character other than XML whitespace?
pub(crate) fn any_nonblank(segs: &Vec<&str>) -> (r: bool)
    ensures
        r == has_nonblank(strs_view(segs@)),
{
    let ghost v = strs_view(segs@);
    let mut k: usize = 0;
    while k < segs.len()
        invariant
            k <= segs@.len(),
            v == strs_view(segs@),
            forall|i: int, j: int| 0 <= i < k && 0 <= j < v[i].len() ==> xml_space(#[trigger] v[i][j]),
        decreases segs@.len() - k,
    {
        if !is_xml_whitespace_only(segs[k]) {
            proof {
                let j = choose|j: int| 0 <= j < segs@[k as int]@.len() && !xml_space(segs@[k as int]@[j]);
                assert(!xml_space(v[k as int][j]));
            }
            return true;
        }
        k = k + 1;
    }
    false
}

/// Append `raw[from..to]` escaped as XML text, skipping the trivia ranges
/// (comments and CDATA brackets) inside it.
fn push_escaped_text_skipping_trivia(
    raw: &str,
    from: usize,
    to: usize,
    trivia: &[(usize, usize)],
    out: &mut String,
)
    requires
        from <= to <= bytes_of(raw@).len(),
        cut_ok(bytes_of(raw@), from as int),
        cut_ok(bytes_of(raw@), to as int),
        trivia_ok(ranges_view(trivia@), bytes_of(raw@)),
    ensures
        final(out)@ == old(out)@ + escape_all(
            plain_runs(bytes_of(raw@), ranges_view(trivia@), from as int, to as int),
        ),
{
    let ghost b = bytes_of(raw@);
    let tv = crate::types::trivia_in(trivia, from, to);
    proof {
        assert forall|j: int| 0 <= j < tv@.len() implies cut_ok(b, (#[trigger] tv@[j]).0 as int) && cut_ok(
            b,
            tv@[j].1 as int,
        ) by {
            let m = choose|m: int| 0 <= m < trivia@.len() && tv@[j] == trivia@[m];
            assert(ranges_view(trivia@)[m] == (trivia@[m].0 as int, trivia@[m].1 as int));
        }
    }
    let runs = crate::types::gap_runs(raw, from, to, &tv);
    push_escaped_runs(out, &runs);
}

/// Append ` name="escaped value"` for each attribute.
fn write_attrs(out: &mut String, attrs: &Vec<(String, String)>)
    ensures
        final(out)@ == old(out)@ + attrs_xml(crate::types::attrs_view(attrs@)),
{
    let ghost av = crate::types::attrs_view(attrs@);
    let ghost start = out@;
    let mut k: usize = 0;
    proof {
        assert(av.take(0) =~= Seq::<(Seq<char>, Seq<char>)>::empty());
        assert(out@ =~= start + attrs_xml(av.take(0)));
    }
    while k < attrs.len()
        invariant
            k <= attrs@.len(),
            av == crate::types::attrs_view(attrs@),
            out@ == start + attrs_xml(av.take(k as int)),
        decreases attrs@.len() - k,
    {
        let ghost before = out@;
        push_str(out, " ");
        push_str(out, attrs[k].0.as_str());
        push_str(out, "=\"");
        push_escaped_attr(out, attrs[k].1.as_str());
        push_str(out, "\"");
        proof {
            reveal_strlit(" ");
            reveal_strlit("=\"");
            reveal_strlit("\"");
            assert(av.take(k + 1).drop_last() =~= av.take(k as int));
            assert(av.take(k + 1).last() == av[k as int]);
            assert(out@ =~= start + attrs_xml(av.take(k + 1)));
        }
        k = k + 1;
    }
    proof {
        assert(av.take(attrs@.len() as int) =~= av);
    }
}

proof fn lemma_child_ready(el: ElemModel, raw: Seq<char>, tv: Seq<(int, int)>, depth: int, k: int)
    requires
        emit_ready(el, raw, tv, depth),
        0 <= k < el.children.len(),
    ensures
        emit_ready(el.children[k], raw, tv, depth + 1),
        el.content_start <= el.children[k].start,
        el.children[k].end <= el.content_end,
        k + 1 < el.children.len() ==> el.children[k].end <= el.children[k + 1].start,
{
    assert(elem_ok(el.children[k], bytes_of(raw)));
    if k + 1 < el.children.len() {
        assert(el.children[k].end <= el.children[k + 1].start);
    }
}

/// The element's direct text segments.
fn direct_segments<'a>(el: &'a ElementData, raw: &'a str, trivia: &'a [(usize, usize)]) -> (r: Vec<&'a str>)
    requires
        emit_ready(el.model(), raw@, ranges_view(trivia@), 0),
    ensures
        strs_view(r@) == direct_text(raw@, ranges_view(trivia@), el.model()),
{
    let r = ElementRef::new(el, raw, trivia);
    r.text()
}

/// Emit one element (and its subtree) as XML at nesting `depth`.
fn emit_element(
    el: &ElementData,
    raw: &str,
    trivia: &[(usize, usize)],
    opts: &SerializeOpts,
    depth: usize,
    out: &mut String,
)
    requires
        emit_ready(el.model(), raw@, ranges_view(trivia@), depth as int),
    ensures
        final(out)@ == old(out)@ + xml_elem(raw@, ranges_view(trivia@), emit_opts(opts@), el.model(), depth as nat),
    decreases el, 2int,
{
    let ghost e = el.model();
    let ghost tv = ranges_view(trivia@);
    let ghost o = emit_opts(opts@);
    let ghost start = out@;
    indent_for(opts, depth, out);
    push_str(out, "<");
    push_str(out, el.tag.as_str());
    write_attrs(out, &el.attrs);
    let ghost head = out@;
    proof {
        reveal_strlit("<");
        assert(head =~= start + (indent_text(o, depth as nat) + seq!['<'] + e.tag + attrs_xml(e.attrs)));
        assert(elem_ok(e, bytes_of(raw@)));
    }
    let segs = direct_segments(el, raw, trivia);
    let has_text = any_nonblank(&segs);
    let n = el.children.len();
    proof {
        assert(e.children.len() == n);
    }
    if n == 0 && !has_text && (el.self_closing || opts.self_close_empty) {
        push_str(out, "/>");
        proof {
            reveal_strlit("/>");
            assert(out@ =~= start + xml_elem(raw@, tv, o, e, depth as nat));
        }
        return;
    }
    push_str(out, ">");
    let ghost mid = out@;
    if n == 0 {
        push_escaped_runs(out, &segs);
    } else if opts.indent.is_some() {
        emit_pretty_children(el, raw, trivia, opts, depth, out, has_text);
    } else {
        emit_tight_children(el, raw, trivia, opts, depth, out);
    }
    let ghost body = out@.subrange(mid.len() as int, out@.len() as int);
    push_str(out, "</");
    push_str(out, el.tag.as_str());
    push_str(out, ">");
    proof {
        reveal_strlit(">");
        reveal_strlit("</");
        assert(out@ =~= start + xml_elem(raw@, tv, o, e, depth as nat));
    }
}

/// Emit the children of `el` interleaved with the escaped text around them
/// (that text dropped under `strip_text`).
fn emit_tight_children(
    el: &ElementData,
    raw: &str,
    trivia: &[(usize, usize)],
    opts: &SerializeOpts,
    depth: usize,
    out: &mut String,
)
    requires
        emit_ready(el.model(), raw@, ranges_view(trivia@), depth as int),
    ensures
        final(out)@ == old(out)@ + xml_tight(
            raw@,
            ranges_view(trivia@),
            emit_opts(opts@),
            el.model().children,
            0,
            el.model().content_start,
            el.model().content_end,
            depth as nat,
        ),
    decreases el, 0int,
{
    let ghost e = el.model();
    let ghost tv = ranges_view(trivia@);
    let ghost o = emit_opts(opts@);
    let ghost b = bytes_of(raw@);
    let ghost start = out@;
    let body_start = el.content_start;
    let body_end = el.content_end;
    let mut cursor = body_start;
    let n = el.children.len();
    let mut k: usize = 0;
    proof {
        assert(elem_ok(e, b));
    }
    while k < n
        invariant
            n == e.children.len(),
            n == el.children@.len(),
            e == el.model(),
            tv == ranges_view(trivia@),
            o == emit_opts(opts@),
            b == bytes_of(raw@),
            emit_ready(e, raw@, tv, depth as int),
            body_end == e.content_end,
            k <= n,
            e.content_start <= cursor <= body_end,
            cut_ok(b, cursor as int),
            k < n ==> cursor <= e.children[k as int].start,
            start + xml_tight(raw@, tv, o, e.children, 0, e.content_start, e.content_end, depth as nat)
                == out@ + xml_tight(raw@, tv, o, e.children, k as int, cursor as int, e.content_end, depth as nat),
        decreases n - k,
    {
        let child = &el.children[k];
        proof {
            assert(e.children[k as int] == child.model());
            lemma_child_ready(e, raw@, tv, depth as int, k as int);
        }
        let child_start = child.span.start.offset as usize;
        let segment_end = if child_start < body_end { child_start } else { body_end };
        let ghost before = out@;
        if !opts.strip_text {
            push_escaped_text_skipping_trivia(raw, cursor, segment_end, trivia, out);
        }
        let ghost after_text = out@;
        emit_element(child, raw, trivia, opts, depth + 1, out);
        proof {
            let rest = xml_tight(raw@, tv, o, e.children, k + 1, child.model().end, e.content_end, depth as nat);
            assert(out@ + rest =~= before + xml_tight(raw@, tv, o, e.children, k as int, cursor as int, e.content_end, depth as nat));
        }
        cursor = child.span.end.offset as usize;
        k = k + 1;
    }
    if cursor < body_end && !opts.strip_text {
        push_escaped_text_skipping_trivia(raw, cursor, body_end, trivia, out);
    }
    proof {
        assert(out@ =~= start + xml_tight(raw@, tv, o, e.children, 0, e.content_start, e.content_end, depth as nat));
    }
}

/// Emit the children of `el` in indenting mode: each on its own line, or,
/// for mixed content (text beside children, kept), tight without
/// indentation so none is injected into the text.
fn emit_pretty_children(
    el: &ElementData,
    raw: &str,
    trivia: &[(usize, usize)],
    opts: &SerializeOpts,
    depth: usize,
    out: &mut String,
    has_inline_text: bool,
)
    requires
        emit_ready(el.model(), raw@, ranges_view(trivia@), depth as int),
        opts@.indent is Some,
        has_inline_text == has_nonblank(direct_text(raw@, ranges_view(trivia@), el.model())),
    ensures
        final(out)@ == old(out)@ + (if has_inline_text && !opts@.strip_text {
            xml_tight(
                raw@,
                ranges_view(trivia@),
                tight_opts(emit_opts(opts@)),
                el.model().children,
                0,
                el.model().content_start,
                el.model().content_end,
                depth as nat,
            )
        } else {
            xml_pretty(raw@, ranges_view(trivia@), emit_opts(opts@), el.model().children, 0, depth as nat)
                + seq!['\n'] + indent_text(emit_opts(opts@), depth as nat)
        }),
    decreases el, 1int,
{
    let ghost e = el.model();
    let ghost tv = ranges_view(trivia@);
    let ghost o = emit_opts(opts@);
    let ghost start = out@;
    if has_inline_text && !opts.strip_text {
        let tight = SerializeOpts {
            indent: None,
            self_close_empty: opts.self_close_empty,
            strip_text: opts.strip_text,
            wrap_in: None,
        };
        proof {
            assert(emit_opts(tight@) == tight_opts(o));
        }
        emit_tight_children(el, raw, trivia, &tight, depth, out);
        return;
    }
    let n = el.children.len();
    let mut k: usize = 0;
    while k < n
        invariant
            n == e.children.len(),
            n == el.children@.len(),
            e == el.model(),
            tv == ranges_view(trivia@),
            o == emit_opts(opts@),
            emit_ready(e, raw@, tv, depth as int),
            k <= n,
            start + xml_pretty(raw@, tv, o, e.children, 0, depth as nat) == out@ + xml_pretty(
                raw@,
                tv,
                o,
                e.children,
                k as int,
                depth as nat,
            ),
        decreases n - k,
    {
        let child = &el.children[k];
        proof {
            assert(e.children[k as int] == child.model());
            lemma_child_ready(e, raw@, tv, depth as int, k as int);
        }
        let ghost before = out@;
        push_str(out, "\n");
        emit_element(child, raw, trivia, opts, depth + 1, out);
        proof {
            reveal_strlit("\n");
            let rest = xml_pretty(raw@, tv, o, e.children, k + 1, depth as nat);
            assert(out@ + rest =~= before + xml_pretty(raw@, tv, o, e.children, k as int, depth as nat));
        }
        k = k + 1;
    }
    let ghost after = out@;
    push_str(out, "\n");
    indent_for(opts, depth, out);
    proof {
        reveal_strlit("\n");
        assert(out@ =~= start + (xml_pretty(raw@, tv, o, e.children, 0, depth as nat) + seq!['\n']
            + indent_text(o, depth as nat)));
    }
}

/// Serialize the parsed elements of `doc` as XML, dropping the surrounding
/// markdown text.
pub fn to_xml(doc: &Markdown, opts: &SerializeOpts) -> (r: String)
    ensures
        r@ == xml_doc(doc@.raw, doc@.trivia, opts@, doc@.roots),
{
    proof {
        use_type_invariant(doc);
    }
    let raw = doc.raw();
    let roots = doc.roots_internal();
    let trivia = doc.trivia();
    let ghost tv = ranges_view(trivia@);
    let ghost o = opts@;
    let ghost rs = doc@.roots;
    let mut out = String::new();
    let wrap = opts.wrap_in.is_some();
    let inner_depth: usize = if wrap {
        1
    } else {
        0
    };
    if let Some(name) = &opts.wrap_in {
        push_str(&mut out, "<");
        push_str(&mut out, name.as_str());
        push_str(&mut out, ">");
    }
    let ghost head = out@;
    let n = roots.len();
    let mut i: usize = 0;
    proof {
        assert(rs.take(0) =~= Seq::<ElemModel>::empty());
        assert(out@ =~= head + xml_roots(raw@, tv, o, rs.take(0)));
    }
    while i < n
        invariant
            n == roots@.len(),
            rs == crate::types::elems_view(roots@),
            rs == doc@.roots,
            raw@ == doc@.raw,
            tv == ranges_view(trivia@),
            tv == doc@.trivia,
            o == opts@,
            crate::document::doc_ok(doc@),
            wrap == (o.wrap_in is Some),
            inner_depth == (if wrap {
                1nat
            } else {
                0nat
            }),
            i <= n,
            out@ == head + xml_roots(raw@, tv, o, rs.take(i as int)),
        decreases n - i,
    {
        let ghost before = out@;
        if (i > 0 || wrap) && opts.indent.is_some() {
            push_str(&mut out, "\n");
        }
        let ghost mid = out@;
        proof {
            reveal_strlit("\n");
            assert(rs[i as int] == roots@[i as int].model());
            assert(elem_ok(rs[i as int], bytes_of(raw@)));
        }
        emit_element(&roots[i], raw, trivia, opts, inner_depth, &mut out);
        proof {
            assert(rs.take(i + 1).drop_last() =~= rs.take(i as int));
            assert(rs.take(i + 1).last() == rs[i as int]);
            assert(out@ =~= head + xml_roots(raw@, tv, o, rs.take(i + 1)));
        }
        i = i + 1;
    }
    proof {
        assert(rs.take(n as int) =~= rs);
    }
    if let Some(name) = &opts.wrap_in {
        if opts.indent.is_some() {
            push_str(&mut out, "\n");
        }
        push_str(&mut out, "</");
        push_str(&mut out, name.as_str());
        push_str(&mut out, ">");
    }
    proof {
        reveal_strlit("<");
        reveal_strlit(">");
        reveal_strlit("</");
        reveal_strlit("\n");
        assert(out@ =~= xml_doc(raw@, tv, o, rs));
    }
    out
}


// ─── JSON ────────────────────────────────────────────────────────────────

/// The entity-decoded forms of `segs`, concatenated.
pub open spec fn decoded_text(segs: Seq<Seq<char>>) -> Seq<char>
    decreases segs.len(),
{
    if segs.len() == 0 {
        Seq::empty()
    } else {
        decoded_text(segs.drop_last()) + spec_decode_entities(segs.last())
    }
}

/// `{"line": line, "offset": offset}`.
pub open spec fn pos_json(line: int, offset: int) -> JsonModel {
    JsonModel::Object(
        seq![("line"@, JsonModel::Number(line as nat)), ("offset"@, JsonModel::Number(offset as nat))],
    )
}

/// The attributes as an object of strings, in source order.
pub open spec fn attrs_json(attrs: Seq<(Seq<char>, Seq<char>)>) -> JsonModel {
    JsonModel::Object(Seq::new(attrs.len(), |i: int| (attrs[i].0, JsonModel::Str(attrs[i].1))))
}

/// The JSON form of element `e`: its tag, attributes, decoded direct text,
/// children, self-closing flag and location.
pub open spec fn json_elem(raw: Seq<char>, tv: Seq<(int, int)>, e: ElemModel) -> JsonModel
    decreases e,
{
    JsonModel::Object(
        seq![
            ("tag"@, JsonModel::Str(e.tag)),
            ("attrs"@, attrs_json(e.attrs)),
            ("text"@, JsonModel::Str(decoded_text(direct_text(raw, tv, e)))),
            ("children"@, JsonModel::Array(
                Seq::new(
                    e.children.len(),
                    |i: int|
                        if 0 <= i < e.children.len() {
                            json_elem(raw, tv, e.children[i])
                        } else {
                            JsonModel::Null
                        },
                ),
            )),
            ("selfClosing"@, JsonModel::Bool(e.self_closing)),
            ("location"@, JsonModel::Object(
                seq![("start"@, pos_json(e.start_line, e.start)), ("end"@, pos_json(e.end_line, e.end))],
            )),
        ],
    )
}

/// The JSON form of each root, in order.
pub open spec fn json_roots(raw: Seq<char>, tv: Seq<(int, int)>, rs: Seq<ElemModel>) -> Seq<JsonModel> {
    Seq::new(rs.len(), |i: int| json_elem(raw, tv, rs[i]))
}

/// The JSON of a document under `o`: the array of root elements, with
/// non-leaf text emptied under `strip_text`, wrapped as `{name: [...]}`
/// under `wrap_in`.
pub open spec fn json_doc(raw: Seq<char>, tv: Seq<(int, int)>, o: OptsModel, rs: Seq<ElemModel>) -> JsonModel {
    let items = json_roots(raw, tv, rs);
    let shaped = if o.strip_text {
        Seq::new(items.len(), |i: int| strip_spec(items[i]))
    } else {
        items
    };
    match o.wrap_in {
        Some(name) => JsonModel::Object(seq![(name, JsonModel::Array(shaped))]),
        None => JsonModel::Array(shaped),
    }
}

fn pos_value(line: u32, offset: u32) -> (r: JsonValue)
    ensures
        r.model() == pos_json(line as int, offset as int),
{
    let mut v: Vec<(String, JsonValue)> = Vec::new();
    v.push(("line".to_owned(), JsonValue::Number(line as u64)));
    v.push(("offset".to_owned(), JsonValue::Number(offset as u64)));
    proof {
        lemma_object_model(v);
        assert(entries_seq(v@) =~= seq![("line"@, JsonModel::Number(line as nat)), ("offset"@, JsonModel::Number(offset as nat))]);
    }
    JsonValue::Object(v)
}

/// The JSON form of one element and its subtree.
fn element_value(el: &ElementData, raw: &str, trivia: &[(usize, usize)]) -> (r: JsonValue)
    requires
        crate::types::elem_ref_ok(ElemRefModel { elem: el.model(), raw: raw@, trivia: ranges_view(trivia@) }),
    ensures
        r.model() == json_elem(raw@, ranges_view(trivia@), el.model()),
    decreases el,
{
    let ghost e = el.model();
    let ghost tv = ranges_view(trivia@);
    // attributes
    let mut attrs: Vec<(String, JsonValue)> = Vec::new();
    let mut i: usize = 0;
    while i < el.attrs.len()
        invariant
            i <= el.attrs@.len(),
            e == el.model(),
            attrs@.len() == i,
            forall|q: int|
                0 <= q < i ==> (#[trigger] attrs@[q]).0@ == e.attrs[q].0 && attrs@[q].1.model()
                    == JsonModel::Str(e.attrs[q].1),
        decreases el.attrs@.len() - i,
    {
        attrs.push((el.attrs[i].0.clone(), JsonValue::Str(el.attrs[i].1.clone())));
        i = i + 1;
    }
    proof {
        lemma_object_model(attrs);
        assert(entries_seq(attrs@) =~= match attrs_json(e.attrs) {
            JsonModel::Object(x) => x,
            _ => Seq::empty(),
        });
    }
    let attrs_v = JsonValue::Object(attrs);
    // children
    let mut kids: Vec<JsonValue> = Vec::new();
    let mut k: usize = 0;
    while k < el.children.len()
        invariant
            k <= el.children@.len(),
            e == el.model(),
            tv == ranges_view(trivia@),
            crate::types::elem_ref_ok(ElemRefModel { elem: e, raw: raw@, trivia: tv }),
            kids@.len() == k,
            forall|q: int| 0 <= q < k ==> (#[trigger] kids@[q]).model() == json_elem(raw@, tv, e.children[q]),
        decreases el.children@.len() - k,
    {
        proof {
            assert(decreases_to!(*el => el.children));
            assert(decreases_to!(el.children => el.children@));
            assert(decreases_to!(el.children@ => el.children@[k as int]));
            assert(e.children[k as int] == el.children@[k as int].model());
            assert(elem_ok(e.children[k as int], bytes_of(raw@)));
        }
        kids.push(element_value(&el.children[k], raw, trivia));
        k = k + 1;
    }
    proof {
        lemma_array_model(kids);
    }
    let kids_v = JsonValue::Array(kids);
    // direct text, decoded
    let eref = ElementRef::new(el, raw, trivia);
    let segs = eref.text();
    let ghost sv = strs_view(segs@);
    let mut text = String::new();
    let mut j: usize = 0;
    proof {
        assert(sv.take(0) =~= Seq::<Seq<char>>::empty());
    }
    while j < segs.len()
        invariant
            j <= segs@.len(),
            sv == strs_view(segs@),
            text@ == decoded_text(sv.take(j as int)),
        decreases segs@.len() - j,
    {
        let d = crate::escape::cow_into_string(decode_entities(segs[j]));
        push_str(&mut text, d.as_str());
        proof {
            assert(sv.take(j + 1).drop_last() =~= sv.take(j as int));
            assert(sv.take(j + 1).last() == segs@[j as int]@);
        }
        j = j + 1;
    }
    proof {
        assert(sv.take(segs@.len() as int) =~= sv);
        assert(sv == direct_text(raw@, tv, e));
    }
    // location
    let mut loc: Vec<(String, JsonValue)> = Vec::new();
    loc.push(("start".to_owned(), pos_value(el.span.start.line, el.span.start.offset)));
    loc.push(("end".to_owned(), pos_value(el.span.end.line, el.span.end.offset)));
    proof {
        lemma_object_model(loc);
    }
    let loc_v = JsonValue::Object(loc);
    let mut obj: Vec<(String, JsonValue)> = Vec::new();
    obj.push(("tag".to_owned(), JsonValue::Str(el.tag.clone())));
    obj.push(("attrs".to_owned(), attrs_v));
    obj.push(("text".to_owned(), JsonValue::Str(text)));
    obj.push(("children".to_owned(), kids_v));
    obj.push(("selfClosing".to_owned(), JsonValue::Bool(el.self_closing)));
    obj.push(("location".to_owned(), loc_v));
    proof {
        lemma_object_model(obj);
        assert(entries_seq(loc@) =~= seq![("start"@, pos_json(e.start_line, e.start)), ("end"@, pos_json(e.end_line, e.end))]);
        let want = match json_elem(raw@, tv, e) {
            JsonModel::Object(x) => x,
            _ => Seq::empty(),
        };
        assert(attrs_v.model() == attrs_json(e.attrs));
        assert(text@ == decoded_text(direct_text(raw@, tv, e)));
        assert(loc_v.model() == JsonModel::Object(
            seq![("start"@, pos_json(e.start_line, e.start)), ("end"@, pos_json(e.end_line, e.end))],
        ));
        assert(el.tag@ == e.tag);
        assert(entries_seq(obj@)[0] == want[0]);
        assert(entries_seq(obj@)[1] == want[1]);
        assert(entries_seq(obj@)[2] == want[2]);
        let wc = match want[3].1 {
            JsonModel::Array(x) => x,
            _ => Seq::empty(),
        };
        assert(json_seq(kids@) =~= wc);
        assert(entries_seq(obj@)[3] == want[3]);
        assert(entries_seq(obj@)[4] == want[4]);
        assert(entries_seq(obj@)[5] == want[5]);
        assert(entries_seq(obj@) =~= want);
    }
    JsonValue::Object(obj)
}

/// The JSON form of each root element, in order.
fn roots_value(doc: &Markdown) -> (r: Vec<JsonValue>)
    ensures
        json_seq(r@) == json_roots(doc@.raw, doc@.trivia, doc@.roots),
{
    proof {
        use_type_invariant(doc);
    }
    let raw = doc.raw();
    let roots = doc.roots_internal();
    let trivia = doc.trivia();
    let ghost rs = doc@.roots;
    let mut out: Vec<JsonValue> = Vec::new();
    let mut i: usize = 0;
    while i < roots.len()
        invariant
            i <= roots@.len(),
            rs == crate::types::elems_view(roots@),
            rs == doc@.roots,
            raw@ == doc@.raw,
            ranges_view(trivia@) == doc@.trivia,
            crate::document::doc_ok(doc@),
            out@.len() == i,
            forall|q: int| 0 <= q < i ==> (#[trigger] out@[q]).model() == json_elem(raw@, doc@.trivia, rs[q]),
        decreases roots@.len() - i,
    {
        proof {
            assert(rs[i as int] == roots@[i as int].model());
            assert(elem_ok(rs[i as int], bytes_of(raw@)));
        }
        out.push(element_value(&roots[i], raw, trivia));
        i = i + 1;
    }
    proof {
        assert(json_seq(out@) =~= json_roots(doc@.raw, doc@.trivia, rs));
    }
    out
}

/// The element tree of `doc` as JSON: an array with one object per root
/// element.
pub fn to_json(doc: &Markdown) -> (r: JsonValue)
    ensures
        r.model() == JsonModel::Array(json_roots(doc@.raw, doc@.trivia, doc@.roots)),
{
    let items = roots_value(doc);
    proof {
        lemma_array_model(items);
    }
    JsonValue::Array(items)
}

/// [`to_json`] shaped by `opts`: `strip_text` empties the text of every
/// element that has children, and `wrap_in` wraps the array as
/// `{name: [...]}`. The other options do not apply to JSON.
pub fn to_json_with(doc: &Markdown, opts: &SerializeOpts) -> (r: JsonValue)
    ensures
        r.model() == json_doc(doc@.raw, doc@.trivia, opts@, doc@.roots),
{
    let items = roots_value(doc);
    let ghost want = json_roots(doc@.raw, doc@.trivia, doc@.roots);
    let shaped = if opts.strip_text {
        let mut out: Vec<JsonValue> = Vec::new();
        let mut i: usize = 0;
        while i < items.len()
            invariant
                i <= items@.len(),
                json_seq(items@) == want,
                out@.len() == i,
                forall|q: int| 0 <= q < i ==> (#[trigger] out@[q]).model() == strip_spec(want[q]),
            decreases items@.len() - i,
        {
            out.push(strip_non_leaf_text(&items[i]));
            i = i + 1;
        }
        proof {
            assert(json_seq(out@) =~= Seq::new(want.len(), |q: int| strip_spec(want[q])));
        }
        out
    } else {
        items
    };
    proof {
        lemma_array_model(shaped);
    }
    let arr = JsonValue::Array(shaped);
    match &opts.wrap_in {
        Some(name) => {
            let mut obj: Vec<(String, JsonValue)> = Vec::new();
            obj.push((name.clone(), arr));
            proof {
                lemma_object_model(obj);
                assert(entries_seq(obj@) =~= seq![(name@, arr.model())]);
            }
            JsonValue::Object(obj)
        },
        None => arr,
    }
}

// ─── Laws ────────────────────────────────────────────────────────────────

/// JSON shaping: without `strip_text` and `wrap_in` the shaped JSON is the
/// plain array of roots, and `wrap_in` puts the unwrapped result under its
/// name.
pub proof fn law_json_shape(raw: Seq<char>, tv: Seq<(int, int)>, o: OptsModel, rs: Seq<ElemModel>)
    ensures
        !o.strip_text && o.wrap_in is None ==> json_doc(raw, tv, o, rs) == JsonModel::Array(json_roots(raw, tv, rs)),
        o.wrap_in matches Some(name) ==> json_doc(raw, tv, o, rs) == JsonModel::Object(
            seq![(name, json_doc(raw, tv, OptsModel { wrap_in: None, ..o }, rs))],
        ),
{
}

/// Under `strip_text` a leaf element keeps its text: stripping changes
/// nothing in the JSON of an element without children.
pub proof fn law_strip_keeps_leaf_text(raw: Seq<char>, tv: Seq<(int, int)>, e: ElemModel)
    requires
        e.children.len() == 0,
    ensures
        strip_spec(json_elem(raw, tv, e)) == json_elem(raw, tv, e),
{
    reveal_strlit("tag");
    reveal_strlit("attrs");
    reveal_strlit("text");
    reveal_strlit("children");
    reveal_strlit("selfClosing");
    reveal_strlit("location");
    let entries = match json_elem(raw, tv, e) {
        JsonModel::Object(x) => x,
        _ => Seq::empty(),
    };
    assert("text"@ =~= crate::json::text_key());
    assert("children"@ =~= crate::json::children_key());
    assert(entries[0].0 != crate::json::children_key());
    assert(entries[1].0 != crate::json::children_key());
    assert(entries[2].0 != crate::json::children_key());
    assert(entries[3].0 == crate::json::children_key());
    assert(entries.drop_first().drop_first().drop_first()[0] == entries[3]);
    let kids = match entries[3].1 {
        JsonModel::Array(a) => a,
        _ => Seq::empty(),
    };
    assert(kids.len() == 0);
    let ck = crate::json::children_key();
    let e1 = entries.drop_first();
    let e2 = e1.drop_first();
    let e3 = e2.drop_first();
    assert(e1[0] == entries[1] && e2[0] == entries[2] && e3[0] == entries[3]);
    assert(crate::json::entry_lookup(entries, ck) == crate::json::entry_lookup(e1, ck));
    assert(crate::json::entry_lookup(e1, ck) == crate::json::entry_lookup(e2, ck));
    assert(crate::json::entry_lookup(e2, ck) == crate::json::entry_lookup(e3, ck));
    assert(crate::json::entry_lookup(e3, ck) == Some(entries[3].1));
    assert(!crate::json::has_children(entries));
    let stripped = match strip_spec(json_elem(raw, tv, e)) {
        JsonModel::Object(x) => x,
        _ => Seq::empty(),
    };
    assert(stripped.len() == entries.len());
    assert forall|i: int| 0 <= i < entries.len() implies stripped[i] == entries[i] by {
        if i == 3 {
            let sk = match stripped[3].1 {
                JsonModel::Array(a) => a,
                _ => Seq::empty(),
            };
            assert(sk =~= kids);
        }
    }
    assert(stripped =~= entries);
}


/// Each attribute that the XML rendering writes is a well-formed
/// double-quoted literal: adding an attribute `(name, value)` to a list adds
/// ` name="q"` to its rendering, where `q` holds neither `"` nor `<`, and
/// reading `q` back (decoding its entity references) gives `value` whenever
/// `value` holds no character that XML forbids.
pub proof fn law_attr_literal_reads_back(attrs: Seq<(Seq<char>, Seq<char>)>, name: Seq<char>, value: Seq<char>)
    ensures
        exists|q: Seq<char>|
            #![trigger spec_decode_entities(q)]
            attrs_xml(attrs.push((name, value))) == attrs_xml(attrs) + seq![' '] + name + seq!['=', '"'] + q + seq!['"']
                && (forall|i: int| 0 <= i < q.len() ==> #[trigger] q[i] != '"' && q[i] != '<') && ((forall|i: int|
                0 <= i < value.len() ==> !illegal_control(#[trigger] value[i])) ==> spec_decode_entities(q) == value),
{
    let q = spec_escape_attr(value);
    let all = attrs.push((name, value));
    assert(all.drop_last() =~= attrs);
    assert(all.last() == (name, value));
    crate::escape::lemma_escape_attr_plain(value);
    if forall|i: int| 0 <= i < value.len() ==> !illegal_control(#[trigger] value[i]) {
        crate::escape::law_decode_inverts_escape(value);
    }
    assert(attrs_xml(all) =~= attrs_xml(attrs) + seq![' '] + name + seq!['=', '"'] + q + seq!['"']);
    assert(spec_decode_entities(q) == spec_decode_entities(q));
}


/// The JSON form of an element that sits in the source bytes `b` reports
/// where it sits: its `location` entry gives, for the start and for the end
/// of its span, the 1-based line (one more than the number of line breaks
/// before that byte) and the byte offset.
pub proof fn law_json_location(raw: Seq<char>, tv: Seq<(int, int)>, e: ElemModel)
    requires
        elem_ok(e, bytes_of(raw)),
    ensures
        json_elem(raw, tv, e) matches JsonModel::Object(fields) && exists|k: int|
            0 <= k < fields.len() && #[trigger] fields[k] == (
                "location"@,
                JsonModel::Object(
                    seq![
                        ("start"@, JsonModel::Object(seq![
                            ("line"@, JsonModel::Number((1 + count_newlines(bytes_of(raw), e.start)) as nat)),
                            ("offset"@, JsonModel::Number(e.start as nat)),
                        ])),
                        ("end"@, JsonModel::Object(seq![
                            ("line"@, JsonModel::Number((1 + count_newlines(bytes_of(raw), e.end)) as nat)),
                            ("offset"@, JsonModel::Number(e.end as nat)),
                        ])),
                    ],
                ),
            ),
{
    let fields = json_elem(raw, tv, e)->Object_0;
    assert(fields[5].0 == "location"@);
}


/// The JSON form of an element names its tag, gives each attribute's value
/// under its name in source order, says whether the element self-closes,
/// and lists the JSON forms of its children, one for each child, in order.
pub proof fn law_json_element_fields(raw: Seq<char>, tv: Seq<(int, int)>, e: ElemModel)
    ensures
        json_elem(raw, tv, e) matches JsonModel::Object(fields) && fields.contains(("tag"@, JsonModel::Str(e.tag)))
            && fields.contains(("selfClosing"@, JsonModel::Bool(e.self_closing))) && fields.contains(
            (
                "attrs"@,
                JsonModel::Object(Seq::new(e.attrs.len(), |i: int| (e.attrs[i].0, JsonModel::Str(e.attrs[i].1)))),
            ),
        ) && exists|k: int|
            0 <= k < fields.len() && #[trigger] fields[k].0 == "children"@ && (fields[k].1 matches JsonModel::Array(
                items,
            ) && items.len() == e.children.len() && forall|c: int|
                0 <= c < items.len() ==> #[trigger] items[c] == json_elem(raw, tv, e.children[c])),
{
    let fields = json_elem(raw, tv, e)->Object_0;
    assert(fields[0] == ("tag"@, JsonModel::Str(e.tag)));
    assert(fields[1].0 == "attrs"@);
    assert(fields[4] == ("selfClosing"@, JsonModel::Bool(e.self_closing)));
    assert(fields[3].0 == "children"@);
    let items = fields[3].1->Array_0;
    assert forall|c: int| 0 <= c < items.len() implies #[trigger] items[c] == json_elem(raw, tv, e.children[c]) by {}
}

} // verus!
