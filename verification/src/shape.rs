//! Where a parsed element sits in its source: the markup that its span and
//! content range begin and end with.

use crate::document::{doc_ok, DocModel};
use crate::error::ParseFailure;
use crate::parse::{asm_step, assemble_from, spec_parse, FrameModel};
use crate::source::{bytes_of, text_of};
use crate::tokenizer::{attr_list, name_end, scan_from, scan_step, tag_at, ws_end, ScanStep, TokenModel};
use crate::types::{elems_ok, ElemModel};
use vstd::prelude::*;

verus! {

/// `b[at]` is `<` and the run of name bytes right after it spells `tag`.
pub open spec fn tag_opens_at(b: Seq<u8>, at: int, tag: Seq<char>) -> bool {
    0 <= at < b.len() && b[at] == 0x3C && text_of(b, at + 1, name_end(b, at + 1)) == tag
}

/// `b[at..]` starts with `</` and the run of name bytes right after it
/// spells `tag`.
pub open spec fn tag_closes_at(b: Seq<u8>, at: int, tag: Seq<char>) -> bool {
    0 <= at && at + 1 < b.len() && b[at] == 0x3C && b[at + 1] == 0x2F && text_of(b, at + 2, name_end(b, at + 2))
        == tag
}

/// The byte just before `end` is `>`.
pub open spec fn angle_before(b: Seq<u8>, end: int) -> bool {
    1 <= end <= b.len() && b[end - 1] == 0x3E
}

/// The span `[start, end)` ends with `/>`.
pub open spec fn ends_self_closed(b: Seq<u8>, start: int, end: int) -> bool {
    start + 2 <= end && angle_before(b, end) && b[end - 2] == 0x2F
}

/// What the source shows of a parsed element `e` and, in turn, of each of
/// its children: the span opens with `<` and the tag name and ends with
/// `>`. A self-closing element's span ends with `/>` and its content is the
/// empty range at the span's end; any other element's content begins right
/// after a `>` and is followed, inside the span, by `</` and the tag name.
pub open spec fn elem_shape(b: Seq<u8>, e: ElemModel) -> bool
    decreases e,
{
    &&& tag_opens_at(b, e.start, e.tag)
    &&& angle_before(b, e.end)
    &&& if e.self_closing {
        e.content_start == e.end && e.content_end == e.end && ends_self_closed(b, e.start, e.end)
    } else {
        angle_before(b, e.content_start) && e.content_end < e.end && tag_closes_at(b, e.content_end, e.tag)
    }
    &&& forall|k: int| 0 <= k < e.children.len() ==> elem_shape(b, #[trigger] e.children[k])
}

/// Each element of `v` has the shape of [`elem_shape`].
pub open spec fn elems_shape(b: Seq<u8>, v: Seq<ElemModel>) -> bool {
    forall|k: int| 0 <= k < v.len() ==> elem_shape(b, #[trigger] v[k])
}

/// An open frame: its opening tag sits at its start, its body begins right
/// after a `>`, and its finished children have their shape.
pub open spec fn frame_shape(b: Seq<u8>, f: FrameModel) -> bool {
    &&& tag_opens_at(b, f.start, f.name)
    &&& angle_before(b, f.body_start)
    &&& elems_shape(b, f.children)
}

pub open spec fn frames_shape(b: Seq<u8>, s: Seq<FrameModel>) -> bool {
    forall|k: int| 0 <= k < s.len() ==> frame_shape(b, #[trigger] s[k])
}

/// What the source shows of a token.
pub open spec fn tok_shape(b: Seq<u8>, t: TokenModel) -> bool {
    match t {
        TokenModel::Open { name, start, end, .. } => tag_opens_at(b, start, name) && start < end && angle_before(
            b,
            end,
        ),
        TokenModel::SelfClose { name, start, end, .. } => tag_opens_at(b, start, name) && ends_self_closed(
            b,
            start,
            end,
        ),
        TokenModel::Close { name, start, end } => tag_closes_at(b, start, name) && start < end && angle_before(
            b,
            end,
        ),
    }
}

proof fn lemma_name_end_ge(b: Seq<u8>, i: int)
    ensures
        name_end(b, i) >= i,
    decreases b.len() - i,
{
    if 0 <= i < b.len() && crate::escape::name_char_byte(b[i]) {
        lemma_name_end_ge(b, i + 1);
    }
}

proof fn lemma_ws_end_ge(b: Seq<u8>, i: int)
    ensures
        ws_end(b, i) >= i,
    decreases b.len() - i,
{
    if 0 <= i < b.len() && crate::tokenizer::ascii_ws(b[i]) {
        lemma_ws_end_ge(b, i + 1);
    }
}

proof fn lemma_attr_list_shape(
    b: Seq<u8>,
    i: int,
    acc: Seq<(Seq<char>, Seq<char>)>,
    tag: Seq<char>,
    tag_line: nat,
)
    ensures
        attr_list(b, i, acc, tag, tag_line) matches Ok((_, sc, end)) ==> end > i && angle_before(b, end) && (sc
            ==> b[end - 2] == 0x2F),
    decreases b.len() - i,
{
    lemma_ws_end_ge(b, i);
    let j = ws_end(b, i);
    if j < 0 || j >= b.len() || b[j] == 0x3E || b[j] == 0x2F {
    } else {
        match crate::tokenizer::attr_at(b, j, tag) {
            Err(_) => {},
            Ok((key, value, e)) => {
                if !crate::types::has_attr_named(acc, key) && i < e <= b.len() {
                    lemma_attr_list_shape(b, e, acc.push((key, value)), tag, tag_line);
                }
            },
        }
    }
}

proof fn lemma_tag_at_shape(b: Seq<u8>, start: int)
    requires
        0 <= start < b.len(),
        b[start] == 0x3C,
    ensures
        tag_at(b, start) matches Ok((t, n)) ==> tok_shape(b, t) && n == t.end(),
{
    let sline = crate::source::line_of(b, start);
    if start + 1 < b.len() && b[start + 1] == 0x2F {
        lemma_name_end_ge(b, start + 2);
        lemma_ws_end_ge(b, name_end(b, start + 2));
    } else {
        let ne = name_end(b, start + 1);
        lemma_name_end_ge(b, start + 1);
        lemma_attr_list_shape(b, ne, Seq::empty(), text_of(b, start + 1, ne), sline);
    }
}

proof fn lemma_scan_shape(b: Seq<u8>, i: int)
    ensures
        scan_from(b, i) matches Ok((ts, _)) ==> forall|k: int| 0 <= k < ts.len() ==> tok_shape(b, #[trigger] ts[k]),
    decreases b.len() - i,
{
    if i < 0 || i >= b.len() {
    } else {
        reveal(scan_step);
        match scan_step(b, i) {
            ScanStep::Skip => lemma_scan_shape(b, i + 1),
            ScanStep::Tag(t, n) => {
                if i < n <= b.len() {
                    lemma_tag_at_shape(b, i);
                    lemma_scan_shape(b, n);
                    if let Ok((ts, vs)) = scan_from(b, n) {
                        let all = seq![t] + ts;
                        assert forall|k: int| 0 <= k < all.len() implies tok_shape(b, #[trigger] all[k]) by {
                            if k > 0 {
                                assert(all[k] == ts[k - 1]);
                            }
                        }
                    }
                }
            },
            ScanStep::Trivia(_, n) => {
                if i < n <= b.len() {
                    lemma_scan_shape(b, n);
                    if let Ok((ts, vs)) = scan_from(b, n) {
                        assert(Seq::<TokenModel>::empty() + ts =~= ts);
                    }
                }
            },
            ScanStep::Fail(_) => {},
        }
    }
}

proof fn lemma_add_shape(b: Seq<u8>, stack: Seq<FrameModel>, roots: Seq<ElemModel>, e: ElemModel)
    requires
        frames_shape(b, stack),
        elems_shape(b, roots),
        elem_shape(b, e),
    ensures
        frames_shape(b, crate::parse::add_sibling(stack, roots, e).0),
        elems_shape(b, crate::parse::add_sibling(stack, roots, e).1),
{
    if stack.len() == 0 {
        let r2 = roots.push(e);
        assert forall|k: int| 0 <= k < r2.len() implies elem_shape(b, #[trigger] r2[k]) by {
            if k < roots.len() {
                assert(r2[k] == roots[k]);
            }
        }
    } else {
        let n = stack.len() - 1;
        let top = stack[n];
        let s2 = crate::parse::add_sibling(stack, roots, e).0;
        assert(frame_shape(b, top));
        let c2 = top.children.push(e);
        assert forall|k: int| 0 <= k < c2.len() implies elem_shape(b, #[trigger] c2[k]) by {
            if k < top.children.len() {
                assert(c2[k] == top.children[k]);
            }
        }
        assert forall|k: int| 0 <= k < s2.len() implies frame_shape(b, #[trigger] s2[k]) by {
            if k < n {
                assert(s2[k] == stack[k]);
            } else {
                assert(s2[k].children == c2);
            }
        }
    }
}

proof fn lemma_step_shape(b: Seq<u8>, stack: Seq<FrameModel>, roots: Seq<ElemModel>, t: TokenModel)
    requires
        tok_shape(b, t),
        frames_shape(b, stack),
        elems_shape(b, roots),
    ensures
        asm_step(b, stack, roots, t) matches Ok((s2, r2)) ==> frames_shape(b, s2) && elems_shape(b, r2),
{
    match t {
        TokenModel::Open { name, attrs, start, end } => {
            if let Ok((s2, r2)) = asm_step(b, stack, roots, t) {
                assert forall|k: int| 0 <= k < s2.len() implies frame_shape(b, #[trigger] s2[k]) by {
                    if k < stack.len() {
                        assert(s2[k] == stack[k]);
                    }
                }
            }
        },
        TokenModel::SelfClose { name, attrs, start, end } => {
            let line = crate::source::line_of(b, start);
            let e = ElemModel {
                tag: name,
                attrs,
                content_start: end,
                content_end: end,
                children: Seq::empty(),
                start,
                end,
                start_line: line as int,
                end_line: crate::source::line_of(b, end) as int,
                self_closing: true,
            };
            assert(elem_shape(b, e));
            lemma_add_shape(b, stack, roots, e);
        },
        TokenModel::Close { name, start, end } => {
            if stack.len() > 0 {
                let top = stack.last();
                let rest = stack.drop_last();
                assert(frame_shape(b, stack[stack.len() - 1]));
                let e = ElemModel {
                    tag: top.name,
                    attrs: top.attrs,
                    content_start: top.body_start,
                    content_end: start,
                    children: top.children,
                    start: top.start,
                    end,
                    start_line: top.start_line,
                    end_line: crate::source::line_of(b, end) as int,
                    self_closing: false,
                };
                if top.name == name {
                    assert(elem_shape(b, e));
                    assert forall|k: int| 0 <= k < rest.len() implies frame_shape(b, #[trigger] rest[k]) by {
                        assert(rest[k] == stack[k]);
                    }
                    lemma_add_shape(b, rest, roots, e);
                }
            }
        },
    }
}

proof fn lemma_assemble_shape(
    b: Seq<u8>,
    toks: Seq<TokenModel>,
    i: int,
    stack: Seq<FrameModel>,
    roots: Seq<ElemModel>,
)
    requires
        forall|k: int| 0 <= k < toks.len() ==> tok_shape(b, #[trigger] toks[k]),
        frames_shape(b, stack),
        elems_shape(b, roots),
    ensures
        assemble_from(b, toks, i, stack, roots) matches Ok(rs) ==> elems_shape(b, rs),
    decreases toks.len() - i,
{
    if i < 0 || i >= toks.len() {
    } else {
        lemma_step_shape(b, stack, roots, toks[i]);
        if let Ok((s2, r2)) = asm_step(b, stack, roots, toks[i]) {
            lemma_assemble_shape(b, toks, i + 1, s2, r2);
        }
    }
}

proof fn lemma_parsed_element_shape(b: Seq<u8>)
    ensures
        spec_parse(b) matches Ok((roots, _)) ==> elems_shape(b, roots),
{
    if b.len() <= crate::parse::MAX_INPUT_BYTES {
        lemma_scan_shape(b, 0);
        if let Ok((toks, _)) = crate::tokenizer::spec_tokenize(b) {
            lemma_assemble_shape(b, toks, 0, Seq::empty(), Seq::empty());
        }
    }
}

/// Where the elements `v` (siblings between `lo` and `hi`) and all their
/// descendants sit in the source bytes `b`: each span `[start, end)` lies in
/// bounds with `start < end`, its content range `[content_start,
/// content_end)` inside it; siblings' spans are disjoint and ascending, and
/// children lie inside their parent's content range; and each element has
/// the markup of [`elem_shape`].
pub open spec fn elems_layout(b: Seq<u8>, v: Seq<ElemModel>, lo: int, hi: int) -> bool {
    elems_ok(v, b, lo, hi) && elems_shape(b, v)
}

/// A document that parsing its source yields lays its elements out as the
/// source shows them, at every depth: every span opens with `<` and the tag
/// name and ends with `>`; a self-closing element's span ends with `/>` and
/// its content is the empty range at the span's end; any other element's
/// content begins right after the opening tag's `>` and is followed, inside
/// the span, by `</` and the tag name; sibling spans (the roots among them)
/// are disjoint and ascending, and children lie inside their parent's
/// content range. (`ElementRef::content` is the source text of that range.)
pub proof fn law_parsed_layout(d: DocModel)
    requires
        doc_ok(d),
        spec_parse(bytes_of(d.raw)) == Ok::<(Seq<ElemModel>, Seq<(int, int)>), ParseFailure>((d.roots, d.trivia)),
    ensures
        elems_layout(bytes_of(d.raw), d.roots, 0, bytes_of(d.raw).len() as int),
{
    lemma_parsed_element_shape(bytes_of(d.raw));
}

} // verus!
