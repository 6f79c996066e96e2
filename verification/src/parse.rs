//! Token stream → element tree.
//!
//! Stack-based assembler. Same-tag nesting (`<a><a/></a>`) is supported:
//! every open tag pushes a frame and every close tag pops one, with name
//! matching enforced.
//!
//! Duplicate `id` detection looks at siblings and enclosing elements:
//! `<a><task id="1"/></a><b><task id="1"/></b>` is accepted because the two
//! `task` elements live in different parents and neither encloses the other;
//! a repeat of the same `(tag, id)` pair among one parent's children, or an
//! element repeating the pair of an element that encloses it
//! (`<task id="1"><task id="1"/></task>`), is rejected.

use crate::document::Markdown;
use crate::error::{ParseError, ParseFailure};
use crate::source::{bytes_of, cut_ok, lemma_valid_bytes, line_of, str_eq};
use crate::tokenizer::{
    input_ok, spec_tokenize, tokenize, tokens_model, tokens_placed, trivia_model, trivia_placed,
    Token, TokenModel, TokenStream,
};
use crate::types::{
    attr_lookup, attrs_view, elem_ok, elems_ok, elems_view, find_attr, ElemModel, ElementData,
    SourcePosition, SourceSpan,
};
use vstd::prelude::*;

verus! {

/// Maximum depth of element nesting accepted by the parser.
///
/// Deeply nested adversarial documents would otherwise let recursive tree
/// walks (validation, serialization, selector matching) exhaust the stack.
pub const MAX_DEPTH: u32 = 1024;

/// Maximum byte length of input accepted by the parser (`u32::MAX - 1`).
///
/// Source positions are stored as `u32`; one byte of headroom keeps the
/// worst-case line counter `1 + count('\n')` within `u32`.
pub const MAX_INPUT_BYTES: usize = 4_294_967_294;

// ─── duplicate-id scopes ─────────────────────────────────────────────────

/// The name of the attribute that identifies siblings: `id`.
pub open spec fn id_key() -> Seq<char> {
    seq!['i', 'd']
}

/// The `(tag, id)` pairs seen among the children of one parent.
#[derive(Debug)]
pub struct IdScope {
    pub(crate) seen: Vec<(String, String)>,
}

impl View for IdScope {
    type V = Seq<(Seq<char>, Seq<char>)>;

    closed spec fn view(&self) -> Seq<(Seq<char>, Seq<char>)> {
        attrs_view(self.seen@)
    }
}

impl IdScope {
    /// An empty scope.
    pub fn new() -> (r: IdScope)
        ensures
            r@ == Seq::<(Seq<char>, Seq<char>)>::empty(),
    {
        let r = IdScope { seen: Vec::new() };
        proof {
            assert(r@ =~= Seq::<(Seq<char>, Seq<char>)>::empty());
        }
        r
    }
}

/// The pairs recorded in an optional scope (none when it was never created).
pub open spec fn scope_pairs(s: Option<IdScope>) -> Seq<(Seq<char>, Seq<char>)> {
    match s {
        Some(sc) => sc@,
        None => Seq::empty(),
    }
}

/// Some sibling in `sibs` has tag `tag` and `id` attribute `id`.
pub open spec fn sibling_has_id(sibs: Seq<ElemModel>, tag: Seq<char>, id: Seq<char>) -> bool {
    exists|k: int|
        0 <= k < sibs.len() && (#[trigger] sibs[k]).tag == tag && attr_lookup(sibs[k].attrs, id_key())
            == Some(id)
}

/// A scope records exactly the `(tag, id)` pairs of the siblings `sibs`.
pub open spec fn scope_tracks(s: Option<IdScope>, sibs: Seq<ElemModel>) -> bool {
    forall|t: Seq<char>, i: Seq<char>|
        #![trigger scope_pairs(s).contains((t, i))]
        #![trigger sibling_has_id(sibs, t, i)]
        scope_pairs(s).contains((t, i)) <==> sibling_has_id(sibs, t, i)
}

/// Reject `attrs` when a sibling already recorded in `seen` has the same tag
/// and the same `id`; otherwise record the pair. Elements without an `id`
/// attribute are never checked and leave the scope untouched.
pub fn check_duplicate_id(
    tag: &str,
    attrs: &Vec<(String, String)>,
    line: u32,
    seen: &mut Option<IdScope>,
) -> (r: Result<(), ParseError>)
    ensures
        match attr_lookup(attrs_view(attrs@), id_key()) {
            None => r is Ok && *final(seen) == *old(seen),
            Some(id) => if scope_pairs(*old(seen)).contains((tag@, id)) {
                r matches Err(e) && e@ == (ParseFailure::DuplicateId {
                    tag: tag@,
                    id,
                    line: line as nat,
                }) && *final(seen) == *old(seen)
            } else {
                r is Ok && (*final(seen)) is Some && scope_pairs(*final(seen)) == scope_pairs(
                    *old(seen),
                ).push((tag@, id))
            },
        },
{
    proof {
        reveal_strlit("id");
        assert("id"@ =~= id_key());
    }
    let id = match find_attr(attrs, "id") {
        None => {
            return Ok(());
        },
        Some(v) => v,
    };
    let ghost before = scope_pairs(*old(seen));
    let mut scope = match seen.take() {
        Some(sc) => sc,
        None => IdScope::new(),
    };
    proof {
        assert(scope@ == before);
    }
    let mut k: usize = 0;
    while k < scope.seen.len()
        invariant
            k <= scope.seen@.len(),
            scope@ == before,
            before == scope_pairs(*old(seen)),
            attr_lookup(attrs_view(attrs@), id_key()) == Some(id@),
            *old(seen) is Some ==> *old(seen) == Some(scope),
            forall|j: int| 0 <= j < k ==> before[j] != (tag@, id@),
        decreases scope.seen@.len() - k,
    {
        if str_eq(scope.seen[k].0.as_str(), tag) && str_eq(scope.seen[k].1.as_str(), id.as_str()) {
            proof {
                assert(before[k as int] == (tag@, id@));
                assert(before.contains((tag@, id@)));
                assert(*old(seen) is Some);
            }
            *seen = Some(scope);
            return Err(ParseError::DuplicateId { tag: tag.to_owned(), id: id.clone(), line });
        }
        k = k + 1;
    }
    scope.seen.push((tag.to_owned(), id.clone()));
    proof {
        assert(scope@ =~= before.push((tag@, id@)));
        assert(!before.contains((tag@, id@)));
    }
    *seen = Some(scope);
    Ok(())
}

// ─── frames ──────────────────────────────────────────────────────────────

/// An open element waiting for its closing tag.
#[derive(Debug)]
pub struct Frame {
    pub name: String,
    pub attrs: Vec<(String, String)>,
    /// Byte index just past the opening tag's `>`.
    pub body_start: usize,
    /// Position of the opening tag's `<`.
    pub span_start: SourcePosition,
    /// Children finalized so far, in source order.
    pub children: Vec<ElementData>,
    /// Duplicate-id tracker for the children (created on first use).
    pub seen_ids: Option<IdScope>,
}

/// Mathematical form of a [`Frame`] (without its id tracker).
pub struct FrameModel {
    pub name: Seq<char>,
    pub attrs: Seq<(Seq<char>, Seq<char>)>,
    pub body_start: int,
    pub start: int,
    pub start_line: int,
    pub children: Seq<ElemModel>,
}

impl Frame {
    pub open spec fn model(&self) -> FrameModel {
        FrameModel {
            name: self.name@,
            attrs: attrs_view(self.attrs@),
            body_start: self.body_start as int,
            start: self.span_start.offset as int,
            start_line: self.span_start.line as int,
            children: elems_view(self.children@),
        }
    }
}

pub open spec fn frames_view(v: Seq<Frame>) -> Seq<FrameModel> {
    Seq::new(v.len(), |i: int| v[i].model())
}

/// Append `elem` to the children of the innermost open frame, or to the
/// roots when no frame is open.
pub fn push_element(elem: ElementData, stack: &mut Vec<Frame>, roots: &mut Vec<ElementData>)
    ensures
        old(stack)@.len() == 0 ==> final(stack)@ == old(stack)@ && final(roots)@ == old(roots)@.push(elem),
        old(stack)@.len() > 0 ==> final(roots)@ == old(roots)@ && final(stack)@.len() == old(stack)@.len() && (forall|k: int|
            0 <= k < old(stack)@.len() - 1 ==> final(stack)@[k] == old(stack)@[k]) && {
            let top = old(stack)@.last();
            let ntop = final(stack)@.last();
            &&& ntop.name == top.name
            &&& ntop.attrs == top.attrs
            &&& ntop.body_start == top.body_start
            &&& ntop.span_start == top.span_start
            &&& ntop.seen_ids == top.seen_ids
            &&& ntop.children@ == top.children@.push(elem)
        },
{
    if stack.len() == 0 {
        roots.push(elem);
    } else {
        let k = stack.len() - 1;
        stack[k].children.push(elem);
    }
}

/// The duplicate-id scope for the element being finalized: the tracker of
/// the innermost open frame, or the root tracker when no frame is open.
pub fn current_scope<'a>(stack: &'a mut Vec<Frame>, root: &'a mut Option<IdScope>) -> (r:
    &'a mut Option<IdScope>)
    ensures
        old(stack)@.len() == 0 ==> *r == *old(root) && *final(root) == *final(r) && final(stack)@ == old(stack)@,
        old(stack)@.len() > 0 ==> *r == old(stack)@.last().seen_ids && *final(root) == *old(root)
            && final(stack)@.len() == old(stack)@.len() && (forall|k: int|
            0 <= k < old(stack)@.len() - 1 ==> final(stack)@[k] == old(stack)@[k]) && {
            let top = old(stack)@.last();
            let ntop = final(stack)@.last();
            &&& ntop.name == top.name
            &&& ntop.attrs == top.attrs
            &&& ntop.body_start == top.body_start
            &&& ntop.span_start == top.span_start
            &&& ntop.children == top.children
            &&& ntop.seen_ids == *final(r)
        },
{
    if stack.len() == 0 {
        root
    } else {
        let k = stack.len() - 1;
        &mut stack[k].seen_ids
    }
}

// ─── the assembler, mathematically ───────────────────────────────────────

/// The children list that a newly finalized element joins.
pub open spec fn siblings(stack: Seq<FrameModel>, roots: Seq<ElemModel>) -> Seq<ElemModel> {
    if stack.len() == 0 {
        roots
    } else {
        stack.last().children
    }
}

/// Append `e` to the innermost open frame's children, or to the roots.
pub open spec fn add_sibling(stack: Seq<FrameModel>, roots: Seq<ElemModel>, e: ElemModel) -> (
    Seq<FrameModel>,
    Seq<ElemModel>,
) {
    if stack.len() == 0 {
        (stack, roots.push(e))
    } else {
        let top = stack.last();
        (
            stack.update(
                stack.len() - 1,
                FrameModel {
                    name: top.name,
                    attrs: top.attrs,
                    body_start: top.body_start,
                    start: top.start,
                    start_line: top.start_line,
                    children: top.children.push(e),
                },
            ),
            roots,
        )
    }
}

/// Some open frame of `stack` (an enclosing element) has tag `tag` and `id`
/// attribute `id`.
pub open spec fn ancestor_has_id(stack: Seq<FrameModel>, tag: Seq<char>, id: Seq<char>) -> bool {
    exists|k: int|
        0 <= k < stack.len() && (#[trigger] stack[k]).name == tag && attr_lookup(stack[k].attrs, id_key())
            == Some(id)
}

/// The duplicate-id failure for an element with `tag` and `attrs` that is
/// finalized inside the open frames `stack`, with finished roots `roots`:
/// its `(tag, id)` pair repeats that of a sibling or of an enclosing
/// element.
pub open spec fn dup_id_failure(
    stack: Seq<FrameModel>,
    roots: Seq<ElemModel>,
    tag: Seq<char>,
    attrs: Seq<(Seq<char>, Seq<char>)>,
    line: nat,
) -> Option<ParseFailure> {
    match attr_lookup(attrs, id_key()) {
        Some(id) => if sibling_has_id(siblings(stack, roots), tag, id) || ancestor_has_id(stack, tag, id) {
            Some(ParseFailure::DuplicateId { tag, id, line })
        } else {
            None
        },
        None => None,
    }
}

/// One token's effect on the open frames and the finished roots.
pub open spec fn asm_step(
    b: Seq<u8>,
    stack: Seq<FrameModel>,
    roots: Seq<ElemModel>,
    t: TokenModel,
) -> Result<(Seq<FrameModel>, Seq<ElemModel>), ParseFailure> {
    match t {
        TokenModel::Open { name, attrs, start, end } => if stack.len() >= MAX_DEPTH {
            Err(ParseFailure::MaxDepthExceeded { tag: name, max: MAX_DEPTH as nat, line: line_of(b, start) })
        } else {
            Ok(
                (
                    stack.push(
                        FrameModel {
                            name,
                            attrs,
                            body_start: end,
                            start,
                            start_line: line_of(b, start) as int,
                            children: Seq::empty(),
                        },
                    ),
                    roots,
                ),
            )
        },
        TokenModel::SelfClose { name, attrs, start, end } => if stack.len() >= MAX_DEPTH {
            Err(ParseFailure::MaxDepthExceeded { tag: name, max: MAX_DEPTH as nat, line: line_of(b, start) })
        } else {
            match dup_id_failure(stack, roots, name, attrs, line_of(b, start)) {
                Some(e) => Err(e),
                None => Ok(
                    add_sibling(
                        stack,
                        roots,
                        ElemModel {
                            tag: name,
                            attrs,
                            content_start: end,
                            content_end: end,
                            children: Seq::empty(),
                            start,
                            end,
                            start_line: line_of(b, start) as int,
                            end_line: line_of(b, end) as int,
                            self_closing: true,
                        },
                    ),
                ),
            }
        },
        TokenModel::Close { name, start, end } => if stack.len() == 0 {
            Err(ParseFailure::StrayClose { tag: name, line: line_of(b, start) })
        } else {
            let top = stack.last();
            let rest = stack.drop_last();
            if top.name != name {
                Err(
                    ParseFailure::MismatchedClose {
                        found: name,
                        expected: top.name,
                        line: line_of(b, start),
                    },
                )
            } else {
                match dup_id_failure(rest, roots, top.name, top.attrs, top.start_line as nat) {
                    Some(e) => Err(e),
                    None => Ok(
                        add_sibling(
                            rest,
                            roots,
                            ElemModel {
                                tag: top.name,
                                attrs: top.attrs,
                                content_start: top.body_start,
                                content_end: start,
                                children: top.children,
                                start: top.start,
                                end,
                                start_line: top.start_line,
                                end_line: line_of(b, end) as int,
                                self_closing: false,
                            },
                        ),
                    ),
                }
            }
        },
    }
}

/// The root elements built from `toks[i..]`, starting from the open frames
/// `stack` and finished roots `roots`, or the first failure.
pub open spec fn assemble_from(
    b: Seq<u8>,
    toks: Seq<TokenModel>,
    i: int,
    stack: Seq<FrameModel>,
    roots: Seq<ElemModel>,
) -> Result<Seq<ElemModel>, ParseFailure>
    decreases toks.len() - i,
{
    if i < 0 || i >= toks.len() {
        if stack.len() > 0 {
            Err(
                ParseFailure::UnclosedTag {
                    tag: stack.last().name,
                    line: stack.last().start_line as nat,
                },
            )
        } else {
            Ok(roots)
        }
    } else {
        match asm_step(b, stack, roots, toks[i]) {
            Err(e) => Err(e),
            Ok((s2, r2)) => assemble_from(b, toks, i + 1, s2, r2),
        }
    }
}

/// The document that parsing the bytes `b` yields, or the failure.
pub open spec fn spec_parse(b: Seq<u8>) -> Result<(Seq<ElemModel>, Seq<(int, int)>), ParseFailure> {
    if b.len() > MAX_INPUT_BYTES {
        Err(ParseFailure::InputTooLarge { size: b.len(), max: MAX_INPUT_BYTES as nat })
    } else {
        match spec_tokenize(b) {
            Err(e) => Err(e),
            Ok((toks, trivia)) => match assemble_from(b, toks, 0, Seq::empty(), Seq::empty()) {
                Err(e) => Err(e),
                Ok(roots) => Ok((roots, trivia)),
            },
        }
    }
}

// ─── assembler invariants ────────────────────────────────────────────────

/// An open frame sits in `b`, with its children between its body start and
/// `hi`.
pub open spec fn frame_ok(f: FrameModel, b: Seq<u8>, hi: int) -> bool {
    &&& 0 <= f.start < f.body_start <= hi <= b.len()
    &&& cut_ok(b, f.start)
    &&& cut_ok(b, f.body_start)
    &&& f.start_line == line_of(b, f.start)
    &&& elems_ok(f.children, b, f.body_start, hi)
}

/// Where the content of frame `k` may extend to: the start of the next
/// frame, or the scan position `pos` for the innermost one.
pub open spec fn frame_hi(stack: Seq<FrameModel>, k: int, pos: int) -> int {
    if k + 1 < stack.len() {
        stack[k + 1].start
    } else {
        pos
    }
}

/// The open frames and finished roots sit in `b`, in nesting order, before
/// the scan position `pos`.
pub open spec fn stack_ok(stack: Seq<FrameModel>, roots: Seq<ElemModel>, b: Seq<u8>, pos: int) -> bool {
    &&& 0 <= pos <= b.len()
    &&& forall|k: int| 0 <= k < stack.len() ==> frame_ok(#[trigger] stack[k], b, frame_hi(stack, k, pos))
    &&& elems_ok(roots, b, 0, if stack.len() > 0 { stack[0].start } else { pos })
}

/// Each id tracker records exactly the ids of the children it guards.
pub open spec fn seen_ok(stack: Seq<Frame>, root_seen: Option<IdScope>, roots: Seq<ElemModel>) -> bool {
    &&& forall|k: int|
        0 <= k < stack.len() ==> scope_tracks(#[trigger] stack[k].seen_ids, elems_view(stack[k].children@))
    &&& scope_tracks(root_seen, roots)
}

pub open spec fn asm_inv(
    stack: Seq<Frame>,
    roots: Seq<ElementData>,
    root_seen: Option<IdScope>,
    b: Seq<u8>,
    pos: int,
) -> bool {
    &&& stack_ok(frames_view(stack), elems_view(roots), b, pos)
    &&& seen_ok(stack, root_seen, elems_view(roots))
    &&& stack.len() <= MAX_DEPTH
}

proof fn lemma_elems_widen(v: Seq<ElemModel>, b: Seq<u8>, lo: int, hi: int, hi2: int)
    requires
        elems_ok(v, b, lo, hi),
        hi <= hi2,
    ensures
        elems_ok(v, b, lo, hi2),
{
}

proof fn lemma_elems_push(v: Seq<ElemModel>, b: Seq<u8>, lo: int, hi: int, e: ElemModel)
    requires
        elems_ok(v, b, lo, hi),
        elem_ok(e, b),
        lo <= hi <= e.start,
    ensures
        elems_ok(v.push(e), b, lo, e.end),
{
    assert forall|k: int, l: int| 0 <= k < l < v.push(e).len() implies #[trigger] v.push(e)[k].end
        <= #[trigger] v.push(e)[l].start by {
        if l == v.len() {
            assert(v[k].end <= hi);
        }
    }
    assert forall|k: int| 0 <= k < v.push(e).len() implies lo <= (#[trigger] v.push(e)[k]).start
        && v.push(e)[k].end <= e.end by {
        if k < v.len() {
            assert(v[k].end <= hi);
            assert(e.start < e.end);
        }
    }
    assert forall|k: int| 0 <= k < v.push(e).len() implies elem_ok(#[trigger] v.push(e)[k], b) by {
        if k < v.len() {
            assert(elem_ok(v[k], b));
        }
    }
}

proof fn lemma_scope_add(
    s_old: Option<IdScope>,
    s_new: Option<IdScope>,
    sibs: Seq<ElemModel>,
    e: ElemModel,
)
    requires
        scope_tracks(s_old, sibs),
        match attr_lookup(e.attrs, id_key()) {
            None => s_new == s_old,
            Some(v) => scope_pairs(s_new) == scope_pairs(s_old).push((e.tag, v)),
        },
    ensures
        scope_tracks(s_new, sibs.push(e)),
{
    let s2 = sibs.push(e);
    assert forall|t: Seq<char>, i: Seq<char>|
        scope_pairs(s_new).contains((t, i)) <==> sibling_has_id(s2, t, i) by {
        if sibling_has_id(s2, t, i) {
            let k = choose|k: int|
                0 <= k < s2.len() && (#[trigger] s2[k]).tag == t && attr_lookup(s2[k].attrs, id_key())
                    == Some(i);
            if k < sibs.len() {
                assert(sibs[k] == s2[k]);
                assert(sibling_has_id(sibs, t, i));
                assert(scope_pairs(s_old).contains((t, i)));
                if let Some(v) = attr_lookup(e.attrs, id_key()) {
                    let j = choose|j: int| 0 <= j < scope_pairs(s_old).len() && scope_pairs(s_old)[j] == (t, i);
                    assert(scope_pairs(s_new)[j] == (t, i));
                }
            } else {
                assert(scope_pairs(s_new).last() == (t, i));
                assert(scope_pairs(s_new)[scope_pairs(s_new).len() - 1] == (t, i));
            }
        }
        if scope_pairs(s_new).contains((t, i)) {
            let j = choose|j: int| 0 <= j < scope_pairs(s_new).len() && scope_pairs(s_new)[j] == (t, i);
            match attr_lookup(e.attrs, id_key()) {
                None => {
                    assert(scope_pairs(s_old).contains((t, i)));
                    assert(sibling_has_id(sibs, t, i));
                    let k = choose|k: int|
                        0 <= k < sibs.len() && (#[trigger] sibs[k]).tag == t && attr_lookup(
                            sibs[k].attrs,
                            id_key(),
                        ) == Some(i);
                    assert(s2[k] == sibs[k]);
                },
                Some(v) => {
                    if j < scope_pairs(s_old).len() {
                        assert(scope_pairs(s_old)[j] == (t, i));
                        assert(scope_pairs(s_old).contains((t, i)));
                        assert(sibling_has_id(sibs, t, i));
                        let k = choose|k: int|
                            0 <= k < sibs.len() && (#[trigger] sibs[k]).tag == t && attr_lookup(
                                sibs[k].attrs,
                                id_key(),
                            ) == Some(i);
                        assert(s2[k] == sibs[k]);
                    } else {
                        assert(s2[sibs.len() as int] == e);
                    }
                },
            }
        }
    }
}

proof fn lemma_stack_open(stack: Seq<FrameModel>, roots: Seq<ElemModel>, b: Seq<u8>, pos: int, f: FrameModel)
    requires
        stack_ok(stack, roots, b, pos),
        pos <= f.start,
        frame_ok(f, b, f.body_start),
    ensures
        stack_ok(stack.push(f), roots, b, f.body_start),
{
    let s2 = stack.push(f);
    assert forall|k: int| 0 <= k < s2.len() implies frame_ok(#[trigger] s2[k], b, frame_hi(s2, k, f.body_start)) by {
        if k < stack.len() {
            assert(frame_ok(stack[k], b, frame_hi(stack, k, pos)));
            if k + 1 == stack.len() {
                lemma_elems_widen(stack[k].children, b, stack[k].body_start, pos, f.start);
            }
        }
    }
    if stack.len() == 0 {
        lemma_elems_widen(roots, b, 0, pos, f.start);
    }
}

proof fn lemma_stack_pop(stack: Seq<FrameModel>, roots: Seq<ElemModel>, b: Seq<u8>, pos: int)
    requires
        stack_ok(stack, roots, b, pos),
        stack.len() > 0,
    ensures
        stack_ok(stack.drop_last(), roots, b, stack.last().start),
        frame_ok(stack.last(), b, pos),
{
    let s2 = stack.drop_last();
    assert(frame_ok(stack[stack.len() - 1], b, frame_hi(stack, stack.len() - 1, pos)));
    assert forall|k: int| 0 <= k < s2.len() implies frame_ok(#[trigger] s2[k], b, frame_hi(s2, k, stack.last().start)) by {
        assert(frame_ok(stack[k], b, frame_hi(stack, k, pos)));
    }
}

proof fn lemma_stack_add(stack: Seq<FrameModel>, roots: Seq<ElemModel>, b: Seq<u8>, lo: int, e: ElemModel)
    requires
        stack_ok(stack, roots, b, lo),
        elem_ok(e, b),
        lo <= e.start,
    ensures
        stack_ok(add_sibling(stack, roots, e).0, add_sibling(stack, roots, e).1, b, e.end),
{
    if stack.len() == 0 {
        lemma_elems_push(roots, b, 0, lo, e);
    } else {
        let n = stack.len();
        let top = stack.last();
        let s2 = add_sibling(stack, roots, e).0;
        assert(frame_ok(stack[n - 1], b, frame_hi(stack, n - 1, lo)));
        lemma_elems_push(top.children, b, top.body_start, lo, e);
        assert forall|k: int| 0 <= k < s2.len() implies frame_ok(#[trigger] s2[k], b, frame_hi(s2, k, e.end)) by {
            assert(frame_ok(stack[k], b, frame_hi(stack, k, lo)));
        }
    }
}

/// Whether an open frame of `stack` has tag `tag` and `id` attribute `id`.
fn ancestor_repeats(stack: &Vec<Frame>, tag: &str, id: &str) -> (r: bool)
    ensures
        r == ancestor_has_id(frames_view(stack@), tag@, id@),
{
    proof {
        reveal_strlit("id");
        assert("id"@ =~= id_key());
    }
    let ghost fv = frames_view(stack@);
    let mut k: usize = 0;
    while k < stack.len()
        invariant
            k <= stack@.len(),
            fv == frames_view(stack@),
            "id"@ == id_key(),
            forall|j: int| 0 <= j < k ==> !(fv[j].name == tag@ && attr_lookup(fv[j].attrs, id_key()) == Some(id@)),
        decreases stack@.len() - k,
    {
        if str_eq(stack[k].name.as_str(), tag) {
            if let Some(v) = find_attr(&stack[k].attrs, "id") {
                if str_eq(v.as_str(), id) {
                    proof {
                        assert(fv[k as int].name == tag@ && attr_lookup(fv[k as int].attrs, id_key()) == Some(id@));
                    }
                    return true;
                }
            }
        }
        k = k + 1;
    }
    false
}

/// Record `elem` among the children of the innermost open frame (or the
/// roots), rejecting a `(tag, id)` pair that repeats one among those
/// siblings or one of an enclosing element.
#[verifier::rlimit(30)]
fn finish_element(
    elem: ElementData,
    line: u32,
    stack: &mut Vec<Frame>,
    roots: &mut Vec<ElementData>,
    root_seen: &mut Option<IdScope>,
    Ghost(b): Ghost<Seq<u8>>,
    Ghost(lo): Ghost<int>,
) -> (r: Result<(), ParseError>)
    requires
        asm_inv(old(stack)@, old(roots)@, *old(root_seen), b, lo),
        elem_ok(elem.model(), b),
        lo <= elem.model().start,
    ensures
        match dup_id_failure(
            frames_view(old(stack)@),
            elems_view(old(roots)@),
            elem.model().tag,
            elem.model().attrs,
            line as nat,
        ) {
            Some(e) => r matches Err(x) && x@ == e,
            None => {
                &&& r is Ok
                &&& (frames_view(final(stack)@), elems_view(final(roots)@)) == add_sibling(
                    frames_view(old(stack)@),
                    elems_view(old(roots)@),
                    elem.model(),
                )
                &&& asm_inv(final(stack)@, final(roots)@, *final(root_seen), b, elem.model().end)
            },
        },
{
    let ghost st0 = stack@;
    let ghost rt0 = roots@;
    let ghost em = elem.model();
    let ghost sibs = siblings(frames_view(st0), elems_view(rt0));
    let ghost old_scope = if st0.len() == 0 { *root_seen } else { st0.last().seen_ids };
    proof {
        if st0.len() > 0 {
            assert(frames_view(st0)[st0.len() - 1] == st0.last().model());
            assert(scope_tracks(st0[st0.len() - 1].seen_ids, elems_view(st0[st0.len() - 1].children@)));
        }
        assert(scope_tracks(old_scope, sibs));
    }
    proof {
        reveal_strlit("id");
        assert("id"@ =~= id_key());
    }
    let id_attr = find_attr(&elem.attrs, "id");
    let repeats = match id_attr {
        Some(id) => ancestor_repeats(stack, elem.tag.as_str(), id.as_str()),
        None => false,
    };
    if repeats {
        let id = id_attr.unwrap().clone();
        return Err(ParseError::DuplicateId { tag: elem.tag.clone(), id, line });
    }
    proof {
        if let Some(id) = attr_lookup(em.attrs, id_key()) {
            assert(!ancestor_has_id(frames_view(st0), em.tag, id));
        }
    }
    let scope = current_scope(stack, root_seen);
    let checked = check_duplicate_id(elem.tag.as_str(), &elem.attrs, line, scope);
    match checked {
        Err(e) => {
            proof {
                if let Some(id) = attr_lookup(em.attrs, id_key()) {
                    assert(scope_pairs(old_scope).contains((em.tag, id)));
                    assert(sibling_has_id(sibs, em.tag, id));
                }
            }
            return Err(e);
        },
        Ok(()) => {},
    }
    let ghost st1 = stack@;
    let ghost new_scope = if st0.len() == 0 { *root_seen } else { st1.last().seen_ids };
    proof {
        if let Some(id) = attr_lookup(em.attrs, id_key()) {
            assert(!scope_pairs(old_scope).contains((em.tag, id)));
            assert(!sibling_has_id(sibs, em.tag, id));
        }
        lemma_scope_add(old_scope, new_scope, sibs, em);
    }
    push_element(elem, stack, roots);
    proof {
        let fv0 = frames_view(st0);
        let rv0 = elems_view(rt0);
        let (fa, ra) = add_sibling(fv0, rv0, em);
        assert(elems_view(roots@) =~= ra);
        if st0.len() > 0 {
            let n = st0.len();
            assert forall|k: int| 0 <= k < n implies frames_view(stack@)[k] == fa[k] by {
                if k == n - 1 {
                    assert(elems_view(stack@[k].children@) =~= elems_view(st0[k].children@).push(em));
                }
            }
            assert(frames_view(stack@) =~= fa);
        } else {
            assert(frames_view(stack@) =~= fa);
        }
        lemma_stack_add(fv0, rv0, b, lo, em);
        assert forall|k: int| 0 <= k < stack@.len() implies scope_tracks(
            #[trigger] stack@[k].seen_ids,
            elems_view(stack@[k].children@),
        ) by {
            if k < stack@.len() - 1 {
                assert(stack@[k] == st0[k]);
            } else {
                assert(elems_view(stack@[k].children@) =~= elems_view(st0[k].children@).push(em));
            }
        }
    }
    Ok(())
}

/// Build the element tree from the token stream of `input`.
#[verifier::rlimit(50)]
fn assemble(input: String, stream: TokenStream) -> (r: Result<Markdown, ParseError>)
    requires
        input_ok(bytes_of(input@)),
        tokens_placed(stream.tokens@, bytes_of(input@)),
        trivia_placed(stream.trivia@, bytes_of(input@)),
    ensures
        match r {
            Ok(d) => {
                &&& d@.raw == input@
                &&& d@.trivia == trivia_model(stream.trivia@)
                &&& assemble_from(
                    bytes_of(input@),
                    tokens_model(stream.tokens@),
                    0,
                    Seq::empty(),
                    Seq::empty(),
                ) == Ok::<Seq<ElemModel>, ParseFailure>(d@.roots)
            },
            Err(e) => assemble_from(
                bytes_of(input@),
                tokens_model(stream.tokens@),
                0,
                Seq::empty(),
                Seq::empty(),
            ) == Err::<Seq<ElemModel>, ParseFailure>(e@),
        },
{
    let ghost b = bytes_of(input@);
    let TokenStream { tokens, trivia } = stream;
    let mut tokens = tokens;
    let ghost orig = tokens@;
    let ghost toks = tokens_model(orig);
    let n = tokens.len();
    let mut pending: Vec<Token> = Vec::new();
    while tokens.len() > 0
        invariant
            tokens@ == orig.subrange(0, tokens@.len() as int),
            pending@.len() + tokens@.len() == orig.len(),
            forall|j: int| 0 <= j < pending@.len() ==> pending@[j] == orig[orig.len() - 1 - j],
        decreases tokens@.len(),
    {
        let t = tokens.pop().unwrap();
        pending.push(t);
    }
    let mut stack: Vec<Frame> = Vec::new();
    let mut roots: Vec<ElementData> = Vec::new();
    let mut root_seen: Option<IdScope> = None;
    let mut i: usize = 0;
    let ghost mut pos: int = 0;
    proof {
        assert(frames_view(stack@) =~= Seq::<FrameModel>::empty());
        assert(elems_view(roots@) =~= Seq::<ElemModel>::empty());
    }
    while pending.len() > 0
        invariant
            n == orig.len(),
            pending@.len() + i == n,
            forall|j: int| 0 <= j < pending@.len() ==> pending@[j] == orig[n - 1 - j],
            toks == tokens_model(orig),
            orig == stream.tokens@,
            b == bytes_of(input@),
            trivia@ == stream.trivia@,
            tokens_placed(orig, b),
            trivia_placed(trivia@, b),
            input_ok(b),
            assemble_from(b, toks, 0, Seq::empty(), Seq::empty()) == assemble_from(
                b,
                toks,
                i as int,
                frames_view(stack@),
                elems_view(roots@),
            ),
            asm_inv(stack@, roots@, root_seen, b, pos),
            i == 0 ==> pos == 0,
            i > 0 ==> pos == orig[i - 1].span().end.offset,
        decreases pending@.len(),
    {
        let tok = pending.pop().unwrap();
        let ghost tm = tok.model();
        proof {
            assert(tok == orig[i as int]);
            assert(toks[i as int] == tm);
            assert(orig[i as int].placed(b));
            if i > 0 {
                assert(orig[i - 1].span().end.offset <= orig[i as int].span().start.offset);
            }
        }
        let ghost fv = frames_view(stack@);
        let ghost rv = elems_view(roots@);
        let ghost st_before = stack@;
        match tok {
            Token::Open { name, attrs, span, body_start } => {
                if stack.len() >= 1024 {
                    return Err(ParseError::MaxDepthExceeded { tag: name, max: MAX_DEPTH, line: span.start.line });
                }
                let f = Frame {
                    name,
                    attrs,
                    body_start,
                    span_start: span.start,
                    children: Vec::new(),
                    seen_ids: None,
                };
                proof {
                    assert(elems_view(f.children@) =~= Seq::<ElemModel>::empty());
                    lemma_stack_open(fv, rv, b, pos, f.model());
                }
                stack.push(f);
                proof {
                    assert(frames_view(stack@) =~= fv.push(f.model()));
                    assert forall|t: Seq<char>, v: Seq<char>|
                        !(#[trigger] sibling_has_id(Seq::<ElemModel>::empty(), t, v)) by {}
                    assert(scope_tracks(None, Seq::<ElemModel>::empty()));
                    assert forall|k: int| 0 <= k < stack@.len() implies scope_tracks(
                        #[trigger] stack@[k].seen_ids,
                        elems_view(stack@[k].children@),
                    ) by {
                        if k == stack@.len() - 1 {
                            assert(elems_view(stack@[k].children@) =~= Seq::<ElemModel>::empty());
                        }
                    }
                    pos = span.end.offset as int;
                }
            },
            Token::SelfClose { name, attrs, span } => {
                if stack.len() >= 1024 {
                    return Err(ParseError::MaxDepthExceeded { tag: name, max: MAX_DEPTH, line: span.start.line });
                }
                let empty_pos = span.end.offset as usize;
                let elem = ElementData {
                    tag: name,
                    attrs,
                    content_start: empty_pos,
                    content_end: empty_pos,
                    children: Vec::new(),
                    span,
                    self_closing: true,
                };
                proof {
                    assert(elem.model().children =~= Seq::<ElemModel>::empty());
                }
                match finish_element(elem, span.start.line, &mut stack, &mut roots, &mut root_seen, Ghost(b), Ghost(pos)) {
                    Err(e) => {
                        return Err(e);
                    },
                    Ok(()) => {},
                }
                proof {
                    pos = span.end.offset as int;
                }
            },
            Token::Close { name, span, body_end } => {
                proof {
                    if stack@.len() > 0 {
                        lemma_stack_pop(fv, rv, b, pos);
                    }
                }
                let frame = match stack.pop() {
                    None => {
                        return Err(ParseError::StrayClose { tag: name, line: span.start.line });
                    },
                    Some(f) => f,
                };
                if !str_eq(frame.name.as_str(), name.as_str()) {
                    return Err(
                        ParseError::MismatchedClose { found: name, expected: frame.name, line: span.start.line },
                    );
                }
                let line = frame.span_start.line;
                let ghost fm = frame.model();
                let elem = ElementData {
                    tag: frame.name,
                    attrs: frame.attrs,
                    content_start: frame.body_start,
                    content_end: body_end,
                    children: frame.children,
                    span: SourceSpan { start: frame.span_start, end: span.end },
                    self_closing: false,
                };
                proof {
                    assert(frames_view(stack@) =~= fv.drop_last());
                    assert(fv.last() == fm);
                    assert(elem.model().children == fm.children);
                    assert(seen_ok(stack@, root_seen, elems_view(roots@))) by {
                        assert forall|k: int| 0 <= k < stack@.len() implies scope_tracks(
                            #[trigger] stack@[k].seen_ids,
                            elems_view(stack@[k].children@),
                        ) by {
                            assert(stack@[k] == st_before[k]);
                        }
                    }
                }
                match finish_element(elem, line, &mut stack, &mut roots, &mut root_seen, Ghost(b), Ghost(fm.start)) {
                    Err(e) => {
                        return Err(e);
                    },
                    Ok(()) => {},
                }
                proof {
                    pos = span.end.offset as int;
                }
            },
        }
        i = i + 1;
    }
    if stack.len() > 0 {
        let f = stack.pop().unwrap();
        return Err(ParseError::UnclosedTag { tag: f.name, line: f.span_start.line });
    }
    proof {
        lemma_roots_done(elems_view(roots@), b, pos);
    }
    Ok(Markdown::from_parts(input, roots, trivia))
}

proof fn lemma_roots_done(v: Seq<ElemModel>, b: Seq<u8>, pos: int)
    requires
        elems_ok(v, b, 0, pos),
        pos <= b.len(),
    ensures
        elems_ok(v, b, 0, b.len() as int),
{
}

/// Parse a full markdown+XML document.
///
/// Fails on malformed tags, unmatched close tags, unclosed tags, an `id`
/// repeated on the same tag name among siblings or by an enclosing element, nesting
/// deeper than [`MAX_DEPTH`], or inputs larger than [`MAX_INPUT_BYTES`].
pub fn parse(input: &str) -> (r: Result<Markdown, ParseError>)
    ensures
        match r {
            Ok(d) => d@.raw == input@ && spec_parse(bytes_of(input@)) == Ok::<
                (Seq<ElemModel>, Seq<(int, int)>),
                ParseFailure,
            >((d@.roots, d@.trivia)),
            Err(e) => spec_parse(bytes_of(input@)) == Err::<
                (Seq<ElemModel>, Seq<(int, int)>),
                ParseFailure,
            >(e@),
        },
{
    parse_owned(input.to_owned())
}

/// Parse a fragment. Currently identical to [`parse`]; kept as a separate
/// entry point so the two may diverge without a breaking rename.
pub fn parse_fragment(input: &str) -> (r: Result<Markdown, ParseError>)
    ensures
        match r {
            Ok(d) => d@.raw == input@ && spec_parse(bytes_of(input@)) == Ok::<
                (Seq<ElemModel>, Seq<(int, int)>),
                ParseFailure,
            >((d@.roots, d@.trivia)),
            Err(e) => spec_parse(bytes_of(input@)) == Err::<
                (Seq<ElemModel>, Seq<(int, int)>),
                ParseFailure,
            >(e@),
        },
{
    parse(input)
}

/// Parse a document, moving in the owned source string instead of copying
/// it.
pub fn parse_owned(input: String) -> (r: Result<Markdown, ParseError>)
    ensures
        match r {
            Ok(d) => d@.raw == input@ && spec_parse(bytes_of(input@)) == Ok::<
                (Seq<ElemModel>, Seq<(int, int)>),
                ParseFailure,
            >((d@.roots, d@.trivia)),
            Err(e) => spec_parse(bytes_of(input@)) == Err::<
                (Seq<ElemModel>, Seq<(int, int)>),
                ParseFailure,
            >(e@),
        },
{
    let ghost b = bytes_of(input@);
    let n = input.as_str().as_bytes().len();
    if n > MAX_INPUT_BYTES {
        return Err(ParseError::InputTooLarge { size: n as u64, max: MAX_INPUT_BYTES as u64 });
    }
    proof {
        lemma_valid_bytes(input@);
    }
    let stream = match tokenize(input.as_str()) {
        Ok(s) => s,
        Err(e) => {
            return Err(e);
        },
    };
    assemble(input, stream)
}

} // verus!
