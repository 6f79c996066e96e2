//! Match a compiled selector against a document tree.
//!
//! The matcher walks the tree depth-first in source order, tracking the
//! chain of ancestors so it can evaluate descendant and child combinators.
//! Every element is visited once, so an element that satisfies several
//! compounds of a union is reported once.

use super::ast::{
    compounds_view, prefix_view, Combinator, CompiledSelector, Compound, CompoundModel, PredModel,
    Predicate, Simple, SimpleModel,
};
use crate::source::{bytes_of, has_infix, str_contains, str_ends_with, str_eq, str_starts_with};
use crate::types::{
    attr_lookup, attrs_view, elem_ok, elem_ref_ok, find_attr, has_attr_named, ranges_view,
    trivia_ok, ElemModel, ElemRefModel, ElementData, ElementRef,
};
use vstd::prelude::*;

verus! {

// ─── matching, mathematically ────────────────────────────────────────────

/// An element together with its 0-based position among its siblings.
pub type NodeModel = (ElemModel, int);

/// Does the element `n` satisfy predicate `p`?
pub open spec fn pred_matches(n: NodeModel, p: PredModel) -> bool
    decreases p,
{
    let e = n.0;
    match p {
        PredModel::HasAttr(name) => has_attr_named(e.attrs, name),
        PredModel::AttrEquals(name, v) => attr_lookup(e.attrs, name) == Some(v),
        PredModel::AttrStartsWith(name, v) => match attr_lookup(e.attrs, name) {
            Some(x) => v.is_prefix_of(x),
            None => false,
        },
        PredModel::AttrEndsWith(name, v) => match attr_lookup(e.attrs, name) {
            Some(x) => v.is_suffix_of(x),
            None => false,
        },
        PredModel::AttrContains(name, v) => match attr_lookup(e.attrs, name) {
            Some(x) => has_infix(x, v),
            None => false,
        },
        PredModel::FirstChild => n.1 == 0,
        PredModel::NthChild(k) => n.1 + 1 == k,
        PredModel::Not(inner) => !simple_matches(n, *inner),
    }
}

/// Does the element `n` satisfy the simple selector `s`: its tag (unless
/// `*`) and every predicate?
pub open spec fn simple_matches(n: NodeModel, s: SimpleModel) -> bool
    decreases s,
{
    &&& (s.tag matches Some(t) ==> n.0.tag == t)
    &&& forall|k: int| 0 <= k < s.preds.len() ==> pred_matches(n, #[trigger] s.preds[k])
}

/// The prefix steps `prefix[i..]` can be satisfied by ancestors strictly
/// above position `pos` of the chain `anc` (root first): a child step needs
/// the ancestor right above to match, a descendant step any ancestor above.
pub open spec fn chain_ok(
    prefix: Seq<(Combinator, SimpleModel)>,
    i: int,
    anc: Seq<NodeModel>,
    pos: int,
) -> bool
    decreases prefix.len() - i,
{
    if i < 0 || i >= prefix.len() {
        true
    } else {
        match prefix[i].0 {
            Combinator::Child => 0 < pos <= anc.len() && simple_matches(anc[pos - 1], prefix[i].1)
                && chain_ok(prefix, i + 1, anc, pos - 1),
            Combinator::Descendant => exists|q: int|
                0 <= q < pos && q < anc.len() && #[trigger] simple_matches(anc[q], prefix[i].1)
                    && chain_ok(prefix, i + 1, anc, q),
        }
    }
}

/// Does the element `n`, below the ancestors `anc`, satisfy compound `c`?
pub open spec fn compound_matches(n: NodeModel, c: CompoundModel, anc: Seq<NodeModel>) -> bool {
    simple_matches(n, c.subject) && chain_ok(c.prefix, 0, anc, anc.len() as int)
}

/// Does the element `n`, below the ancestors `anc`, satisfy some compound
/// of the union `sel`?
pub open spec fn sel_matches(sel: Seq<CompoundModel>, n: NodeModel, anc: Seq<NodeModel>) -> bool {
    exists|k: int| 0 <= k < sel.len() && compound_matches(n, #[trigger] sel[k], anc)
}

/// The elements of the forest `v[k..]` (below `anc`) that match `sel`, in
/// document order (each element before its descendants).
pub open spec fn matches_in(sel: Seq<CompoundModel>, v: Seq<ElemModel>, k: int, anc: Seq<NodeModel>) -> Seq<
    ElemModel,
>
    decreases v, v.len() - k,
{
    if k < 0 || k >= v.len() {
        Seq::empty()
    } else {
        matches_at(sel, v[k], k, anc) + matches_in(sel, v, k + 1, anc)
    }
}

/// The elements of the subtree rooted at `e` (sibling index `idx`, below
/// `anc`) that match `sel`, in document order.
pub open spec fn matches_at(sel: Seq<CompoundModel>, e: ElemModel, idx: int, anc: Seq<NodeModel>) -> Seq<
    ElemModel,
>
    decreases e, 0int,
{
    (if sel_matches(sel, (e, idx), anc) {
        seq![e]
    } else {
        Seq::empty()
    }) + matches_in(sel, e.children, 0, anc.push((e, idx)))
}

// ─── the walk ────────────────────────────────────────────────────────────

/// An element being matched, with its position among its siblings.
#[derive(Clone, Copy)]
pub struct NodeCtx<'a> {
    pub data: &'a ElementData,
    /// Position of this node among its siblings (0-based).
    pub index: usize,
}

impl<'a> NodeCtx<'a> {
    pub open spec fn model(&self) -> NodeModel {
        (self.data.model(), self.index as int)
    }
}

pub open spec fn ctxs_view(v: Seq<NodeCtx>) -> Seq<NodeModel> {
    Seq::new(v.len(), |i: int| v[i].model())
}

/// The elements a list of references point at.
pub open spec fn refs_elems(v: Seq<ElementRef>) -> Seq<ElemModel> {
    Seq::new(v.len(), |i: int| v[i]@.elem)
}

/// Every reference in `v` is into the document with source `raw` and
/// trivia `trivia`.
pub open spec fn refs_into(v: Seq<ElementRef>, raw: Seq<char>, trivia: Seq<(int, int)>) -> bool {
    forall|i: int| 0 <= i < v.len() ==> (#[trigger] v[i])@.raw == raw && v[i]@.trivia == trivia
}

/// The value of the attribute `name`, if present.
fn attr_value<'b>(data: &'b ElementData, name: &str) -> (r: Option<&'b str>)
    ensures
        match r {
            Some(v) => attr_lookup(attrs_view(data.attrs@), name@) == Some(v@),
            None => attr_lookup(attrs_view(data.attrs@), name@) is None,
        },
{
    match find_attr(&data.attrs, name) {
        Some(v) => Some(v.as_str()),
        None => None,
    }
}

fn predicate_matches(node: &NodeCtx, pred: &Predicate) -> (r: bool)
    ensures
        r == pred_matches(node.model(), pred.model()),
    decreases pred,
{
    match pred {
        Predicate::HasAttr(name) => {
            let r = attr_value(node.data, name.as_str()).is_some();
            proof {
                crate::types::lemma_attr_lookup_some(attrs_view(node.data.attrs@), name@);
            }
            r
        },
        Predicate::AttrEquals(name, value) => match attr_value(node.data, name.as_str()) {
            Some(v) => str_eq(v, value.as_str()),
            None => false,
        },
        Predicate::AttrStartsWith(name, value) => match attr_value(node.data, name.as_str()) {
            Some(v) => str_starts_with(v, value.as_str()),
            None => false,
        },
        Predicate::AttrEndsWith(name, value) => match attr_value(node.data, name.as_str()) {
            Some(v) => str_ends_with(v, value.as_str()),
            None => false,
        },
        Predicate::AttrContains(name, value) => match attr_value(node.data, name.as_str()) {
            Some(v) => str_contains(v, value.as_str()),
            None => false,
        },
        Predicate::FirstChild => node.index == 0,
        Predicate::NthChild(n) => *n >= 1 && (node.index as u64) == (*n as u64) - 1,
        Predicate::Not(inner) => !simple_matches_node(node, inner),
    }
}

fn simple_matches_node(node: &NodeCtx, simple: &Simple) -> (r: bool)
    ensures
        r == simple_matches(node.model(), simple.model()),
    decreases simple,
{
    if let Some(tag) = &simple.tag {
        if !str_eq(node.data.tag.as_str(), tag.as_str()) {
            return false;
        }
    }
    let mut k: usize = 0;
    while k < simple.predicates.len()
        invariant
            k <= simple.predicates@.len(),
            simple.tag matches Some(t) ==> node.data.tag@ == t@,
            forall|j: int| 0 <= j < k ==> pred_matches(node.model(), #[trigger] simple.model().preds[j]),
        decreases simple.predicates@.len() - k,
    {
        proof {
            assert(simple.model().preds[k as int] == simple.predicates@[k as int].model());
        }
        if !predicate_matches(node, &simple.predicates[k]) {
            return false;
        }
        k = k + 1;
    }
    true
}

/// One cell of the chain table: can step `comb simple` be satisfied at
/// ancestor position `q`, given the table `ok` of the following step and,
/// for a descendant step, whether some position below `q` already works?
fn chain_cell(
    comb: Combinator,
    simple: &Simple,
    q: usize,
    acc: bool,
    ok: &Vec<bool>,
    ancestors: &Vec<NodeCtx>,
) -> (r: bool)
    requires
        q <= ancestors@.len(),
        ok@.len() == ancestors@.len() + 1,
    ensures
        r == match comb {
            Combinator::Child => q > 0 && ok@[q - 1] && simple_matches(
                ctxs_view(ancestors@)[q - 1],
                simple.model(),
            ),
            Combinator::Descendant => acc,
        },
{
    match comb {
        Combinator::Child => q > 0 && ok[q - 1] && simple_matches_node(&ancestors[q - 1], simple),
        Combinator::Descendant => acc,
    }
}

/// Can the combinator chain `prefix` be satisfied by `ancestors` (root
/// first) above the element being matched?
///
/// Works right to left over the chain, keeping for each ancestor position
/// whether the rest of the chain can be satisfied above it, so a
/// descendant step considers every candidate ancestor, not only the
/// nearest one.
fn chain_matches(prefix: &Vec<(Combinator, Simple)>, ancestors: &Vec<NodeCtx>) -> (r: bool)
    ensures
        r == chain_ok(prefix_view(prefix@), 0, ctxs_view(ancestors@), ancestors@.len() as int),
{
    let ghost pv = prefix_view(prefix@);
    let ghost av = ctxs_view(ancestors@);
    let d = ancestors.len();
    let m = prefix.len();
    // ok[pos] == chain_ok(pv, i, av, pos) for every pos in 0..=d.
    let mut ok: Vec<bool> = Vec::new();
    ok.push(true);
    let mut p: usize = 0;
    while p < d
        invariant
            p <= d,
            d == ancestors@.len(),
            ok@.len() == p + 1,
            forall|q: int| 0 <= q <= p ==> #[trigger] ok@[q],
        decreases d - p,
    {
        ok.push(true);
        p = p + 1;
    }
    let mut i = m;
    while i > 0
        invariant
            i <= m,
            m == prefix@.len(),
            d == ancestors@.len(),
            pv == prefix_view(prefix@),
            av == ctxs_view(ancestors@),
            ok@.len() == d + 1,
            forall|q: int| 0 <= q <= d ==> #[trigger] ok@[q] == chain_ok(pv, i as int, av, q),
        decreases i,
    {
        i = i - 1;
        let comb = prefix[i].0;
        let simple = &prefix[i].1;
        proof {
            assert(pv[i as int] == (comb, simple.model()));
        }
        let mut cur: Vec<bool> = Vec::new();
        let mut acc = false;
        let mut q: usize = 0;
        while q < d
            invariant
                q <= d,
                d == ancestors@.len(),
                i < m,
                m == prefix@.len(),
                pv == prefix_view(prefix@),
                av == ctxs_view(ancestors@),
                pv[i as int] == (comb, simple.model()),
                ok@.len() == d + 1,
                forall|x: int| 0 <= x <= d ==> #[trigger] ok@[x] == chain_ok(pv, i + 1, av, x),
                cur@.len() == q,
                forall|x: int| 0 <= x < q ==> #[trigger] cur@[x] == chain_ok(pv, i as int, av, x),
                acc == exists|y: int|
                    0 <= y < q && #[trigger] simple_matches(av[y], pv[i as int].1) && chain_ok(pv, i + 1, av, y),
            decreases d - q,
        {
            let here = chain_cell(comb, simple, q, acc, &ok, ancestors);
            cur.push(here);
            let hit = ok[q] && simple_matches_node(&ancestors[q], simple);
            proof {
                assert(av[q as int] == ancestors@[q as int].model());
                if hit {
                    assert(simple_matches(av[q as int], pv[i as int].1));
                }
            }
            acc = acc || hit;
            q = q + 1;
        }
        let here = chain_cell(comb, simple, q, acc, &ok, ancestors);
        cur.push(here);
        ok = cur;
    }
    ok[d]
}

/// Does the node, below `ancestors`, satisfy `compound`?
fn compound_matches_node(node: &NodeCtx, compound: &Compound, ancestors: &Vec<NodeCtx>) -> (r: bool)
    ensures
        r == compound_matches(node.model(), compound.model(), ctxs_view(ancestors@)),
{
    simple_matches_node(node, &compound.subject) && chain_matches(&compound.prefix, ancestors)
}

/// Does `node`, below `ancestors`, satisfy some compound of `sel`?
fn selector_matches_node(node: &NodeCtx, sel: &CompiledSelector, ancestors: &Vec<NodeCtx>) -> (r: bool)
    ensures
        r == sel_matches(compounds_view(sel.compounds@), node.model(), ctxs_view(ancestors@)),
{
    let ghost cv = compounds_view(sel.compounds@);
    let mut k: usize = 0;
    while k < sel.compounds.len()
        invariant
            k <= sel.compounds@.len(),
            cv == compounds_view(sel.compounds@),
            forall|j: int| 0 <= j < k ==> !compound_matches(node.model(), #[trigger] cv[j], ctxs_view(ancestors@)),
        decreases sel.compounds@.len() - k,
    {
        if compound_matches_node(node, &sel.compounds[k], ancestors) {
            proof {
                assert(compound_matches(node.model(), cv[k as int], ctxs_view(ancestors@)));
            }
            return true;
        }
        k = k + 1;
    }
    false
}

/// Append the matches in the subtree of `node` (sibling index `index`,
/// below `ancestors`), in document order.
fn walk<'a>(
    node: &'a ElementData,
    index: usize,
    sel: &CompiledSelector,
    ancestors: &mut Vec<NodeCtx<'a>>,
    raw: &'a str,
    trivia: &'a [(usize, usize)],
    out: &mut Vec<ElementRef<'a>>,
)
    requires
        elem_ref_ok(ElemRefModel { elem: node.model(), raw: raw@, trivia: ranges_view(trivia@) }),
        refs_into(old(out)@, raw@, ranges_view(trivia@)),
    ensures
        final(ancestors)@ == old(ancestors)@,
        refs_into(final(out)@, raw@, ranges_view(trivia@)),
        refs_elems(final(out)@) == refs_elems(old(out)@) + matches_at(
            compounds_view(sel.compounds@),
            node.model(),
            index as int,
            ctxs_view(old(ancestors)@),
        ),
    decreases node,
{
    let ghost sv = compounds_view(sel.compounds@);
    let ghost anc0 = ctxs_view(ancestors@);
    let ghost out0 = refs_elems(out@);
    let ghost rv = ranges_view(trivia@);
    let ctx = NodeCtx { data: node, index };
    let hit = selector_matches_node(&ctx, sel, ancestors);
    if hit {
        let r = ElementRef::new(node, raw, trivia);
        out.push(r);
        proof {
            assert(refs_elems(out@) =~= out0.push(node.model()));
        }
    } else {
        proof {
            assert(refs_elems(out@) =~= out0);
        }
    }
    let ghost base = refs_elems(out@);
    let ghost e = node.model();
    let ghost anc1 = anc0.push((e, index as int));
    let ghost a_before = ancestors@;
    ancestors.push(ctx);
    proof {
        assert(ctxs_view(ancestors@) =~= anc1);
        assert(matches_in(sv, e.children, 0, anc1) == matches_in(sv, e.children, 0, anc1));
        assert(base + matches_in(sv, e.children, 0, anc1) =~= base + matches_in(sv, e.children, 0, anc1));
    }
    let n = node.children.len();
    let mut i: usize = 0;
    while i < n
        invariant
            n == node.children@.len(),
            i <= n,
            e == node.model(),
            sv == compounds_view(sel.compounds@),
            rv == ranges_view(trivia@),
            elem_ref_ok(ElemRefModel { elem: e, raw: raw@, trivia: rv }),
            ctxs_view(ancestors@) == anc1,
            ancestors@ == a_before.push(ctx),
            refs_into(out@, raw@, rv),
            refs_elems(out@) + matches_in(sv, e.children, i as int, anc1) == base + matches_in(
                sv,
                e.children,
                0,
                anc1,
            ),
        decreases n - i,
    {
        let child: &'a ElementData = &node.children[i];
        let ghost before = refs_elems(out@);
        proof {
            assert(e.children[i as int] == child.model());
            assert(elem_ok(e, crate::source::bytes_of(raw@)));
            assert(elem_ok(e.children[i as int], crate::source::bytes_of(raw@)));
        }
        walk(child, i, sel, ancestors, raw, trivia, out);
        proof {
            assert(matches_in(sv, e.children, i as int, anc1) == matches_at(sv, e.children[i as int], i as int, anc1)
                + matches_in(sv, e.children, i + 1, anc1));
            assert(refs_elems(out@) + matches_in(sv, e.children, i + 1, anc1) =~= before + matches_in(
                sv,
                e.children,
                i as int,
                anc1,
            ));
        }
        i = i + 1;
    }
    ancestors.pop();
    proof {
        assert(matches_in(sv, e.children, n as int, anc1) =~= Seq::<ElemModel>::empty());
        assert(refs_elems(out@) =~= refs_elems(out@) + matches_in(sv, e.children, n as int, anc1));
        assert(ancestors@ =~= old(ancestors)@);
        if hit {
            assert(base =~= out0 + seq![e]);
        } else {
            assert(base =~= out0 + Seq::<ElemModel>::empty());
        }
        assert(refs_elems(out@) =~= out0 + matches_at(sv, e, index as int, anc0));
    }
}

/// Every element of the forest `roots` that matches `sel`, in document
/// order; the walk starts with no ancestors above `roots`.
pub fn collect_matches<'a>(
    roots: &'a Vec<ElementData>,
    raw: &'a str,
    trivia: &'a [(usize, usize)],
    sel: &CompiledSelector,
) -> (r: Vec<ElementRef<'a>>)
    requires
        forall|k: int|
            0 <= k < roots@.len() ==> elem_ok(#[trigger] roots@[k].model(), bytes_of(raw@)),
        trivia_ok(ranges_view(trivia@), bytes_of(raw@)),
        bytes_of(raw@).len() <= u32::MAX,
    ensures
        refs_into(r@, raw@, ranges_view(trivia@)),
        refs_elems(r@) == matches_in(
            compounds_view(sel.compounds@),
            crate::types::elems_view(roots@),
            0,
            Seq::empty(),
        ),
{
    let ghost sv = compounds_view(sel.compounds@);
    let ghost v = crate::types::elems_view(roots@);
    let mut out: Vec<ElementRef<'a>> = Vec::new();
    let mut ancestors: Vec<NodeCtx<'a>> = Vec::new();
    let n = roots.len();
    let mut i: usize = 0;
    proof {
        assert(refs_elems(out@) =~= Seq::<ElemModel>::empty());
        assert(refs_elems(out@) + matches_in(sv, v, 0, Seq::empty()) =~= matches_in(sv, v, 0, Seq::empty()));
    }
    while i < n
        invariant
            n == roots@.len(),
            i <= n,
            sv == compounds_view(sel.compounds@),
            v == crate::types::elems_view(roots@),
            forall|k: int|
                0 <= k < roots@.len() ==> elem_ok(#[trigger] roots@[k].model(), bytes_of(raw@)),
            trivia_ok(ranges_view(trivia@), bytes_of(raw@)),
            bytes_of(raw@).len() <= u32::MAX,
            ancestors@.len() == 0,
            refs_into(out@, raw@, ranges_view(trivia@)),
            refs_elems(out@) + matches_in(sv, v, i as int, Seq::empty()) == matches_in(sv, v, 0, Seq::empty()),
        decreases n - i,
    {
        let ghost before = refs_elems(out@);
        proof {
            assert(v[i as int] == roots@[i as int].model());
            assert(elem_ok(roots@[i as int].model(), bytes_of(raw@)));
            assert(ctxs_view(ancestors@) =~= Seq::<NodeModel>::empty());
        }
        walk(&roots[i], i, sel, &mut ancestors, raw, trivia, &mut out);
        proof {
            assert(matches_in(sv, v, i as int, Seq::empty()) == matches_at(sv, v[i as int], i as int, Seq::empty())
                + matches_in(sv, v, i + 1, Seq::empty()));
            assert(refs_elems(out@) + matches_in(sv, v, i + 1, Seq::empty()) =~= before + matches_in(
                sv,
                v,
                i as int,
                Seq::empty(),
            ));
        }
        i = i + 1;
    }
    proof {
        assert(refs_elems(out@) =~= refs_elems(out@) + matches_in(sv, v, n as int, Seq::empty()));
    }
    out
}

// ─── document order ──────────────────────────────────────────────────────

/// Each later element lies inside an earlier one's content or entirely
/// after it: the order of a depth-first walk.
pub open spec fn doc_ordered(s: Seq<ElemModel>) -> bool {
    forall|i: int, j: int|
        0 <= i < j < s.len() ==> (#[trigger] s[i].content_start <= #[trigger] s[j].start && s[j].end
            <= s[i].content_end) || s[i].end <= s[j].start
}

/// Every element of `s` lies within `[lo, hi]` and sits in `b`.
pub open spec fn all_within(s: Seq<ElemModel>, lo: int, hi: int, b: Seq<u8>) -> bool {
    forall|i: int| 0 <= i < s.len() ==> lo <= (#[trigger] s[i]).start && s[i].end <= hi && elem_ok(s[i], b)
}

proof fn lemma_concat_ordered(a: Seq<ElemModel>, c: Seq<ElemModel>, mid: int)
    requires
        doc_ordered(a),
        doc_ordered(c),
        forall|i: int| 0 <= i < a.len() ==> (#[trigger] a[i]).end <= mid,
        forall|i: int| 0 <= i < c.len() ==> mid <= (#[trigger] c[i]).start,
    ensures
        doc_ordered(a + c),
{
    let s = a + c;
    assert forall|i: int, j: int| 0 <= i < j < s.len() implies (#[trigger] s[i].content_start
        <= #[trigger] s[j].start && s[j].end <= s[i].content_end) || s[i].end <= s[j].start by {
        if j < a.len() {
            assert(s[i] == a[i] && s[j] == a[j]);
        } else if i >= a.len() {
            assert(s[i] == c[i - a.len()] && s[j] == c[j - a.len()]);
        } else {
            assert(s[i] == a[i] && s[j] == c[j - a.len()]);
        }
    }
}

/// The matches under one element come in document order and stay inside
/// it.
pub proof fn lemma_matches_at_ordered(
    sel: Seq<CompoundModel>,
    e: ElemModel,
    idx: int,
    anc: Seq<NodeModel>,
    b: Seq<u8>,
)
    requires
        elem_ok(e, b),
    ensures
        doc_ordered(matches_at(sel, e, idx, anc)),
        all_within(matches_at(sel, e, idx, anc), e.start, e.end, b),
    decreases e, 0int,
{
    let anc1 = anc.push((e, idx));
    let head: Seq<ElemModel> = if sel_matches(sel, (e, idx), anc) {
        seq![e]
    } else {
        Seq::empty()
    };
    let rest = matches_in(sel, e.children, 0, anc1);
    lemma_matches_in_ordered(sel, e.children, 0, anc1, b, e.content_start, e.content_end);
    let s = head + rest;
    assert(matches_at(sel, e, idx, anc) == s);
    assert forall|i: int, j: int| 0 <= i < j < s.len() implies (#[trigger] s[i].content_start
        <= #[trigger] s[j].start && s[j].end <= s[i].content_end) || s[i].end <= s[j].start by {
        if head.len() == 1 && i == 0 {
            assert(s[i] == e);
            assert(s[j] == rest[j - 1]);
        } else {
            assert(s[i] == rest[i - head.len()] && s[j] == rest[j - head.len()]);
        }
    }
    assert forall|i: int| 0 <= i < s.len() implies e.start <= (#[trigger] s[i]).start && s[i].end <= e.end && elem_ok(s[i], b) by {
        if head.len() == 1 && i == 0 {
            assert(s[i] == e);
        } else {
            assert(s[i] == rest[i - head.len()]);
        }
    }
}

/// The matches in a forest of ordered siblings within `[lo, hi]` come in
/// document order and stay within `[lo, hi]`.
pub proof fn lemma_matches_in_ordered(
    sel: Seq<CompoundModel>,
    v: Seq<ElemModel>,
    k: int,
    anc: Seq<NodeModel>,
    b: Seq<u8>,
    lo: int,
    hi: int,
)
    requires
        crate::types::elems_ok(v, b, lo, hi),
    ensures
        doc_ordered(matches_in(sel, v, k, anc)),
        all_within(matches_in(sel, v, k, anc), lo, hi, b),
        0 <= k < v.len() ==> all_within(matches_in(sel, v, k, anc), v[k].start, hi, b),
    decreases v, v.len() - k,
{
    if 0 <= k < v.len() {
        assert(elem_ok(v[k], b));
        lemma_matches_at_ordered(sel, v[k], k, anc, b);
        lemma_matches_in_ordered(sel, v, k + 1, anc, b, lo, hi);
        let a = matches_at(sel, v[k], k, anc);
        let c = matches_in(sel, v, k + 1, anc);
        if k + 1 < v.len() {
            assert(v[k].end <= v[k + 1].start);
        }
        assert forall|i: int| 0 <= i < c.len() implies v[k].end <= (#[trigger] c[i]).start by {
            if k + 1 < v.len() {
                assert(v[k].end <= v[k + 1].start);
            }
        }
        lemma_concat_ordered(a, c, v[k].end);
        assert(matches_in(sel, v, k, anc) == a + c);
        let s = a + c;
        assert forall|i: int| 0 <= i < s.len() implies v[k].start <= (#[trigger] s[i]).start && s[i].end <= hi && elem_ok(s[i], b) by {
            if i < a.len() {
                assert(s[i] == a[i]);
            } else {
                assert(s[i] == c[i - a.len()]);
            }
        }
    }
}

/// In document order, element starts and content starts strictly increase.
pub proof fn lemma_ordered_starts(s: Seq<ElemModel>, b: Seq<u8>)
    requires
        doc_ordered(s),
        forall|i: int| 0 <= i < s.len() ==> elem_ok(#[trigger] s[i], b),
    ensures
        forall|i: int, j: int|
            0 <= i < j < s.len() ==> (#[trigger] s[i]).start < (#[trigger] s[j]).start
                && s[i].content_start < s[j].content_start,
{
    assert forall|i: int, j: int| 0 <= i < j < s.len() implies (#[trigger] s[i]).start < (
    #[trigger] s[j]).start && s[i].content_start < s[j].content_start by {
        assert(elem_ok(s[i], b));
        assert(elem_ok(s[j], b));
        assert((s[i].content_start <= s[j].start && s[j].end <= s[i].content_end) || s[i].end
            <= s[j].start);
    }
}

} // verus!
