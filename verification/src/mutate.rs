//! String-returning mutation helpers.
//!
//! Each operation selects elements, splices new bytes into the document's
//! source, and returns the resulting owned `String`; the original
//! [`Markdown`] is never modified.
//!
//! Splices are applied in a single forward pass over the source. When a
//! selector matches both a parent and one of its descendants, the parent's
//! splice encloses the child's range: the outer splice wins and the inner
//! one is discarded, so the document never carries two inconsistent edits
//! of the same bytes. The reporting variants surface the discarded count in
//! the returned [`MutationReport`].
//!
//! `replace_content` writes its body verbatim (no escaping): it is meant
//! for splicing markup. `replace_text` escapes its input first. `update`
//! owns the attribute syntax: it validates names and escapes values.

use crate::document::Markdown;
use crate::pattern::{pattern_is_match, pattern_replace_all, Pattern, PatternModel};
use crate::escape::{
    is_valid_name, push_escaped_attr, spec_escape_attr, spec_escape_text, valid_name,
};
use crate::render::{push_str, str_debug_text, debug_str};
use crate::selector::matcher::{doc_ordered, matches_in, refs_elems, refs_into};
use crate::selector::Selector;
use crate::source::{bytes_of, cut_ok, lemma_end_cut, lemma_text_concat, slice_str, str_eq, text_of};
use vstd::utf8::valid_utf8;
use crate::types::{attr_lookup, elem_ok, elem_ref_ok, has_attr_named, ElemModel, ElementRef};
use vstd::prelude::*;
use vstd::string::*;

verus! {

broadcast use {vstd::utf8::group_utf8_lib, vstd::string::group_string_axioms};

/// Errors returned by the fallible mutation variants.
#[derive(Debug, Clone, PartialEq, Eq)]
#[non_exhaustive]
pub enum MutateError {
    /// An attribute name passed to [`Markdown::try_update`] is not a valid
    /// XML name.
    InvalidAttrName {
        /// The offending name.
        name: String,
    },
    /// The attribute slice passed to [`Markdown::try_update`] repeats a
    /// name.
    DuplicateAttrName {
        /// The repeated name.
        name: String,
    },
}

/// Mathematical form of [`MutateError`].
pub enum MutateFailure {
    InvalidAttrName { name: Seq<char> },
    DuplicateAttrName { name: Seq<char> },
}

impl View for MutateError {
    type V = MutateFailure;

    open spec fn view(&self) -> MutateFailure {
        match self {
            MutateError::InvalidAttrName { name } => MutateFailure::InvalidAttrName { name: name@ },
            MutateError::DuplicateAttrName { name } => MutateFailure::DuplicateAttrName { name: name@ },
        }
    }
}

/// Human-readable rendering of a [`MutateFailure`].
pub open spec fn mutate_failure_text(e: MutateFailure) -> Seq<char> {
    match e {
        MutateFailure::InvalidAttrName { name } => "invalid XML attribute name "@ + str_debug_text(name),
        MutateFailure::DuplicateAttrName { name } => "duplicate attribute name "@ + str_debug_text(name)
            + " in update slice"@,
    }
}

impl MutateError {
    /// Human-readable message.
    pub fn message(&self) -> (r: String)
        ensures
            r@ == mutate_failure_text(self@),
    {
        let mut out = String::new();
        match self {
            MutateError::InvalidAttrName { name } => {
                push_str(&mut out, "invalid XML attribute name ");
                let d = debug_str(name.as_str());
                push_str(&mut out, d.as_str());
            },
            MutateError::DuplicateAttrName { name } => {
                push_str(&mut out, "duplicate attribute name ");
                let d = debug_str(name.as_str());
                push_str(&mut out, d.as_str());
                push_str(&mut out, " in update slice");
            },
        }
        proof {
            assert(out@ =~= mutate_failure_text(self@));
        }
        out
    }
}

/// Outcome of a mutation: the rewritten document and its accounting.
#[derive(Debug, Clone, PartialEq, Eq)]
#[non_exhaustive]
pub struct MutationReport {
    /// Rewritten document. The original [`Markdown`] is unchanged.
    pub output: String,
    /// Number of splices applied to the output.
    pub applied: usize,
    /// Number of splices skipped because they overlapped a splice emitted
    /// earlier (the outermost wins).
    pub skipped_overlaps: usize,
    /// Number of selected elements that were self-closing and so had no
    /// content to splice into (content replacement only).
    pub skipped_self_closing: usize,
}

// ─── splicing, mathematically ────────────────────────────────────────────

/// A byte range `[start, end)` of the source and its replacement text.
pub type SpliceModel = (int, int, Seq<char>);

/// Apply `sp[i..]` to the source `b` from `cursor` on, after `out` was
/// produced, `applied` splices were made and `skipped` were dropped: a
/// splice that starts before the cursor (or is out of bounds) is dropped,
/// otherwise the text up to it is copied and the replacement written.
pub open spec fn splice_fold(
    b: Seq<u8>,
    sp: Seq<SpliceModel>,
    i: int,
    cursor: int,
    out: Seq<char>,
    applied: nat,
    skipped: nat,
) -> (Seq<char>, nat, nat)
    decreases sp.len() - i,
{
    if i < 0 || i >= sp.len() {
        (
            if cursor < b.len() {
                out + text_of(b, cursor, b.len() as int)
            } else {
                out
            },
            applied,
            skipped,
        )
    } else {
        let (s, e, rep) = sp[i];
        if s < cursor || s > b.len() || e > b.len() || s > e {
            splice_fold(b, sp, i + 1, cursor, out, applied, skipped + 1)
        } else {
            splice_fold(b, sp, i + 1, e, out + text_of(b, cursor, s) + rep, applied + 1, skipped)
        }
    }
}

/// The source `b` with the splices `sp` applied in order: the output text,
/// the number applied, and the number dropped as overlapping.
pub open spec fn spliced(b: Seq<u8>, sp: Seq<SpliceModel>) -> (Seq<char>, nat, nat) {
    splice_fold(b, sp, 0, 0, Seq::empty(), 0, 0)
}

/// Splices that may be applied to `b`: in bounds, on character boundaries,
/// and ordered by strictly increasing start.
pub open spec fn splices_ok(b: Seq<u8>, sp: Seq<SpliceModel>) -> bool {
    &&& forall|i: int|
        0 <= i < sp.len() ==> 0 <= (#[trigger] sp[i]).0 <= sp[i].1 <= b.len() && cut_ok(b, sp[i].0)
            && cut_ok(b, sp[i].1)
    &&& forall|i: int, j: int| 0 <= i < j < sp.len() ==> (#[trigger] sp[i]).0 < (#[trigger] sp[j]).0
}

pub open spec fn splices_view(v: Seq<(usize, usize, String)>) -> Seq<SpliceModel> {
    Seq::new(v.len(), |i: int| (v[i].0 as int, v[i].1 as int, v[i].2@))
}

/// `x` goes before `y`: it starts earlier, or at the same byte and covers
/// more (so an enclosing range wins over one nested in it).
pub open spec fn splice_before(x: SpliceModel, y: SpliceModel) -> bool {
    x.0 < y.0 || (x.0 == y.0 && x.1 > y.1)
}

/// `s` with `x` put before the first splice it goes before (after every
/// splice it does not, so equal keys keep their order).
pub open spec fn insert_splice(s: Seq<SpliceModel>, x: SpliceModel) -> Seq<SpliceModel>
    decreases s.len(),
{
    if s.len() == 0 {
        seq![x]
    } else if splice_before(x, s[0]) {
        seq![x] + s
    } else {
        seq![s[0]] + insert_splice(s.drop_first(), x)
    }
}

/// The splices stably sorted by start ascending, longer range first on a
/// tie.
pub open spec fn sort_splices(sp: Seq<SpliceModel>) -> Seq<SpliceModel>
    decreases sp.len(),
{
    if sp.len() == 0 {
        Seq::empty()
    } else {
        insert_splice(sort_splices(sp.drop_last()), sp.last())
    }
}

/// Every splice that [`splice_fold`] applies from `i` on (with the text
/// copied so far ending at `cursor`) cuts the source on character
/// boundaries.
pub open spec fn fold_cuts_ok(b: Seq<u8>, sp: Seq<SpliceModel>, i: int, cursor: int) -> bool
    decreases sp.len() - i,
{
    if i < 0 || i >= sp.len() {
        true
    } else {
        let (s, e, rep) = sp[i];
        if s < cursor || s > b.len() || e > b.len() || s > e {
            fold_cuts_ok(b, sp, i + 1, cursor)
        } else {
            cut_ok(b, s) && cut_ok(b, e) && fold_cuts_ok(b, sp, i + 1, e)
        }
    }
}

proof fn lemma_insert_splice_at(s: Seq<SpliceModel>, x: SpliceModel, p: int)
    requires
        0 <= p <= s.len(),
        forall|j: int| 0 <= j < p ==> !splice_before(x, #[trigger] s[j]),
        p < s.len() ==> splice_before(x, s[p]),
    ensures
        insert_splice(s, x) == s.insert(p, x),
    decreases s.len(),
{
    if s.len() > 0 {
        if p == 0 {
            assert(insert_splice(s, x) =~= s.insert(0, x));
        } else {
            let t = s.drop_first();
            assert forall|j: int| 0 <= j < p - 1 implies !splice_before(x, #[trigger] t[j]) by {
                assert(t[j] == s[j + 1]);
            }
            lemma_insert_splice_at(t, x, p - 1);
            assert(insert_splice(s, x) =~= s.insert(p, x));
        }
    } else {
        assert(insert_splice(s, x) =~= s.insert(p, x));
    }
}

/// Splices ordered by strictly increasing start are already sorted.
proof fn lemma_sort_ordered(sp: Seq<SpliceModel>)
    requires
        forall|i: int, j: int| 0 <= i < j < sp.len() ==> (#[trigger] sp[i]).0 < (#[trigger] sp[j]).0,
    ensures
        sort_splices(sp) == sp,
    decreases sp.len(),
{
    if sp.len() > 0 {
        let d = sp.drop_last();
        assert forall|i: int, j: int| 0 <= i < j < d.len() implies (#[trigger] d[i]).0 < (#[trigger] d[j]).0 by {
            assert(d[i] == sp[i] && d[j] == sp[j]);
        }
        lemma_sort_ordered(d);
        assert forall|j: int| 0 <= j < d.len() implies !splice_before(sp.last(), #[trigger] d[j]) by {
            assert(d[j] == sp[j]);
        }
        lemma_insert_splice_at(d, sp.last(), d.len() as int);
        assert(d.insert(d.len() as int, sp.last()) =~= sp);
    }
}

proof fn lemma_cuts_ok(b: Seq<u8>, sp: Seq<SpliceModel>, i: int, cursor: int)
    requires
        forall|q: int| 0 <= q < sp.len() ==> cut_ok(b, (#[trigger] sp[q]).0) && cut_ok(b, sp[q].1),
    ensures
        fold_cuts_ok(b, sp, i, cursor),
    decreases sp.len() - i,
{
    if 0 <= i < sp.len() {
        lemma_cuts_ok(b, sp, i + 1, cursor);
        lemma_cuts_ok(b, sp, i + 1, sp[i].1);
    }
}

/// Splices that may be applied as given: [`splices_ok`] ones are already
/// in order and cut on boundaries.
proof fn lemma_ordered_splices(b: Seq<u8>, sp: Seq<SpliceModel>)
    requires
        splices_ok(b, sp),
    ensures
        sort_splices(sp) == sp,
        fold_cuts_ok(b, sp, 0, 0),
{
    lemma_sort_ordered(sp);
    lemma_cuts_ok(b, sp, 0, 0);
}

/// The splices of `v`, stably sorted by start ascending and longer range
/// first.
fn sort_splice_list(v: &Vec<(usize, usize, String)>) -> (r: Vec<(usize, usize, String)>)
    ensures
        splices_view(r@) == sort_splices(splices_view(v@)),
{
    let ghost sv = splices_view(v@);
    let mut out: Vec<(usize, usize, String)> = Vec::new();
    let mut i: usize = 0;
    proof {
        assert(sv.take(0) =~= Seq::<SpliceModel>::empty());
        assert(splices_view(out@) =~= sort_splices(sv.take(0)));
    }
    while i < v.len()
        invariant
            sv == splices_view(v@),
            i <= v@.len(),
            splices_view(out@) == sort_splices(sv.take(i as int)),
        decreases v@.len() - i,
    {
        let x = (v[i].0, v[i].1, v[i].2.clone());
        let ghost xv = (x.0 as int, x.1 as int, x.2@);
        let ghost cur = splices_view(out@);
        let mut p: usize = 0;
        while p < out.len() && !(x.0 < out[p].0 || (x.0 == out[p].0 && x.1 > out[p].1))
            invariant
                cur == splices_view(out@),
                xv == (x.0 as int, x.1 as int, x.2@),
                p <= out@.len(),
                forall|j: int| 0 <= j < p ==> !splice_before(xv, #[trigger] cur[j]),
            decreases out@.len() - p,
        {
            p = p + 1;
        }
        proof {
            lemma_insert_splice_at(cur, xv, p as int);
            assert(sv.take(i + 1).drop_last() =~= sv.take(i as int));
            assert(sv.take(i + 1).last() == xv);
        }
        out.insert(p, x);
        proof {
            assert(splices_view(out@) =~= cur.insert(p as int, xv));
        }
        i = i + 1;
    }
    proof {
        assert(sv.take(v@.len() as int) =~= sv);
    }
    out
}

/// Apply byte-range replacements to `raw` in a single forward pass.
///
/// The splices are first sorted by start, a longer range first on a tie,
/// so an enclosing range wins over one nested in it. A splice that starts
/// inside a range already replaced, or that falls outside the source, is
/// counted in `skipped_overlaps` and discarded.
fn apply_splices(raw: &str, splices: Vec<(usize, usize, String)>) -> (r: MutationReport)
    requires
        fold_cuts_ok(bytes_of(raw@), sort_splices(splices_view(splices@)), 0, 0),
    ensures
        (r.output@, r.applied as nat, r.skipped_overlaps as nat) == spliced(
            bytes_of(raw@),
            sort_splices(splices_view(splices@)),
        ),
        r.skipped_self_closing == 0,
{
    let ghost b = bytes_of(raw@);
    let sorted = sort_splice_list(&splices);
    let ghost sv = splices_view(sorted@);
    let n_raw = raw.as_bytes().len();
    proof {
        crate::source::lemma_valid_bytes(raw@);
        crate::source::lemma_end_cut(b);
    }
    let mut out = String::new();
    let mut cursor: usize = 0;
    let mut applied: usize = 0;
    let mut skipped: usize = 0;
    let n = sorted.len();
    let mut i: usize = 0;
    while i < n
        invariant
            n == sorted@.len(),
            sv == splices_view(sorted@),
            b == bytes_of(raw@),
            n_raw == b.len(),
            fold_cuts_ok(b, sv, i as int, cursor as int),
            i <= n,
            cursor <= n_raw,
            cut_ok(b, cursor as int),
            applied + skipped == i,
            spliced(b, sv) == splice_fold(b, sv, i as int, cursor as int, out@, applied as nat, skipped as nat),
        decreases n - i,
    {
        let start = sorted[i].0;
        let end = sorted[i].1;
        if start < cursor {
            skipped = skipped + 1;
        } else if start > n_raw || end > n_raw || start > end {
            skipped = skipped + 1;
        } else {
            let ghost before = out@;
            push_str(&mut out, slice_str(raw, cursor, start));
            push_str(&mut out, sorted[i].2.as_str());
            proof {
                assert(out@ =~= before + text_of(b, cursor as int, start as int) + sv[i as int].2);
            }
            cursor = end;
            applied = applied + 1;
        }
        i = i + 1;
    }
    if cursor < n_raw {
        push_str(&mut out, slice_str(raw, cursor, n_raw));
    }
    MutationReport { output: out, applied, skipped_overlaps: skipped, skipped_self_closing: 0 }
}

// ─── attribute updates ───────────────────────────────────────────────────

/// The view of an attribute-update slice.
pub open spec fn pairs_view(v: Seq<(&str, &str)>) -> Seq<(Seq<char>, Seq<char>)> {
    Seq::new(v.len(), |i: int| (v[i].0@, v[i].1@))
}

/// The first problem in an attribute-update list from index `i` on: an
/// invalid name, or a name repeating an earlier one.
pub open spec fn first_bad_attr(new: Seq<(Seq<char>, Seq<char>)>, i: int) -> Option<MutateFailure>
    decreases new.len() - i,
{
    if i < 0 || i >= new.len() {
        None
    } else if !valid_name(new[i].0) {
        Some(MutateFailure::InvalidAttrName { name: new[i].0 })
    } else if exists|j: int| 0 <= j < i && #[trigger] new[j].0 == new[i].0 {
        Some(MutateFailure::DuplicateAttrName { name: new[i].0 })
    } else {
        first_bad_attr(new, i + 1)
    }
}

/// `name="escaped value"`.
pub open spec fn attr_text(name: Seq<char>, value: Seq<char>) -> Seq<char> {
    name + seq!['=', '"'] + spec_escape_attr(value) + seq!['"']
}

/// The existing attributes, each rewritten with its new value when the
/// update names it, each preceded by a space.
pub open spec fn existing_text(attrs: Seq<(Seq<char>, Seq<char>)>, new: Seq<(Seq<char>, Seq<char>)>) -> Seq<
    char,
>
    decreases attrs.len(),
{
    if attrs.len() == 0 {
        Seq::empty()
    } else {
        let a = attrs.last();
        let v = match attr_lookup(new, a.0) {
            Some(nv) => nv,
            None => a.1,
        };
        existing_text(attrs.drop_last(), new) + seq![' '] + attr_text(a.0, v)
    }
}

/// The updated attributes the element does not carry yet, each preceded by
/// a space.
pub open spec fn appended_text(new: Seq<(Seq<char>, Seq<char>)>, attrs: Seq<(Seq<char>, Seq<char>)>) -> Seq<
    char,
>
    decreases new.len(),
{
    if new.len() == 0 {
        Seq::empty()
    } else {
        let a = new.last();
        appended_text(new.drop_last(), attrs) + if has_attr_named(attrs, a.0) {
            Seq::empty()
        } else {
            seq![' '] + attr_text(a.0, a.1)
        }
    }
}

/// An opening tag for element `e` with the update `new` merged in,
/// closed by `/>` when `self_close` is set and by `>` otherwise.
pub open spec fn open_tag_text_closed(e: ElemModel, new: Seq<(Seq<char>, Seq<char>)>, self_close: bool) -> Seq<
    char,
> {
    seq!['<'] + e.tag + existing_text(e.attrs, new) + appended_text(new, e.attrs) + if self_close {
        seq!['/', '>']
    } else {
        seq!['>']
    }
}

/// The rewritten opening tag of an element, closed the way the element was.
pub open spec fn open_tag_text(e: ElemModel, new: Seq<(Seq<char>, Seq<char>)>) -> Seq<char> {
    open_tag_text_closed(e, new, e.self_closing)
}

/// End of an element's opening tag.
pub open spec fn open_tag_end(e: ElemModel) -> int {
    if e.self_closing {
        e.end
    } else {
        e.content_start
    }
}

/// The splices of an attribute update: each matched element's opening tag.
pub open spec fn update_splices(ms: Seq<ElemModel>, new: Seq<(Seq<char>, Seq<char>)>) -> Seq<SpliceModel> {
    Seq::new(ms.len(), |i: int| (ms[i].start, open_tag_end(ms[i]), open_tag_text(ms[i], new)))
}

/// Reject attribute names that are not valid XML names, and repeated names.
fn check_new_attrs(new_attrs: &[(&str, &str)]) -> (r: Result<(), MutateError>)
    ensures
        match first_bad_attr(pairs_view(new_attrs@), 0) {
            None => r is Ok,
            Some(f) => r matches Err(e) && e@ == f,
        },
{
    let ghost nv = pairs_view(new_attrs@);
    let n = new_attrs.len();
    let mut k: usize = 0;
    while k < n
        invariant
            n == new_attrs@.len(),
            nv == pairs_view(new_attrs@),
            k <= n,
            first_bad_attr(nv, 0) == first_bad_attr(nv, k as int),
        decreases n - k,
    {
        let name = new_attrs[k].0;
        if !is_valid_name(name) {
            return Err(MutateError::InvalidAttrName { name: name.to_owned() });
        }
        let mut j: usize = 0;
        while j < k
            invariant
                j <= k,
                k < n,
                n == new_attrs@.len(),
                nv == pairs_view(new_attrs@),
                name@ == nv[k as int].0,
                valid_name(nv[k as int].0),
                first_bad_attr(nv, 0) == first_bad_attr(nv, k as int),
                forall|q: int| 0 <= q < j ==> #[trigger] nv[q].0 != nv[k as int].0,
            decreases k - j,
        {
            if str_eq(new_attrs[j].0, name) {
                proof {
                    assert(nv[j as int].0 == nv[k as int].0);
                }
                return Err(MutateError::DuplicateAttrName { name: name.to_owned() });
            }
            j = j + 1;
        }
        k = k + 1;
    }
    Ok(())
}

/// Write `name="escaped value"`.
fn write_attr(out: &mut String, name: &str, value: &str)
    ensures
        final(out)@ == old(out)@ + attr_text(name@, value@),
{
    let ghost before = out@;
    push_str(out, name);
    push_str(out, "=\"");
    push_escaped_attr(out, value);
    push_str(out, "\"");
    proof {
        reveal_strlit("=\"");
        reveal_strlit("\"");
        assert(out@ =~= before + attr_text(name@, value@));
    }
}

/// Build the replacement opening tag for `el` with `new_attrs` merged:
/// existing attributes keep their order (with updated values), the rest of
/// `new_attrs` follow in order.
fn rewrite_open_tag(el: &ElementRef, new_attrs: &[(&str, &str)], self_close: bool) -> (r: String)
    ensures
        r@ == open_tag_text_closed(el@.elem, pairs_view(new_attrs@), self_close),
{
    let ghost nv = pairs_view(new_attrs@);
    let ghost e = el@.elem;
    let mut out = String::new();
    push_str(&mut out, "<");
    push_str(&mut out, el.tag());
    proof {
        reveal_strlit("<");
        assert(out@ =~= seq!['<'] + e.tag);
    }
    let ghost head = out@;
    let attrs = el.attrs();
    let mut k: usize = 0;
    proof {
        assert(e.attrs.take(0) =~= Seq::<(Seq<char>, Seq<char>)>::empty());
        assert(out@ =~= head + existing_text(e.attrs.take(0), nv));
    }
    while k < attrs.len()
        invariant
            attrs@.len() == e.attrs.len(),
            forall|q: int|
                0 <= q < attrs@.len() ==> (#[trigger] attrs@[q]).0@ == e.attrs[q].0 && attrs@[q].1@
                    == e.attrs[q].1,
            k <= attrs@.len(),
            nv == pairs_view(new_attrs@),
            out@ == head + existing_text(e.attrs.take(k as int), nv),
        decreases attrs@.len() - k,
    {
        let (name, existing) = attrs[k];
        let ghost before = out@;
        push_str(&mut out, " ");
        let mut found: Option<usize> = None;
        let mut j: usize = 0;
        proof {
            assert(nv.skip(0) =~= nv);
        }
        while j < new_attrs.len()
            invariant
                j <= new_attrs@.len(),
                nv == pairs_view(new_attrs@),
                k < e.attrs.len(),
                name@ == e.attrs[k as int].0,
                match found {
                    Some(p) => p < new_attrs@.len() && attr_lookup(nv, name@) == Some(nv[p as int].1),
                    None => attr_lookup(nv, name@) == attr_lookup(nv.skip(j as int), name@),
                },
            decreases new_attrs@.len() - j,
        {
            if found.is_none() {
                proof {
                    assert(nv.skip(j as int)[0] == nv[j as int]);
                    assert(nv.skip(j as int).drop_first() =~= nv.skip(j + 1));
                }
                if str_eq(new_attrs[j].0, name) {
                    found = Some(j);
                }
            }
            j = j + 1;
        }
        proof {
            if found is None {
                assert(nv.skip(new_attrs@.len() as int) =~= Seq::<(Seq<char>, Seq<char>)>::empty());
            }
        }
        match found {
            Some(p) => write_attr(&mut out, name, new_attrs[p].1),
            None => write_attr(&mut out, name, existing),
        }
        proof {
            reveal_strlit(" ");
            assert(e.attrs.take(k + 1).drop_last() =~= e.attrs.take(k as int));
            assert(e.attrs.take(k + 1).last() == e.attrs[k as int]);
            assert(out@ =~= head + existing_text(e.attrs.take(k + 1), nv));
        }
        k = k + 1;
    }
    proof {
        assert(e.attrs.take(attrs@.len() as int) =~= e.attrs);
    }
    let ghost mid = out@;
    let mut i: usize = 0;
    proof {
        assert(nv.take(0) =~= Seq::<(Seq<char>, Seq<char>)>::empty());
        assert(out@ =~= mid + appended_text(nv.take(0), e.attrs));
    }
    while i < new_attrs.len()
        invariant
            i <= new_attrs@.len(),
            nv == pairs_view(new_attrs@),
            e == el@.elem,
            out@ == mid + appended_text(nv.take(i as int), e.attrs),
        decreases new_attrs@.len() - i,
    {
        let (k2, v2) = new_attrs[i];
        let ghost before = out@;
        proof {
            assert(nv[i as int] == (k2@, v2@));
        }
        let present = el.attr(k2).is_some();
        proof {
            crate::types::lemma_attr_lookup_some(e.attrs, k2@);
        }
        if !present {
            push_str(&mut out, " ");
            write_attr(&mut out, k2, v2);
        }
        proof {
            reveal_strlit(" ");
            assert(nv.take(i + 1).drop_last() =~= nv.take(i as int));
            assert(nv.take(i + 1).last() == nv[i as int]);
            assert(out@ =~= mid + appended_text(nv.take(i + 1), e.attrs));
        }
        i = i + 1;
    }
    proof {
        assert(nv.take(new_attrs@.len() as int) =~= nv);
    }
    if self_close {
        push_str(&mut out, "/>");
    } else {
        push_str(&mut out, ">");
    }
    proof {
        reveal_strlit("/>");
        reveal_strlit(">");
        assert(out@ =~= open_tag_text_closed(e, nv, self_close));
    }
    out
}

// ─── entry points ────────────────────────────────────────────────────────

/// The elements `sel` selects in `doc`, in document order.
pub open spec fn selected(doc: crate::document::DocModel, sel: Seq<crate::selector::ast::CompoundModel>) -> Seq<
    ElemModel,
> {
    matches_in(sel, doc.roots, 0, Seq::empty())
}

/// The content splices for `ms`: each element that is not self-closing has
/// its content replaced by `body`.
pub open spec fn content_splices(ms: Seq<ElemModel>, body: Seq<char>) -> Seq<SpliceModel>
    decreases ms.len(),
{
    if ms.len() == 0 {
        Seq::empty()
    } else {
        let rest = content_splices(ms.drop_last(), body);
        if ms.last().self_closing {
            rest
        } else {
            rest.push((ms.last().content_start, ms.last().content_end, body))
        }
    }
}

/// How many of `ms` are self-closing.
pub open spec fn count_self_closing(ms: Seq<ElemModel>) -> nat
    decreases ms.len(),
{
    if ms.len() == 0 {
        0
    } else {
        count_self_closing(ms.drop_last()) + if ms.last().self_closing {
            1nat
        } else {
            0nat
        }
    }
}

/// The selection of `sel` in `doc`, with the facts every splice needs: in
/// document order, each element in place.
fn select_in_order<'a>(doc: &'a Markdown, sel: &Selector) -> (r: Vec<ElementRef<'a>>)
    ensures
        refs_elems(r@) == selected(doc@, sel@),
        refs_into(r@, doc@.raw, doc@.trivia),
        forall|i: int|
            0 <= i < r@.len() ==> elem_ok(#[trigger] refs_elems(r@)[i], bytes_of(doc@.raw)),
        forall|i: int, j: int|
            0 <= i < j < r@.len() ==> (#[trigger] refs_elems(r@)[i]).start < (
            #[trigger] refs_elems(r@)[j]).start && refs_elems(r@)[i].content_start < refs_elems(
                r@,
            )[j].content_start,
{
    let r = doc.select(sel);
    proof {
        use_type_invariant(doc);
        let b = bytes_of(doc@.raw);
        crate::selector::matcher::lemma_matches_in_ordered(
            sel@,
            doc@.roots,
            0,
            Seq::empty(),
            b,
            0,
            b.len() as int,
        );
        let ms = refs_elems(r@);
        assert forall|i: int| 0 <= i < ms.len() implies elem_ok(#[trigger] ms[i], b) by {}
        crate::selector::matcher::lemma_ordered_starts(ms, b);
    }
    r
}

/// Update or insert attributes on every element `sel` selects, returning a
/// report with the rewritten document; fails on an invalid or repeated
/// attribute name in `new_attrs`.
pub fn try_update(doc: &Markdown, sel: &Selector, new_attrs: &[(&str, &str)]) -> (r: Result<
    MutationReport,
    MutateError,
>)
    ensures
        match first_bad_attr(pairs_view(new_attrs@), 0) {
            Some(f) => r matches Err(e) && e@ == f,
            None => r matches Ok(rep) && (rep.output@, rep.applied as nat, rep.skipped_overlaps as nat)
                == spliced(
                bytes_of(doc@.raw),
                update_splices(selected(doc@, sel@), pairs_view(new_attrs@)),
            ) && rep.skipped_self_closing == 0,
        },
{
    if let Err(e) = check_new_attrs(new_attrs) {
        return Err(e);
    }
    let raw = doc.raw();
    let els = select_in_order(doc, sel);
    let ghost b = bytes_of(doc@.raw);
    let ghost ms = refs_elems(els@);
    let ghost nv = pairs_view(new_attrs@);
    let mut splices: Vec<(usize, usize, String)> = Vec::new();
    let mut k: usize = 0;
    while k < els.len()
        invariant
            k <= els@.len(),
            ms == refs_elems(els@),
            b == bytes_of(doc@.raw),
            nv == pairs_view(new_attrs@),
            refs_into(els@, doc@.raw, doc@.trivia),
            forall|i: int| 0 <= i < ms.len() ==> elem_ok(#[trigger] ms[i], b),
            forall|i: int, j: int|
                0 <= i < j < ms.len() ==> (#[trigger] ms[i]).start < (#[trigger] ms[j]).start,
            splices_view(splices@) == update_splices(ms.take(k as int), nv),
        decreases els@.len() - k,
    {
        let el = &els[k];
        let span = el.location();
        let start = span.start.offset as usize;
        let end = if el.is_self_closing() {
            span.end.offset as usize
        } else {
            el.content_range().0
        };
        let rewritten = rewrite_open_tag(el, new_attrs, el.is_self_closing());
        let ghost before = splices_view(splices@);
        proof {
            assert(ms[k as int] == el@.elem);
            assert(start as int == ms[k as int].start);
            assert(end as int == open_tag_end(ms[k as int]));
            assert(rewritten@ == open_tag_text(ms[k as int], nv));
        }
        splices.push((start, end, rewritten));
        proof {
            assert(ms.take(k + 1) =~= ms.take(k as int).push(ms[k as int]));
            assert(splices_view(splices@) =~= before.push((start as int, end as int, rewritten@)));
            assert(splices_view(splices@) =~= update_splices(ms.take(k + 1), nv));
        }
        k = k + 1;
    }
    proof {
        assert(ms.take(els@.len() as int) =~= ms);
        let sv = splices_view(splices@);
        assert forall|i: int| 0 <= i < sv.len() implies 0 <= (#[trigger] sv[i]).0 <= sv[i].1 <= b.len()
            && cut_ok(b, sv[i].0) && cut_ok(b, sv[i].1) by {
            assert(elem_ok(ms[i], b));
        }
        assert forall|i: int, j: int| 0 <= i < j < sv.len() implies (#[trigger] sv[i]).0 < (
        #[trigger] sv[j]).0 by {
            assert(ms[i].start < ms[j].start);
        }
        assert(raw@ == doc@.raw);
        lemma_ordered_splices(b, splices_view(splices@));
    }
    Ok(apply_splices(raw, splices))
}

/// Update or insert attributes on every element `sel` selects, returning
/// the rewritten document. Every name in `new_attrs` must be a valid XML
/// name, and no name may repeat.
pub fn update(doc: &Markdown, sel: &Selector, new_attrs: &[(&str, &str)]) -> (r: String)
    requires
        first_bad_attr(pairs_view(new_attrs@), 0) is None,
    ensures
        r@ == spliced(bytes_of(doc@.raw), update_splices(selected(doc@, sel@), pairs_view(new_attrs@))).0,
{
    match try_update(doc, sel, new_attrs) {
        Ok(rep) => rep.output,
        Err(_) => String::new(),
    }
}

/// Replace the content of every selected element that is not
/// self-closing with `new_body`, counting the self-closing ones skipped.
fn splice_content(doc: &Markdown, sel: &Selector, new_body: &str) -> (r: MutationReport)
    ensures
        (r.output@, r.applied as nat, r.skipped_overlaps as nat) == spliced(
            bytes_of(doc@.raw),
            content_splices(selected(doc@, sel@), new_body@),
        ),
        r.skipped_self_closing == count_self_closing(selected(doc@, sel@)),
{
    let raw = doc.raw();
    let els = select_in_order(doc, sel);
    let ghost b = bytes_of(doc@.raw);
    let ghost ms = refs_elems(els@);
    let mut splices: Vec<(usize, usize, String)> = Vec::new();
    let mut self_closing_skipped: usize = 0;
    let mut k: usize = 0;
    while k < els.len()
        invariant
            k <= els@.len(),
            ms == refs_elems(els@),
            b == bytes_of(doc@.raw),
            forall|i: int| 0 <= i < ms.len() ==> elem_ok(#[trigger] ms[i], b),
            forall|i: int, j: int|
                0 <= i < j < ms.len() ==> (#[trigger] ms[i]).content_start < (#[trigger] ms[j]).content_start,
            splices_view(splices@) == content_splices(ms.take(k as int), new_body@),
            self_closing_skipped == count_self_closing(ms.take(k as int)),
            self_closing_skipped <= k,
            forall|i: int|
                0 <= i < splices@.len() ==> exists|j: int|
                    0 <= j < k && !ms[j].self_closing && #[trigger] splices_view(splices@)[i] == (
                        ms[j].content_start,
                        ms[j].content_end,
                        new_body@,
                    ),
            forall|i: int, j: int|
                0 <= i < j < splices@.len() ==> (#[trigger] splices_view(splices@)[i]).0 < (
                #[trigger] splices_view(splices@)[j]).0,
            k > 0 ==> forall|i: int| 0 <= i < splices@.len() ==> (#[trigger] splices_view(splices@)[i]).0
                <= ms[k - 1].content_start,
        decreases els@.len() - k,
    {
        let el = &els[k];
        let ghost sv0 = splices_view(splices@);
        proof {
            assert(ms[k as int] == el@.elem);
            assert(ms.take(k + 1).drop_last() =~= ms.take(k as int));
            assert(ms.take(k + 1).last() == ms[k as int]);
        }
        if el.is_self_closing() {
            self_closing_skipped = self_closing_skipped + 1;
        } else {
            let range = el.content_range();
            let ghost before = splices_view(splices@);
            splices.push((range.0, range.1, new_body.to_owned()));
            proof {
                assert(splices_view(splices@) =~= before.push(
                    (ms[k as int].content_start, ms[k as int].content_end, new_body@),
                ));
                assert forall|i: int| 0 <= i < before.len() implies (#[trigger] before[i]).0
                    < ms[k as int].content_start by {
                    if k > 0 {
                        assert(ms[k - 1].content_start < ms[k as int].content_start);
                    } else {
                        let j = choose|j: int|
                            0 <= j < k && !ms[j].self_closing && before[i] == (
                                ms[j].content_start,
                                ms[j].content_end,
                                new_body@,
                            );
                    }
                }
            }
        }
        proof {
            let sv = splices_view(splices@);
            assert forall|i: int| 0 <= i < sv.len() implies exists|j: int|
                0 <= j < k + 1 && !ms[j].self_closing && #[trigger] sv[i] == (
                    ms[j].content_start,
                    ms[j].content_end,
                    new_body@,
                ) by {
                if i < sv0.len() {
                    assert(sv[i] == sv0[i]);
                    let j = choose|j: int|
                        0 <= j < k && !ms[j].self_closing && sv0[i] == (
                            ms[j].content_start,
                            ms[j].content_end,
                            new_body@,
                        );
                    assert(0 <= j < k + 1 && !ms[j].self_closing && sv[i] == (
                        ms[j].content_start,
                        ms[j].content_end,
                        new_body@,
                    ));
                } else {
                    assert(sv[i] == (ms[k as int].content_start, ms[k as int].content_end, new_body@));
                }
            }
            assert forall|i: int| 0 <= i < sv.len() implies (#[trigger] sv[i]).0 <= ms[k as int].content_start by {
                let j = choose|j: int|
                    0 <= j < k + 1 && !ms[j].self_closing && sv[i] == (
                        ms[j].content_start,
                        ms[j].content_end,
                        new_body@,
                    );
                if j < k {
                    assert(ms[j].content_start < ms[k as int].content_start);
                }
            }
        }
        k = k + 1;
    }
    proof {
        assert(ms.take(els@.len() as int) =~= ms);
        let sv = splices_view(splices@);
        assert forall|i: int| 0 <= i < sv.len() implies 0 <= (#[trigger] sv[i]).0 <= sv[i].1 <= b.len()
            && cut_ok(b, sv[i].0) && cut_ok(b, sv[i].1) by {
            let j = choose|j: int|
                0 <= j < els@.len() && !ms[j].self_closing && sv[i] == (
                    ms[j].content_start,
                    ms[j].content_end,
                    new_body@,
                );
            assert(elem_ok(ms[j], b));
        }
    }
    proof {
        lemma_ordered_splices(b, splices_view(splices@));
    }
    let mut report = apply_splices(raw, splices);
    report.skipped_self_closing = self_closing_skipped;
    report
}

/// Replace the inner content of every selected element with `new_body`,
/// written verbatim. Self-closing elements are left alone.
pub fn replace_content(doc: &Markdown, sel: &Selector, new_body: &str) -> (r: String)
    ensures
        r@ == spliced(bytes_of(doc@.raw), content_splices(selected(doc@, sel@), new_body@)).0,
{
    splice_content(doc, sel, new_body).output
}

/// Like [`replace_content`], with `new_body` XML-escaped first.
pub fn replace_text(doc: &Markdown, sel: &Selector, new_body: &str) -> (r: String)
    ensures
        r@ == spliced(
            bytes_of(doc@.raw),
            content_splices(selected(doc@, sel@), spec_escape_text(new_body@)),
        ).0,
{
    let mut escaped = String::new();
    crate::escape::push_escaped_text(&mut escaped, new_body);
    proof {
        assert(escaped@ =~= spec_escape_text(new_body@));
    }
    splice_content(doc, sel, escaped.as_str()).output
}

/// Like [`replace_content`], returning the full report.
pub fn try_replace_content(doc: &Markdown, sel: &Selector, new_body: &str) -> (r: MutationReport)
    ensures
        (r.output@, r.applied as nat, r.skipped_overlaps as nat) == spliced(
            bytes_of(doc@.raw),
            content_splices(selected(doc@, sel@), new_body@),
        ),
        r.skipped_self_closing == count_self_closing(selected(doc@, sel@)),
{
    splice_content(doc, sel, new_body)
}

// ─── regex replacement inside content ────────────────────────────────────

/// The regex splices for `ms` in source `b`: each element that is not
/// self-closing has every match of `pat` in its content replaced by `rep`.
pub open spec fn regex_splices(ms: Seq<ElemModel>, b: Seq<u8>, pat: PatternModel, rep: Seq<char>) -> Seq<
    SpliceModel,
>
    decreases ms.len(),
{
    if ms.len() == 0 {
        Seq::empty()
    } else {
        let rest = regex_splices(ms.drop_last(), b, pat, rep);
        let m = ms.last();
        if m.self_closing {
            rest
        } else {
            rest.push(
                (
                    m.content_start,
                    m.content_end,
                    pattern_replace_all(pat, text_of(b, m.content_start, m.content_end), rep),
                ),
            )
        }
    }
}

/// Run a literal-replacement regex over the content of every selected
/// element that is not self-closing, counting the self-closing ones skipped.
fn splice_regex_with(doc: &Markdown, sel: &Selector, pattern: &Pattern, replacement: &str) -> (r:
    MutationReport)
    ensures
        (r.output@, r.applied as nat, r.skipped_overlaps as nat) == spliced(
            bytes_of(doc@.raw),
            regex_splices(selected(doc@, sel@), bytes_of(doc@.raw), pattern@, replacement@),
        ),
        r.skipped_self_closing == count_self_closing(selected(doc@, sel@)),
        pattern_misses(doc@, sel@, pattern@) ==> r.output@ == doc@.raw,
{
    let raw = doc.raw();
    let els = select_in_order(doc, sel);
    let ghost b = bytes_of(doc@.raw);
    let ghost ms = refs_elems(els@);
    let ghost pv = pattern@;
    let mut splices: Vec<(usize, usize, String)> = Vec::new();
    let mut self_closing_skipped: usize = 0;
    let mut k: usize = 0;
    while k < els.len()
        invariant
            k <= els@.len(),
            ms == refs_elems(els@),
            b == bytes_of(doc@.raw),
            raw@ == doc@.raw,
            pv == pattern@,
            forall|i: int| 0 <= i < ms.len() ==> elem_ok(#[trigger] ms[i], b),
            forall|i: int, j: int|
                0 <= i < j < ms.len() ==> (#[trigger] ms[i]).content_start < (#[trigger] ms[j]).content_start,
            splices_view(splices@) == regex_splices(ms.take(k as int), b, pv, replacement@),
            self_closing_skipped == count_self_closing(ms.take(k as int)),
            self_closing_skipped <= k,
            forall|i: int|
                0 <= i < splices@.len() ==> exists|j: int|
                    0 <= j < k && !ms[j].self_closing && (#[trigger] splices_view(splices@)[i]).0
                        == ms[j].content_start && splices_view(splices@)[i].1 == ms[j].content_end,
            forall|i: int, j: int|
                0 <= i < j < splices@.len() ==> (#[trigger] splices_view(splices@)[i]).0 < (
                #[trigger] splices_view(splices@)[j]).0,
            forall|q: int|
                0 <= q < splices@.len() ==> (!pattern_is_match(
                    pv,
                    text_of(b, (#[trigger] splices_view(splices@)[q]).0, splices_view(splices@)[q].1),
                ) ==> splices_view(splices@)[q].2 == text_of(
                    b,
                    splices_view(splices@)[q].0,
                    splices_view(splices@)[q].1,
                )),
        decreases els@.len() - k,
    {
        let el = &els[k];
        let ghost sv0 = splices_view(splices@);
        proof {
            assert(ms[k as int] == el@.elem);
            assert(ms.take(k + 1).drop_last() =~= ms.take(k as int));
            assert(ms.take(k + 1).last() == ms[k as int]);
            assert(elem_ok(ms[k as int], b));
        }
        if el.is_self_closing() {
            self_closing_skipped = self_closing_skipped + 1;
        } else {
            let range = el.content_range();
            let body = slice_str(raw, range.0, range.1);
            let payload = pattern.replace_all_literal(body, replacement);
            splices.push((range.0, range.1, payload));
            proof {
                assert(splices_view(splices@) =~= sv0.push(
                    (
                        ms[k as int].content_start,
                        ms[k as int].content_end,
                        pattern_replace_all(pv, text_of(b, ms[k as int].content_start, ms[k as int].content_end), replacement@),
                    ),
                ));
                let sv1 = splices_view(splices@);
                assert forall|q: int| 0 <= q < sv1.len() implies (!pattern_is_match(
                    pv,
                    text_of(b, (#[trigger] sv1[q]).0, sv1[q].1),
                ) ==> sv1[q].2 == text_of(b, sv1[q].0, sv1[q].1)) by {
                    if q < sv0.len() {
                        assert(sv1[q] == sv0[q]);
                    }
                }
                assert forall|i: int| 0 <= i < sv0.len() implies (#[trigger] sv0[i]).0 < ms[k as int].content_start by {
                    let j = choose|j: int|
                        0 <= j < k && !ms[j].self_closing && sv0[i].0 == ms[j].content_start
                            && sv0[i].1 == ms[j].content_end;
                    assert(ms[j].content_start < ms[k as int].content_start);
                }
            }
        }
        proof {
            let sv = splices_view(splices@);
            assert forall|i: int| 0 <= i < sv.len() implies exists|j: int|
                0 <= j < k + 1 && !ms[j].self_closing && (#[trigger] sv[i]).0 == ms[j].content_start
                    && sv[i].1 == ms[j].content_end by {
                if i < sv0.len() {
                    assert(sv[i] == sv0[i]);
                    let j = choose|j: int|
                        0 <= j < k && !ms[j].self_closing && sv0[i].0 == ms[j].content_start
                            && sv0[i].1 == ms[j].content_end;
                    assert(0 <= j < k + 1 && !ms[j].self_closing && sv[i].0 == ms[j].content_start
                        && sv[i].1 == ms[j].content_end);
                } else {
                    assert(sv[i].0 == ms[k as int].content_start && sv[i].1 == ms[k as int].content_end);
                }
            }
        }
        k = k + 1;
    }
    proof {
        assert(ms.take(els@.len() as int) =~= ms);
        let sv = splices_view(splices@);
        assert forall|i: int| 0 <= i < sv.len() implies 0 <= (#[trigger] sv[i]).0 <= sv[i].1 <= b.len()
            && cut_ok(b, sv[i].0) && cut_ok(b, sv[i].1) by {
            let j = choose|j: int|
                0 <= j < els@.len() && !ms[j].self_closing && sv[i].0 == ms[j].content_start
                    && sv[i].1 == ms[j].content_end;
            assert(elem_ok(ms[j], b));
        }
    }
    proof {
        let sv = splices_view(splices@);
        if pattern_misses(doc@, sel@, pv) {
            assert forall|q: int| 0 <= q < sv.len() implies (#[trigger] sv[q]).2 == text_of(b, sv[q].0, sv[q].1) by {
                let j = choose|j: int|
                    0 <= j < els@.len() && !ms[j].self_closing && sv[q].0 == ms[j].content_start
                        && sv[q].1 == ms[j].content_end;
                assert(!pattern_is_match(pv, text_of(b, ms[j].content_start, ms[j].content_end)));
            }
            law_identity_splices(doc@.raw, sv);
        }
    }
    proof {
        lemma_ordered_splices(b, splices_view(splices@));
    }
    let mut report = apply_splices(raw, splices);
    report.skipped_self_closing = self_closing_skipped;
    report
}

/// Replace every match of `pattern` inside the content of each selected
/// element with `replacement`, written verbatim (`$1` is not expanded).
pub fn replace_in(doc: &Markdown, sel: &Selector, pattern: &Pattern, replacement: &str) -> (r: String)
    ensures
        r@ == spliced(
            bytes_of(doc@.raw),
            regex_splices(selected(doc@, sel@), bytes_of(doc@.raw), pattern@, replacement@),
        ).0,
        pattern_misses(doc@, sel@, pattern@) ==> r@ == doc@.raw,
{
    splice_regex_with(doc, sel, pattern, replacement).output
}

/// Like [`replace_in`], with `replacement` XML-escaped first.
pub fn replace_text_in(doc: &Markdown, sel: &Selector, pattern: &Pattern, replacement: &str) -> (r:
    String)
    ensures
        r@ == spliced(
            bytes_of(doc@.raw),
            regex_splices(
                selected(doc@, sel@),
                bytes_of(doc@.raw),
                pattern@,
                spec_escape_text(replacement@),
            ),
        ).0,
        pattern_misses(doc@, sel@, pattern@) ==> r@ == doc@.raw,
{
    let mut escaped = String::new();
    crate::escape::push_escaped_text(&mut escaped, replacement);
    proof {
        assert(escaped@ =~= spec_escape_text(replacement@));
    }
    splice_regex_with(doc, sel, pattern, escaped.as_str()).output
}

/// Like [`replace_in`], returning the full report.
pub fn try_replace_in(doc: &Markdown, sel: &Selector, pattern: &Pattern, replacement: &str) -> (r:
    MutationReport)
    ensures
        (r.output@, r.applied as nat, r.skipped_overlaps as nat) == spliced(
            bytes_of(doc@.raw),
            regex_splices(selected(doc@, sel@), bytes_of(doc@.raw), pattern@, replacement@),
        ),
        r.skipped_self_closing == count_self_closing(selected(doc@, sel@)),
        pattern_misses(doc@, sel@, pattern@) ==> r.output@ == doc@.raw,
{
    splice_regex_with(doc, sel, pattern, replacement)
}


// ─── Laws ────────────────────────────────────────────────────────────────

/// The pattern matches the content of none of the selected elements that
/// have content.
pub open spec fn pattern_misses(d: crate::document::DocModel, sel: Seq<crate::selector::ast::CompoundModel>, pat: PatternModel) -> bool {
    let b = bytes_of(d.raw);
    let ms = selected(d, sel);
    forall|i: int|
        0 <= i < ms.len() && !(#[trigger] ms[i]).self_closing ==> !pattern_is_match(
            pat,
            text_of(b, ms[i].content_start, ms[i].content_end),
        )
}

proof fn lemma_identity_fold(
    b: Seq<u8>,
    sp: Seq<SpliceModel>,
    i: int,
    cursor: int,
    out: Seq<char>,
    applied: nat,
    skipped: nat,
)
    requires
        valid_utf8(b),
        splices_ok(b, sp),
        forall|q: int| 0 <= q < sp.len() ==> (#[trigger] sp[q]).2 == text_of(b, sp[q].0, sp[q].1),
        cut_ok(b, cursor),
        out == text_of(b, 0, cursor),
        0 <= i,
    ensures
        splice_fold(b, sp, i, cursor, out, applied, skipped).0 == text_of(b, 0, b.len() as int),
    decreases sp.len() - i,
{
    lemma_end_cut(b);
    if i >= sp.len() {
        if cursor < b.len() {
            lemma_text_concat(b, 0, cursor, b.len() as int);
        }
    } else {
        let (st, en, rep) = sp[i];
        if st < cursor || st > b.len() || en > b.len() || st > en {
            lemma_identity_fold(b, sp, i + 1, cursor, out, applied, skipped + 1);
        } else {
            lemma_text_concat(b, 0, cursor, st);
            lemma_text_concat(b, 0, st, en);
            lemma_identity_fold(b, sp, i + 1, en, out + text_of(b, cursor, st) + rep, applied + 1, skipped);
        }
    }
}

/// Splicing each range with the very text it covers gives the source back:
/// every byte outside the spliced ranges is copied through unchanged.
pub proof fn law_identity_splices(raw: Seq<char>, sp: Seq<SpliceModel>)
    requires
        splices_ok(bytes_of(raw), sp),
        forall|q: int| 0 <= q < sp.len() ==> (#[trigger] sp[q]).2 == text_of(bytes_of(raw), sp[q].0, sp[q].1),
    ensures
        spliced(bytes_of(raw), sp).0 == raw,
{
    let b = bytes_of(raw);
    crate::source::lemma_valid_bytes(raw);
    lemma_end_cut(b);
    assert(b.subrange(0, 0) =~= Seq::<u8>::empty());
    assert(text_of(b, 0, 0) =~= Seq::<char>::empty());
    lemma_identity_fold(b, sp, 0, 0, Seq::empty(), 0, 0);
    crate::source::lemma_text_all(raw);
}

/// A selector that matches nothing leaves the document unchanged under
/// every mutation: attribute update, content replacement, and regex
/// replacement.
pub proof fn law_no_selection_unchanged(
    d: crate::document::DocModel,
    sel: Seq<crate::selector::ast::CompoundModel>,
    body: Seq<char>,
    new: Seq<(Seq<char>, Seq<char>)>,
    pat: PatternModel,
    rep: Seq<char>,
)
    requires
        selected(d, sel).len() == 0,
    ensures
        spliced(bytes_of(d.raw), content_splices(selected(d, sel), body)).0 == d.raw,
        spliced(bytes_of(d.raw), update_splices(selected(d, sel), new)).0 == d.raw,
        spliced(bytes_of(d.raw), regex_splices(selected(d, sel), bytes_of(d.raw), pat, rep)).0 == d.raw,
{
    let ms = selected(d, sel);
    assert(update_splices(ms, new) =~= Seq::<SpliceModel>::empty());
    law_identity_splices(d.raw, Seq::empty());
}

proof fn lemma_fold_counts(
    b: Seq<u8>,
    sp: Seq<SpliceModel>,
    i: int,
    cursor: int,
    out: Seq<char>,
    applied: nat,
    skipped: nat,
)
    requires
        0 <= i <= sp.len(),
    ensures
        splice_fold(b, sp, i, cursor, out, applied, skipped).1 + splice_fold(
            b,
            sp,
            i,
            cursor,
            out,
            applied,
            skipped,
        ).2 == applied + skipped + (sp.len() - i),
    decreases sp.len() - i,
{
    if i < sp.len() {
        let (st, en, rep) = sp[i];
        if st < cursor || st > b.len() || en > b.len() || st > en {
            lemma_fold_counts(b, sp, i + 1, cursor, out, applied, skipped + 1);
        } else {
            lemma_fold_counts(b, sp, i + 1, en, out + text_of(b, cursor, st) + rep, applied + 1, skipped);
        }
    }
}

proof fn lemma_content_splices_len(ms: Seq<ElemModel>, body: Seq<char>)
    ensures
        content_splices(ms, body).len() + count_self_closing(ms) == ms.len(),
    decreases ms.len(),
{
    if ms.len() > 0 {
        lemma_content_splices_len(ms.drop_last(), body);
    }
}

proof fn lemma_regex_splices_len(ms: Seq<ElemModel>, b: Seq<u8>, pat: PatternModel, rep: Seq<char>)
    ensures
        regex_splices(ms, b, pat, rep).len() + count_self_closing(ms) == ms.len(),
    decreases ms.len(),
{
    if ms.len() > 0 {
        lemma_regex_splices_len(ms.drop_last(), b, pat, rep);
    }
}

/// A mutation report accounts for every selected element exactly once: it
/// was applied, skipped as nested inside another match, or skipped as
/// self-closing (for content and regex replacement); for attribute
/// updates, applied or skipped as nested.
pub proof fn law_reports_account_for_every_match(
    d: crate::document::DocModel,
    sel: Seq<crate::selector::ast::CompoundModel>,
    body: Seq<char>,
    new: Seq<(Seq<char>, Seq<char>)>,
    pat: PatternModel,
    rep: Seq<char>,
)
    ensures
        ({
            let r = spliced(bytes_of(d.raw), content_splices(selected(d, sel), body));
            r.1 + r.2 + count_self_closing(selected(d, sel)) == selected(d, sel).len()
        }),
        ({
            let r = spliced(bytes_of(d.raw), regex_splices(selected(d, sel), bytes_of(d.raw), pat, rep));
            r.1 + r.2 + count_self_closing(selected(d, sel)) == selected(d, sel).len()
        }),
        ({
            let r = spliced(bytes_of(d.raw), update_splices(selected(d, sel), new));
            r.1 + r.2 == selected(d, sel).len()
        }),
{
    let b = bytes_of(d.raw);
    let ms = selected(d, sel);
    lemma_fold_counts(b, content_splices(ms, body), 0, 0, Seq::empty(), 0, 0);
    lemma_content_splices_len(ms, body);
    lemma_fold_counts(b, regex_splices(ms, b, pat, rep), 0, 0, Seq::empty(), 0, 0);
    lemma_regex_splices_len(ms, b, pat, rep);
    lemma_fold_counts(b, update_splices(ms, new), 0, 0, Seq::empty(), 0, 0);
}


proof fn lemma_existing_concat(x: Seq<(Seq<char>, Seq<char>)>, y: Seq<(Seq<char>, Seq<char>)>, new: Seq<(Seq<char>, Seq<char>)>)
    ensures
        existing_text(x + y, new) == existing_text(x, new) + existing_text(y, new),
    decreases y.len(),
{
    if y.len() == 0 {
        assert(x + y =~= x);
        assert(existing_text(x, new) + existing_text(y, new) =~= existing_text(x, new));
    } else {
        lemma_existing_concat(x, y.drop_last(), new);
        assert((x + y).drop_last() =~= x + y.drop_last());
        assert((x + y).last() == y.last());
    }
}

proof fn lemma_lookup_distinct(new: Seq<(Seq<char>, Seq<char>)>, j: int)
    requires
        0 <= j < new.len(),
        forall|l: int| 0 <= l < j ==> #[trigger] new[l].0 != new[j].0,
    ensures
        attr_lookup(new, new[j].0) == Some(new[j].1),
    decreases j,
{
    if j > 0 {
        let t = new.drop_first();
        assert forall|l: int| 0 <= l < j - 1 implies #[trigger] t[l].0 != t[j - 1].0 by {
            assert(t[l] == new[l + 1]);
        }
        lemma_lookup_distinct(t, j - 1);
        assert(new[0].0 != new[j].0);
    }
}

proof fn lemma_lookup_absent(new: Seq<(Seq<char>, Seq<char>)>, name: Seq<char>)
    requires
        forall|l: int| 0 <= l < new.len() ==> new[l].0 != name,
    ensures
        attr_lookup(new, name) is None,
    decreases new.len(),
{
    if new.len() > 0 {
        let t = new.drop_first();
        assert forall|l: int| 0 <= l < t.len() implies t[l].0 != name by {
            assert(t[l] == new[l + 1]);
        }
        lemma_lookup_absent(t, name);
    }
}

/// The `i`-th existing attribute's piece of the rewritten attributes.
proof fn lemma_existing_split(a: Seq<(Seq<char>, Seq<char>)>, new: Seq<(Seq<char>, Seq<char>)>, i: int)
    requires
        0 <= i < a.len(),
    ensures
        existing_text(a, new) == existing_text(a.take(i), new) + seq![' '] + attr_text(
            a[i].0,
            match attr_lookup(new, a[i].0) {
                Some(v) => v,
                None => a[i].1,
            },
        ) + existing_text(a.skip(i + 1), new),
{
    lemma_existing_concat(a.take(i + 1), a.skip(i + 1), new);
    assert(a.take(i + 1) + a.skip(i + 1) =~= a);
    assert(a.take(i + 1).drop_last() =~= a.take(i));
    assert(a.take(i + 1).last() == a[i]);
}

/// An attribute update keeps every attribute the element carries in its
/// place in the rewritten opening tag, each as `name="escaped value"`: the
/// `i`-th one takes the value that the update gives its name, wherever that
/// pair stands in the update (whose names are distinct), and keeps its own
/// value when the update does not name it.
pub proof fn law_update_replaces_carried(
    e: ElemModel,
    new: Seq<(Seq<char>, Seq<char>)>,
    self_close: bool,
    i: int,
)
    requires
        0 <= i < e.attrs.len(),
        forall|j: int, l: int| 0 <= j < l < new.len() ==> new[j].0 != new[l].0,
    ensures
        forall|j: int|
            0 <= j < new.len() && #[trigger] new[j].0 == e.attrs[i].0 ==> open_tag_text_closed(e, new, self_close)
                == seq!['<'] + e.tag + existing_text(e.attrs.take(i), new) + seq![' '] + attr_text(e.attrs[i].0, new[j].1)
                + existing_text(e.attrs.skip(i + 1), new) + appended_text(new, e.attrs) + (if self_close {
                seq!['/', '>']
            } else {
                seq!['>']
            }),
        (forall|j: int| 0 <= j < new.len() ==> #[trigger] new[j].0 != e.attrs[i].0) ==> open_tag_text_closed(
            e,
            new,
            self_close,
        ) == seq!['<'] + e.tag + existing_text(e.attrs.take(i), new) + seq![' '] + attr_text(e.attrs[i].0, e.attrs[i].1)
            + existing_text(e.attrs.skip(i + 1), new) + appended_text(new, e.attrs) + (if self_close {
            seq!['/', '>']
        } else {
            seq!['>']
        }),
{
    let a = e.attrs;
    let name = a[i].0;
    lemma_existing_split(a, new, i);
    assert forall|j: int|
        0 <= j < new.len() && #[trigger] new[j].0 == name implies attr_lookup(new, name) == Some(new[j].1) by {
        assert forall|l: int| 0 <= l < j implies #[trigger] new[l].0 != new[j].0 by {}
        lemma_lookup_distinct(new, j);
    }
    if forall|j: int| 0 <= j < new.len() ==> #[trigger] new[j].0 != name {
        lemma_lookup_absent(new, name);
    }
}

proof fn lemma_appended_all_new(new: Seq<(Seq<char>, Seq<char>)>, attrs: Seq<(Seq<char>, Seq<char>)>)
    requires
        forall|j: int| 0 <= j < new.len() ==> !has_attr_named(attrs, #[trigger] new[j].0),
    ensures
        appended_text(new, attrs) == crate::serialize::attrs_xml(new),
    decreases new.len(),
{
    if new.len() > 0 {
        let init = new.drop_last();
        assert forall|j: int| 0 <= j < init.len() implies !has_attr_named(attrs, #[trigger] init[j].0) by {
            assert(init[j] == new[j]);
        }
        lemma_appended_all_new(init, attrs);
        assert(!has_attr_named(attrs, new[new.len() - 1].0));
    }
}

proof fn lemma_appended_all_carried(new: Seq<(Seq<char>, Seq<char>)>, attrs: Seq<(Seq<char>, Seq<char>)>)
    requires
        forall|j: int| 0 <= j < new.len() ==> has_attr_named(attrs, #[trigger] new[j].0),
    ensures
        appended_text(new, attrs) == Seq::<char>::empty(),
    decreases new.len(),
{
    if new.len() > 0 {
        let init = new.drop_last();
        assert forall|j: int| 0 <= j < init.len() implies has_attr_named(attrs, #[trigger] init[j].0) by {
            assert(init[j] == new[j]);
        }
        lemma_appended_all_carried(init, attrs);
        assert(has_attr_named(attrs, new[new.len() - 1].0));
        assert(appended_text(new, attrs) =~= Seq::<char>::empty());
    }
}

proof fn lemma_existing_untouched(attrs: Seq<(Seq<char>, Seq<char>)>, new: Seq<(Seq<char>, Seq<char>)>)
    requires
        forall|i: int, j: int| 0 <= i < attrs.len() && 0 <= j < new.len() ==> #[trigger] attrs[i].0 != #[trigger] new[j].0,
    ensures
        existing_text(attrs, new) == crate::serialize::attrs_xml(attrs),
    decreases attrs.len(),
{
    if attrs.len() > 0 {
        let init = attrs.drop_last();
        assert forall|i: int, j: int| 0 <= i < init.len() && 0 <= j < new.len() implies #[trigger] init[i].0
            != #[trigger] new[j].0 by {
            assert(init[i] == attrs[i]);
        }
        lemma_existing_untouched(init, new);
        let l = attrs[attrs.len() - 1];
        assert forall|j: int| 0 <= j < new.len() implies #[trigger] new[j].0 != l.0 by {}
        lemma_lookup_absent(new, l.0);
    }
}

/// The attributes an update adds: when the element carries none of the
/// update's names, the opening tag is its own attributes, untouched, then
/// every pair of the update in order, each as ` name="escaped value"`; when
/// it carries all of them, nothing is added after its own attributes.
pub proof fn law_update_appends_new(e: ElemModel, new: Seq<(Seq<char>, Seq<char>)>, self_close: bool)
    ensures
        (forall|j: int| 0 <= j < new.len() ==> !has_attr_named(e.attrs, #[trigger] new[j].0)) ==> open_tag_text_closed(
            e,
            new,
            self_close,
        ) == seq!['<'] + e.tag + crate::serialize::attrs_xml(e.attrs) + crate::serialize::attrs_xml(new) + (
        if self_close {
            seq!['/', '>']
        } else {
            seq!['>']
        }),
        (forall|j: int| 0 <= j < new.len() ==> has_attr_named(e.attrs, #[trigger] new[j].0)) ==> open_tag_text_closed(
            e,
            new,
            self_close,
        ) == seq!['<'] + e.tag + existing_text(e.attrs, new) + (if self_close {
            seq!['/', '>']
        } else {
            seq!['>']
        }),
{
    if forall|j: int| 0 <= j < new.len() ==> !has_attr_named(e.attrs, #[trigger] new[j].0) {
        lemma_appended_all_new(new, e.attrs);
        assert forall|i: int, j: int| 0 <= i < e.attrs.len() && 0 <= j < new.len() implies #[trigger] e.attrs[i].0
            != #[trigger] new[j].0 by {
            assert(!has_attr_named(e.attrs, new[j].0));
        }
        lemma_existing_untouched(e.attrs, new);
    }
    if forall|j: int| 0 <= j < new.len() ==> has_attr_named(e.attrs, #[trigger] new[j].0) {
        lemma_appended_all_carried(new, e.attrs);
        assert(existing_text(e.attrs, new) + Seq::<char>::empty() =~= existing_text(e.attrs, new));
    }
}

} // verus!
