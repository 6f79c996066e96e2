//! Validate a parsed [`Markdown`] against a [`Schema`].
//!
//! Every element whose tag the schema names is checked, at any depth, in
//! document order; validation goes on after the first problem so callers
//! see every issue at once. Tags the schema does not name are not
//! inspected.

use crate::document::{doc_ok, DocModel, Markdown};
use crate::order::{entries_view, lookup};
use crate::pattern::{no_flags, pattern_is_match, PatternModel};
use crate::render::{debug_str, decimal, push_decimal, push_str, str_debug_text};
use crate::schema::{
    anchored, clone_strings, contains_str, strings_view, CompiledAttrKind, CompiledTagModel, CompiledTagSchema,
    ConstraintModel, KindModel, Schema,
};
use crate::serialize::{any_nonblank, direct_text, has_nonblank};
use crate::source::{bytes_of, cut_ok, str_eq};
use crate::tokenizer::{cdata_open, cdata_open_bytes, starts_at, starts_with_at};
use crate::types::{
    strs_view, attr_lookup, elem_ok, elem_ref_ok, find_attr, has_attr_named, ranges_view, trivia_ok, ElemModel, ElemRefModel, ElementData,
    ElementRef,
};
use vstd::prelude::*;
use vstd::std_specs::iter::IteratorSpec;

verus! {

broadcast use vstd::string::group_string_axioms;

// ─── Errors ──────────────────────────────────────────────────────────────

/// Which constraint inside a [`ValidationError::InvalidAttr`] failed.
#[derive(Debug, Clone, PartialEq, Eq)]
#[non_exhaustive]
pub enum InvalidAttrKind {
    /// The value was not in the schema's enum allowlist.
    NotInEnum {
        /// Values the schema permits, ascending.
        allowed: Vec<String>,
    },
    /// The value failed the schema's regex constraint.
    NoRegexMatch {
        /// The pattern as authored (without the implicit anchors).
        pattern: String,
    },
}

/// Mathematical form of [`InvalidAttrKind`].
pub enum KindViolation {
    NotInEnum { allowed: Seq<Seq<char>> },
    NoRegexMatch { pattern: Seq<char> },
}

impl View for InvalidAttrKind {
    type V = KindViolation;

    open spec fn view(&self) -> KindViolation {
        match self {
            InvalidAttrKind::NotInEnum { allowed } => KindViolation::NotInEnum { allowed: strings_view(allowed@) },
            InvalidAttrKind::NoRegexMatch { pattern } => KindViolation::NoRegexMatch { pattern: pattern@ },
        }
    }
}

/// One problem found during validation. Every variant carries the
/// offending `tag` and a 1-based `line`.
#[derive(Debug, Clone, PartialEq, Eq)]
#[non_exhaustive]
pub enum ValidationError {
    /// A schema-required attribute was missing.
    MissingAttr {
        /// Tag where the attribute should have been.
        tag: String,
        /// Attribute name.
        attr: String,
        /// 1-based source line of the element.
        line: u32,
    },
    /// An attribute was present but its value did not satisfy the schema.
    InvalidAttr {
        /// Tag carrying the attribute.
        tag: String,
        /// Attribute name.
        attr: String,
        /// Offending value, as stored on the element.
        value: String,
        /// The constraint that failed.
        kind: InvalidAttrKind,
        /// 1-based source line of the element.
        line: u32,
    },
    /// A required child element was missing.
    MissingChild {
        /// Parent tag.
        tag: String,
        /// Required child tag that was absent.
        child: String,
        /// 1-based source line of the parent.
        line: u32,
    },
    /// A child element the exclusive-children list does not allow.
    UnexpectedChild {
        /// Parent tag.
        tag: String,
        /// Child tag that was not in the allowlist.
        child: String,
        /// 1-based source line of the child.
        line: u32,
    },
    /// The element carries no non-whitespace text of its own but the
    /// schema requires content. Child markup, comments and CDATA sections do
    /// not count.
    EmptyContent {
        /// Tag with the empty body.
        tag: String,
        /// 1-based source line.
        line: u32,
    },
}

/// Mathematical form of [`ValidationError`].
pub enum Violation {
    MissingAttr { tag: Seq<char>, attr: Seq<char>, line: nat },
    InvalidAttr { tag: Seq<char>, attr: Seq<char>, value: Seq<char>, kind: KindViolation, line: nat },
    MissingChild { tag: Seq<char>, child: Seq<char>, line: nat },
    UnexpectedChild { tag: Seq<char>, child: Seq<char>, line: nat },
    EmptyContent { tag: Seq<char>, line: nat },
}

impl View for ValidationError {
    type V = Violation;

    open spec fn view(&self) -> Violation {
        match self {
            ValidationError::MissingAttr { tag, attr, line } => Violation::MissingAttr {
                tag: tag@,
                attr: attr@,
                line: *line as nat,
            },
            ValidationError::InvalidAttr { tag, attr, value, kind, line } => Violation::InvalidAttr {
                tag: tag@,
                attr: attr@,
                value: value@,
                kind: kind@,
                line: *line as nat,
            },
            ValidationError::MissingChild { tag, child, line } => Violation::MissingChild {
                tag: tag@,
                child: child@,
                line: *line as nat,
            },
            ValidationError::UnexpectedChild { tag, child, line } => Violation::UnexpectedChild {
                tag: tag@,
                child: child@,
                line: *line as nat,
            },
            ValidationError::EmptyContent { tag, line } => Violation::EmptyContent { tag: tag@, line: *line as nat },
        }
    }
}

/// The views of a list of errors.
pub open spec fn violations_view(v: Seq<ValidationError>) -> Seq<Violation> {
    v.map_values(|e: ValidationError| e@)
}

/// `{:?}` of each string, separated by `", "`.
pub open spec fn debug_list(vs: Seq<Seq<char>>) -> Seq<char>
    decreases vs.len(),
{
    if vs.len() == 0 {
        Seq::empty()
    } else if vs.len() == 1 {
        str_debug_text(vs[0])
    } else {
        debug_list(vs.drop_last()) + ", "@ + str_debug_text(vs.last())
    }
}

/// Human-readable rendering of a [`KindViolation`].
pub open spec fn kind_text(k: KindViolation) -> Seq<char> {
    match k {
        KindViolation::NotInEnum { allowed } => "expected one of ["@ + debug_list(allowed) + "]"@,
        KindViolation::NoRegexMatch { pattern } => "did not match regex /"@ + pattern + "/"@,
    }
}

/// Human-readable rendering of a [`Violation`].
pub open spec fn violation_text(v: Violation) -> Seq<char> {
    match v {
        Violation::MissingAttr { tag, attr, line } => "line "@ + decimal(line) + ": <"@ + tag
            + "> missing required attribute "@ + attr,
        Violation::InvalidAttr { tag, attr, value, kind, line } => "line "@ + decimal(line) + ": <"@ + tag
            + "> attribute "@ + attr + " has invalid value "@ + str_debug_text(value) + " ("@ + kind_text(kind)
            + ")"@,
        Violation::MissingChild { tag, child, line } => "line "@ + decimal(line) + ": <"@ + tag
            + "> missing required child <"@ + child + ">"@,
        Violation::UnexpectedChild { tag, child, line } => "line "@ + decimal(line) + ": <"@ + tag
            + "> has unexpected child <"@ + child + ">"@,
        Violation::EmptyContent { tag, line } => "line "@ + decimal(line) + ": <"@ + tag
            + "> requires non-empty content"@,
    }
}

impl InvalidAttrKind {
    /// Human-readable message: `expected one of ["a", "b"]` or
    /// `did not match regex /pattern/`.
    pub fn message(&self) -> (r: String)
        ensures
            r@ == kind_text(self@),
    {
        let mut out = String::new();
        match self {
            InvalidAttrKind::NotInEnum { allowed } => {
                push_str(&mut out, "expected one of [");
                let ghost head = out@;
                let ghost vs = strings_view(allowed@);
                let mut i: usize = 0;
                proof {
                    assert(vs.take(0) =~= Seq::<Seq<char>>::empty());
                    assert(out@ =~= head + debug_list(vs.take(0)));
                }
                while i < allowed.len()
                    invariant
                        vs == strings_view(allowed@),
                        i <= allowed@.len(),
                        out@ == head + debug_list(vs.take(i as int)),
                    decreases allowed@.len() - i,
                {
                    if i > 0 {
                        push_str(&mut out, ", ");
                    }
                    let d = debug_str(allowed[i].as_str());
                    push_str(&mut out, d.as_str());
                    proof {
                        assert(vs.take(i + 1).drop_last() =~= vs.take(i as int));
                        assert(vs.take(i + 1).last() == allowed@[i as int]@);
                        if i == 0 {
                            assert(vs.take(1)[0] == allowed@[0]@);
                        }
                        assert(out@ =~= head + debug_list(vs.take(i + 1)));
                    }
                    i = i + 1;
                }
                proof {
                    assert(vs.take(allowed@.len() as int) =~= vs);
                }
                push_str(&mut out, "]");
            },
            InvalidAttrKind::NoRegexMatch { pattern } => {
                push_str(&mut out, "did not match regex /");
                push_str(&mut out, pattern.as_str());
                push_str(&mut out, "/");
            },
        }
        proof {
            assert(out@ =~= kind_text(self@));
        }
        out
    }
}

impl ValidationError {
    /// Human-readable message, led by the line number.
    pub fn message(&self) -> (r: String)
        ensures
            r@ == violation_text(self@),
    {
        let mut out = String::new();
        push_str(&mut out, "line ");
        match self {
            ValidationError::MissingAttr { tag, attr, line } => {
                push_decimal(&mut out, *line as u64);
                push_str(&mut out, ": <");
                push_str(&mut out, tag.as_str());
                push_str(&mut out, "> missing required attribute ");
                push_str(&mut out, attr.as_str());
            },
            ValidationError::InvalidAttr { tag, attr, value, kind, line } => {
                push_decimal(&mut out, *line as u64);
                push_str(&mut out, ": <");
                push_str(&mut out, tag.as_str());
                push_str(&mut out, "> attribute ");
                push_str(&mut out, attr.as_str());
                push_str(&mut out, " has invalid value ");
                let d = debug_str(value.as_str());
                push_str(&mut out, d.as_str());
                push_str(&mut out, " (");
                let k = kind.message();
                push_str(&mut out, k.as_str());
                push_str(&mut out, ")");
            },
            ValidationError::MissingChild { tag, child, line } => {
                push_decimal(&mut out, *line as u64);
                push_str(&mut out, ": <");
                push_str(&mut out, tag.as_str());
                push_str(&mut out, "> missing required child <");
                push_str(&mut out, child.as_str());
                push_str(&mut out, ">");
            },
            ValidationError::UnexpectedChild { tag, child, line } => {
                push_decimal(&mut out, *line as u64);
                push_str(&mut out, ": <");
                push_str(&mut out, tag.as_str());
                push_str(&mut out, "> has unexpected child <");
                push_str(&mut out, child.as_str());
                push_str(&mut out, ">");
            },
            ValidationError::EmptyContent { tag, line } => {
                push_decimal(&mut out, *line as u64);
                push_str(&mut out, ": <");
                push_str(&mut out, tag.as_str());
                push_str(&mut out, "> requires non-empty content");
            },
        }
        proof {
            assert(out@ =~= violation_text(self@));
        }
        out
    }
}


// ─── What validation finds ───────────────────────────────────────────────

/// How `value` fails the kind `k`, if it does.
pub open spec fn kind_violation(k: KindModel, value: Seq<char>) -> Option<KindViolation> {
    match k {
        KindModel::Any => None,
        KindModel::Enum(allowed) => if allowed.contains(value) {
            None
        } else {
            Some(KindViolation::NotInEnum { allowed })
        },
        KindModel::Regex(p) => if pattern_is_match(PatternModel { source: anchored(p), flags: no_flags() }, value) {
            None
        } else {
            Some(KindViolation::NoRegexMatch { pattern: p })
        },
    }
}

/// The problem with attribute `name` of `e` under the constraint `c`: a
/// required attribute missing, or a present value its kind rejects.
pub open spec fn attr_violation(e: ElemModel, name: Seq<char>, c: ConstraintModel) -> Seq<Violation> {
    let line = e.start_line as nat;
    match attr_lookup(e.attrs, name) {
        None => if c.required {
            seq![Violation::MissingAttr { tag: e.tag, attr: name, line }]
        } else {
            Seq::empty()
        },
        Some(v) => match kind_violation(c.kind, v) {
            Some(k) => seq![Violation::InvalidAttr { tag: e.tag, attr: name, value: v, kind: k, line }],
            None => Seq::empty(),
        },
    }
}

/// The attribute problems of `e`, in the order of the constraints.
pub open spec fn attr_violations(e: ElemModel, attrs: Seq<(Seq<char>, ConstraintModel)>) -> Seq<Violation>
    decreases attrs.len(),
{
    if attrs.len() == 0 {
        Seq::empty()
    } else {
        attr_violations(e, attrs.drop_last()) + attr_violation(e, attrs.last().0, attrs.last().1)
    }
}

/// Some direct child of `e` has tag `t`.
pub open spec fn has_child_tag(e: ElemModel, t: Seq<char>) -> bool {
    exists|k: int| 0 <= k < e.children.len() && #[trigger] e.children[k].tag == t
}

/// A missing-child problem for each required tag no child of `e` has.
pub open spec fn missing_children(e: ElemModel, required: Seq<Seq<char>>) -> Seq<Violation>
    decreases required.len(),
{
    if required.len() == 0 {
        Seq::empty()
    } else {
        missing_children(e, required.drop_last()) + if has_child_tag(e, required.last()) {
            Seq::empty()
        } else {
            seq![Violation::MissingChild { tag: e.tag, child: required.last(), line: e.start_line as nat }]
        }
    }
}

/// An unexpected-child problem for each of `cs` (children of a `tag`
/// element) whose tag is not in `allowed`, at the child's line.
pub open spec fn unexpected_children(tag: Seq<char>, cs: Seq<ElemModel>, allowed: Seq<Seq<char>>) -> Seq<
    Violation,
>
    decreases cs.len(),
{
    if cs.len() == 0 {
        Seq::empty()
    } else {
        unexpected_children(tag, cs.drop_last(), allowed) + if allowed.contains(cs.last().tag) {
            Seq::empty()
        } else {
            seq![Violation::UnexpectedChild { tag, child: cs.last().tag, line: cs.last().start_line as nat }]
        }
    }
}

/// The trivia ranges with each CDATA section closed over: a range that
/// opens with `<![CDATA[` is widened to the end of the range after it (the
/// section's `]]>`), so the section's content lies inside it.
pub open spec fn sealed_trivia(b: Seq<u8>, tv: Seq<(int, int)>) -> Seq<(int, int)>
    decreases tv.len(),
{
    if tv.len() == 0 {
        Seq::empty()
    } else if tv.len() >= 2 && starts_at(b, tv[0].0, cdata_open()) {
        seq![(tv[0].0, tv[1].1)] + sealed_trivia(b, tv.subrange(2, tv.len() as int))
    } else {
        seq![tv[0]] + sealed_trivia(b, tv.drop_first())
    }
}

/// The text directly inside `e` that counts as content: the runs between
/// child elements, comments and whole CDATA sections.
pub open spec fn content_text(raw: Seq<char>, tv: Seq<(int, int)>, e: ElemModel) -> Seq<Seq<char>> {
    direct_text(raw, sealed_trivia(bytes_of(raw), tv), e)
}

proof fn lemma_sealed_ok(b: Seq<u8>, tv: Seq<(int, int)>)
    requires
        trivia_ok(tv, b),
    ensures
        trivia_ok(sealed_trivia(b, tv), b),
        forall|k: int| 0 <= k < sealed_trivia(b, tv).len() ==> tv[0].0 <= (#[trigger] sealed_trivia(b, tv)[k]).0,
    decreases tv.len(),
{
    if tv.len() == 0 {
    } else {
        let two = tv.len() >= 2 && starts_at(b, tv[0].0, cdata_open());
        let rest = if two {
            tv.subrange(2, tv.len() as int)
        } else {
            tv.drop_first()
        };
        let head = if two {
            (tv[0].0, tv[1].1)
        } else {
            tv[0]
        };
        let d: int = if two {
            2
        } else {
            1
        };
        assert forall|k: int| 0 <= k < rest.len() implies #[trigger] rest[k] == tv[k + d] by {}
        assert(trivia_ok(rest, b)) by {
            assert forall|k: int, l: int| 0 <= k < l < rest.len() implies #[trigger] rest[k].1 <= #[trigger] rest[l].0 by {
                assert(rest[k] == tv[k + d] && rest[l] == tv[l + d]);
            }
        }
        lemma_sealed_ok(b, rest);
        let s = sealed_trivia(b, tv);
        let sr = sealed_trivia(b, rest);
        assert(s == seq![head] + sr);
        if rest.len() == 0 {
            assert(sr.len() == 0);
        } else {
            assert(head.1 <= rest[0].0) by {
                assert(rest[0] == tv[d]);
            }
        }
        assert(head.0 == tv[0].0 && head.0 <= head.1);
        assert forall|k: int| 0 <= k < s.len() implies (#[trigger] s[k]).0 <= s[k].1 && cut_ok(b, s[k].0) && cut_ok(
            b,
            s[k].1,
        ) by {
            if k > 0 {
                assert(s[k] == sr[k - 1]);
            }
        }
        assert forall|k: int, l: int| 0 <= k < l < s.len() implies #[trigger] s[k].1 <= #[trigger] s[l].0 by {
            assert(s[l] == sr[l - 1]);
            if k > 0 {
                assert(s[k] == sr[k - 1]);
            }
        }
        assert forall|k: int| 0 <= k < s.len() implies tv[0].0 <= (#[trigger] s[k]).0 by {
            if k > 0 {
                assert(s[k] == sr[k - 1]);
                assert(rest[0] == tv[d]);
            }
        }
    }
}

/// The document's trivia with each CDATA section's content folded in.
fn seal_trivia(raw: &str, trivia: &[(usize, usize)]) -> (r: Vec<(usize, usize)>)
    requires
        trivia_ok(ranges_view(trivia@), bytes_of(raw@)),
    ensures
        ranges_view(r@) == sealed_trivia(bytes_of(raw@), ranges_view(trivia@)),
        trivia_ok(ranges_view(r@), bytes_of(raw@)),
{
    let bytes = raw.as_bytes();
    let open = cdata_open_bytes();
    let ghost b = bytes_of(raw@);
    let ghost tv = ranges_view(trivia@);
    proof {
        lemma_sealed_ok(b, tv);
        assert(tv.subrange(0, tv.len() as int) =~= tv);
        assert(ranges_view(Seq::<(usize, usize)>::empty()) =~= Seq::<(int, int)>::empty());
    }
    let mut out: Vec<(usize, usize)> = Vec::new();
    let mut i: usize = 0;
    while i < trivia.len()
        invariant
            bytes@ == b,
            b == bytes_of(raw@),
            open@ == cdata_open(),
            tv == ranges_view(trivia@),
            trivia_ok(tv, b),
            i <= trivia@.len(),
            ranges_view(out@) + sealed_trivia(b, tv.subrange(i as int, tv.len() as int)) == sealed_trivia(b, tv),
        decreases trivia@.len() - i,
    {
        let ghost rest = tv.subrange(i as int, tv.len() as int);
        let ghost before = ranges_view(out@);
        let (a, e) = trivia[i];
        proof {
            assert(tv[i as int] == (a as int, e as int));
        }
        if i + 1 < trivia.len() && starts_with_at(bytes, a, &open) {
            let (_, e2) = trivia[i + 1];
            out.push((a, e2));
            proof {
                assert(rest[0] == tv[i as int] && rest[1] == tv[i + 1]);
                assert(rest.subrange(2, rest.len() as int) =~= tv.subrange(i + 2, tv.len() as int));
                assert(ranges_view(out@) =~= before + seq![(a as int, e2 as int)]);
            }
            i = i + 2;
        } else {
            out.push((a, e));
            proof {
                assert(rest[0] == tv[i as int]);
                assert(rest.drop_first() =~= tv.subrange(i + 1, tv.len() as int));
                assert(ranges_view(out@) =~= before + seq![(a as int, e as int)]);
            }
            i = i + 1;
        }
    }
    proof {
        assert(tv.subrange(i as int, tv.len() as int) =~= Seq::<(int, int)>::empty());
        assert(ranges_view(out@) =~= sealed_trivia(b, tv));
    }
    out
}

/// Every problem of element `e` under the rules `ts`: attributes, then
/// missing children, then unexpected children (exclusive rules only),
/// then missing text (when content is required).
pub open spec fn element_violations(raw: Seq<char>, tv: Seq<(int, int)>, ts: CompiledTagModel, e: ElemModel) -> Seq<
    Violation,
> {
    attr_violations(e, ts.attrs) + missing_children(e, ts.children_required) + (if ts.children_exclusive {
        unexpected_children(e.tag, e.children, ts.children_allowed)
    } else {
        Seq::empty()
    }) + (if ts.content_required && !has_nonblank(content_text(raw, tv, e)) {
        seq![Violation::EmptyContent { tag: e.tag, line: e.start_line as nat }]
    } else {
        Seq::empty()
    })
}

/// The problems of `e` (if the schema names its tag) followed by those of
/// its subtree, in document order.
pub open spec fn walk_violations(
    raw: Seq<char>,
    tv: Seq<(int, int)>,
    s: Seq<(Seq<char>, CompiledTagModel)>,
    e: ElemModel,
) -> Seq<Violation>
    decreases e, 0int,
{
    (match lookup(s, e.tag) {
        Some(ts) => element_violations(raw, tv, ts, e),
        None => Seq::empty(),
    }) + walk_list(raw, tv, s, e.children, 0)
}

/// The problems of the trees `cs[k..]`, in order.
pub open spec fn walk_list(
    raw: Seq<char>,
    tv: Seq<(int, int)>,
    s: Seq<(Seq<char>, CompiledTagModel)>,
    cs: Seq<ElemModel>,
    k: int,
) -> Seq<Violation>
    decreases cs, cs.len() - k,
{
    if k < 0 || k >= cs.len() {
        Seq::empty()
    } else {
        walk_violations(raw, tv, s, cs[k]) + walk_list(raw, tv, s, cs, k + 1)
    }
}

/// Every problem of the document `d` under the compiled schema `s`.
pub open spec fn validate_spec(d: DocModel, s: Seq<(Seq<char>, CompiledTagModel)>) -> Seq<Violation> {
    walk_list(d.raw, d.trivia, s, d.roots, 0)
}

// ─── Checking ────────────────────────────────────────────────────────────

fn check_kind(kind: &CompiledAttrKind, value: &str) -> (r: Option<InvalidAttrKind>)
    ensures
        match r {
            Some(k) => kind_violation(kind@, value@) == Some(k@),
            None => kind_violation(kind@, value@) is None,
        },
{
    match kind {
        CompiledAttrKind::String => None,
        CompiledAttrKind::Enum(allowed) => {
            if contains_str(allowed, value) {
                None
            } else {
                let mut list: Vec<String> = Vec::new();
                clone_strings(allowed, &mut list);
                proof {
                    assert(strings_view(list@) =~= strings_view(allowed@));
                }
                Some(InvalidAttrKind::NotInEnum { allowed: list })
            }
        },
        CompiledAttrKind::Regex(re) => {
            if re.matches(value) {
                None
            } else {
                Some(InvalidAttrKind::NoRegexMatch { pattern: re.source().to_owned() })
            }
        },
    }
}

/// Whether a direct child of `node` has tag `t`.
fn has_child_named(node: &ElementData, t: &str) -> (r: bool)
    ensures
        r == has_child_tag(node.model(), t@),
{
    let ghost e = node.model();
    let mut k: usize = 0;
    while k < node.children.len()
        invariant
            e == node.model(),
            k <= node.children@.len(),
            forall|j: int| 0 <= j < k ==> e.children[j].tag != t@,
        decreases node.children@.len() - k,
    {
        proof {
            assert(e.children[k as int] == node.children@[k as int].model());
        }
        if str_eq(node.children[k].tag.as_str(), t) {
            proof {
                assert(e.children[k as int].tag == t@);
            }
            return true;
        }
        k = k + 1;
    }
    false
}

/// Append the problems of `node` under the rules `ts`.
fn check_element(
    node: &ElementData,
    raw: &str,
    trivia: &[(usize, usize)],
    sealed: &[(usize, usize)],
    ts: &CompiledTagSchema,
    errors: &mut Vec<ValidationError>,
)
    requires
        elem_ref_ok(ElemRefModel { elem: node.model(), raw: raw@, trivia: ranges_view(trivia@) }),
        ranges_view(sealed@) == sealed_trivia(bytes_of(raw@), ranges_view(trivia@)),
        trivia_ok(ranges_view(sealed@), bytes_of(raw@)),
    ensures
        violations_view(final(errors)@) == violations_view(old(errors)@) + element_violations(
            raw@,
            ranges_view(trivia@),
            ts@,
            node.model(),
        ),
{
    let ghost e = node.model();
    let ghost tv = ranges_view(trivia@);
    let ghost start = violations_view(errors@);
    let line = node.span.start.line;
    // attributes, in the schema's (name) order
    let ghost av = ts@.attrs;
    let mut i: usize = 0;
    proof {
        assert(av.take(0) =~= Seq::<(Seq<char>, ConstraintModel)>::empty());
        assert(violations_view(errors@) =~= start + attr_violations(e, av.take(0)));
    }
    while i < ts.attrs.len()
        invariant
            e == node.model(),
            av == ts@.attrs,
            av == entries_view(ts.attrs@),
            line as int == e.start_line,
            i <= ts.attrs@.len(),
            violations_view(errors@) == start + attr_violations(e, av.take(i as int)),
        decreases ts.attrs@.len() - i,
    {
        let name = &ts.attrs[i].0;
        let c = &ts.attrs[i].1;
        let ghost before = violations_view(errors@);
        proof {
            assert(av.take(i + 1).drop_last() =~= av.take(i as int));
            assert(av.take(i + 1).last() == (name@, c@));
        }
        match find_attr(&node.attrs, name.as_str()) {
            None => {
                if c.required {
                    errors.push(ValidationError::MissingAttr { tag: node.tag.clone(), attr: name.clone(), line });
                }
            },
            Some(v) => {
                match check_kind(&c.kind, v.as_str()) {
                    Some(kind) => {
                        errors.push(
                            ValidationError::InvalidAttr {
                                tag: node.tag.clone(),
                                attr: name.clone(),
                                value: v.clone(),
                                kind,
                                line,
                            },
                        );
                    },
                    None => {},
                }
            },
        }
        proof {
            assert(violations_view(errors@) =~= before + attr_violation(e, name@, c@));
        }
        i = i + 1;
    }
    proof {
        assert(av.take(ts.attrs@.len() as int) =~= av);
    }
    let ghost after_attrs = violations_view(errors@);
    // required children
    let ghost rv = ts@.children_required;
    let mut j: usize = 0;
    proof {
        assert(rv.take(0) =~= Seq::<Seq<char>>::empty());
        assert(violations_view(errors@) =~= after_attrs + missing_children(e, rv.take(0)));
    }
    while j < ts.children_required.len()
        invariant
            e == node.model(),
            rv == ts@.children_required,
            rv == strings_view(ts.children_required@),
            line as int == e.start_line,
            j <= ts.children_required@.len(),
            violations_view(errors@) == after_attrs + missing_children(e, rv.take(j as int)),
        decreases ts.children_required@.len() - j,
    {
        let req = &ts.children_required[j];
        let ghost before = violations_view(errors@);
        proof {
            assert(rv.take(j + 1).drop_last() =~= rv.take(j as int));
            assert(rv.take(j + 1).last() == req@);
        }
        if !has_child_named(node, req.as_str()) {
            errors.push(ValidationError::MissingChild { tag: node.tag.clone(), child: req.clone(), line });
        }
        proof {
            assert(violations_view(errors@) =~= before + if has_child_tag(e, req@) {
                Seq::empty()
            } else {
                seq![Violation::MissingChild { tag: e.tag, child: req@, line: e.start_line as nat }]
            });
        }
        j = j + 1;
    }
    proof {
        assert(rv.take(ts.children_required@.len() as int) =~= rv);
    }
    let ghost after_missing = violations_view(errors@);
    // unexpected children
    if ts.children_exclusive {
        let mut k: usize = 0;
        proof {
            assert(e.children.take(0) =~= Seq::<ElemModel>::empty());
            assert(violations_view(errors@) =~= after_missing + unexpected_children(
                e.tag,
                e.children.take(0),
                ts@.children_allowed,
            ));
        }
        while k < node.children.len()
            invariant
                e == node.model(),
                k <= node.children@.len(),
                violations_view(errors@) == after_missing + unexpected_children(
                    e.tag,
                    e.children.take(k as int),
                    ts@.children_allowed,
                ),
            decreases node.children@.len() - k,
        {
            let child = &node.children[k];
            let ghost before = violations_view(errors@);
            proof {
                assert(e.children[k as int] == child.model());
                assert(e.children.take(k + 1).drop_last() =~= e.children.take(k as int));
                assert(e.children.take(k + 1).last() == child.model());
            }
            if !contains_str(&ts.children_allowed, child.tag.as_str()) {
                errors.push(
                    ValidationError::UnexpectedChild {
                        tag: node.tag.clone(),
                        child: child.tag.clone(),
                        line: child.span.start.line,
                    },
                );
            }
            proof {
                assert(violations_view(errors@) =~= before + if ts@.children_allowed.contains(child.model().tag) {
                    Seq::empty()
                } else {
                    seq![Violation::UnexpectedChild {
                        tag: e.tag,
                        child: child.model().tag,
                        line: child.model().start_line as nat,
                    }]
                });
            }
            k = k + 1;
        }
        proof {
            assert(e.children.take(node.children@.len() as int) =~= e.children);
        }
    }
    let ghost after_unexpected = violations_view(errors@);
    proof {
        assert(after_unexpected == after_missing + (if ts@.children_exclusive {
            unexpected_children(e.tag, e.children, ts@.children_allowed)
        } else {
            Seq::empty()
        }));
    }
    // text content
    if ts.content_required {
        let eref = ElementRef::new(node, raw, sealed);
        let segs = eref.text();
        let blank = !any_nonblank(&segs);
        proof {
            assert(strs_view(segs@) == content_text(raw@, tv, e));
        }
        if blank {
            errors.push(ValidationError::EmptyContent { tag: node.tag.clone(), line });
        }
        proof {
            assert(violations_view(errors@) =~= after_unexpected + (if ts@.content_required && !has_nonblank(
                content_text(raw@, tv, e),
            ) {
                seq![Violation::EmptyContent { tag: e.tag, line: e.start_line as nat }]
            } else {
                Seq::empty()
            }));
        }
    } else {
        proof {
            assert(violations_view(errors@) =~= after_unexpected + Seq::<Violation>::empty());
        }
    }
    proof {
        assert(violations_view(errors@) =~= start + element_violations(raw@, tv, ts@, e));
    }
}

/// The compiled rules for `tag`, if the schema names it.
fn rules_for<'a>(schema: &'a Schema, tag: &str) -> (r: Option<&'a CompiledTagSchema>)
    ensures
        match r {
            Some(ts) => lookup(schema@, tag@) == Some(ts@),
            None => lookup(schema@, tag@) is None,
        },
{
    let tags = schema.entries();
    let ghost s = entries_view(tags@);
    let mut k: usize = 0;
    proof {
        assert(s.skip(0) =~= s);
    }
    while k < tags.len()
        invariant
            s == entries_view(tags@),
            s == schema@,
            k <= tags@.len(),
            lookup(s, tag@) == lookup(s.skip(k as int), tag@),
        decreases tags@.len() - k,
    {
        proof {
            assert(s.skip(k as int)[0] == (tags@[k as int].0@, tags@[k as int].1@));
            assert(s.skip(k as int).drop_first() =~= s.skip(k + 1));
        }
        if str_eq(tags[k].0.as_str(), tag) {
            return Some(&tags[k].1);
        }
        k = k + 1;
    }
    None
}

/// Append the problems of `node` and its subtree, in document order.
fn walk(
    node: &ElementData,
    raw: &str,
    trivia: &[(usize, usize)],
    sealed: &[(usize, usize)],
    schema: &Schema,
    errors: &mut Vec<ValidationError>,
)
    requires
        elem_ref_ok(ElemRefModel { elem: node.model(), raw: raw@, trivia: ranges_view(trivia@) }),
        ranges_view(sealed@) == sealed_trivia(bytes_of(raw@), ranges_view(trivia@)),
        trivia_ok(ranges_view(sealed@), bytes_of(raw@)),
    ensures
        violations_view(final(errors)@) == violations_view(old(errors)@) + walk_violations(
            raw@,
            ranges_view(trivia@),
            schema@,
            node.model(),
        ),
    decreases node,
{
    let ghost e = node.model();
    let ghost tv = ranges_view(trivia@);
    let ghost start = violations_view(errors@);
    match rules_for(schema, node.tag.as_str()) {
        Some(ts) => check_element(node, raw, trivia, sealed, ts, errors),
        None => {},
    }
    let ghost own = violations_view(errors@);
    let mut k: usize = 0;
    proof {
        assert(own =~= start + match lookup(schema@, e.tag) {
            Some(ts) => element_violations(raw@, tv, ts, e),
            None => Seq::empty(),
        });
    }
    while k < node.children.len()
        invariant
            e == node.model(),
            tv == ranges_view(trivia@),
            elem_ref_ok(ElemRefModel { elem: e, raw: raw@, trivia: tv }),
            ranges_view(sealed@) == sealed_trivia(bytes_of(raw@), tv),
            trivia_ok(ranges_view(sealed@), bytes_of(raw@)),
            k <= node.children@.len(),
            violations_view(errors@) + walk_list(raw@, tv, schema@, e.children, k as int) == own + walk_list(
                raw@,
                tv,
                schema@,
                e.children,
                0,
            ),
        decreases node.children@.len() - k,
    {
        proof {
            assert(decreases_to!(*node => node.children));
            assert(decreases_to!(node.children => node.children@));
            assert(decreases_to!(node.children@ => node.children@[k as int]));
            assert(e.children[k as int] == node.children@[k as int].model());
            assert(elem_ok(e.children[k as int], bytes_of(raw@)));
        }
        let ghost before = violations_view(errors@);
        walk(&node.children[k], raw, trivia, sealed, schema, errors);
        proof {
            assert(walk_list(raw@, tv, schema@, e.children, k as int) == walk_violations(
                raw@,
                tv,
                schema@,
                e.children[k as int],
            ) + walk_list(raw@, tv, schema@, e.children, k + 1));
            assert(violations_view(errors@) + walk_list(raw@, tv, schema@, e.children, k + 1) =~= before
                + walk_list(raw@, tv, schema@, e.children, k as int));
        }
        k = k + 1;
    }
    proof {
        assert(walk_list(raw@, tv, schema@, e.children, k as int) =~= Seq::<Violation>::empty());
        assert(violations_view(errors@) =~= start + walk_violations(raw@, tv, schema@, e));
    }
}

/// Outcome of [`validate`].
#[derive(Debug, Clone, PartialEq, Eq)]
#[non_exhaustive]
pub struct ValidationReport {
    errors: Vec<ValidationError>,
}

impl View for ValidationReport {
    type V = Seq<Violation>;

    closed spec fn view(&self) -> Seq<Violation> {
        violations_view(self.errors@)
    }
}

impl ValidationReport {
    /// `true` when the document conforms to the schema.
    pub fn is_valid(&self) -> (r: bool)
        ensures
            r == (self@.len() == 0),
    {
        self.errors.len() == 0
    }

    /// All errors found, in document order.
    pub fn errors(&self) -> (r: &[ValidationError])
        ensures
            violations_view(r@) == self@,
    {
        self.errors.as_slice()
    }

    /// Number of errors collected; `0` exactly when the document is valid.
    pub fn len(&self) -> (r: usize)
        ensures
            r == self@.len(),
    {
        self.errors.len()
    }

    /// `true` when no errors were collected; the same as
    /// [`Self::is_valid`].
    pub fn is_empty(&self) -> (r: bool)
        ensures
            r == (self@.len() == 0),
    {
        self.errors.len() == 0
    }

    /// The errors, by reference, in document order.
    pub fn iter(&self) -> (r: std::slice::Iter<'_, ValidationError>)
        ensures
            r.remaining().len() == self@.len(),
            forall|i: int| 0 <= i < self@.len() ==> (*#[trigger] r.remaining()[i])@ == self@[i],
    {
        self.errors.as_slice().iter()
    }
}

/// Validate every element of `doc` whose tag `schema` names, at any depth,
/// in document order. Tags the schema does not name are not inspected;
/// validation continues past the first problem.
pub fn validate(doc: &Markdown, schema: &Schema) -> (r: ValidationReport)
    ensures
        r@ == validate_spec(doc@, schema@),
{
    proof {
        use_type_invariant(doc);
    }
    let raw = doc.raw();
    let roots = doc.roots_internal();
    let trivia = doc.trivia();
    let ghost rs = doc@.roots;
    let ghost tv = doc@.trivia;
    let sealed = seal_trivia(raw, trivia);
    let mut errors: Vec<ValidationError> = Vec::new();
    let mut i: usize = 0;
    proof {
        assert(violations_view(errors@) =~= Seq::<Violation>::empty());
    }
    while i < roots.len()
        invariant
            rs == crate::types::elems_view(roots@),
            rs == doc@.roots,
            raw@ == doc@.raw,
            ranges_view(trivia@) == tv,
            tv == doc@.trivia,
            ranges_view(sealed@) == sealed_trivia(bytes_of(raw@), tv),
            trivia_ok(ranges_view(sealed@), bytes_of(raw@)),
            doc_ok(doc@),
            i <= roots@.len(),
            violations_view(errors@) + walk_list(raw@, tv, schema@, rs, i as int) == walk_list(
                raw@,
                tv,
                schema@,
                rs,
                0,
            ),
        decreases roots@.len() - i,
    {
        proof {
            assert(rs[i as int] == roots@[i as int].model());
            assert(elem_ok(rs[i as int], bytes_of(raw@)));
        }
        let ghost before = violations_view(errors@);
        walk(&roots[i], raw, trivia, sealed.as_slice(), schema, &mut errors);
        proof {
            assert(violations_view(errors@) + walk_list(raw@, tv, schema@, rs, i + 1) =~= before + walk_list(
                raw@,
                tv,
                schema@,
                rs,
                i as int,
            ));
        }
        i = i + 1;
    }
    proof {
        assert(walk_list(raw@, tv, schema@, rs, i as int) =~= Seq::<Violation>::empty());
        assert(violations_view(errors@) =~= validate_spec(doc@, schema@));
    }
    ValidationReport { errors }
}

// ─── Laws ────────────────────────────────────────────────────────────────

/// No element of the tree `e` has a tag the schema `s` names.
pub open spec fn tree_unnamed(s: Seq<(Seq<char>, CompiledTagModel)>, e: ElemModel) -> bool
    decreases e, 0int,
{
    lookup(s, e.tag) is None && list_unnamed(s, e.children, 0)
}

/// No element of the trees `cs[k..]` has a tag the schema `s` names.
pub open spec fn list_unnamed(s: Seq<(Seq<char>, CompiledTagModel)>, cs: Seq<ElemModel>, k: int) -> bool
    decreases cs, cs.len() - k,
{
    if k < 0 || k >= cs.len() {
        true
    } else {
        tree_unnamed(s, cs[k]) && list_unnamed(s, cs, k + 1)
    }
}

proof fn lemma_unnamed_clean(
    raw: Seq<char>,
    tv: Seq<(int, int)>,
    s: Seq<(Seq<char>, CompiledTagModel)>,
    e: ElemModel,
)
    requires
        tree_unnamed(s, e),
    ensures
        walk_violations(raw, tv, s, e) == Seq::<Violation>::empty(),
    decreases e, 0int,
{
    lemma_unnamed_list_clean(raw, tv, s, e.children, 0);
    assert(walk_violations(raw, tv, s, e) =~= Seq::<Violation>::empty());
}

proof fn lemma_unnamed_list_clean(
    raw: Seq<char>,
    tv: Seq<(int, int)>,
    s: Seq<(Seq<char>, CompiledTagModel)>,
    cs: Seq<ElemModel>,
    k: int,
)
    requires
        list_unnamed(s, cs, k),
    ensures
        walk_list(raw, tv, s, cs, k) == Seq::<Violation>::empty(),
    decreases cs, cs.len() - k,
{
    if 0 <= k < cs.len() {
        lemma_unnamed_clean(raw, tv, s, cs[k]);
        lemma_unnamed_list_clean(raw, tv, s, cs, k + 1);
        assert(walk_list(raw, tv, s, cs, k) =~= Seq::<Violation>::empty());
    }
}

/// Elements whose tag the schema does not name are not inspected: a
/// document in which the schema names no element's tag validates clean,
/// whatever else it holds.
pub proof fn law_unnamed_tags_ignored(d: DocModel, s: Seq<(Seq<char>, CompiledTagModel)>)
    requires
        list_unnamed(s, d.roots, 0),
    ensures
        validate_spec(d, s) == Seq::<Violation>::empty(),
{
    lemma_unnamed_list_clean(d.raw, d.trivia, s, d.roots, 0);
}


proof fn lemma_contains_concat(a: Seq<Violation>, c: Seq<Violation>, x: Violation)
    ensures
        (a + c).contains(x) <==> a.contains(x) || c.contains(x),
{
    if (a + c).contains(x) {
        let k = choose|k: int| 0 <= k < (a + c).len() && (a + c)[k] == x;
        if k < a.len() {
            assert(a[k] == x);
        } else {
            assert(c[k - a.len()] == x);
        }
    }
    if a.contains(x) {
        let k = choose|k: int| 0 <= k < a.len() && a[k] == x;
        assert((a + c)[k] == x);
    }
    if c.contains(x) {
        let k = choose|k: int| 0 <= k < c.len() && c[k] == x;
        assert((a + c)[k + a.len()] == x);
    }
}

proof fn lemma_attr_violations_no_missing_child(e: ElemModel, attrs: Seq<(Seq<char>, ConstraintModel)>)
    ensures
        forall|k: int| 0 <= k < attr_violations(e, attrs).len() ==> !(#[trigger] attr_violations(e, attrs)[k] is MissingChild),
    decreases attrs.len(),
{
    if attrs.len() > 0 {
        lemma_attr_violations_no_missing_child(e, attrs.drop_last());
        let p = attr_violations(e, attrs.drop_last());
        let q = attr_violation(e, attrs.last().0, attrs.last().1);
        assert forall|k: int| 0 <= k < (p + q).len() implies !(#[trigger] (p + q)[k] is MissingChild) by {
            if k >= p.len() {
                assert((p + q)[k] == q[k - p.len()]);
            } else {
                assert((p + q)[k] == p[k]);
            }
        }
    }
}

proof fn lemma_unexpected_no_missing_child(tag: Seq<char>, cs: Seq<ElemModel>, allowed: Seq<Seq<char>>)
    ensures
        forall|k: int|
            0 <= k < unexpected_children(tag, cs, allowed).len() ==> !(
            #[trigger] unexpected_children(tag, cs, allowed)[k] is MissingChild),
    decreases cs.len(),
{
    if cs.len() > 0 {
        lemma_unexpected_no_missing_child(tag, cs.drop_last(), allowed);
        let p = unexpected_children(tag, cs.drop_last(), allowed);
        let q: Seq<Violation> = if allowed.contains(cs.last().tag) {
            Seq::empty()
        } else {
            seq![Violation::UnexpectedChild { tag, child: cs.last().tag, line: cs.last().start_line as nat }]
        };
        assert(unexpected_children(tag, cs, allowed) == p + q);
        assert forall|k: int| 0 <= k < (p + q).len() implies !(#[trigger] (p + q)[k] is MissingChild) by {
            if k >= p.len() {
                assert((p + q)[k] == q[k - p.len()]);
            } else {
                assert((p + q)[k] == p[k]);
            }
        }
    }
}

proof fn lemma_missing_children_iff(e: ElemModel, req: Seq<Seq<char>>, t: Seq<char>)
    ensures
        missing_children(e, req).contains(Violation::MissingChild { tag: e.tag, child: t, line: e.start_line as nat })
            <==> req.contains(t) && forall|k: int| 0 <= k < e.children.len() ==> #[trigger] e.children[k].tag != t,
    decreases req.len(),
{
    let x = Violation::MissingChild { tag: e.tag, child: t, line: e.start_line as nat };
    if req.len() == 0 {
        assert(!missing_children(e, req).contains(x));
    } else {
        let init = req.drop_last();
        let l = req.last();
        lemma_missing_children_iff(e, init, t);
        let q: Seq<Violation> = if has_child_tag(e, l) {
            Seq::empty()
        } else {
            seq![Violation::MissingChild { tag: e.tag, child: l, line: e.start_line as nat }]
        };
        lemma_contains_concat(missing_children(e, init), q, x);
        assert(q.contains(x) <==> (l == t && !has_child_tag(e, t))) by {
            if q.contains(x) {
                let k = choose|k: int| 0 <= k < q.len() && q[k] == x;
                assert(q[k] == x);
            }
            if l == t && !has_child_tag(e, t) {
                assert(q[0] == x);
            }
        }
        assert(req.contains(t) <==> init.contains(t) || l == t) by {
            if req.contains(t) {
                let k = choose|k: int| 0 <= k < req.len() && req[k] == t;
                if k < init.len() {
                    assert(init[k] == t);
                }
            }
            if init.contains(t) {
                let k = choose|k: int| 0 <= k < init.len() && init[k] == t;
                assert(req[k] == t);
            }
            if l == t {
                assert(req[req.len() - 1] == t);
            }
        }
    }
}

/// Validation reports a missing required child `t` for an element exactly
/// when the rules require `t` and no direct child of the element, at any
/// position, has tag `t`.
pub proof fn law_missing_child_iff_absent(
    raw: Seq<char>,
    tv: Seq<(int, int)>,
    ts: CompiledTagModel,
    e: ElemModel,
    t: Seq<char>,
)
    ensures
        element_violations(raw, tv, ts, e).contains(
            Violation::MissingChild { tag: e.tag, child: t, line: e.start_line as nat },
        ) <==> ts.children_required.contains(t) && forall|k: int|
            0 <= k < e.children.len() ==> #[trigger] e.children[k].tag != t,
{
    let x = Violation::MissingChild { tag: e.tag, child: t, line: e.start_line as nat };
    let a = attr_violations(e, ts.attrs);
    let m = missing_children(e, ts.children_required);
    let u: Seq<Violation> = if ts.children_exclusive {
        unexpected_children(e.tag, e.children, ts.children_allowed)
    } else {
        Seq::empty()
    };
    let c: Seq<Violation> = if ts.content_required && !has_nonblank(content_text(raw, tv, e)) {
        seq![Violation::EmptyContent { tag: e.tag, line: e.start_line as nat }]
    } else {
        Seq::empty()
    };
    assert(element_violations(raw, tv, ts, e) == a + m + u + c);
    lemma_attr_violations_no_missing_child(e, ts.attrs);
    lemma_unexpected_no_missing_child(e.tag, e.children, ts.children_allowed);
    lemma_missing_children_iff(e, ts.children_required, t);
    lemma_contains_concat(a + m + u, c, x);
    lemma_contains_concat(a + m, u, x);
    lemma_contains_concat(a, m, x);
    if a.contains(x) {
        let k = choose|k: int| 0 <= k < a.len() && a[k] == x;
        assert(!(a[k] is MissingChild));
    }
    if u.contains(x) {
        let k = choose|k: int| 0 <= k < u.len() && u[k] == x;
        assert(!(u[k] is MissingChild));
    }
    if c.contains(x) {
        let k = choose|k: int| 0 <= k < c.len() && c[k] == x;
        assert(c[k] is EmptyContent);
    }
}


proof fn lemma_missing_children_kind(e: ElemModel, req: Seq<Seq<char>>)
    ensures
        forall|k: int| 0 <= k < missing_children(e, req).len() ==> (#[trigger] missing_children(e, req)[k] is MissingChild),
    decreases req.len(),
{
    if req.len() > 0 {
        lemma_missing_children_kind(e, req.drop_last());
        let p = missing_children(e, req.drop_last());
        let q: Seq<Violation> = if has_child_tag(e, req.last()) {
            Seq::empty()
        } else {
            seq![Violation::MissingChild { tag: e.tag, child: req.last(), line: e.start_line as nat }]
        };
        assert(missing_children(e, req) == p + q);
        assert forall|k: int| 0 <= k < (p + q).len() implies (#[trigger] (p + q)[k] is MissingChild) by {
            if k >= p.len() {
                assert((p + q)[k] == q[k - p.len()]);
            } else {
                assert((p + q)[k] == p[k]);
            }
        }
    }
}

proof fn lemma_attr_violations_missing(e: ElemModel, attrs: Seq<(Seq<char>, ConstraintModel)>, n: Seq<char>)
    ensures
        attr_violations(e, attrs).contains(Violation::MissingAttr { tag: e.tag, attr: n, line: e.start_line as nat })
            <==> !has_attr_named(e.attrs, n) && exists|i: int|
            0 <= i < attrs.len() && #[trigger] attrs[i].0 == n && attrs[i].1.required,
    decreases attrs.len(),
{
    let x = Violation::MissingAttr { tag: e.tag, attr: n, line: e.start_line as nat };
    crate::types::lemma_attr_lookup_some(e.attrs, n);
    if attrs.len() == 0 {
        assert(!attr_violations(e, attrs).contains(x));
    } else {
        let init = attrs.drop_last();
        let l = attrs.last();
        lemma_attr_violations_missing(e, init, n);
        let q = attr_violation(e, l.0, l.1);
        crate::types::lemma_attr_lookup_some(e.attrs, l.0);
        lemma_contains_concat(attr_violations(e, init), q, x);
        assert(q.contains(x) <==> (l.0 == n && l.1.required && !has_attr_named(e.attrs, n))) by {
            if q.contains(x) {
                let k = choose|k: int| 0 <= k < q.len() && q[k] == x;
                assert(q[k] == x);
            }
            if l.0 == n && l.1.required && !has_attr_named(e.attrs, n) {
                assert(q[0] == x);
            }
        }
        if exists|i: int| 0 <= i < attrs.len() && #[trigger] attrs[i].0 == n && attrs[i].1.required {
            let i = choose|i: int| 0 <= i < attrs.len() && #[trigger] attrs[i].0 == n && attrs[i].1.required;
            if i < init.len() {
                assert(init[i] == attrs[i]);
            }
        }
        if exists|i: int| 0 <= i < init.len() && #[trigger] init[i].0 == n && init[i].1.required {
            let i = choose|i: int| 0 <= i < init.len() && #[trigger] init[i].0 == n && init[i].1.required;
            assert(attrs[i] == init[i]);
        }
        if l.0 == n && l.1.required {
            assert(attrs[attrs.len() - 1].0 == n);
        }
    }
}

/// Validation reports a missing attribute `n` for an element exactly when
/// the rules declare `n` required and the element does not carry it.
pub proof fn law_missing_attr_iff_absent(
    raw: Seq<char>,
    tv: Seq<(int, int)>,
    ts: CompiledTagModel,
    e: ElemModel,
    n: Seq<char>,
)
    ensures
        element_violations(raw, tv, ts, e).contains(Violation::MissingAttr { tag: e.tag, attr: n, line: e.start_line as nat })
            <==> !(exists|i: int| 0 <= i < e.attrs.len() && #[trigger] e.attrs[i].0 == n) && exists|i: int|
            0 <= i < ts.attrs.len() && #[trigger] ts.attrs[i].0 == n && ts.attrs[i].1.required,
{
    let x = Violation::MissingAttr { tag: e.tag, attr: n, line: e.start_line as nat };
    let a = attr_violations(e, ts.attrs);
    let m = missing_children(e, ts.children_required);
    let u: Seq<Violation> = if ts.children_exclusive {
        unexpected_children(e.tag, e.children, ts.children_allowed)
    } else {
        Seq::empty()
    };
    let c: Seq<Violation> = if ts.content_required && !has_nonblank(content_text(raw, tv, e)) {
        seq![Violation::EmptyContent { tag: e.tag, line: e.start_line as nat }]
    } else {
        Seq::empty()
    };
    assert(element_violations(raw, tv, ts, e) == a + m + u + c);
    lemma_attr_violations_missing(e, ts.attrs, n);
    lemma_missing_children_kind(e, ts.children_required);
    lemma_unexpected_kind(e.tag, e.children, ts.children_allowed);
    lemma_contains_concat(a + m + u, c, x);
    lemma_contains_concat(a + m, u, x);
    lemma_contains_concat(a, m, x);
    if m.contains(x) {
        let k = choose|k: int| 0 <= k < m.len() && m[k] == x;
        assert(m[k] is MissingChild);
    }
    if u.contains(x) {
        let k = choose|k: int| 0 <= k < u.len() && u[k] == x;
        assert(u[k] is UnexpectedChild);
    }
    if c.contains(x) {
        let k = choose|k: int| 0 <= k < c.len() && c[k] == x;
        assert(c[k] is EmptyContent);
    }
}

proof fn lemma_unexpected_kind(tag: Seq<char>, cs: Seq<ElemModel>, allowed: Seq<Seq<char>>)
    ensures
        forall|k: int|
            0 <= k < unexpected_children(tag, cs, allowed).len() ==> (
            #[trigger] unexpected_children(tag, cs, allowed)[k] is UnexpectedChild),
    decreases cs.len(),
{
    if cs.len() > 0 {
        lemma_unexpected_kind(tag, cs.drop_last(), allowed);
        let p = unexpected_children(tag, cs.drop_last(), allowed);
        let q: Seq<Violation> = if allowed.contains(cs.last().tag) {
            Seq::empty()
        } else {
            seq![Violation::UnexpectedChild { tag, child: cs.last().tag, line: cs.last().start_line as nat }]
        };
        assert(unexpected_children(tag, cs, allowed) == p + q);
        assert forall|k: int| 0 <= k < (p + q).len() implies (#[trigger] (p + q)[k] is UnexpectedChild) by {
            if k >= p.len() {
                assert((p + q)[k] == q[k - p.len()]);
            } else {
                assert((p + q)[k] == p[k]);
            }
        }
    }
}

proof fn lemma_unexpected_iff(tag: Seq<char>, cs: Seq<ElemModel>, allowed: Seq<Seq<char>>, child: Seq<char>, line: nat)
    ensures
        unexpected_children(tag, cs, allowed).contains(Violation::UnexpectedChild { tag, child, line }) <==> !allowed.contains(
            child,
        ) && exists|k: int| 0 <= k < cs.len() && #[trigger] cs[k].tag == child && cs[k].start_line as nat == line,
    decreases cs.len(),
{
    let x = Violation::UnexpectedChild { tag, child, line };
    if cs.len() == 0 {
        assert(!unexpected_children(tag, cs, allowed).contains(x));
    } else {
        let init = cs.drop_last();
        let l = cs.last();
        lemma_unexpected_iff(tag, init, allowed, child, line);
        let q: Seq<Violation> = if allowed.contains(l.tag) {
            Seq::empty()
        } else {
            seq![Violation::UnexpectedChild { tag, child: l.tag, line: l.start_line as nat }]
        };
        lemma_contains_concat(unexpected_children(tag, init, allowed), q, x);
        assert(q.contains(x) <==> (!allowed.contains(l.tag) && l.tag == child && l.start_line as nat == line)) by {
            if q.contains(x) {
                let k = choose|k: int| 0 <= k < q.len() && q[k] == x;
                assert(q[k] == x);
            }
            if !allowed.contains(l.tag) && l.tag == child && l.start_line as nat == line {
                assert(q[0] == x);
            }
        }
        if exists|k: int| 0 <= k < cs.len() && #[trigger] cs[k].tag == child && cs[k].start_line as nat == line {
            let k = choose|k: int| 0 <= k < cs.len() && #[trigger] cs[k].tag == child && cs[k].start_line as nat == line;
            if k < init.len() {
                assert(init[k] == cs[k]);
            }
        }
        if exists|k: int| 0 <= k < init.len() && #[trigger] init[k].tag == child && init[k].start_line as nat == line {
            let k = choose|k: int| 0 <= k < init.len() && #[trigger] init[k].tag == child && init[k].start_line as nat == line;
            assert(cs[k] == init[k]);
        }
        if l.tag == child && l.start_line as nat == line {
            assert(cs[cs.len() - 1].tag == child);
        }
    }
}

/// Under exclusive child rules, validation reports an unexpected child with
/// tag `child` at line `line` exactly when some direct child of the element
/// has that tag and starts on that line, and the rules allow no such tag;
/// without exclusive rules no child is ever reported.
pub proof fn law_unexpected_child_iff_disallowed(
    raw: Seq<char>,
    tv: Seq<(int, int)>,
    ts: CompiledTagModel,
    e: ElemModel,
    child: Seq<char>,
    line: nat,
)
    ensures
        element_violations(raw, tv, ts, e).contains(Violation::UnexpectedChild { tag: e.tag, child, line })
            <==> ts.children_exclusive && !ts.children_allowed.contains(child) && exists|k: int|
            0 <= k < e.children.len() && #[trigger] e.children[k].tag == child && e.children[k].start_line as nat == line,
{
    let x = Violation::UnexpectedChild { tag: e.tag, child, line };
    let a = attr_violations(e, ts.attrs);
    let m = missing_children(e, ts.children_required);
    let u: Seq<Violation> = if ts.children_exclusive {
        unexpected_children(e.tag, e.children, ts.children_allowed)
    } else {
        Seq::empty()
    };
    let c: Seq<Violation> = if ts.content_required && !has_nonblank(content_text(raw, tv, e)) {
        seq![Violation::EmptyContent { tag: e.tag, line: e.start_line as nat }]
    } else {
        Seq::empty()
    };
    assert(element_violations(raw, tv, ts, e) == a + m + u + c);
    lemma_attr_violations_no_missing_child(e, ts.attrs);
    lemma_attr_violations_kinds(e, ts.attrs);
    lemma_missing_children_kind(e, ts.children_required);
    lemma_unexpected_iff(e.tag, e.children, ts.children_allowed, child, line);
    lemma_contains_concat(a + m + u, c, x);
    lemma_contains_concat(a + m, u, x);
    lemma_contains_concat(a, m, x);
    if a.contains(x) {
        let k = choose|k: int| 0 <= k < a.len() && a[k] == x;
        assert(a[k] is MissingAttr || a[k] is InvalidAttr);
    }
    if m.contains(x) {
        let k = choose|k: int| 0 <= k < m.len() && m[k] == x;
        assert(m[k] is MissingChild);
    }
    if !ts.children_exclusive {
        assert(!u.contains(x));
    }
    if c.contains(x) {
        let k = choose|k: int| 0 <= k < c.len() && c[k] == x;
        assert(c[k] is EmptyContent);
    }
}

proof fn lemma_attr_violations_kinds(e: ElemModel, attrs: Seq<(Seq<char>, ConstraintModel)>)
    ensures
        forall|k: int|
            0 <= k < attr_violations(e, attrs).len() ==> (#[trigger] attr_violations(e, attrs)[k] is MissingAttr
                || attr_violations(e, attrs)[k] is InvalidAttr),
    decreases attrs.len(),
{
    if attrs.len() > 0 {
        lemma_attr_violations_kinds(e, attrs.drop_last());
        let p = attr_violations(e, attrs.drop_last());
        let q = attr_violation(e, attrs.last().0, attrs.last().1);
        assert forall|k: int| 0 <= k < (p + q).len() implies (#[trigger] (p + q)[k] is MissingAttr || (p
            + q)[k] is InvalidAttr) by {
            if k >= p.len() {
                assert((p + q)[k] == q[k - p.len()]);
            } else {
                assert((p + q)[k] == p[k]);
            }
        }
    }
}

} // verus!
