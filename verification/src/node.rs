//! Flat, plain-data shapes of the library's results, as a JavaScript
//! binding hands them across: elements as nested records, validation
//! reports with stable error kinds, schemas declared as records, regular
//! expressions given with JavaScript flags. [`NativeMarkdown`] is the
//! parsed-document handle such a binding exposes; failures come back as
//! their messages.

use crate::document::{DocModel, Markdown};
use crate::escape::spec_escape_text;
use crate::mutate::{
    content_splices, first_bad_attr, mutate_failure_text, pairs_view, regex_splices, selected, spliced,
    update_splices,
};
use crate::order::has_key;
use crate::parse::spec_parse;
use crate::pattern::{pattern_builds, pattern_error_message, Pattern, PatternModel, RegexFlags};
use crate::render::{char_debug_text, debug_char, push_str};
use crate::schema::{
    build_spec, builder_with_tag, empty_tag, strings_view, tag_with_attr, AttrKind, BuilderModel,
    ConstraintModel, KindModel, Schema, SchemaBuilder, SchemaError, TagBuilder, TagModel,
};
use crate::selector::error::selector_failure_text;
use crate::selector::grammar::spec_selector;
use crate::selector::Selector;
use crate::serialize::{xml_doc, OptsModel, SerializeOpts};
use crate::source::{bytes_of, str_eq, text_of};
use crate::types::{ElemModel, ElemRefModel, ElementRef, SourcePosition, SourceSpan};
use crate::validate::{violation_text, violations_view, Violation};
use vstd::prelude::*;

verus! {

broadcast use vstd::string::group_string_axioms;

// ─── Elements ────────────────────────────────────────────────────────────

/// A parsed element materialized as plain data.
#[derive(Debug)]
pub struct Element {
    /// Tag name.
    pub tag: String,
    /// Attribute name/value pairs in source order (values decoded).
    pub attrs: Vec<(String, String)>,
    /// Inner content as a raw slice of the source (entity references not
    /// decoded); empty for self-closing tags.
    pub content: String,
    /// Direct child elements in source order.
    pub children: Vec<Element>,
    /// `true` for `<tag/>`.
    pub self_closing: bool,
    /// Span of the whole element.
    pub loc: SourceSpan,
}

/// Mathematical form of an [`Element`].
pub struct ShapeModel {
    pub tag: Seq<char>,
    pub attrs: Seq<(Seq<char>, Seq<char>)>,
    pub content: Seq<char>,
    pub children: Seq<ShapeModel>,
    pub self_closing: bool,
    pub start_line: int,
    pub start: int,
    pub end_line: int,
    pub end: int,
}

pub open spec fn empty_shape() -> ShapeModel {
    ShapeModel {
        tag: Seq::empty(),
        attrs: Seq::empty(),
        content: Seq::empty(),
        children: Seq::empty(),
        self_closing: false,
        start_line: 0,
        start: 0,
        end_line: 0,
        end: 0,
    }
}

impl Element {
    pub open spec fn model(&self) -> ShapeModel
        decreases self,
    {
        ShapeModel {
            tag: self.tag@,
            attrs: crate::types::attrs_view(self.attrs@),
            content: self.content@,
            children: Seq::new(
                self.children@.len(),
                |i: int|
                    if 0 <= i < self.children@.len() {
                        self.children@[i].model()
                    } else {
                        empty_shape()
                    },
            ),
            self_closing: self.self_closing,
            start_line: self.loc.start.line as int,
            start: self.loc.start.offset as int,
            end_line: self.loc.end.line as int,
            end: self.loc.end.offset as int,
        }
    }
}

/// The plain-data form of element `e` of the document with source `raw`.
pub open spec fn shape_of(raw: Seq<char>, e: ElemModel) -> ShapeModel
    decreases e,
{
    ShapeModel {
        tag: e.tag,
        attrs: e.attrs,
        content: text_of(bytes_of(raw), e.content_start, e.content_end),
        children: Seq::new(
            e.children.len(),
            |i: int|
                if 0 <= i < e.children.len() {
                    shape_of(raw, e.children[i])
                } else {
                    empty_shape()
                },
        ),
        self_closing: e.self_closing,
        start_line: e.start_line,
        start: e.start,
        end_line: e.end_line,
        end: e.end,
    }
}

impl Element {
    /// Materialize an element reference and its subtree.
    pub fn from_ref(el: &ElementRef) -> (r: Element)
        ensures
            r.model() == shape_of(el@.raw, el@.elem),
        decreases el@.elem,
    {
        let ghost e = el@.elem;
        let pairs = el.attrs();
        let mut attrs: Vec<(String, String)> = Vec::new();
        let mut i: usize = 0;
        while i < pairs.len()
            invariant
                e == el@.elem,
                pairs@.len() == e.attrs.len(),
                forall|k: int| 0 <= k < pairs@.len() ==> (#[trigger] pairs@[k]).0@ == e.attrs[k].0 && pairs@[k].1@ == e.attrs[k].1,
                i <= pairs@.len(),
                attrs@.len() == i,
                forall|k: int| 0 <= k < i ==> (#[trigger] attrs@[k]).0@ == e.attrs[k].0 && attrs@[k].1@ == e.attrs[k].1,
            decreases pairs@.len() - i,
        {
            attrs.push((pairs[i].0.to_owned(), pairs[i].1.to_owned()));
            i = i + 1;
        }
        let kids = el.children();
        let mut children: Vec<Element> = Vec::new();
        let mut k: usize = 0;
        while k < kids.len()
            invariant
                e == el@.elem,
                kids@.len() == e.children.len(),
                forall|j: int| 0 <= j < kids@.len() ==> (#[trigger] kids@[j])@ == (ElemRefModel {
                    elem: e.children[j],
                    raw: el@.raw,
                    trivia: el@.trivia,
                }),
                k <= kids@.len(),
                children@.len() == k,
                forall|j: int| 0 <= j < k ==> (#[trigger] children@[j]).model() == shape_of(el@.raw, e.children[j]),
            decreases kids@.len() - k,
        {
            proof {
                assert(decreases_to!(e => e.children));
                assert(decreases_to!(e.children => e.children[k as int]));
                assert(kids@[k as int]@.elem == e.children[k as int]);
            }
            children.push(Element::from_ref(&kids[k]));
            k = k + 1;
        }
        let loc = el.location();
        let r = Element {
            tag: el.tag().to_owned(),
            attrs,
            content: el.content().to_owned(),
            children,
            self_closing: el.is_self_closing(),
            loc,
        };
        proof {
            let m = r.model();
            let want = shape_of(el@.raw, e);
            assert(m.attrs =~= want.attrs);
            assert(m.children =~= want.children);
        }
        r
    }
}

/// Materialize each element reference.
fn elements_of(refs: &Vec<ElementRef>) -> (r: Vec<Element>)
    ensures
        r@.len() == refs@.len(),
        forall|k: int| 0 <= k < r@.len() ==> (#[trigger] r@[k]).model() == shape_of(refs@[k]@.raw, refs@[k]@.elem),
{
    let mut out: Vec<Element> = Vec::new();
    let mut k: usize = 0;
    while k < refs.len()
        invariant
            k <= refs@.len(),
            out@.len() == k,
            forall|j: int| 0 <= j < k ==> (#[trigger] out@[j]).model() == shape_of(refs@[j]@.raw, refs@[j]@.elem),
        decreases refs@.len() - k,
    {
        out.push(Element::from_ref(&refs[k]));
        k = k + 1;
    }
    out
}

/// One attribute update for [`NativeMarkdown::update_attrs`].
#[derive(Debug, Clone, PartialEq, Eq)]
pub struct AttrUpdate {
    /// Attribute name (must be a valid XML name).
    pub name: String,
    /// New attribute value.
    pub value: String,
}

// ─── Validation reports ──────────────────────────────────────────────────

/// One validation failure as plain data.
#[derive(Debug, Clone, PartialEq, Eq)]
pub struct ValidationError {
    /// Stable kind: `missing_attr`, `invalid_attr`, `missing_child`,
    /// `unexpected_child` or `empty_content`.
    pub kind: String,
    /// Tag of the offending element.
    pub tag: String,
    /// 1-based line where the problem was found.
    pub line: u32,
    /// Human-readable rendering of the problem.
    pub message: String,
}

/// Outcome of [`NativeMarkdown::validate`].
#[derive(Debug, Clone, PartialEq, Eq)]
pub struct ValidationReport {
    /// `true` exactly when `errors` is empty.
    pub valid: bool,
    /// Every problem found, in document order.
    pub errors: Vec<ValidationError>,
}

/// The stable kind name of a problem.
pub open spec fn violation_kind(v: Violation) -> Seq<char> {
    match v {
        Violation::MissingAttr { .. } => "missing_attr"@,
        Violation::InvalidAttr { .. } => "invalid_attr"@,
        Violation::MissingChild { .. } => "missing_child"@,
        Violation::UnexpectedChild { .. } => "unexpected_child"@,
        Violation::EmptyContent { .. } => "empty_content"@,
    }
}

/// The offending tag of a problem.
pub open spec fn violation_tag(v: Violation) -> Seq<char> {
    match v {
        Violation::MissingAttr { tag, .. } => tag,
        Violation::InvalidAttr { tag, .. } => tag,
        Violation::MissingChild { tag, .. } => tag,
        Violation::UnexpectedChild { tag, .. } => tag,
        Violation::EmptyContent { tag, .. } => tag,
    }
}

/// The line of a problem.
pub open spec fn violation_line(v: Violation) -> nat {
    match v {
        Violation::MissingAttr { line, .. } => line,
        Violation::InvalidAttr { line, .. } => line,
        Violation::MissingChild { line, .. } => line,
        Violation::UnexpectedChild { line, .. } => line,
        Violation::EmptyContent { line, .. } => line,
    }
}

/// The stable kind name of a validation error.
pub fn error_kind(e: &crate::validate::ValidationError) -> (r: &'static str)
    ensures
        r@ == violation_kind(e@),
{
    match e {
        crate::validate::ValidationError::MissingAttr { .. } => "missing_attr",
        crate::validate::ValidationError::InvalidAttr { .. } => "invalid_attr",
        crate::validate::ValidationError::MissingChild { .. } => "missing_child",
        crate::validate::ValidationError::UnexpectedChild { .. } => "unexpected_child",
        crate::validate::ValidationError::EmptyContent { .. } => "empty_content",
    }
}

/// The offending tag of a validation error.
pub fn error_tag(e: &crate::validate::ValidationError) -> (r: String)
    ensures
        r@ == violation_tag(e@),
{
    match e {
        crate::validate::ValidationError::MissingAttr { tag, .. } => tag.clone(),
        crate::validate::ValidationError::InvalidAttr { tag, .. } => tag.clone(),
        crate::validate::ValidationError::MissingChild { tag, .. } => tag.clone(),
        crate::validate::ValidationError::UnexpectedChild { tag, .. } => tag.clone(),
        crate::validate::ValidationError::EmptyContent { tag, .. } => tag.clone(),
    }
}

/// The line of a validation error.
pub fn error_line(e: &crate::validate::ValidationError) -> (r: u32)
    ensures
        r as nat == violation_line(e@),
{
    match e {
        crate::validate::ValidationError::MissingAttr { line, .. } => *line,
        crate::validate::ValidationError::InvalidAttr { line, .. } => *line,
        crate::validate::ValidationError::MissingChild { line, .. } => *line,
        crate::validate::ValidationError::UnexpectedChild { line, .. } => *line,
        crate::validate::ValidationError::EmptyContent { line, .. } => *line,
    }
}

/// A validation error as plain data.
pub open spec fn error_shape_ok(x: ValidationError, v: Violation) -> bool {
    &&& x.kind@ == violation_kind(v)
    &&& x.tag@ == violation_tag(v)
    &&& x.line as nat == violation_line(v)
    &&& x.message@ == violation_text(v)
}

/// The plain-data form of a validation report.
pub fn report_shape(report: &crate::validate::ValidationReport) -> (r: ValidationReport)
    ensures
        r.valid == (report@.len() == 0),
        r.errors@.len() == report@.len(),
        forall|i: int| 0 <= i < report@.len() ==> error_shape_ok(#[trigger] r.errors@[i], report@[i]),
{
    let errs = report.errors();
    let mut out: Vec<ValidationError> = Vec::new();
    let mut i: usize = 0;
    while i < errs.len()
        invariant
            violations_view(errs@) == report@,
            i <= errs@.len(),
            out@.len() == i,
            forall|k: int| 0 <= k < i ==> error_shape_ok(#[trigger] out@[k], report@[k]),
        decreases errs@.len() - i,
    {
        let e = &errs[i];
        proof {
            assert(report@[i as int] == e@);
        }
        out.push(
            ValidationError {
                kind: error_kind(e).to_owned(),
                tag: error_tag(e),
                line: error_line(e),
                message: e.message(),
            },
        );
        i = i + 1;
    }
    ValidationReport { valid: report.is_valid(), errors: out }
}

// ─── Output options ──────────────────────────────────────────────────────

/// Options for [`NativeMarkdown::to_xml`].
#[derive(Debug, Clone, PartialEq, Eq)]
pub struct ToXmlOpts {
    /// When `Some(true)`, indented multi-line output.
    pub pretty: Option<bool>,
}

/// The serializer options for `opts`: pretty-printing when asked for,
/// tight output otherwise.
pub fn serialize_opts_for(opts: &Option<ToXmlOpts>) -> (r: SerializeOpts)
    ensures
        r@ == serialize_opts_for_spec(*opts),
{
    let pretty = match opts {
        Some(o) => match o.pretty {
            Some(p) => p,
            None => false,
        },
        None => false,
    };
    if pretty {
        SerializeOpts::pretty()
    } else {
        SerializeOpts::new()
    }
}


// ─── Schemas declared as records ─────────────────────────────────────────

/// One attribute constraint declared as a record.
#[derive(Debug, Clone, PartialEq, Eq)]
pub struct AttrConstraintShape {
    /// `"string"`, `"enum"` or `"regex"`; any other kind is a string.
    pub kind: String,
    /// Allowed values for `"enum"`.
    pub values: Option<Vec<String>>,
    /// Pattern for `"regex"`.
    pub pattern: Option<String>,
    /// `Some(true)` when the attribute must be present.
    pub required: Option<bool>,
}

/// One tag's rules declared as a record.
#[derive(Debug, Clone, PartialEq, Eq)]
pub struct TagSchemaShape {
    /// Attribute constraints by attribute name.
    pub attrs: Option<Vec<(String, AttrConstraintShape)>>,
    /// Child tags that must appear.
    pub children_required: Option<Vec<String>>,
    /// Further child tags allowed.
    pub children_optional: Option<Vec<String>>,
    /// `Some(true)`: only the listed child tags are allowed.
    pub children_exclusive: Option<bool>,
    /// `Some(true)`: the element must carry non-whitespace text.
    pub content_required: Option<bool>,
}

pub open spec fn opt_strings(o: Option<Vec<String>>) -> Seq<Seq<char>> {
    match o {
        Some(v) => strings_view(v@),
        None => Seq::empty(),
    }
}

/// The kind a record declares.
pub open spec fn shape_kind(c: AttrConstraintShape) -> KindModel {
    if c.kind@ == "enum"@ {
        KindModel::Enum(opt_strings(c.values))
    } else if c.kind@ == "regex"@ {
        KindModel::Regex(
            match c.pattern {
                Some(p) => p@,
                None => Seq::empty(),
            },
        )
    } else {
        KindModel::Any
    }
}

/// The constraint a record declares.
pub open spec fn shape_constraint(c: AttrConstraintShape) -> ConstraintModel {
    ConstraintModel { kind: shape_kind(c), required: c.required == Some(true) }
}

/// `t` with the attribute records `attrs` declared in order.
pub open spec fn with_shape_attrs(t: TagModel, attrs: Seq<(String, AttrConstraintShape)>) -> TagModel
    decreases attrs.len(),
{
    if attrs.len() == 0 {
        t
    } else {
        tag_with_attr(with_shape_attrs(t, attrs.drop_last()), attrs.last().0@, shape_constraint(attrs.last().1))
    }
}

/// `t` configured by the record `shape`: attributes, then required and
/// optional children, then the two switches.
pub open spec fn shape_rules(t: TagModel, shape: TagSchemaShape) -> TagModel {
    let a = with_shape_attrs(
        t,
        match shape.attrs {
            Some(v) => v@,
            None => Seq::empty(),
        },
    );
    TagModel {
        children_required: a.children_required + opt_strings(shape.children_required),
        children_optional: a.children_optional + opt_strings(shape.children_optional),
        children_exclusive: a.children_exclusive || shape.children_exclusive == Some(true),
        content_required: a.content_required || shape.content_required == Some(true),
        ..a
    }
}

/// The builder that registers each `(tag, record)` in order.
pub open spec fn shapes_builder(input: Seq<(String, TagSchemaShape)>) -> BuilderModel
    decreases input.len(),
{
    if input.len() == 0 {
        BuilderModel { tags: Seq::empty(), duplicates: Seq::empty() }
    } else {
        builder_with_tag(shapes_builder(input.drop_last()), input.last().0@, shape_rules(empty_tag(), input.last().1))
    }
}

fn copy_strings(o: &Option<Vec<String>>) -> (r: Vec<String>)
    ensures
        strings_view(r@) == opt_strings(*o),
{
    let mut out: Vec<String> = Vec::new();
    match o {
        Some(v) => {
            crate::schema::clone_strings(v, &mut out);
            proof {
                assert(strings_view(out@) =~= strings_view(v@));
            }
        },
        None => {
            proof {
                assert(strings_view(out@) =~= Seq::<Seq<char>>::empty());
            }
        },
    }
    out
}

fn constraint_kind(c: &AttrConstraintShape) -> (r: AttrKind)
    ensures
        r@ == shape_kind(*c),
{
    if str_eq(c.kind.as_str(), "enum") {
        AttrKind::Enum(copy_strings(&c.values))
    } else if str_eq(c.kind.as_str(), "regex") {
        match &c.pattern {
            Some(p) => AttrKind::Regex(p.clone()),
            None => AttrKind::Regex(String::new()),
        }
    } else {
        AttrKind::String
    }
}

fn push_strings(tb: TagBuilder, names: &Vec<String>, required: bool) -> (r: TagBuilder)
    ensures
        required ==> r@ == (TagModel { children_required: tb@.children_required + strings_view(names@), ..tb@ }),
        !required ==> r@ == (TagModel { children_optional: tb@.children_optional + strings_view(names@), ..tb@ }),
{
    let ghost start = tb@;
    let mut b = tb;
    let mut i: usize = 0;
    proof {
        assert(start.children_required + strings_view(names@).take(0) =~= start.children_required);
        assert(start.children_optional + strings_view(names@).take(0) =~= start.children_optional);
    }
    while i < names.len()
        invariant
            i <= names@.len(),
            required ==> b@ == (TagModel {
                children_required: start.children_required + strings_view(names@).take(i as int),
                ..start
            }),
            !required ==> b@ == (TagModel {
                children_optional: start.children_optional + strings_view(names@).take(i as int),
                ..start
            }),
        decreases names@.len() - i,
    {
        proof {
            assert(strings_view(names@).take(i + 1) =~= strings_view(names@).take(i as int).push(names@[i as int]@));
        }
        if required {
            b = b.child_required(names[i].as_str());
            proof {
                assert(b@.children_required =~= start.children_required + strings_view(names@).take(i + 1));
            }
        } else {
            b = b.child_optional(names[i].as_str());
            proof {
                assert(b@.children_optional =~= start.children_optional + strings_view(names@).take(i + 1));
            }
        }
        i = i + 1;
    }
    proof {
        assert(strings_view(names@).take(names@.len() as int) =~= strings_view(names@));
    }
    b
}

/// Configure `tb` by the record `shape`.
fn configure(tb: TagBuilder, shape: &TagSchemaShape) -> (r: TagBuilder)
    ensures
        r@ == shape_rules(tb@, *shape),
{
    let ghost start = tb@;
    let mut b = tb;
    let ghost av: Seq<(String, AttrConstraintShape)> = match &shape.attrs {
        Some(v) => v@,
        None => Seq::empty(),
    };
    match &shape.attrs {
        Some(attrs) => {
            let mut i: usize = 0;
            proof {
                assert(av.take(0) =~= Seq::<(String, AttrConstraintShape)>::empty());
            }
            while i < attrs.len()
                invariant
                    av == attrs@,
                    i <= attrs@.len(),
                    b@ == with_shape_attrs(start, av.take(i as int)),
                decreases attrs@.len() - i,
            {
                let (name, c) = (&attrs[i].0, &attrs[i].1);
                let kind = constraint_kind(c);
                let req = match c.required {
                    Some(x) => x,
                    None => false,
                };
                let constraint = if req {
                    kind.required()
                } else {
                    kind.optional()
                };
                proof {
                    assert(av.take(i + 1).drop_last() =~= av.take(i as int));
                    assert(av.take(i + 1).last() == attrs@[i as int]);
                    assert(constraint@ == shape_constraint(*c));
                }
                b = b.attr(name.as_str(), constraint);
                i = i + 1;
            }
            proof {
                assert(av.take(attrs@.len() as int) =~= av);
            }
        },
        None => {},
    }
    let req = copy_strings(&shape.children_required);
    b = push_strings(b, &req, true);
    let opt = copy_strings(&shape.children_optional);
    b = push_strings(b, &opt, false);
    if shape.children_exclusive == Some(true) {
        b = b.exclusive_children();
    }
    if shape.content_required == Some(true) {
        b = b.content_required();
    }
    b
}

/// Build a schema from per-tag records, registered in the given order.
pub fn build_schema(input: &Vec<(String, TagSchemaShape)>) -> (r: Result<Schema, SchemaError>)
    ensures
        match r {
            Ok(s) => build_spec(shapes_builder(input@)) == Ok::<_, crate::schema::SchemaFailure>(s@),
            Err(e) => build_spec(shapes_builder(input@)) == Err::<Seq<(Seq<char>, crate::schema::CompiledTagModel)>, _>(e@),
        },
{
    let mut builder = Schema::builder();
    let mut i: usize = 0;
    proof {
        assert(input@.take(0) =~= Seq::<(String, TagSchemaShape)>::empty());
    }
    while i < input.len()
        invariant
            i <= input@.len(),
            builder@ == shapes_builder(input@.take(i as int)),
        decreases input@.len() - i,
    {
        let shape = &input[i].1;
        let f = |tb: TagBuilder| -> (r: TagBuilder)
            ensures
                r@ == shape_rules(tb@, *shape),
            { configure(tb, shape) };
        let ghost before = builder@;
        builder = builder.tag(input[i].0.as_str(), f);
        proof {
            assert(input@.take(i + 1).drop_last() =~= input@.take(i as int));
            assert(input@.take(i + 1).last() == input@[i as int]);
            let (b0, t0) = choose|b: TagBuilder, t: TagBuilder|
                b@ == empty_tag() && call_ensures(f, (b,), t) && builder@ == builder_with_tag(before, input@[i as int].0@, t@);
            assert(t0@ == shape_rules(empty_tag(), *shape));
        }
        i = i + 1;
    }
    proof {
        assert(input@.take(input@.len() as int) =~= input@);
    }
    builder.try_build()
}


// ─── Regular expressions with JavaScript flags ───────────────────────────

/// A JavaScript `RegExp`, by its serializable fields.
#[derive(Debug, Clone, PartialEq, Eq)]
pub struct RegExpShape {
    /// The pattern body, without the surrounding `/`.
    pub source: String,
    /// JavaScript flags.
    pub flags: Option<String>,
}

/// A pattern given as plain text or as a `RegExp`.
#[derive(Debug, Clone, PartialEq, Eq)]
pub enum RegexInput {
    Text(String),
    Shape(RegExpShape),
}

/// The pattern source and flags of an input.
pub open spec fn input_parts(p: RegexInput) -> (Seq<char>, Seq<char>) {
    match p {
        RegexInput::Text(s) => (s@, Seq::empty()),
        RegexInput::Shape(r) => (r.source@, match r.flags {
            Some(f) => f@,
            None => Seq::empty(),
        }),
    }
}

/// The options JavaScript flags `f` set, or the first flag that has no
/// equivalent: `i`, `m`, `s` and `x` set case-insensitivity, multi-line
/// anchors, dot-matches-newline and whitespace-insensitivity; `g`, `u`,
/// `y` and `d` are accepted and change nothing.
pub open spec fn flags_from(f: Seq<char>) -> Result<RegexFlags, char>
    decreases f.len(),
{
    if f.len() == 0 {
        Ok(crate::pattern::no_flags())
    } else {
        match flags_from(f.drop_last()) {
            Err(c) => Err(c),
            Ok(fl) => {
                let c = f.last();
                if c == 'i' {
                    Ok(RegexFlags { case_insensitive: true, ..fl })
                } else if c == 'm' {
                    Ok(RegexFlags { multi_line: true, ..fl })
                } else if c == 's' {
                    Ok(RegexFlags { dot_matches_new_line: true, ..fl })
                } else if c == 'x' {
                    Ok(RegexFlags { ignore_whitespace: true, ..fl })
                } else if c == 'g' || c == 'u' || c == 'y' || c == 'd' {
                    Ok(fl)
                } else {
                    Err(c)
                }
            },
        }
    }
}

/// The message for a flag with no equivalent.
pub open spec fn bad_flag_text(c: char) -> Seq<char> {
    "unsupported regex flag: "@ + char_debug_text(c)
}

proof fn lemma_flags_err_extends(f: Seq<char>, n: int, c: char)
    requires
        0 <= n <= f.len(),
        flags_from(f.take(n)) == Err::<RegexFlags, char>(c),
    ensures
        flags_from(f) == Err::<RegexFlags, char>(c),
    decreases f.len() - n,
{
    if n == f.len() {
        assert(f.take(n) =~= f);
    } else {
        assert(f.take(n + 1).drop_last() =~= f.take(n));
        lemma_flags_err_extends(f, n + 1, c);
    }
}

/// The options set by `flags`, or the first unsupported flag.
fn parse_flags(flags: &str) -> (r: Result<RegexFlags, char>)
    ensures
        r == flags_from(flags@),
{
    let cs = crate::escape::str_chars(flags);
    let mut fl = RegexFlags::none();
    let mut i: usize = 0;
    proof {
        assert(cs@.take(0) =~= Seq::<char>::empty());
    }
    while i < cs.len()
        invariant
            cs@ == flags@,
            i <= cs@.len(),
            flags_from(cs@.take(i as int)) == Ok::<RegexFlags, char>(fl),
        decreases cs@.len() - i,
    {
        let c = cs[i];
        proof {
            assert(cs@.take(i + 1).drop_last() =~= cs@.take(i as int));
            assert(cs@.take(i + 1).last() == c);
        }
        if c == 'i' {
            fl.case_insensitive = true;
        } else if c == 'm' {
            fl.multi_line = true;
        } else if c == 's' {
            fl.dot_matches_new_line = true;
        } else if c == 'x' {
            fl.ignore_whitespace = true;
        } else if c == 'g' || c == 'u' || c == 'y' || c == 'd' {
        } else {
            proof {
                assert(cs@.take(i + 1).drop_last() =~= cs@.take(i as int));
                lemma_flags_err_extends(cs@, i + 1, c);
            }
            return Err(c);
        }
        i = i + 1;
    }
    proof {
        assert(cs@.take(cs@.len() as int) =~= cs@);
    }
    Ok(fl)
}

/// Compile a pattern given as text or as a `RegExp` with JavaScript flags.
/// Fails with the message for the first unsupported flag, or the `regex`
/// crate's message when the pattern does not compile.
pub fn compile_regex(p: &RegexInput) -> (r: Result<Pattern, String>)
    ensures
        match flags_from(input_parts(*p).1) {
            Err(c) => r matches Err(m) && m@ == bad_flag_text(c),
            Ok(f) => match r {
                Ok(pat) => pattern_builds(input_parts(*p).0, f) && pat@ == (PatternModel {
                    source: input_parts(*p).0,
                    flags: f,
                }),
                Err(m) => !pattern_builds(input_parts(*p).0, f) && m@ == pattern_error_message(
                    input_parts(*p).0,
                    f,
                ),
            },
        },
{
    let empty = String::new();
    let (source, flags) = match p {
        RegexInput::Text(s) => (s, &empty),
        RegexInput::Shape(rx) => (&rx.source, match &rx.flags {
            Some(f) => f,
            None => &empty,
        }),
    };
    match parse_flags(flags.as_str()) {
        Err(c) => {
            let mut m = String::new();
            push_str(&mut m, "unsupported regex flag: ");
            let d = debug_char(c);
            push_str(&mut m, d.as_str());
            proof {
                assert(m@ =~= bad_flag_text(c));
            }
            Err(m)
        },
        Ok(f) => match Pattern::build_described(source.as_str(), f) {
            Ok(pat) => Ok(pat),
            Err((_, m)) => Err(m),
        },
    }
}

// ─── The document handle ─────────────────────────────────────────────────

/// A parsed document as a binding holds it: queries and mutations reuse
/// the parse; selectors are compiled per call; failures are returned as
/// their messages.
#[derive(Debug)]
pub struct NativeMarkdown {
    inner: Markdown,
}

impl View for NativeMarkdown {
    type V = DocModel;

    closed spec fn view(&self) -> DocModel {
        self.inner@
    }
}

/// The attribute updates as name/value pairs.
pub open spec fn updates_view(v: Seq<AttrUpdate>) -> Seq<(Seq<char>, Seq<char>)> {
    Seq::new(v.len(), |i: int| (v[i].name@, v[i].value@))
}

/// Parse `source`; fails with the parse error's message.
pub fn parse(source: &str) -> (r: Result<NativeMarkdown, String>)
    ensures
        match spec_parse(bytes_of(source@)) {
            Ok((roots, trivia)) => r matches Ok(h) && h@ == (DocModel { raw: source@, roots, trivia }),
            Err(f) => r matches Err(m) && m@ == crate::error::parse_failure_text(f),
        },
{
    match crate::parse::parse(source) {
        Ok(inner) => Ok(NativeMarkdown { inner }),
        Err(e) => Err(e.message()),
    }
}

/// Compile `selector`; fails with the selector error's message.
fn parse_selector(selector: &str) -> (r: Result<Selector, String>)
    ensures
        match spec_selector(selector@) {
            Ok(s) => r matches Ok(sel) && sel@ == s,
            Err(f) => r matches Err(m) && m@ == selector_failure_text(f),
        },
{
    match Selector::parse(selector) {
        Ok(s) => Ok(s),
        Err(e) => Err(e.message()),
    }
}

impl NativeMarkdown {
    /// Original document source, byte-for-byte.
    pub fn raw(&self) -> (r: &str)
        ensures
            r@ == self@.raw,
    {
        self.inner.raw()
    }

    /// The parsed document.
    pub fn document(&self) -> (r: &Markdown)
        ensures
            r@ == self@,
    {
        &self.inner
    }

    /// The root elements, materialized.
    pub fn elements(&self) -> (r: Vec<Element>)
        ensures
            r@.len() == self@.roots.len(),
            forall|k: int| 0 <= k < r@.len() ==> (#[trigger] r@[k]).model() == shape_of(self@.raw, self@.roots[k]),
    {
        let refs = self.inner.root_elements();
        elements_of(&refs)
    }

    /// The elements matching `selector`, in document order, materialized.
    pub fn select(&self, selector: &str) -> (r: Result<Vec<Element>, String>)
        ensures
            match spec_selector(selector@) {
                Ok(s) => r matches Ok(v) && v@.len() == selected(self@, s).len() && forall|k: int|
                    0 <= k < v@.len() ==> (#[trigger] v@[k]).model() == shape_of(self@.raw, selected(self@, s)[k]),
                Err(f) => r matches Err(m) && m@ == selector_failure_text(f),
            },
    {
        let sel = match parse_selector(selector) {
            Ok(s) => s,
            Err(m) => {
                return Err(m);
            },
        };
        let refs = self.inner.select(&sel);
        let out = elements_of(&refs);
        proof {
            assert forall|k: int| 0 <= k < out@.len() implies (#[trigger] out@[k]).model() == shape_of(
                self@.raw,
                selected(self@, sel@)[k],
            ) by {
                assert(refs@[k]@.raw == self@.raw);
                assert(crate::selector::matcher::refs_elems(refs@)[k] == refs@[k]@.elem);
            }
        }
        Ok(out)
    }

    /// Update or insert attributes on every element matching `selector`,
    /// returning the rewritten source. Fails on a bad selector, an invalid
    /// attribute name or a repeated one.
    pub fn update_attrs(&self, selector: &str, new_attrs: &Vec<AttrUpdate>) -> (r: Result<String, String>)
        ensures
            match spec_selector(selector@) {
                Err(f) => r matches Err(m) && m@ == selector_failure_text(f),
                Ok(s) => match first_bad_attr(updates_view(new_attrs@), 0) {
                    Some(f) => r matches Err(m) && m@ == mutate_failure_text(f),
                    None => r matches Ok(out) && out@ == spliced(
                        bytes_of(self@.raw),
                        update_splices(selected(self@, s), updates_view(new_attrs@)),
                    ).0,
                },
            },
    {
        let sel = match parse_selector(selector) {
            Ok(s) => s,
            Err(m) => {
                return Err(m);
            },
        };
        let mut pairs: Vec<(&str, &str)> = Vec::new();
        let mut i: usize = 0;
        while i < new_attrs.len()
            invariant
                i <= new_attrs@.len(),
                pairs@.len() == i,
                forall|k: int| 0 <= k < i ==> (#[trigger] pairs@[k]).0@ == new_attrs@[k].name@ && pairs@[k].1@ == new_attrs@[k].value@,
            decreases new_attrs@.len() - i,
        {
            pairs.push((new_attrs[i].name.as_str(), new_attrs[i].value.as_str()));
            i = i + 1;
        }
        proof {
            assert(pairs_view(pairs@) =~= updates_view(new_attrs@));
        }
        match self.inner.try_update(&sel, pairs.as_slice()) {
            Ok(report) => Ok(report.output),
            Err(e) => Err(e.message()),
        }
    }

    /// Replace the inner content of every element matching `selector` with
    /// `new_body`, verbatim.
    pub fn replace_content(&self, selector: &str, new_body: &str) -> (r: Result<String, String>)
        ensures
            match spec_selector(selector@) {
                Err(f) => r matches Err(m) && m@ == selector_failure_text(f),
                Ok(s) => r matches Ok(out) && out@ == spliced(
                    bytes_of(self@.raw),
                    content_splices(selected(self@, s), new_body@),
                ).0,
            },
    {
        let sel = match parse_selector(selector) {
            Ok(s) => s,
            Err(m) => {
                return Err(m);
            },
        };
        Ok(self.inner.replace_content(&sel, new_body))
    }

    /// Replace the inner content of every element matching `selector` with
    /// `new_text`, escaped.
    pub fn replace_text(&self, selector: &str, new_text: &str) -> (r: Result<String, String>)
        ensures
            match spec_selector(selector@) {
                Err(f) => r matches Err(m) && m@ == selector_failure_text(f),
                Ok(s) => r matches Ok(out) && out@ == spliced(
                    bytes_of(self@.raw),
                    content_splices(selected(self@, s), spec_escape_text(new_text@)),
                ).0,
            },
    {
        let sel = match parse_selector(selector) {
            Ok(s) => s,
            Err(m) => {
                return Err(m);
            },
        };
        Ok(self.inner.replace_text(&sel, new_text))
    }

    /// Replace every match of `pattern` inside the content of each element
    /// matching `selector` with `replacement`, verbatim.
    pub fn replace_in_content(&self, selector: &str, pattern: &RegexInput, replacement: &str) -> (r: Result<
        String,
        String,
    >)
        ensures
            match spec_selector(selector@) {
                Err(f) => r matches Err(m) && m@ == selector_failure_text(f),
                Ok(s) => match flags_from(input_parts(*pattern).1) {
                    Err(c) => r matches Err(m) && m@ == bad_flag_text(c),
                    Ok(fl) => if pattern_builds(input_parts(*pattern).0, fl) {
                        r matches Ok(out) && out@ == spliced(
                            bytes_of(self@.raw),
                            regex_splices(
                                selected(self@, s),
                                bytes_of(self@.raw),
                                PatternModel { source: input_parts(*pattern).0, flags: fl },
                                replacement@,
                            ),
                        ).0
                    } else {
                        r matches Err(m) && m@ == pattern_error_message(input_parts(*pattern).0, fl)
                    },
                },
            },
    {
        let sel = match parse_selector(selector) {
            Ok(s) => s,
            Err(m) => {
                return Err(m);
            },
        };
        let re = match compile_regex(pattern) {
            Ok(p) => p,
            Err(m) => {
                return Err(m);
            },
        };
        Ok(self.inner.replace_in(&sel, &re, replacement))
    }

    /// The parsed elements as XML, indented when `opts` asks for pretty
    /// output.
    pub fn to_xml(&self, opts: &Option<ToXmlOpts>) -> (r: String)
        ensures
            r@ == xml_doc(self@.raw, self@.trivia, serialize_opts_for_spec(*opts), self@.roots),
    {
        let o = serialize_opts_for(opts);
        self.inner.to_xml(&o)
    }

    /// Validate against per-tag records; fails with the schema error's
    /// message when the records do not build.
    pub fn validate(&self, schema: &Vec<(String, TagSchemaShape)>) -> (r: Result<ValidationReport, String>)
        ensures
            match build_spec(shapes_builder(schema@)) {
                Err(f) => r matches Err(m) && m@ == crate::schema::schema_failure_text(f),
                Ok(cs) => r matches Ok(rep) && {
                    let vs = crate::validate::validate_spec(self@, cs);
                    &&& rep.valid == (vs.len() == 0)
                    &&& rep.errors@.len() == vs.len()
                    &&& forall|i: int| 0 <= i < vs.len() ==> error_shape_ok(#[trigger] rep.errors@[i], vs[i])
                },
            },
    {
        let s = match build_schema(schema) {
            Ok(s) => s,
            Err(e) => {
                return Err(e.message());
            },
        };
        let report = crate::validate::validate(&self.inner, &s);
        Ok(report_shape(&report))
    }
}

/// The serializer options chosen for `opts`.
pub open spec fn serialize_opts_for_spec(opts: Option<ToXmlOpts>) -> OptsModel {
    if opts matches Some(o) && o.pretty == Some(true) {
        OptsModel { indent: Some(seq![' ', ' ']), self_close_empty: true, strip_text: false, wrap_in: None }
    } else {
        OptsModel { indent: None, self_close_empty: false, strip_text: false, wrap_in: None }
    }
}

} // verus!
