//! Declarative schema for validating parsed documents.
//!
//! Build a [`Schema`] with [`Schema::builder`], pass it to
//! [`crate::validate::validate`] along with a parsed [`crate::Markdown`],
//! and inspect the [`crate::validate::ValidationReport`] for problems.
//!
//! Tags that do not appear in the schema are not validated. Registering a
//! tag twice, or an attribute twice on one tag, is a build error rather
//! than a silent overwrite.

use crate::escape::{is_valid_name, valid_name};
use crate::order::{
    entries_view, has_key, insert_entry, insert_sorted, keys_sorted, lemma_insert_sorted, sorted_set,
    sorted_unique,
};
use crate::pattern::{no_flags, pattern_builds, pattern_error_message, pattern_is_match, Pattern, PatternModel, RegexFlags};
use crate::render::{debug_str, push_str, str_debug_text};
use crate::source::str_eq;
use vstd::prelude::*;
use vstd::std_specs::convert::FromSpecImpl;

verus! {

// ─── Attribute constraints ───────────────────────────────────────────────

/// What kind of value an attribute should hold.
#[derive(Debug, Clone, PartialEq, Eq)]
pub enum AttrKind {
    /// Any string. No further constraint.
    String,
    /// One of the listed values.
    Enum(Vec<String>),
    /// Match the given regular expression, as a whole: the pattern is
    /// anchored at both ends when the schema is built.
    Regex(String),
}

/// Mathematical form of an attribute kind.
pub enum KindModel {
    Any,
    Enum(Seq<Seq<char>>),
    Regex(Seq<char>),
}

/// The characters of each string in a list.
pub open spec fn strings_view(v: Seq<String>) -> Seq<Seq<char>> {
    v.map_values(|s: String| s@)
}

impl View for AttrKind {
    type V = KindModel;

    open spec fn view(&self) -> KindModel {
        match self {
            AttrKind::String => KindModel::Any,
            AttrKind::Enum(v) => KindModel::Enum(strings_view(v@)),
            AttrKind::Regex(p) => KindModel::Regex(p@),
        }
    }
}

/// A single attribute slot: its kind and whether it must be present.
#[derive(Debug, Clone, PartialEq, Eq)]
pub struct AttrConstraint {
    pub(crate) kind: AttrKind,
    pub(crate) required: bool,
}

/// Mathematical form of an attribute constraint.
pub struct ConstraintModel {
    pub kind: KindModel,
    pub required: bool,
}

impl View for AttrConstraint {
    type V = ConstraintModel;

    closed spec fn view(&self) -> ConstraintModel {
        ConstraintModel { kind: self.kind@, required: self.required }
    }
}

impl AttrKind {
    /// An [`AttrKind::Enum`] of the given values.
    pub fn one_of(values: &[&str]) -> (r: AttrKind)
        ensures
            r@ == KindModel::Enum(values@.map_values(|s: &str| s@)),
    {
        let mut out: Vec<String> = Vec::new();
        let mut i: usize = 0;
        while i < values.len()
            invariant
                i <= values@.len(),
                out@.len() == i,
                forall|j: int| 0 <= j < i ==> #[trigger] out@[j]@ == values@[j]@,
            decreases values@.len() - i,
        {
            out.push(values[i].to_owned());
            i = i + 1;
        }
        proof {
            assert(strings_view(out@) =~= values@.map_values(|s: &str| s@));
        }
        AttrKind::Enum(out)
    }

    /// Mark this attribute as required.
    pub fn required(self) -> (r: AttrConstraint)
        ensures
            r@ == (ConstraintModel { kind: self@, required: true }),
    {
        AttrConstraint { kind: self, required: true }
    }

    /// Mark this attribute as optional (the same as converting with
    /// `into`).
    pub fn optional(self) -> (r: AttrConstraint)
        ensures
            r@ == (ConstraintModel { kind: self@, required: false }),
    {
        AttrConstraint { kind: self, required: false }
    }
}

impl From<AttrKind> for AttrConstraint {
    fn from(kind: AttrKind) -> (r: AttrConstraint) {
        AttrConstraint { kind, required: false }
    }
}

impl FromSpecImpl<AttrKind> for AttrConstraint {
    open spec fn obeys_from_spec() -> bool {
        true
    }

    closed spec fn from_spec(v: AttrKind) -> AttrConstraint {
        AttrConstraint { kind: v, required: false }
    }
}

/// What [`TagBuilder::attr`] accepts: a full constraint, or a bare kind
/// (which is optional).
pub trait IntoConstraint: Sized {
    /// The constraint this value stands for.
    spec fn constraint_view(&self) -> ConstraintModel;

    fn into_constraint(self) -> (r: AttrConstraint)
        ensures
            r@ == self.constraint_view(),
    ;
}

impl IntoConstraint for AttrConstraint {
    open spec fn constraint_view(&self) -> ConstraintModel {
        self@
    }

    fn into_constraint(self) -> (r: AttrConstraint) {
        self
    }
}

impl IntoConstraint for AttrKind {
    open spec fn constraint_view(&self) -> ConstraintModel {
        ConstraintModel { kind: self@, required: false }
    }

    fn into_constraint(self) -> (r: AttrConstraint) {
        self.optional()
    }
}

// ─── Per-tag rules, as authored ──────────────────────────────────────────

/// Per-tag validation rules in the form the builder collects them.
#[derive(Debug, Clone)]
pub(crate) struct TagSchema {
    /// Attribute constraints, ascending by name, each name once.
    pub(crate) attrs: Vec<(String, AttrConstraint)>,
    pub(crate) children_required: Vec<String>,
    pub(crate) children_optional: Vec<String>,
    /// When true, `children_required` and `children_optional` together
    /// are the allowlist of children.
    pub(crate) children_exclusive: bool,
    pub(crate) content_required: bool,
    /// Attribute names registered more than once.
    pub(crate) duplicate_attrs: Vec<String>,
}

/// Mathematical form of one tag's authored rules.
pub struct TagModel {
    pub attrs: Seq<(Seq<char>, ConstraintModel)>,
    pub children_required: Seq<Seq<char>>,
    pub children_optional: Seq<Seq<char>>,
    pub children_exclusive: bool,
    pub content_required: bool,
    pub duplicate_attrs: Seq<Seq<char>>,
}

impl View for TagSchema {
    type V = TagModel;

    closed spec fn view(&self) -> TagModel {
        TagModel {
            attrs: entries_view(self.attrs@),
            children_required: strings_view(self.children_required@),
            children_optional: strings_view(self.children_optional@),
            children_exclusive: self.children_exclusive,
            content_required: self.content_required,
            duplicate_attrs: strings_view(self.duplicate_attrs@),
        }
    }
}

/// Rules of a tag with nothing declared yet.
pub open spec fn empty_tag() -> TagModel {
    TagModel {
        attrs: Seq::empty(),
        children_required: Seq::empty(),
        children_optional: Seq::empty(),
        children_exclusive: false,
        content_required: false,
        duplicate_attrs: Seq::empty(),
    }
}

/// `t` with the constraint `c` declared for attribute `name`: it replaces
/// an earlier declaration, and a repeated name is recorded.
pub open spec fn tag_with_attr(t: TagModel, name: Seq<char>, c: ConstraintModel) -> TagModel {
    TagModel {
        attrs: insert_sorted(t.attrs, name, c),
        duplicate_attrs: if has_key(t.attrs, name) {
            t.duplicate_attrs.push(name)
        } else {
            t.duplicate_attrs
        },
        ..t
    }
}

/// Builder for a single tag's rules within a [`Schema`].
#[derive(Debug)]
pub struct TagBuilder {
    schema: TagSchema,
}

impl View for TagBuilder {
    type V = TagModel;

    closed spec fn view(&self) -> TagModel {
        self.schema@
    }
}

impl TagBuilder {
    /// The attribute constraints stay ordered by name.
    #[verifier::type_invariant]
    closed spec fn inv(self) -> bool {
        keys_sorted(self.schema@.attrs)
    }

    /// A builder with no rules.
    pub fn new() -> (r: TagBuilder)
        ensures
            r@ == empty_tag(),
    {
        let r = TagBuilder {
            schema: TagSchema {
                attrs: Vec::new(),
                children_required: Vec::new(),
                children_optional: Vec::new(),
                children_exclusive: false,
                content_required: false,
                duplicate_attrs: Vec::new(),
            },
        };
        proof {
            assert(r@.attrs =~= Seq::<(Seq<char>, ConstraintModel)>::empty());
            assert(r@.children_required =~= Seq::<Seq<char>>::empty());
            assert(r@.children_optional =~= Seq::<Seq<char>>::empty());
            assert(r@.duplicate_attrs =~= Seq::<Seq<char>>::empty());
        }
        r
    }

    /// Add an attribute constraint. Registering the same attribute name
    /// twice on a tag is a build error ([`SchemaError::DuplicateAttr`]).
    pub fn attr<C: IntoConstraint>(self, name: &str, constraint: C) -> (r: TagBuilder)
        ensures
            r@ == tag_with_attr(self@, name@, constraint.constraint_view()),
    {
        proof {
            use_type_invariant(&self);
        }
        let TagBuilder { schema } = self;
        let TagSchema {
            mut attrs,
            children_required,
            children_optional,
            children_exclusive,
            content_required,
            mut duplicate_attrs,
        } = schema;
        let c = constraint.into_constraint();
        let ghost before = entries_view(attrs@);
        let replaced = insert_entry(&mut attrs, name.to_owned(), c);
        if replaced {
            duplicate_attrs.push(name.to_owned());
        }
        proof {
            lemma_insert_sorted(before, name@, c@);
            assert(strings_view(duplicate_attrs@) =~= if has_key(before, name@) {
                strings_view(old_dups(self)).push(name@)
            } else {
                strings_view(old_dups(self))
            });
        }
        TagBuilder {
            schema: TagSchema {
                attrs,
                children_required,
                children_optional,
                children_exclusive,
                content_required,
                duplicate_attrs,
            },
        }
    }

    /// Mark a child tag as required (it must appear at least once).
    pub fn child_required(self, name: &str) -> (r: TagBuilder)
        ensures
            r@ == (TagModel { children_required: self@.children_required.push(name@), ..self@ }),
    {
        proof {
            use_type_invariant(&self);
        }
        let TagBuilder { mut schema } = self;
        let ghost before = schema.children_required@;
        schema.children_required.push(name.to_owned());
        proof {
            assert(strings_view(schema.children_required@) =~= strings_view(before).push(name@));
        }
        TagBuilder { schema }
    }

    /// Add a child tag to the allowlist without requiring it.
    pub fn child_optional(self, name: &str) -> (r: TagBuilder)
        ensures
            r@ == (TagModel { children_optional: self@.children_optional.push(name@), ..self@ }),
    {
        proof {
            use_type_invariant(&self);
        }
        let TagBuilder { mut schema } = self;
        let ghost before = schema.children_optional@;
        schema.children_optional.push(name.to_owned());
        proof {
            assert(strings_view(schema.children_optional@) =~= strings_view(before).push(name@));
        }
        TagBuilder { schema }
    }

    /// Only tags named by `child_required` or `child_optional` are
    /// permitted as children; others are reported as unexpected.
    pub fn exclusive_children(self) -> (r: TagBuilder)
        ensures
            r@ == (TagModel { children_exclusive: true, ..self@ }),
    {
        proof {
            use_type_invariant(&self);
        }
        let TagBuilder { mut schema } = self;
        schema.children_exclusive = true;
        TagBuilder { schema }
    }

    /// Require non-whitespace text directly inside the element. Child
    /// element markup, comments and CDATA sections do not count.
    pub fn content_required(self) -> (r: TagBuilder)
        ensures
            r@ == (TagModel { content_required: true, ..self@ }),
    {
        proof {
            use_type_invariant(&self);
        }
        let TagBuilder { mut schema } = self;
        schema.content_required = true;
        TagBuilder { schema }
    }
}

spec fn old_dups(b: TagBuilder) -> Seq<String> {
    b.schema.duplicate_attrs@
}


// ─── Compiled rules ──────────────────────────────────────────────────────

/// A regular-expression constraint: the pattern as authored, and the
/// regex compiled from it anchored at both ends.
#[derive(Debug)]
pub struct CompiledRegex {
    source: String,
    pattern: Pattern,
}

/// `\A(?:pattern)\z`: the whole value must match `pattern`.
pub open spec fn anchored(pattern: Seq<char>) -> Seq<char> {
    "\\A(?:"@ + pattern + ")\\z"@
}

impl View for CompiledRegex {
    type V = Seq<char>;

    closed spec fn view(&self) -> Seq<char> {
        self.source@
    }
}

impl CompiledRegex {
    /// The compiled regex is the anchored form of the authored pattern.
    #[verifier::type_invariant]
    closed spec fn inv(self) -> bool {
        self.pattern@ == (PatternModel { source: anchored(self.source@), flags: no_flags() })
    }

    /// The authored pattern.
    pub(crate) fn source(&self) -> (r: &str)
        ensures
            r@ == self@,
    {
        self.source.as_str()
    }

    /// Whether `value` matches the pattern as a whole.
    pub(crate) fn matches(&self, value: &str) -> (r: bool)
        ensures
            r == pattern_is_match(PatternModel { source: anchored(self@), flags: no_flags() }, value@),
    {
        proof {
            use_type_invariant(self);
        }
        self.pattern.is_match(value)
    }
}

/// The compiled form of an attribute kind.
#[derive(Debug)]
pub enum CompiledAttrKind {
    String,
    /// Allowed values, ascending, each once.
    Enum(Vec<String>),
    Regex(CompiledRegex),
}

impl View for CompiledAttrKind {
    type V = KindModel;

    open spec fn view(&self) -> KindModel {
        match self {
            CompiledAttrKind::String => KindModel::Any,
            CompiledAttrKind::Enum(v) => KindModel::Enum(strings_view(v@)),
            CompiledAttrKind::Regex(r) => KindModel::Regex(r@),
        }
    }
}

/// The compiled form of an attribute constraint.
#[derive(Debug)]
pub struct CompiledAttrConstraint {
    pub kind: CompiledAttrKind,
    pub required: bool,
}

impl View for CompiledAttrConstraint {
    type V = ConstraintModel;

    open spec fn view(&self) -> ConstraintModel {
        ConstraintModel { kind: self.kind@, required: self.required }
    }
}

/// The rules of one tag as validation consumes them.
#[derive(Debug)]
pub struct CompiledTagSchema {
    /// Attribute constraints, ascending by name.
    pub attrs: Vec<(String, CompiledAttrConstraint)>,
    /// Required child tags, first occurrences only.
    pub children_required: Vec<String>,
    /// Required and optional child tags together.
    pub children_allowed: Vec<String>,
    pub children_exclusive: bool,
    pub content_required: bool,
}

/// Mathematical form of one tag's compiled rules.
pub struct CompiledTagModel {
    pub attrs: Seq<(Seq<char>, ConstraintModel)>,
    pub children_required: Seq<Seq<char>>,
    pub children_allowed: Seq<Seq<char>>,
    pub children_exclusive: bool,
    pub content_required: bool,
}

impl View for CompiledTagSchema {
    type V = CompiledTagModel;

    open spec fn view(&self) -> CompiledTagModel {
        CompiledTagModel {
            attrs: entries_view(self.attrs@),
            children_required: strings_view(self.children_required@),
            children_allowed: strings_view(self.children_allowed@),
            children_exclusive: self.children_exclusive,
            content_required: self.content_required,
        }
    }
}

/// A complete schema: the rules of each named tag, ascending by tag name.
#[derive(Debug)]
pub struct Schema {
    pub(crate) tags: Vec<(String, CompiledTagSchema)>,
}

impl View for Schema {
    type V = Seq<(Seq<char>, CompiledTagModel)>;

    closed spec fn view(&self) -> Seq<(Seq<char>, CompiledTagModel)> {
        entries_view(self.tags@)
    }
}

impl Schema {
    /// Begin building a new schema.
    pub fn builder() -> (r: SchemaBuilder)
        ensures
            r@ == (BuilderModel { tags: Seq::empty(), duplicates: Seq::empty() }),
    {
        let r = SchemaBuilder { tags: Vec::new(), duplicates: Vec::new() };
        proof {
            assert(r@.tags =~= Seq::<(Seq<char>, TagModel)>::empty());
            assert(r@.duplicates =~= Seq::<Seq<char>>::empty());
        }
        r
    }

    /// The compiled rules, in tag order.
    pub(crate) fn entries(&self) -> (r: &Vec<(String, CompiledTagSchema)>)
        ensures
            entries_view(r@) == self@,
    {
        &self.tags
    }
}

// ─── Errors ──────────────────────────────────────────────────────────────

/// Reasons [`SchemaBuilder::try_build`] can reject a schema.
#[derive(Debug)]
#[non_exhaustive]
pub enum SchemaError {
    /// An `AttrKind::Regex(..)` pattern failed to compile.
    InvalidRegex {
        /// Tag carrying the offending attribute.
        tag: String,
        /// Attribute name.
        attr: String,
        /// The `regex` crate's compile error.
        source: regex::Error,
        /// The text the `regex` crate gives for that error.
        detail: String,
    },
    /// A tag, attribute, or child name in the schema is not a valid XML
    /// name, so the rule could never apply.
    InvalidName {
        /// What kind of name was rejected (`"tag"`, `"attr"`, `"child"`).
        scope: &'static str,
        /// The offending name.
        name: String,
    },
    /// The same tag name was registered more than once on the builder.
    DuplicateTag {
        /// Tag name that appeared twice.
        tag: String,
    },
    /// The same attribute name was registered more than once on a tag.
    DuplicateAttr {
        /// Tag carrying the duplicate attribute.
        tag: String,
        /// Attribute name that appeared twice.
        attr: String,
    },
}

/// Mathematical form of [`SchemaError`] (the regex error value itself
/// left out; its text is kept).
pub enum SchemaFailure {
    InvalidRegex { tag: Seq<char>, attr: Seq<char>, detail: Seq<char> },
    InvalidName { scope: Seq<char>, name: Seq<char> },
    DuplicateTag { tag: Seq<char> },
    DuplicateAttr { tag: Seq<char>, attr: Seq<char> },
}

impl View for SchemaError {
    type V = SchemaFailure;

    open spec fn view(&self) -> SchemaFailure {
        match self {
            SchemaError::InvalidRegex { tag, attr, detail, .. } => SchemaFailure::InvalidRegex {
                tag: tag@,
                attr: attr@,
                detail: detail@,
            },
            SchemaError::InvalidName { scope, name } => SchemaFailure::InvalidName { scope: scope@, name: name@ },
            SchemaError::DuplicateTag { tag } => SchemaFailure::DuplicateTag { tag: tag@ },
            SchemaError::DuplicateAttr { tag, attr } => SchemaFailure::DuplicateAttr { tag: tag@, attr: attr@ },
        }
    }
}

/// Human-readable rendering of a [`SchemaFailure`].
pub open spec fn schema_failure_text(e: SchemaFailure) -> Seq<char> {
    match e {
        SchemaFailure::InvalidRegex { tag, attr, .. } => "invalid regex for "@ + tag + "."@ + attr,
        SchemaFailure::InvalidName { scope, name } => "invalid XML name in schema: "@ + scope + " "@
            + str_debug_text(name),
        SchemaFailure::DuplicateTag { tag } => "duplicate tag "@ + str_debug_text(tag) + " in schema"@,
        SchemaFailure::DuplicateAttr { tag, attr } => "duplicate attribute "@ + str_debug_text(attr)
            + " on tag "@ + str_debug_text(tag),
    }
}

impl SchemaError {
    /// Human-readable message.
    pub fn message(&self) -> (r: String)
        ensures
            r@ == schema_failure_text(self@),
    {
        let mut out = String::new();
        match self {
            SchemaError::InvalidRegex { tag, attr, .. } => {
                push_str(&mut out, "invalid regex for ");
                push_str(&mut out, tag.as_str());
                push_str(&mut out, ".");
                push_str(&mut out, attr.as_str());
            },
            SchemaError::InvalidName { scope, name } => {
                push_str(&mut out, "invalid XML name in schema: ");
                push_str(&mut out, scope);
                push_str(&mut out, " ");
                let d = debug_str(name.as_str());
                push_str(&mut out, d.as_str());
            },
            SchemaError::DuplicateTag { tag } => {
                push_str(&mut out, "duplicate tag ");
                let d = debug_str(tag.as_str());
                push_str(&mut out, d.as_str());
                push_str(&mut out, " in schema");
            },
            SchemaError::DuplicateAttr { tag, attr } => {
                push_str(&mut out, "duplicate attribute ");
                let d = debug_str(attr.as_str());
                push_str(&mut out, d.as_str());
                push_str(&mut out, " on tag ");
                let d2 = debug_str(tag.as_str());
                push_str(&mut out, d2.as_str());
            },
        }
        proof {
            assert(out@ =~= schema_failure_text(self@));
        }
        out
    }
}

// ─── The builder ─────────────────────────────────────────────────────────

/// Builder for [`Schema`].
#[derive(Debug)]
pub struct SchemaBuilder {
    /// Registered tags, ascending by name, each once.
    tags: Vec<(String, TagSchema)>,
    /// Names registered more than once, in order of the repeat.
    duplicates: Vec<String>,
}

/// Mathematical form of a [`SchemaBuilder`].
pub struct BuilderModel {
    pub tags: Seq<(Seq<char>, TagModel)>,
    pub duplicates: Seq<Seq<char>>,
}

impl View for SchemaBuilder {
    type V = BuilderModel;

    closed spec fn view(&self) -> BuilderModel {
        BuilderModel { tags: entries_view(self.tags@), duplicates: strings_view(self.duplicates@) }
    }
}

/// `b` with the rules `t` registered for `name`: they replace an earlier
/// registration, and a repeated name is recorded.
pub open spec fn builder_with_tag(b: BuilderModel, name: Seq<char>, t: TagModel) -> BuilderModel {
    BuilderModel {
        tags: insert_sorted(b.tags, name, t),
        duplicates: if has_key(b.tags, name) {
            b.duplicates.push(name)
        } else {
            b.duplicates
        },
    }
}


/// The compiled form of a kind: an enum's values become ascending and
/// distinct.
pub open spec fn compile_kind(k: KindModel) -> KindModel {
    match k {
        KindModel::Enum(vals) => KindModel::Enum(sorted_set(vals)),
        other => other,
    }
}

/// Compile the attribute constraints of `tag` in order; the first name
/// that is not an XML name, or pattern that does not compile, is the error.
/// The kind is a regex whose anchored pattern does not compile.
pub open spec fn regex_fails(k: KindModel) -> bool {
    k matches KindModel::Regex(p) && !pattern_builds(anchored(p), no_flags())
}

/// The `regex` crate's text for the failure to compile a regex kind's
/// anchored pattern.
pub open spec fn regex_failure_text(k: KindModel) -> Seq<char> {
    match k {
        KindModel::Regex(p) => pattern_error_message(anchored(p), no_flags()),
        _ => Seq::empty(),
    }
}

pub open spec fn compile_attrs(tag: Seq<char>, attrs: Seq<(Seq<char>, ConstraintModel)>) -> Result<
    Seq<(Seq<char>, ConstraintModel)>,
    SchemaFailure,
>
    decreases attrs.len(),
{
    if attrs.len() == 0 {
        Ok(Seq::empty())
    } else {
        match compile_attrs(tag, attrs.drop_last()) {
            Err(e) => Err(e),
            Ok(done) => {
                let name = attrs.last().0;
                let c = attrs.last().1;
                if !valid_name(name) {
                    Err(SchemaFailure::InvalidName { scope: "attr"@, name })
                } else if regex_fails(c.kind) {
                    Err(SchemaFailure::InvalidRegex { tag, attr: name, detail: regex_failure_text(c.kind) })
                } else {
                    Ok(done.push((name, ConstraintModel { kind: compile_kind(c.kind), required: c.required })))
                }
            },
        }
    }
}

/// The first string of `names` that is not an XML name.
pub open spec fn first_invalid(names: Seq<Seq<char>>) -> Option<Seq<char>>
    decreases names.len(),
{
    if names.len() == 0 {
        None
    } else if !valid_name(names[0]) {
        Some(names[0])
    } else {
        first_invalid(names.drop_first())
    }
}

/// `s` with repeats removed, first occurrences kept in order.
pub open spec fn dedup(s: Seq<Seq<char>>) -> Seq<Seq<char>>
    decreases s.len(),
{
    if s.len() == 0 {
        Seq::empty()
    } else {
        let d = dedup(s.drop_last());
        if d.contains(s.last()) {
            d
        } else {
            d.push(s.last())
        }
    }
}

/// Compile one tag's rules: its name, then repeated attributes, then each
/// attribute in name order, then the child names (required, then
/// optional) are checked, in that order.
pub open spec fn compile_tag_spec(tag: Seq<char>, t: TagModel) -> Result<CompiledTagModel, SchemaFailure> {
    if !valid_name(tag) {
        Err(SchemaFailure::InvalidName { scope: "tag"@, name: tag })
    } else if t.duplicate_attrs.len() > 0 {
        Err(SchemaFailure::DuplicateAttr { tag, attr: t.duplicate_attrs[0] })
    } else {
        match compile_attrs(tag, t.attrs) {
            Err(e) => Err(e),
            Ok(attrs) => match first_invalid(t.children_required + t.children_optional) {
                Some(n) => Err(SchemaFailure::InvalidName { scope: "child"@, name: n }),
                None => Ok(
                    CompiledTagModel {
                        attrs,
                        children_required: dedup(t.children_required),
                        children_allowed: t.children_required + t.children_optional,
                        children_exclusive: t.children_exclusive,
                        content_required: t.content_required,
                    },
                ),
            },
        }
    }
}

/// Compile the tags in order; the first failing tag's error is the error.
pub open spec fn compile_tags(tags: Seq<(Seq<char>, TagModel)>) -> Result<
    Seq<(Seq<char>, CompiledTagModel)>,
    SchemaFailure,
>
    decreases tags.len(),
{
    if tags.len() == 0 {
        Ok(Seq::empty())
    } else {
        match compile_tags(tags.drop_last()) {
            Err(e) => Err(e),
            Ok(done) => match compile_tag_spec(tags.last().0, tags.last().1) {
                Err(e) => Err(e),
                Ok(c) => Ok(done.push((tags.last().0, c))),
            },
        }
    }
}

/// What building `b` gives: a repeated tag is reported first, then the
/// first tag (in name order) whose rules do not compile.
pub open spec fn build_spec(b: BuilderModel) -> Result<Seq<(Seq<char>, CompiledTagModel)>, SchemaFailure> {
    if b.duplicates.len() > 0 {
        Err(SchemaFailure::DuplicateTag { tag: b.duplicates[0] })
    } else {
        compile_tags(b.tags)
    }
}

proof fn lemma_compile_attrs_err(tag: Seq<char>, s: Seq<(Seq<char>, ConstraintModel)>, n: int)
    requires
        0 <= n <= s.len(),
        compile_attrs(tag, s.take(n)) is Err,
    ensures
        compile_attrs(tag, s) == compile_attrs(tag, s.take(n)),
    decreases s.len() - n,
{
    if n == s.len() {
        assert(s.take(n) =~= s);
    } else {
        assert(s.take(n + 1).drop_last() =~= s.take(n));
        lemma_compile_attrs_err(tag, s, n + 1);
    }
}

proof fn lemma_compile_tags_err(s: Seq<(Seq<char>, TagModel)>, n: int)
    requires
        0 <= n <= s.len(),
        compile_tags(s.take(n)) is Err,
    ensures
        compile_tags(s) == compile_tags(s.take(n)),
    decreases s.len() - n,
{
    if n == s.len() {
        assert(s.take(n) =~= s);
    } else {
        assert(s.take(n + 1).drop_last() =~= s.take(n));
        lemma_compile_tags_err(s, n + 1);
    }
}

/// Whether `needle` is one of `v`.
pub(crate) fn contains_str(v: &Vec<String>, needle: &str) -> (r: bool)
    ensures
        r == strings_view(v@).contains(needle@),
{
    let mut i: usize = 0;
    while i < v.len()
        invariant
            i <= v@.len(),
            forall|j: int| 0 <= j < i ==> v@[j]@ != needle@,
        decreases v@.len() - i,
    {
        if str_eq(v[i].as_str(), needle) {
            proof {
                assert(strings_view(v@)[i as int] == needle@);
            }
            return true;
        }
        i = i + 1;
    }
    proof {
        if strings_view(v@).contains(needle@) {
            let j = choose|j: int| 0 <= j < strings_view(v@).len() && strings_view(v@)[j] == needle@;
            assert(v@[j]@ == needle@);
        }
    }
    false
}

fn anchor(pattern: &str) -> (r: String)
    ensures
        r@ == anchored(pattern@),
{
    let mut out = String::new();
    push_str(&mut out, "\\A(?:");
    push_str(&mut out, pattern);
    push_str(&mut out, ")\\z");
    proof {
        assert(out@ =~= anchored(pattern@));
    }
    out
}

pub(crate) fn clone_strings(v: &Vec<String>, out: &mut Vec<String>)
    ensures
        strings_view(final(out)@) == strings_view(old(out)@) + strings_view(v@),
{
    let ghost start = strings_view(out@);
    let mut i: usize = 0;
    while i < v.len()
        invariant
            i <= v@.len(),
            strings_view(out@) == start + strings_view(v@).take(i as int),
        decreases v@.len() - i,
    {
        let c = v[i].clone();
        let ghost prev = out@;
        out.push(c);
        proof {
            assert(out@ == prev.push(c));
            assert(strings_view(out@) =~= strings_view(prev).push(v@[i as int]@));
            assert(strings_view(v@).take(i + 1) =~= strings_view(v@).take(i as int).push(v@[i as int]@));
            assert(strings_view(out@) =~= start + strings_view(v@).take(i + 1));
        }
        i = i + 1;
    }
    proof {
        assert(strings_view(v@).take(v@.len() as int) =~= strings_view(v@));
    }
}

fn compile_constraint(tag: &str, name: &String, c: &AttrConstraint) -> (r: Result<
    CompiledAttrConstraint,
    SchemaError,
>)
    requires
        valid_name(name@),
    ensures
        match r {
            Ok(cc) => !regex_fails(c@.kind) && cc@ == (ConstraintModel {
                kind: compile_kind(c@.kind),
                required: c@.required,
            }),
            Err(e) => regex_fails(c@.kind) && e@ == (SchemaFailure::InvalidRegex {
                tag: tag@,
                attr: name@,
                detail: regex_failure_text(c@.kind),
            }),
        },
{
    let kind = match &c.kind {
        AttrKind::String => CompiledAttrKind::String,
        AttrKind::Enum(vals) => {
            let set = sorted_unique(vals);
            proof {
                assert(strings_view(set@) =~= sorted_set(strings_view(vals@)));
            }
            CompiledAttrKind::Enum(set)
        },
        AttrKind::Regex(p) => {
            let a = anchor(p.as_str());
            match Pattern::build_described(a.as_str(), RegexFlags::none()) {
                Ok(pattern) => CompiledAttrKind::Regex(CompiledRegex { source: p.clone(), pattern }),
                Err((source, detail)) => {
                    return Err(SchemaError::InvalidRegex { tag: tag.to_owned(), attr: name.clone(), source, detail });
                },
            }
        },
    };
    Ok(CompiledAttrConstraint { kind, required: c.required })
}

fn compile_attr_list(tag: &str, attrs: &Vec<(String, AttrConstraint)>) -> (r: Result<
    Vec<(String, CompiledAttrConstraint)>,
    SchemaError,
>)
    ensures
        match r {
            Ok(v) => compile_attrs(tag@, entries_view(attrs@)) == Ok::<_, SchemaFailure>(entries_view(v@)),
            Err(e) => compile_attrs(tag@, entries_view(attrs@)) == Err::<Seq<(Seq<char>, ConstraintModel)>, _>(e@),
        },
{
    let ghost s = entries_view(attrs@);
    let mut out: Vec<(String, CompiledAttrConstraint)> = Vec::new();
    let mut i: usize = 0;
    proof {
        assert(s.take(0) =~= Seq::<(Seq<char>, ConstraintModel)>::empty());
        assert(entries_view(out@) =~= Seq::<(Seq<char>, ConstraintModel)>::empty());
    }
    while i < attrs.len()
        invariant
            s == entries_view(attrs@),
            i <= attrs@.len(),
            compile_attrs(tag@, s.take(i as int)) == Ok::<_, SchemaFailure>(entries_view(out@)),
        decreases attrs@.len() - i,
    {
        let name = &attrs[i].0;
        let c = &attrs[i].1;
        proof {
            assert(s.take(i + 1).drop_last() =~= s.take(i as int));
            assert(s.take(i + 1).last() == (name@, c@));
        }
        if !is_valid_name(name.as_str()) {
            proof {
                lemma_compile_attrs_err(tag@, s, i + 1);
            }
            return Err(SchemaError::InvalidName { scope: "attr", name: name.clone() });
        }
        match compile_constraint(tag, name, c) {
            Ok(cc) => {
                let ghost before = entries_view(out@);
                out.push((name.clone(), cc));
                proof {
                    assert(entries_view(out@) =~= before.push((name@, cc@)));
                }
            },
            Err(e) => {
                proof {
                    lemma_compile_attrs_err(tag@, s, i + 1);
                }
                return Err(e);
            },
        }
        i = i + 1;
    }
    proof {
        assert(s.take(attrs@.len() as int) =~= s);
    }
    Ok(out)
}

/// The first name of `v` (from position `i` on) that is not an XML name.
fn find_invalid(v: &Vec<String>) -> (r: Option<usize>)
    ensures
        match r {
            Some(k) => k < v@.len() && first_invalid(strings_view(v@)) == Some(v@[k as int]@),
            None => first_invalid(strings_view(v@)) is None,
        },
{
    let ghost s = strings_view(v@);
    let mut i: usize = 0;
    proof {
        assert(s.skip(0) =~= s);
    }
    while i < v.len()
        invariant
            s == strings_view(v@),
            i <= v@.len(),
            first_invalid(s) == first_invalid(s.skip(i as int)),
        decreases v@.len() - i,
    {
        proof {
            assert(s.skip(i as int)[0] == v@[i as int]@);
            assert(s.skip(i as int).drop_first() =~= s.skip(i + 1));
        }
        if !is_valid_name(v[i].as_str()) {
            return Some(i);
        }
        i = i + 1;
    }
    None
}

proof fn lemma_first_invalid_concat(a: Seq<Seq<char>>, b: Seq<Seq<char>>)
    ensures
        first_invalid(a + b) == match first_invalid(a) {
            Some(n) => Some(n),
            None => first_invalid(b),
        },
    decreases a.len(),
{
    if a.len() == 0 {
        assert(a + b =~= b);
    } else {
        assert((a + b).drop_first() =~= a.drop_first() + b);
        assert((a + b)[0] == a[0]);
        lemma_first_invalid_concat(a.drop_first(), b);
    }
}

/// The first occurrences of `v`, in order.
fn dedup_strings(v: &Vec<String>) -> (r: Vec<String>)
    ensures
        strings_view(r@) == dedup(strings_view(v@)),
{
    let ghost s = strings_view(v@);
    let mut out: Vec<String> = Vec::new();
    let mut i: usize = 0;
    proof {
        assert(s.take(0) =~= Seq::<Seq<char>>::empty());
        assert(strings_view(out@) =~= Seq::<Seq<char>>::empty());
    }
    while i < v.len()
        invariant
            s == strings_view(v@),
            i <= v@.len(),
            strings_view(out@) == dedup(s.take(i as int)),
        decreases v@.len() - i,
    {
        proof {
            assert(s.take(i + 1).drop_last() =~= s.take(i as int));
            assert(s.take(i + 1).last() == v@[i as int]@);
        }
        if !contains_str(&out, v[i].as_str()) {
            let ghost before = strings_view(out@);
            out.push(v[i].clone());
            proof {
                assert(strings_view(out@) =~= before.push(v@[i as int]@));
            }
        }
        i = i + 1;
    }
    proof {
        assert(s.take(v@.len() as int) =~= s);
    }
    out
}

fn compile_tag(tag: &str, ts: &TagSchema) -> (r: Result<CompiledTagSchema, SchemaError>)
    ensures
        match r {
            Ok(c) => compile_tag_spec(tag@, ts@) == Ok::<_, SchemaFailure>(c@),
            Err(e) => compile_tag_spec(tag@, ts@) == Err::<CompiledTagModel, _>(e@),
        },
{
    if !is_valid_name(tag) {
        return Err(SchemaError::InvalidName { scope: "tag", name: tag.to_owned() });
    }
    if ts.duplicate_attrs.len() > 0 {
        return Err(SchemaError::DuplicateAttr { tag: tag.to_owned(), attr: ts.duplicate_attrs[0].clone() });
    }
    let attrs = match compile_attr_list(tag, &ts.attrs) {
        Ok(a) => a,
        Err(e) => {
            return Err(e);
        },
    };
    proof {
        lemma_first_invalid_concat(ts@.children_required, ts@.children_optional);
    }
    match find_invalid(&ts.children_required) {
        Some(k) => {
            return Err(SchemaError::InvalidName { scope: "child", name: ts.children_required[k].clone() });
        },
        None => {},
    }
    match find_invalid(&ts.children_optional) {
        Some(k) => {
            return Err(SchemaError::InvalidName { scope: "child", name: ts.children_optional[k].clone() });
        },
        None => {},
    }
    let children_required = dedup_strings(&ts.children_required);
    let mut children_allowed: Vec<String> = Vec::new();
    clone_strings(&ts.children_required, &mut children_allowed);
    clone_strings(&ts.children_optional, &mut children_allowed);
    proof {
        assert(strings_view(children_allowed@) =~= ts@.children_required + ts@.children_optional);
    }
    Ok(
        CompiledTagSchema {
            attrs,
            children_required,
            children_allowed,
            children_exclusive: ts.children_exclusive,
            content_required: ts.content_required,
        },
    )
}

impl SchemaBuilder {
    /// The registered tags stay ordered by name.
    #[verifier::type_invariant]
    closed spec fn inv(self) -> bool {
        keys_sorted(entries_view(self.tags@))
    }

    /// Add a tag to the schema, its rules configured by `f` from an empty
    /// [`TagBuilder`]. Registering the same tag name twice is a build
    /// error: the second registration replaces the first, and
    /// [`Self::try_build`] returns [`SchemaError::DuplicateTag`].
    pub fn tag<F>(self, name: &str, f: F) -> (r: SchemaBuilder) where F: FnOnce(TagBuilder) -> TagBuilder
        requires
            forall|b: TagBuilder| b@ == empty_tag() ==> call_requires(f, (b,)),
        ensures
            exists|b: TagBuilder, t: TagBuilder|
                b@ == empty_tag() && call_ensures(f, (b,), t) && r@ == builder_with_tag(self@, name@, t@),
    {
        proof {
            use_type_invariant(&self);
        }
        let ghost old_view = self@;
        let SchemaBuilder { mut tags, mut duplicates } = self;
        let b = TagBuilder::new();
        let ghost gb = b;
        let t = f(b);
        let ghost gt = t;
        let TagBuilder { schema } = t;
        let ghost before = entries_view(tags@);
        let replaced = insert_entry(&mut tags, name.to_owned(), schema);
        let ghost dups_before = strings_view(duplicates@);
        if replaced {
            duplicates.push(name.to_owned());
        }
        proof {
            lemma_insert_sorted(before, name@, gt@);
            assert(strings_view(duplicates@) =~= if has_key(before, name@) {
                dups_before.push(name@)
            } else {
                dups_before
            });
        }
        let r = SchemaBuilder { tags, duplicates };
        proof {
            assert(r@ == builder_with_tag(old_view, name@, gt@));
        }
        r
    }

    fn compile(&self) -> (r: Result<Schema, SchemaError>)
        ensures
            match r {
                Ok(s) => build_spec(self@) == Ok::<_, SchemaFailure>(s@),
                Err(e) => build_spec(self@) == Err::<Seq<(Seq<char>, CompiledTagModel)>, _>(e@),
            },
    {
        if self.duplicates.len() > 0 {
            return Err(SchemaError::DuplicateTag { tag: self.duplicates[0].clone() });
        }
        let ghost s = self@.tags;
        let mut out: Vec<(String, CompiledTagSchema)> = Vec::new();
        let mut i: usize = 0;
        proof {
            assert(s.take(0) =~= Seq::<(Seq<char>, TagModel)>::empty());
            assert(entries_view(out@) =~= Seq::<(Seq<char>, CompiledTagModel)>::empty());
        }
        while i < self.tags.len()
            invariant
                s == self@.tags,
                s == entries_view(self.tags@),
                self.duplicates@.len() == 0,
                i <= self.tags@.len(),
                compile_tags(s.take(i as int)) == Ok::<_, SchemaFailure>(entries_view(out@)),
            decreases self.tags@.len() - i,
        {
            let name = &self.tags[i].0;
            proof {
                assert(s.take(i + 1).drop_last() =~= s.take(i as int));
                assert(s.take(i + 1).last() == (name@, self.tags@[i as int].1@));
            }
            match compile_tag(name.as_str(), &self.tags[i].1) {
                Ok(c) => {
                    let ghost before = entries_view(out@);
                    out.push((name.clone(), c));
                    proof {
                        assert(entries_view(out@) =~= before.push((name@, c@)));
                    }
                },
                Err(e) => {
                    proof {
                        lemma_compile_tags_err(s, i + 1);
                    }
                    return Err(e);
                },
            }
            i = i + 1;
        }
        proof {
            assert(s.take(self.tags@.len() as int) =~= s);
        }
        Ok(Schema { tags: out })
    }

    /// Finalize the schema, returning an error instead of panicking on
    /// invalid input: a repeated tag, then the first tag (in name order)
    /// with an invalid name, a repeated attribute, an invalid attribute
    /// name or pattern, or an invalid child name.
    pub fn try_build(self) -> (r: Result<Schema, SchemaError>)
        ensures
            match r {
                Ok(s) => build_spec(self@) == Ok::<_, SchemaFailure>(s@),
                Err(e) => build_spec(self@) == Err::<Seq<(Seq<char>, CompiledTagModel)>, _>(e@),
            },
    {
        self.compile()
    }

    /// Finalize a schema that [`Self::try_build`] accepts.
    pub fn build(self) -> (r: Schema)
        requires
            build_spec(self@) is Ok,
        ensures
            build_spec(self@) == Ok::<_, SchemaFailure>(r@),
    {
        match self.compile() {
            Ok(s) => s,
            Err(_) => {
                proof {
                    assert(false);
                }
                Schema { tags: Vec::new() }
            },
        }
    }

    /// [`Self::build`] when the schema is valid, `None` when it is not.
    pub fn build_if_valid(self) -> (r: Option<Schema>)
        ensures
            r is Some <==> build_spec(self@) is Ok,
            r matches Some(s) ==> build_spec(self@) == Ok::<_, SchemaFailure>(s@),
    {
        match self.compile() {
            Ok(_) => Some(self.build()),
            Err(_) => None,
        }
    }
}

// ─── Laws ────────────────────────────────────────────────────────────────

/// Registering a tag name that is already registered makes the build fail
/// with a duplicate-tag error, whatever the rules: a repeat never silently
/// overwrites earlier rules.
pub proof fn law_duplicate_tag_rejected(b: BuilderModel, name: Seq<char>, t: TagModel)
    requires
        has_key(b.tags, name),
    ensures
        build_spec(builder_with_tag(b, name, t)) == Err::<Seq<(Seq<char>, CompiledTagModel)>, _>(
            SchemaFailure::DuplicateTag { tag: b.duplicates.push(name)[0] },
        ),
{
}

/// Declaring an attribute twice on a tag with a valid name makes that
/// tag's compilation fail with a duplicate-attribute error.
pub proof fn law_duplicate_attr_rejected(tag: Seq<char>, t: TagModel, name: Seq<char>, c: ConstraintModel)
    requires
        valid_name(tag),
        has_key(t.attrs, name),
    ensures
        compile_tag_spec(tag, tag_with_attr(t, name, c)) == Err::<CompiledTagModel, _>(
            SchemaFailure::DuplicateAttr { tag, attr: t.duplicate_attrs.push(name)[0] },
        ),
{
}

/// The rules registered last for a name are the ones a builder holds for
/// it; other names keep theirs.
pub proof fn law_registration_replaces(b: BuilderModel, name: Seq<char>, t: TagModel, other: Seq<char>)
    requires
        keys_sorted(b.tags),
    ensures
        crate::order::lookup(builder_with_tag(b, name, t).tags, name) == Some(t),
        other != name ==> crate::order::lookup(builder_with_tag(b, name, t).tags, other)
            == crate::order::lookup(b.tags, other),
{
    lemma_insert_sorted(b.tags, name, t);
}

} // verus!
