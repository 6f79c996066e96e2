//! Regular expressions, compiled by the `regex` crate.
//!
//! A [`Pattern`] keeps the source text and the compile options it was
//! built with next to the compiled automaton, so what a pattern matches can
//! be stated in terms of them.

use vstd::prelude::*;

verus! {

#[verifier::external_type_specification]
#[verifier::external_body]
pub struct ExRegex(regex::Regex);

#[verifier::external_type_specification]
#[verifier::external_body]
pub struct ExRegexError(regex::Error);

/// `regex::RegexBuilder::new(pattern)` with `case_insensitive(ci)`,
/// `multi_line(ml)`, `dot_matches_new_line(dot)` and
/// `ignore_whitespace(ws)` builds successfully (with the default size
/// limits).
pub uninterp spec fn regex_builds(pattern: Seq<char>, ci: bool, ml: bool, dot: bool, ws: bool) -> bool;

/// The text that `Display` gives for the error of building `pattern` with
/// those options, when it does not build.
pub uninterp spec fn regex_error_message(pattern: Seq<char>, ci: bool, ml: bool, dot: bool, ws: bool) -> Seq<char>;

/// `Regex::is_match`: the regex built from `pattern` with those options
/// matches somewhere in `hay`.
pub uninterp spec fn regex_is_match(pattern: Seq<char>, ci: bool, ml: bool, dot: bool, ws: bool, hay: Seq<char>) -> bool;

/// `Regex::replace_all` with a literal (`NoExpand`) replacement: every
/// non-overlapping match in `hay` of the regex built from `pattern` with
/// those options, replaced by `rep`.
pub uninterp spec fn regex_replace_all(
    pattern: Seq<char>,
    ci: bool,
    ml: bool,
    dot: bool,
    ws: bool,
    hay: Seq<char>,
    rep: Seq<char>,
) -> Seq<char>;

/// Compile options of a regular expression (all off by default).
#[derive(Debug, Clone, Copy, PartialEq, Eq)]
pub struct RegexFlags {
    /// Letters match regardless of case (`i`).
    pub case_insensitive: bool,
    /// `^` and `$` match at line ends (`m`).
    pub multi_line: bool,
    /// `.` matches `\n` too (`s`).
    pub dot_matches_new_line: bool,
    /// Whitespace and `#` comments in the pattern are ignored (`x`).
    pub ignore_whitespace: bool,
}

impl RegexFlags {
    /// Every option off: what `Regex::new` compiles with.
    pub fn none() -> (r: RegexFlags)
        ensures
            r == no_flags(),
    {
        RegexFlags { case_insensitive: false, multi_line: false, dot_matches_new_line: false, ignore_whitespace: false }
    }
}

pub open spec fn no_flags() -> RegexFlags {
    RegexFlags { case_insensitive: false, multi_line: false, dot_matches_new_line: false, ignore_whitespace: false }
}

/// What a pattern is compiled from: its source text and options.
pub struct PatternModel {
    pub source: Seq<char>,
    pub flags: RegexFlags,
}

/// `source` with options `f` compiles.
pub open spec fn pattern_builds(source: Seq<char>, f: RegexFlags) -> bool {
    regex_builds(source, f.case_insensitive, f.multi_line, f.dot_matches_new_line, f.ignore_whitespace)
}

/// The error text for `source` with options `f`, when it does not compile.
pub open spec fn pattern_error_message(source: Seq<char>, f: RegexFlags) -> Seq<char> {
    regex_error_message(source, f.case_insensitive, f.multi_line, f.dot_matches_new_line, f.ignore_whitespace)
}

/// The pattern matches somewhere in `hay`.
pub open spec fn pattern_is_match(p: PatternModel, hay: Seq<char>) -> bool {
    regex_is_match(
        p.source,
        p.flags.case_insensitive,
        p.flags.multi_line,
        p.flags.dot_matches_new_line,
        p.flags.ignore_whitespace,
        hay,
    )
}

/// Every match of the pattern in `hay` replaced by `rep`, literally.
pub open spec fn pattern_replace_all(p: PatternModel, hay: Seq<char>, rep: Seq<char>) -> Seq<char> {
    regex_replace_all(
        p.source,
        p.flags.case_insensitive,
        p.flags.multi_line,
        p.flags.dot_matches_new_line,
        p.flags.ignore_whitespace,
        hay,
        rep,
    )
}

/// Compiles `pattern` with `regex::Regex::new`, which is
/// `RegexBuilder::new(pattern).build()` with every option off. The
/// contract states when compilation succeeds through [`regex_builds`];
/// which patterns the crate accepts is its grammar and is not restated.
#[verifier::external_body]
fn regex_new(pattern: &str) -> (r: Result<regex::Regex, regex::Error>)
    ensures
        r is Ok <==> regex_builds(pattern@, false, false, false, false),
{
    regex::Regex::new(pattern)
}

/// Compiles `pattern` with `regex::RegexBuilder`, setting the four options
/// given; succeeds exactly when [`regex_builds`] says so. On failure it
/// hands back the error together with its `Display` text, which depends on
/// the pattern and options alone and is named [`regex_error_message`].
#[verifier::external_body]
fn regex_build(pattern: &str, ci: bool, ml: bool, dot: bool, ws: bool) -> (r: Result<
    regex::Regex,
    (regex::Error, String),
>)
    ensures
        r is Ok <==> regex_builds(pattern@, ci, ml, dot, ws),
        r matches Err((_, m)) ==> m@ == regex_error_message(pattern@, ci, ml, dot, ws),
{
    let built = regex::RegexBuilder::new(pattern)
        .case_insensitive(ci)
        .multi_line(ml)
        .dot_matches_new_line(dot)
        .ignore_whitespace(ws)
        .build();
    match built {
        Ok(re) => Ok(re),
        Err(e) => {
            let m = format!("{e}");
            Err((e, m))
        },
    }
}

/// A compiled regular expression together with its source text and
/// options.
#[derive(Debug)]
pub struct Pattern {
    source: String,
    flags: RegexFlags,
    re: regex::Regex,
}

impl View for Pattern {
    type V = PatternModel;

    closed spec fn view(&self) -> PatternModel {
        PatternModel { source: self.source@, flags: self.flags }
    }
}

impl Pattern {
    /// Compile `source` as a regular expression with every option off;
    /// fails (with the `regex` crate's error) exactly when the crate
    /// rejects it.
    pub fn new(source: &str) -> (r: Result<Pattern, regex::Error>)
        ensures
            r is Ok <==> pattern_builds(source@, no_flags()),
            r matches Ok(p) ==> p@ == (PatternModel { source: source@, flags: no_flags() }),
    {
        match regex_new(source) {
            Ok(re) => Ok(Pattern { source: source.to_owned(), flags: RegexFlags::none(), re }),
            Err(e) => Err(e),
        }
    }

    /// Compile `source` with the options `flags`.
    pub fn with_flags(source: &str, flags: RegexFlags) -> (r: Result<Pattern, regex::Error>)
        ensures
            r is Ok <==> pattern_builds(source@, flags),
            r matches Ok(p) ==> p@ == (PatternModel { source: source@, flags }),
    {
        match Self::build_described(source, flags) {
            Ok(p) => Ok(p),
            Err((e, _)) => Err(e),
        }
    }

    /// Like [`Self::with_flags`], also giving the error's text on failure.
    pub(crate) fn build_described(source: &str, flags: RegexFlags) -> (r: Result<Pattern, (regex::Error, String)>)
        ensures
            r is Ok <==> pattern_builds(source@, flags),
            r matches Ok(p) ==> p@ == (PatternModel { source: source@, flags }),
            r matches Err((_, m)) ==> m@ == pattern_error_message(source@, flags),
    {
        match regex_build(
            source,
            flags.case_insensitive,
            flags.multi_line,
            flags.dot_matches_new_line,
            flags.ignore_whitespace,
        ) {
            Ok(re) => Ok(Pattern { source: source.to_owned(), flags, re }),
            Err(e) => Err(e),
        }
    }

    /// The source text this pattern was compiled from.
    pub fn as_str(&self) -> (r: &str)
        ensures
            r@ == self@.source,
    {
        self.source.as_str()
    }

    /// `Regex::is_match` on the compiled pattern: whether it matches
    /// anywhere in `hay`. The contract names the result through
    /// [`regex_is_match`] of the source and options the pattern was built
    /// from.
    #[verifier::external_body]
    pub(crate) fn is_match(&self, hay: &str) -> (r: bool)
        ensures
            r == regex_is_match(
                self@.source,
                self@.flags.case_insensitive,
                self@.flags.multi_line,
                self@.flags.dot_matches_new_line,
                self@.flags.ignore_whitespace,
                hay@,
            ),
    {
        self.re.is_match(hay)
    }

    /// `Regex::replace_all` with `regex::NoExpand(rep)`: every match in `hay`
    /// replaced by `rep` written literally (`$1` stays `$1`). The contract
    /// names the result through [`regex_replace_all`], and states what the
    /// crate documents for a haystack without a match: it comes back
    /// unchanged.
    #[verifier::external_body]
    pub(crate) fn replace_all_literal(&self, hay: &str, rep: &str) -> (r: String)
        ensures
            r@ == regex_replace_all(
                self@.source,
                self@.flags.case_insensitive,
                self@.flags.multi_line,
                self@.flags.dot_matches_new_line,
                self@.flags.ignore_whitespace,
                hay@,
                rep@,
            ),
            !regex_is_match(
                self@.source,
                self@.flags.case_insensitive,
                self@.flags.multi_line,
                self@.flags.dot_matches_new_line,
                self@.flags.ignore_whitespace,
                hay@,
            ) ==> r@ == hay@,
    {
        self.re.replace_all(hay, regex::NoExpand(rep)).into_owned()
    }
}

} // verus!
