//! Error types produced by parsing.

use crate::render::{char_debug_text, debug_char, decimal, push_decimal, push_str};
use vstd::prelude::*;

verus! {

/// Errors returned from [`crate::parse`] and [`crate::parse_fragment`].
///
/// Every variant except [`ParseError::InputTooLarge`] carries a 1-based
/// `line` number pointing at the offending position in the source document.
/// [`ParseError::message`] renders a human-readable message that includes
/// the line number.
#[derive(Debug, Clone, PartialEq, Eq)]
#[non_exhaustive]
pub enum ParseError {
    /// An opening tag had no matching closing tag.
    UnclosedTag {
        /// Tag name that was never closed.
        tag: String,
        /// 1-based line of the opening tag.
        line: u32,
    },
    /// A closing tag did not match the most recent open tag.
    MismatchedClose {
        /// Tag name that was found in the closing position.
        found: String,
        /// Tag name expected based on the most recent open tag.
        expected: String,
        /// 1-based line of the closing tag.
        line: u32,
    },
    /// A closing tag appeared with no corresponding open tag.
    StrayClose {
        /// Tag name in the closing position.
        tag: String,
        /// 1-based line of the closing tag.
        line: u32,
    },
    /// A tag was malformed — for example, an unterminated `<` at end of input.
    MalformedTag {
        /// Specific failure mode.
        kind: MalformedTagKind,
        /// 1-based line of the malformed tag.
        line: u32,
    },
    /// An element's attribute was malformed (e.g. missing closing quote).
    MalformedAttribute {
        /// Tag name carrying the attribute.
        tag: String,
        /// Specific failure mode.
        kind: MalformedAttrKind,
        /// 1-based line of the offending attribute.
        line: u32,
    },
    /// An element repeated the tag and `id` attribute of a sibling or of an
    /// element that encloses it.
    DuplicateId {
        /// Tag name where the duplicate was detected.
        tag: String,
        /// The repeated `id` value.
        id: String,
        /// 1-based line of the duplicate.
        line: u32,
    },
    /// Element nesting exceeded the configured maximum depth.
    MaxDepthExceeded {
        /// Tag that pushed past the limit.
        tag: String,
        /// Configured maximum depth.
        max: u32,
        /// 1-based line of the offending opening tag.
        line: u32,
    },
    /// Two attributes with the same name appeared on a single element.
    DuplicateAttr {
        /// Tag carrying the duplicate.
        tag: String,
        /// Repeated attribute name.
        attr: String,
        /// 1-based line of the duplicate.
        line: u32,
    },
    /// Input exceeded the maximum byte length the parser can address.
    InputTooLarge {
        /// Byte length of the offending input.
        size: u64,
        /// Configured maximum byte length.
        max: u64,
    },
}

/// Specific kinds of [`ParseError::MalformedTag`].
#[derive(Debug, Clone, PartialEq, Eq)]
#[non_exhaustive]
pub enum MalformedTagKind {
    /// `</name>` was missing its terminating `>`.
    ExpectedCloseAngle {
        /// Name in the closing position.
        tag: String,
    },
    /// `<name …` reached end-of-input before any terminator.
    UnterminatedOpenTag {
        /// Name of the open tag that never terminated.
        tag: String,
    },
    /// `<name … /` was missing the `>` that completes a self-closing tag.
    ExpectedCloseSlashAngle {
        /// Name of the self-closing tag.
        tag: String,
    },
    /// `<!--` was never closed by `-->`.
    UnterminatedComment,
    /// `<![CDATA[` was never closed by `]]>`.
    UnterminatedCdata,
}

/// Specific kinds of [`ParseError::MalformedAttribute`].
#[derive(Debug, Clone, PartialEq, Eq)]
#[non_exhaustive]
pub enum MalformedAttrKind {
    /// Attribute name began with a character that is not a valid XML
    /// name-start byte.
    UnexpectedNameStart {
        /// Character found where a name-start was expected.
        found: char,
    },
    /// `name…` had no `=` separating it from a value.
    ExpectedEquals {
        /// Attribute name that was missing its `=`.
        attr: String,
    },
    /// `name=` had no opening `"` for the value.
    ExpectedOpenQuote {
        /// Attribute name whose value opened without a quote.
        attr: String,
    },
    /// `name="…` reached end-of-input before the closing `"`.
    UnterminatedValue {
        /// Attribute name whose value never terminated.
        attr: String,
    },
}

/// Mathematical form of [`MalformedTagKind`].
pub enum TagFault {
    ExpectedCloseAngle { tag: Seq<char> },
    UnterminatedOpenTag { tag: Seq<char> },
    ExpectedCloseSlashAngle { tag: Seq<char> },
    UnterminatedComment,
    UnterminatedCdata,
}

/// Mathematical form of [`MalformedAttrKind`].
pub enum AttrFault {
    UnexpectedNameStart { found: char },
    ExpectedEquals { attr: Seq<char> },
    ExpectedOpenQuote { attr: Seq<char> },
    UnterminatedValue { attr: Seq<char> },
}

/// Mathematical form of [`ParseError`].
pub enum ParseFailure {
    UnclosedTag { tag: Seq<char>, line: nat },
    MismatchedClose { found: Seq<char>, expected: Seq<char>, line: nat },
    StrayClose { tag: Seq<char>, line: nat },
    MalformedTag { kind: TagFault, line: nat },
    MalformedAttribute { tag: Seq<char>, kind: AttrFault, line: nat },
    DuplicateId { tag: Seq<char>, id: Seq<char>, line: nat },
    MaxDepthExceeded { tag: Seq<char>, max: nat, line: nat },
    DuplicateAttr { tag: Seq<char>, attr: Seq<char>, line: nat },
    InputTooLarge { size: nat, max: nat },
}

impl View for MalformedTagKind {
    type V = TagFault;

    open spec fn view(&self) -> TagFault {
        match self {
            MalformedTagKind::ExpectedCloseAngle { tag } => TagFault::ExpectedCloseAngle { tag: tag@ },
            MalformedTagKind::UnterminatedOpenTag { tag } => TagFault::UnterminatedOpenTag {
                tag: tag@,
            },
            MalformedTagKind::ExpectedCloseSlashAngle { tag } => TagFault::ExpectedCloseSlashAngle {
                tag: tag@,
            },
            MalformedTagKind::UnterminatedComment => TagFault::UnterminatedComment,
            MalformedTagKind::UnterminatedCdata => TagFault::UnterminatedCdata,
        }
    }
}

impl View for MalformedAttrKind {
    type V = AttrFault;

    open spec fn view(&self) -> AttrFault {
        match self {
            MalformedAttrKind::UnexpectedNameStart { found } => AttrFault::UnexpectedNameStart {
                found: *found,
            },
            MalformedAttrKind::ExpectedEquals { attr } => AttrFault::ExpectedEquals { attr: attr@ },
            MalformedAttrKind::ExpectedOpenQuote { attr } => AttrFault::ExpectedOpenQuote {
                attr: attr@,
            },
            MalformedAttrKind::UnterminatedValue { attr } => AttrFault::UnterminatedValue {
                attr: attr@,
            },
        }
    }
}

impl View for ParseError {
    type V = ParseFailure;

    open spec fn view(&self) -> ParseFailure {
        match self {
            ParseError::UnclosedTag { tag, line } => ParseFailure::UnclosedTag {
                tag: tag@,
                line: *line as nat,
            },
            ParseError::MismatchedClose { found, expected, line } => ParseFailure::MismatchedClose {
                found: found@,
                expected: expected@,
                line: *line as nat,
            },
            ParseError::StrayClose { tag, line } => ParseFailure::StrayClose {
                tag: tag@,
                line: *line as nat,
            },
            ParseError::MalformedTag { kind, line } => ParseFailure::MalformedTag {
                kind: kind@,
                line: *line as nat,
            },
            ParseError::MalformedAttribute { tag, kind, line } => ParseFailure::MalformedAttribute {
                tag: tag@,
                kind: kind@,
                line: *line as nat,
            },
            ParseError::DuplicateId { tag, id, line } => ParseFailure::DuplicateId {
                tag: tag@,
                id: id@,
                line: *line as nat,
            },
            ParseError::MaxDepthExceeded { tag, max, line } => ParseFailure::MaxDepthExceeded {
                tag: tag@,
                max: *max as nat,
                line: *line as nat,
            },
            ParseError::DuplicateAttr { tag, attr, line } => ParseFailure::DuplicateAttr {
                tag: tag@,
                attr: attr@,
                line: *line as nat,
            },
            ParseError::InputTooLarge { size, max } => ParseFailure::InputTooLarge {
                size: *size as nat,
                max: *max as nat,
            },
        }
    }
}

/// The line a failure points at; 0 for an input rejected before scanning.
pub open spec fn failure_line(e: ParseFailure) -> nat {
    match e {
        ParseFailure::UnclosedTag { line, .. } => line,
        ParseFailure::MismatchedClose { line, .. } => line,
        ParseFailure::StrayClose { line, .. } => line,
        ParseFailure::MalformedTag { line, .. } => line,
        ParseFailure::MalformedAttribute { line, .. } => line,
        ParseFailure::DuplicateId { line, .. } => line,
        ParseFailure::MaxDepthExceeded { line, .. } => line,
        ParseFailure::DuplicateAttr { line, .. } => line,
        ParseFailure::InputTooLarge { .. } => 0,
    }
}

/// Human-readable rendering of a [`TagFault`].
pub open spec fn tag_fault_text(k: TagFault) -> Seq<char> {
    match k {
        TagFault::ExpectedCloseAngle { tag } => "expected '>' to close </"@ + tag + ">"@,
        TagFault::UnterminatedOpenTag { tag } => "<"@ + tag + "> not terminated"@,
        TagFault::ExpectedCloseSlashAngle { tag } => "expected '>' after '/' in <"@ + tag + "/>"@,
        TagFault::UnterminatedComment => "unterminated <!-- comment"@,
        TagFault::UnterminatedCdata => "unterminated <![CDATA[ section"@,
    }
}

/// Human-readable rendering of an [`AttrFault`].
pub open spec fn attr_fault_text(k: AttrFault) -> Seq<char> {
    match k {
        AttrFault::UnexpectedNameStart { found } => "unexpected character "@ + char_debug_text(found)
            + " at start of attribute name"@,
        AttrFault::ExpectedEquals { attr } => "expected '=' after attribute "@ + attr,
        AttrFault::ExpectedOpenQuote { attr } => "expected '\"' to open value of "@ + attr,
        AttrFault::UnterminatedValue { attr } => "unterminated value of "@ + attr,
    }
}

/// Human-readable rendering of a [`ParseFailure`].
pub open spec fn parse_failure_text(e: ParseFailure) -> Seq<char> {
    match e {
        ParseFailure::UnclosedTag { tag, line } => "line "@ + decimal(line) + ": <"@ + tag
            + "> has no matching </"@ + tag + ">"@,
        ParseFailure::MismatchedClose { found, expected, line } => "line "@ + decimal(line)
            + ": </"@ + found + "> does not match the most recent open tag <"@ + expected + ">"@,
        ParseFailure::StrayClose { tag, line } => "line "@ + decimal(line) + ": </"@ + tag
            + "> has no matching open tag"@,
        ParseFailure::MalformedTag { kind, line } => "line "@ + decimal(line)
            + ": malformed tag \u{2014} "@ + tag_fault_text(kind),
        ParseFailure::MalformedAttribute { tag, kind, line } => "line "@ + decimal(line)
            + ": malformed attribute on <"@ + tag + "> \u{2014} "@ + attr_fault_text(kind),
        ParseFailure::DuplicateId { tag, id, line } => "line "@ + decimal(line)
            + ": duplicate id=\""@ + id + "\" on <"@ + tag + ">"@,
        ParseFailure::MaxDepthExceeded { tag, max, line } => "line "@ + decimal(line) + ": <"@
            + tag + "> exceeds maximum nesting depth of "@ + decimal(max),
        ParseFailure::DuplicateAttr { tag, attr, line } => "line "@ + decimal(line)
            + ": duplicate attribute "@ + attr + " on <"@ + tag + ">"@,
        ParseFailure::InputTooLarge { size, max } => "input is "@ + decimal(size)
            + " bytes \u{2014} exceeds maximum of "@ + decimal(max) + " bytes"@,
    }
}

impl MalformedTagKind {
    /// Human-readable description of this failure mode.
    pub fn message(&self) -> (r: String)
        ensures
            r@ == tag_fault_text(self@),
    {
        let mut out = String::new();
        match self {
            MalformedTagKind::ExpectedCloseAngle { tag } => {
                push_str(&mut out, "expected '>' to close </");
                push_str(&mut out, tag.as_str());
                push_str(&mut out, ">");
            },
            MalformedTagKind::UnterminatedOpenTag { tag } => {
                push_str(&mut out, "<");
                push_str(&mut out, tag.as_str());
                push_str(&mut out, "> not terminated");
            },
            MalformedTagKind::ExpectedCloseSlashAngle { tag } => {
                push_str(&mut out, "expected '>' after '/' in <");
                push_str(&mut out, tag.as_str());
                push_str(&mut out, "/>");
            },
            MalformedTagKind::UnterminatedComment => {
                push_str(&mut out, "unterminated <!-- comment");
            },
            MalformedTagKind::UnterminatedCdata => {
                push_str(&mut out, "unterminated <![CDATA[ section");
            },
        }
        proof {
            assert(out@ =~= tag_fault_text(self@));
        }
        out
    }
}

impl MalformedAttrKind {
    /// Human-readable description of this failure mode.
    pub fn message(&self) -> (r: String)
        ensures
            r@ == attr_fault_text(self@),
    {
        let mut out = String::new();
        match self {
            MalformedAttrKind::UnexpectedNameStart { found } => {
                push_str(&mut out, "unexpected character ");
                let d = debug_char(*found);
                push_str(&mut out, d.as_str());
                push_str(&mut out, " at start of attribute name");
            },
            MalformedAttrKind::ExpectedEquals { attr } => {
                push_str(&mut out, "expected '=' after attribute ");
                push_str(&mut out, attr.as_str());
            },
            MalformedAttrKind::ExpectedOpenQuote { attr } => {
                push_str(&mut out, "expected '\"' to open value of ");
                push_str(&mut out, attr.as_str());
            },
            MalformedAttrKind::UnterminatedValue { attr } => {
                push_str(&mut out, "unterminated value of ");
                push_str(&mut out, attr.as_str());
            },
        }
        proof {
            assert(out@ =~= attr_fault_text(self@));
        }
        out
    }
}

impl ParseError {
    /// 1-based line number where the error was detected.
    ///
    /// [`ParseError::InputTooLarge`] is raised before the input is scanned,
    /// so it has no source position and reports line `0`.
    pub fn line(&self) -> (r: u32)
        ensures
            r as nat == failure_line(self@),
    {
        match self {
            ParseError::UnclosedTag { line, .. } => *line,
            ParseError::MismatchedClose { line, .. } => *line,
            ParseError::StrayClose { line, .. } => *line,
            ParseError::MalformedTag { line, .. } => *line,
            ParseError::MalformedAttribute { line, .. } => *line,
            ParseError::DuplicateId { line, .. } => *line,
            ParseError::MaxDepthExceeded { line, .. } => *line,
            ParseError::DuplicateAttr { line, .. } => *line,
            ParseError::InputTooLarge { .. } => 0,
        }
    }

    /// Human-readable message, including the line number.
    pub fn message(&self) -> (r: String)
        ensures
            r@ == parse_failure_text(self@),
    {
        let mut out = String::new();
        match self {
            ParseError::UnclosedTag { tag, line } => {
                push_str(&mut out, "line ");
                push_decimal(&mut out, *line as u64);
                push_str(&mut out, ": <");
                push_str(&mut out, tag.as_str());
                push_str(&mut out, "> has no matching </");
                push_str(&mut out, tag.as_str());
                push_str(&mut out, ">");
            },
            ParseError::MismatchedClose { found, expected, line } => {
                push_str(&mut out, "line ");
                push_decimal(&mut out, *line as u64);
                push_str(&mut out, ": </");
                push_str(&mut out, found.as_str());
                push_str(&mut out, "> does not match the most recent open tag <");
                push_str(&mut out, expected.as_str());
                push_str(&mut out, ">");
            },
            ParseError::StrayClose { tag, line } => {
                push_str(&mut out, "line ");
                push_decimal(&mut out, *line as u64);
                push_str(&mut out, ": </");
                push_str(&mut out, tag.as_str());
                push_str(&mut out, "> has no matching open tag");
            },
            ParseError::MalformedTag { kind, line } => {
                push_str(&mut out, "line ");
                push_decimal(&mut out, *line as u64);
                push_str(&mut out, ": malformed tag \u{2014} ");
                let k = kind.message();
                push_str(&mut out, k.as_str());
            },
            ParseError::MalformedAttribute { tag, kind, line } => {
                push_str(&mut out, "line ");
                push_decimal(&mut out, *line as u64);
                push_str(&mut out, ": malformed attribute on <");
                push_str(&mut out, tag.as_str());
                push_str(&mut out, "> \u{2014} ");
                let k = kind.message();
                push_str(&mut out, k.as_str());
            },
            ParseError::DuplicateId { tag, id, line } => {
                push_str(&mut out, "line ");
                push_decimal(&mut out, *line as u64);
                push_str(&mut out, ": duplicate id=\"");
                push_str(&mut out, id.as_str());
                push_str(&mut out, "\" on <");
                push_str(&mut out, tag.as_str());
                push_str(&mut out, ">");
            },
            ParseError::MaxDepthExceeded { tag, max, line } => {
                push_str(&mut out, "line ");
                push_decimal(&mut out, *line as u64);
                push_str(&mut out, ": <");
                push_str(&mut out, tag.as_str());
                push_str(&mut out, "> exceeds maximum nesting depth of ");
                push_decimal(&mut out, *max as u64);
            },
            ParseError::DuplicateAttr { tag, attr, line } => {
                push_str(&mut out, "line ");
                push_decimal(&mut out, *line as u64);
                push_str(&mut out, ": duplicate attribute ");
                push_str(&mut out, attr.as_str());
                push_str(&mut out, " on <");
                push_str(&mut out, tag.as_str());
                push_str(&mut out, ">");
            },
            ParseError::InputTooLarge { size, max } => {
                push_str(&mut out, "input is ");
                push_decimal(&mut out, *size);
                push_str(&mut out, " bytes \u{2014} exceeds maximum of ");
                push_decimal(&mut out, *max);
                push_str(&mut out, " bytes");
            },
        }
        proof {
            assert(out@ =~= parse_failure_text(self@));
        }
        out
    }
}

} // verus!
