//! # marxml
//!
//! Markdown documents with embedded XML-shaped tags: parse them, query them
//! with CSS-style selectors, rewrite them surgically, validate them against a
//! declarative schema, and serialize the element tree back out.
//!
//! - [`parse`] / [`parse_fragment`] / [`parse_owned`] build a [`Markdown`]
//!   document from a source string.
//! - [`Selector`] compiles a CSS-subset selector once for reuse.
//! - [`Markdown::update`], [`Markdown::replace_content`] and
//!   [`Markdown::replace_in`] return rewritten source.
//! - [`Schema`] with [`validate`] checks a document against declared rules.
//! - [`Markdown::to_xml`] and [`Markdown::to_json`] with [`SerializeOpts`]
//!   render the parsed tree.

pub mod document;
pub mod error;
pub mod escape;
pub mod json;
pub mod mutate;
pub mod node;
pub mod order;
pub mod parse;
pub mod pattern;
pub mod render;
pub mod schema;
pub mod selector;
pub mod serialize;
pub mod shape;
pub mod source;
pub mod tokenizer;
pub mod types;
pub mod validate;

pub use document::Markdown;
pub use error::{MalformedAttrKind, MalformedTagKind, ParseError};
pub use escape::{escape_attr, escape_text, is_valid_name};
pub use json::JsonValue;
pub use mutate::{MutateError, MutationReport};
pub use parse::{parse, parse_fragment, parse_owned, MAX_DEPTH, MAX_INPUT_BYTES};
pub use pattern::Pattern;
pub use schema::{AttrConstraint, AttrKind, Schema, SchemaBuilder, SchemaError, TagBuilder};
pub use selector::{Selector, SelectorError, SyntaxKind};
pub use serialize::SerializeOpts;
pub use types::{ElementRef, SourcePosition, SourceSpan};
pub use validate::{validate, InvalidAttrKind, ValidationError, ValidationReport};
