//! The plain-data shapes a JavaScript binding hands across.

use marxml::node::{
    build_schema, compile_regex, error_kind, error_line, error_tag, parse, report_shape, AttrConstraintShape,
    AttrUpdate, Element, RegExpShape, RegexInput, TagSchemaShape, ToXmlOpts,
};
use marxml::schema::AttrKind;
use marxml::{validate, Schema};

fn task_shape() -> TagSchemaShape {
    TagSchemaShape {
        attrs: Some(vec![(
            "id".to_string(),
            AttrConstraintShape { kind: "string".into(), values: None, pattern: None, required: Some(true) },
        )]),
        children_required: Some(vec!["status".to_string()]),
        children_optional: None,
        children_exclusive: Some(true),
        content_required: None,
    }
}

#[test]
fn elements_materialize_the_tree() {
    let handle = parse("x\n<phase id=\"1\">a<task done=\"yes\"/></phase>").unwrap();
    let els = handle.elements();
    assert_eq!(els.len(), 1);
    let phase: &Element = &els[0];
    assert_eq!(phase.tag, "phase");
    assert_eq!(phase.attrs, vec![("id".to_string(), "1".to_string())]);
    assert_eq!(phase.content, "a<task done=\"yes\"/>");
    assert!(!phase.self_closing);
    assert_eq!(phase.loc.start.line, 2);
    assert_eq!(phase.loc.start.offset, 2);
    assert_eq!(phase.children.len(), 1);
    assert_eq!(phase.children[0].tag, "task");
    assert!(phase.children[0].self_closing);
    assert_eq!(phase.children[0].content, "");
}

#[test]
fn select_and_selector_errors() {
    let handle = parse("<a><b/></a><b/>").unwrap();
    let found = handle.select("b").unwrap();
    assert_eq!(found.len(), 2);
    assert_eq!(found[0].loc.start.offset, 3);
    assert_eq!(handle.select("").unwrap_err(), "selector is empty");
    assert_eq!(parse("<a>").err().unwrap(), "line 1: <a> has no matching </a>");
}

#[test]
fn update_and_replace_through_the_handle() {
    let handle = parse("<task id=\"1\">old</task>").unwrap();
    let updates = vec![AttrUpdate { name: "status".into(), value: "done".into() }];
    assert_eq!(
        handle.update_attrs("task", &updates).unwrap(),
        "<task id=\"1\" status=\"done\">old</task>"
    );
    let bad = vec![AttrUpdate { name: "1x".into(), value: "v".into() }];
    assert_eq!(handle.update_attrs("task", &bad).unwrap_err(), "invalid XML attribute name \"1x\"");
    assert_eq!(handle.replace_content("task", "<b/>").unwrap(), "<task id=\"1\"><b/></task>");
    assert_eq!(handle.replace_text("task", "<b/>").unwrap(), "<task id=\"1\">&lt;b/&gt;</task>");
    assert_eq!(handle.raw(), "<task id=\"1\">old</task>");
}

#[test]
fn regex_flags_follow_javascript() {
    let handle = parse("<note>Foo foo</note>").unwrap();
    let ci = RegexInput::Shape(RegExpShape { source: "FOO".into(), flags: Some("gi".into()) });
    assert_eq!(handle.replace_in_content("note", &ci, "x").unwrap(), "<note>x x</note>");
    let plain = RegexInput::Text("foo".into());
    assert_eq!(handle.replace_in_content("note", &plain, "x").unwrap(), "<note>Foo x</note>");
    let bad = RegexInput::Shape(RegExpShape { source: "foo".into(), flags: Some("iq".into()) });
    assert_eq!(handle.replace_in_content("note", &bad, "x").unwrap_err(), "unsupported regex flag: 'q'");
    assert!(compile_regex(&RegexInput::Text("(".into())).is_err());
    let p = compile_regex(&RegexInput::Shape(RegExpShape { source: "a.b".into(), flags: Some("sm".into()) }))
        .unwrap();
    assert_eq!(p.as_str(), "a.b");
}

#[test]
fn to_xml_picks_pretty_or_tight() {
    let handle = parse("<r><a/></r>").unwrap();
    assert_eq!(handle.to_xml(&None), "<r><a/></r>");
    assert_eq!(handle.to_xml(&Some(ToXmlOpts { pretty: Some(true) })), "<r>\n  <a/>\n</r>");
    assert_eq!(handle.to_xml(&Some(ToXmlOpts { pretty: Some(false) })), "<r><a/></r>");
}

#[test]
fn validate_reports_kinds_tags_and_lines() {
    let handle = parse("<task>\n<status/><extra/></task>").unwrap();
    let schema = vec![("task".to_string(), task_shape())];
    let report = handle.validate(&schema).unwrap();
    assert!(!report.valid);
    let kinds: Vec<&str> = report.errors.iter().map(|e| e.kind.as_str()).collect();
    assert_eq!(kinds, vec!["missing_attr", "unexpected_child"]);
    assert_eq!(report.errors[1].line, 2);
    assert_eq!(report.errors[1].tag, "task");
    assert_eq!(report.errors[1].message, "line 2: <task> has unexpected child <extra>");
    let bad = vec![("task".to_string(), TagSchemaShape {
        attrs: None,
        children_required: Some(vec!["1x".into()]),
        children_optional: None,
        children_exclusive: None,
        content_required: None,
    })];
    assert_eq!(handle.validate(&bad).unwrap_err(), "invalid XML name in schema: child \"1x\"");
}

#[test]
fn build_schema_matches_the_builder() {
    let shapes = vec![("task".to_string(), task_shape())];
    let from_shapes = build_schema(&shapes).unwrap();
    let from_builder = Schema::builder()
        .tag("task", |t| t.attr("id", AttrKind::String.required()).child_required("status").exclusive_children())
        .build();
    let doc = marxml::parse("<task><status/><x/></task>").unwrap();
    assert_eq!(validate(&doc, &from_shapes), validate(&doc, &from_builder));
}

#[test]
fn error_helpers_and_report_shape() {
    let doc = marxml::parse("<task/>").unwrap();
    let schema = Schema::builder().tag("task", |t| t.content_required()).build();
    let report = validate(&doc, &schema);
    let e = &report.errors()[0];
    assert_eq!(error_kind(e), "empty_content");
    assert_eq!(error_tag(e), "task");
    assert_eq!(error_line(e), 1);
    let shape = report_shape(&report);
    assert!(!shape.valid);
    assert_eq!(shape.errors[0].message, "line 1: <task> requires non-empty content");
}

#[test]
fn regex_compile_failure_carries_the_engine_message() {
    let bad = RegexInput::Shape(RegExpShape { source: "a(".into(), flags: Some("i".into()) });
    let expected = regex::RegexBuilder::new("a(").case_insensitive(true).build().unwrap_err().to_string();
    assert!(!expected.is_empty());
    assert_eq!(compile_regex(&bad).unwrap_err(), expected);
    let handle = parse("<note>x</note>").unwrap();
    assert_eq!(handle.replace_in_content("note", &bad, "y").unwrap_err(), expected);
}
