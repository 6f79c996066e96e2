//! Integration tests for the validation API.

use marxml::schema::AttrKind;
use marxml::{parse, validate, Schema, ValidationError};

fn task_schema() -> Schema {
    Schema::builder()
        .tag("task", |t| {
            t.attr("id", AttrKind::String.required())
                .attr("status", AttrKind::Enum(vec!["todo".into(), "done".into()]))
                .child_required("status")
                .content_required()
        })
        .build()
}

/// Same as [`task_schema`] but without `content_required`, for tests that
/// focus on attribute or child rules.
fn task_schema_no_content() -> Schema {
    Schema::builder()
        .tag("task", |t| {
            t.attr("id", AttrKind::String.required())
                .attr("status", AttrKind::Enum(vec!["todo".into(), "done".into()]))
                .child_required("status")
        })
        .build()
}

// ─── Happy path ─────────────────────────────────────────────────────────────

#[test]
fn fully_compliant_doc_validates() {
    // `task` requires direct text content as well as a `<status>` child.
    let src = r#"<task id="1" status="todo">buy milk<status>todo</status></task>"#;
    let doc = parse(src).unwrap();
    let report = validate(&doc, &task_schema());
    assert!(report.is_valid(), "got {:?}", report.errors());
    assert!(report.errors().is_empty());
}

#[test]
fn unspecified_tags_are_ignored() {
    let src = "<unscoped/>";
    let doc = parse(src).unwrap();
    let report = validate(&doc, &task_schema());
    assert!(report.is_valid());
}

// ─── MissingAttr ────────────────────────────────────────────────────────────

#[test]
fn missing_required_attr_errors() {
    let src = r#"<task status="todo"><status>todo</status></task>"#;
    let doc = parse(src).unwrap();
    let errors = validate(&doc, &task_schema()).errors().to_vec();
    assert!(errors.iter().any(|e| matches!(
        e,
        ValidationError::MissingAttr { attr, .. } if attr == "id"
    )));
}

#[test]
fn missing_optional_attr_is_fine() {
    let src = r#"<task id="1"><status>todo</status></task>"#;
    let doc = parse(src).unwrap();
    let report = validate(&doc, &task_schema_no_content());
    assert!(report.is_valid(), "got {:?}", report.errors());
}

// ─── InvalidAttr ────────────────────────────────────────────────────────────

#[test]
fn invalid_enum_value_errors() {
    let src = r#"<task id="1" status="bogus"><status>x</status></task>"#;
    let doc = parse(src).unwrap();
    let errors = validate(&doc, &task_schema()).errors().to_vec();
    assert!(errors.iter().any(|e| matches!(
        e,
        ValidationError::InvalidAttr { attr, value, .. }
            if attr == "status" && value == "bogus"
    )));
}

#[test]
fn regex_constraint_rejects_non_matching_value() {
    let schema = Schema::builder()
        .tag("task", |t| {
            t.attr("id", AttrKind::Regex(r"^\d+\.\d+$".into()).required())
        })
        .build();
    let doc = parse(r#"<task id="not-a-number"/>"#).unwrap();
    let errors = validate(&doc, &schema).errors().to_vec();
    assert!(errors.iter().any(|e| matches!(
        e,
        ValidationError::InvalidAttr {
            kind: marxml::InvalidAttrKind::NoRegexMatch { .. },
            ..
        }
    )));
}

#[test]
fn regex_constraint_is_anchored_full_match() {
    // `todo|done` must reject `undone`: the schema regex is anchored.
    let schema = Schema::builder()
        .tag("task", |t| {
            t.attr("status", AttrKind::Regex("todo|done".into()).required())
        })
        .build();
    let bad = parse(r#"<task status="undone"/>"#).unwrap();
    assert!(!validate(&bad, &schema).is_valid());
    let ok = parse(r#"<task status="done"/>"#).unwrap();
    assert!(validate(&ok, &schema).is_valid());
}

#[test]
fn duplicate_tag_in_builder_errors() {
    let result = Schema::builder()
        .tag("task", |t| t.attr("id", AttrKind::String.required()))
        .tag("task", |t| t.child_required("status"))
        .try_build();
    assert!(matches!(
        result,
        Err(marxml::SchemaError::DuplicateTag { .. })
    ));
}

#[test]
fn regex_constraint_accepts_matching_value() {
    let schema = Schema::builder()
        .tag("task", |t| {
            t.attr("id", AttrKind::Regex(r"^\d+\.\d+$".into()).required())
        })
        .build();
    let doc = parse(r#"<task id="4.1"/>"#).unwrap();
    let report = validate(&doc, &schema);
    assert!(report.is_valid());
}

#[test]
fn string_kind_accepts_any_value() {
    let schema = Schema::builder()
        .tag("task", |t| t.attr("id", AttrKind::String.required()))
        .build();
    let doc = parse(r#"<task id="anything goes"/>"#).unwrap();
    assert!(validate(&doc, &schema).is_valid());
}

// ─── MissingChild ───────────────────────────────────────────────────────────

#[test]
fn missing_required_child_errors() {
    let src = r#"<task id="1" status="todo">body</task>"#;
    let doc = parse(src).unwrap();
    let errors = validate(&doc, &task_schema()).errors().to_vec();
    assert!(errors.iter().any(|e| matches!(
        e,
        ValidationError::MissingChild { child, .. } if child == "status"
    )));
}

// ─── UnexpectedChild ────────────────────────────────────────────────────────

#[test]
fn unexpected_child_errors_only_when_exclusive() {
    let permissive_schema = Schema::builder()
        .tag("task", |t| t.child_required("status"))
        .build();
    let doc = parse("<task><status/><stowaway/></task>").unwrap();
    assert!(validate(&doc, &permissive_schema).is_valid());

    let strict_schema = Schema::builder()
        .tag("task", |t| t.child_required("status").exclusive_children())
        .build();
    let errors = validate(&doc, &strict_schema).errors().to_vec();
    assert!(errors.iter().any(|e| matches!(
        e,
        ValidationError::UnexpectedChild { child, .. } if child == "stowaway"
    )));
}

#[test]
fn optional_child_in_exclusive_list_is_allowed() {
    let schema = Schema::builder()
        .tag("task", |t| {
            t.child_required("status")
                .child_optional("note")
                .exclusive_children()
        })
        .build();
    let doc = parse("<task><status/><note/></task>").unwrap();
    assert!(validate(&doc, &schema).is_valid());
}

// ─── EmptyContent ───────────────────────────────────────────────────────────

#[test]
fn empty_content_errors_when_required() {
    let src = r#"<task id="1" status="todo">     </task>"#;
    let doc = parse(src).unwrap();
    let errors = validate(&doc, &task_schema()).errors().to_vec();
    assert!(errors
        .iter()
        .any(|e| matches!(e, ValidationError::EmptyContent { .. })));
    assert!(errors
        .iter()
        .any(|e| matches!(e, ValidationError::MissingChild { .. })));
}

#[test]
fn comment_only_body_fails_content_required() {
    let src = r#"<task id="1" status="todo"><!--just a note--><status>todo</status></task>"#;
    let doc = parse(src).unwrap();
    let errors = validate(&doc, &task_schema()).errors().to_vec();
    assert!(errors
        .iter()
        .any(|e| matches!(e, ValidationError::EmptyContent { .. })));
}

#[test]
fn structural_only_body_fails_content_required() {
    let src = r#"<task id="1" status="todo"><status>todo</status></task>"#;
    let doc = parse(src).unwrap();
    let errors = validate(&doc, &task_schema()).errors().to_vec();
    assert!(errors
        .iter()
        .any(|e| matches!(e, ValidationError::EmptyContent { .. })));
}

#[test]
fn cdata_only_body_fails_content_required() {
    let schema = Schema::builder().tag("title", |t| t.content_required()).build();
    let doc = parse("<title><![CDATA[hi]]></title>").unwrap();
    let errors = validate(&doc, &schema).errors().to_vec();
    assert_eq!(errors.len(), 1);
    assert!(matches!(errors[0], ValidationError::EmptyContent { .. }));
    let doc = parse("<title> <![CDATA[hi]]> <!--c--> </title>").unwrap();
    assert!(!validate(&doc, &schema).is_valid());
}

#[test]
fn text_beside_cdata_satisfies_content_required() {
    let schema = Schema::builder().tag("title", |t| t.content_required()).build();
    let doc = parse("<title><![CDATA[hi]]>there</title>").unwrap();
    assert!(validate(&doc, &schema).is_valid());
    let doc = parse("<title>x<![CDATA[]]></title>").unwrap();
    assert!(validate(&doc, &schema).is_valid());
}

// ─── Deep validation ────────────────────────────────────────────────────────

#[test]
fn validates_at_every_depth() {
    let src = r#"<phase id="1"><task status="bogus"><status>todo</status></task></phase>"#;
    let doc = parse(src).unwrap();
    let errors = validate(&doc, &task_schema()).errors().to_vec();
    assert!(errors.iter().any(|e| matches!(
        e,
        ValidationError::MissingAttr { attr, .. } if attr == "id"
    )));
    assert!(errors
        .iter()
        .any(|e| matches!(e, ValidationError::InvalidAttr { .. })));
}

// ─── Builder + messages ─────────────────────────────────────────────────────

#[test]
fn validation_error_display() {
    let src = "<task><status>x</status></task>";
    let doc = parse(src).unwrap();
    let errors = validate(&doc, &task_schema()).errors().to_vec();
    let messages: Vec<String> = errors.iter().map(|e| e.message()).collect();
    assert!(messages
        .iter()
        .any(|m| m.contains("missing required attribute")));
}

#[test]
fn attr_kind_optional_via_method_and_via_into() {
    let a = AttrKind::String.optional();
    let b: marxml::schema::AttrConstraint = AttrKind::String.into();
    let schema_a = Schema::builder().tag("task", |t| t.attr("foo", a)).build();
    let schema_b = Schema::builder().tag("task", |t| t.attr("foo", b)).build();
    let doc = parse("<task/>").unwrap();
    assert!(validate(&doc, &schema_a).is_valid());
    assert!(validate(&doc, &schema_b).is_valid());
}

// ─── Build-time checks ──────────────────────────────────────────────────────

#[test]
fn invalid_regex_error_keeps_the_engine_text() {
    let result = Schema::builder()
        .tag("task", |t| t.attr("id", AttrKind::Regex("a(".into())))
        .try_build();
    let expected = regex::Regex::new("\\A(?:a()\\z").unwrap_err().to_string();
    match result {
        Err(marxml::SchemaError::InvalidRegex { tag, attr, detail, .. }) => {
            assert_eq!(tag, "task");
            assert_eq!(attr, "id");
            assert!(!detail.is_empty());
            assert_eq!(detail, expected);
        }
        _ => panic!("an unclosed group must not compile"),
    }
}

#[test]
fn try_build_rejects_invalid_regex_pattern() {
    let result = Schema::builder()
        .tag("task", |t| {
            t.attr("id", AttrKind::Regex("[".into()).required())
        })
        .try_build();
    match result {
        Err(e) => {
            assert!(matches!(e, marxml::SchemaError::InvalidRegex { .. }));
            assert_eq!(e.message(), "invalid regex for task.id");
        }
        Ok(_) => panic!("an unbalanced bracket must not compile"),
    }
    let none = Schema::builder()
        .tag("task", |t| t.attr("id", AttrKind::Regex("[".into())))
        .build_if_valid();
    assert!(none.is_none());
}

#[test]
fn schema_error_messages_name_the_culprit() {
    let bad_tag = Schema::builder().tag("1task", |t| t).try_build().unwrap_err();
    assert_eq!(bad_tag.message(), "invalid XML name in schema: tag \"1task\"");
    let bad_attr = Schema::builder()
        .tag("task", |t| t.attr("a b", AttrKind::String))
        .try_build()
        .unwrap_err();
    assert_eq!(bad_attr.message(), "invalid XML name in schema: attr \"a b\"");
    let bad_child = Schema::builder()
        .tag("task", |t| t.child_optional("9x"))
        .try_build()
        .unwrap_err();
    assert_eq!(bad_child.message(), "invalid XML name in schema: child \"9x\"");
    let dup_attr = Schema::builder()
        .tag("task", |t| t.attr("id", AttrKind::String).attr("id", AttrKind::String))
        .try_build()
        .unwrap_err();
    assert_eq!(dup_attr.message(), "duplicate attribute \"id\" on tag \"task\"");
    let dup_tag = Schema::builder()
        .tag("task", |t| t)
        .tag("task", |t| t)
        .try_build()
        .unwrap_err();
    assert_eq!(dup_tag.message(), "duplicate tag \"task\" in schema");
}

#[test]
fn validation_messages_render_each_problem() {
    let schema = Schema::builder()
        .tag("task", |t| {
            t.attr("id", AttrKind::String.required())
                .attr("status", AttrKind::one_of(&["todo", "done", "todo"]))
                .attr("ref", AttrKind::Regex("[0-9]+".into()))
                .child_required("status")
                .child_required("status")
                .exclusive_children()
                .content_required()
        })
        .build();
    let doc = parse("<task status=\"x\" ref=\"12a\">\n<extra/></task>").unwrap();
    let report = validate(&doc, &schema);
    let messages: Vec<String> = report.errors().iter().map(|e| e.message()).collect();
    assert_eq!(
        messages,
        vec![
            "line 1: <task> missing required attribute id".to_string(),
            "line 1: <task> attribute ref has invalid value \"12a\" (did not match regex /[0-9]+/)".to_string(),
            "line 1: <task> attribute status has invalid value \"x\" (expected one of [\"done\", \"todo\"])".to_string(),
            "line 1: <task> missing required child <status>".to_string(),
            "line 2: <task> has unexpected child <extra>".to_string(),
            "line 1: <task> requires non-empty content".to_string(),
        ]
    );
    assert_eq!(report.len(), 6);
    assert!(!report.is_empty());
    assert_eq!(report.iter().count(), 6);
}

#[test]
fn report_accessors_agree_on_a_valid_document() {
    let doc = parse("<other/>").unwrap();
    let report = validate(&doc, &task_schema());
    assert!(report.is_valid());
    assert!(report.is_empty());
    assert_eq!(report.len(), 0);
    assert_eq!(report.iter().count(), 0);
}
