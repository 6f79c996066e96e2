use marxml::parse::{check_duplicate_id, current_scope, push_element, Frame, IdScope};
use marxml::types::ElementData;
use marxml::{ParseError, SourcePosition, SourceSpan};

fn attrs(pairs: &[(&str, &str)]) -> Vec<(String, String)> {
    pairs
        .iter()
        .map(|(k, v)| ((*k).to_string(), (*v).to_string()))
        .collect()
}

fn frame(name: &str) -> Frame {
    Frame {
        name: name.to_string(),
        attrs: Vec::new(),
        body_start: 0,
        span_start: SourcePosition { line: 1, offset: 0 },
        children: Vec::new(),
        seen_ids: None,
    }
}

fn leaf() -> ElementData {
    ElementData {
        tag: "a".into(),
        attrs: Vec::new(),
        content_start: 0,
        content_end: 0,
        children: Vec::new(),
        span: SourceSpan {
            start: SourcePosition { line: 1, offset: 0 },
            end: SourcePosition { line: 1, offset: 4 },
        },
        self_closing: true,
    }
}

#[test]
fn check_duplicate_id_noop_without_id_attribute() {
    let mut scope: Option<IdScope> = None;
    let a = attrs(&[("class", "x")]);
    assert!(check_duplicate_id("task", &a, 1, &mut scope).is_ok());
    // The scope stays unallocated: it is created lazily.
    assert!(scope.is_none());
}

#[test]
fn check_duplicate_id_allocates_scope_on_first_id() {
    let mut scope: Option<IdScope> = None;
    let a = attrs(&[("id", "t1")]);
    assert!(check_duplicate_id("task", &a, 1, &mut scope).is_ok());
    assert!(scope.is_some());
}

#[test]
fn check_duplicate_id_flags_repeat_within_same_tag() {
    let mut scope: Option<IdScope> = None;
    let a = attrs(&[("id", "t1")]);
    check_duplicate_id("task", &a, 1, &mut scope).unwrap();
    let err = check_duplicate_id("task", &a, 2, &mut scope).unwrap_err();
    assert!(
        matches!(err, ParseError::DuplicateId { ref tag, ref id, line: 2 } if tag == "task" && id == "t1")
    );
}

#[test]
fn check_duplicate_id_scoped_by_tag_name() {
    // The same id on two different tag names at one scope is fine: the
    // key is (tag, id), not just id.
    let mut scope: Option<IdScope> = None;
    let a = attrs(&[("id", "x")]);
    check_duplicate_id("task", &a, 1, &mut scope).unwrap();
    assert!(check_duplicate_id("note", &a, 2, &mut scope).is_ok());
}

#[test]
fn current_scope_routes_to_top_frame_then_root() {
    let mut stack: Vec<Frame> = Vec::new();
    let mut root_seen: Option<IdScope> = None;

    // Empty stack: the root scope.
    let scope = current_scope(&mut stack, &mut root_seen);
    assert!(scope.is_none());
    *scope = Some(IdScope::new());
    assert!(root_seen.is_some());

    // Non-empty stack: the top frame's scope, the root one untouched.
    stack.push(frame("a"));
    let scope = current_scope(&mut stack, &mut root_seen);
    assert!(scope.is_none()); // the top frame starts fresh
    *scope = Some(IdScope::new());
    assert!(stack[0].seen_ids.is_some());
}

#[test]
fn push_element_routes_to_top_or_roots() {
    let mut stack: Vec<Frame> = Vec::new();
    let mut roots: Vec<ElementData> = Vec::new();

    // Empty stack: the element becomes a root.
    push_element(leaf(), &mut stack, &mut roots);
    assert_eq!(roots.len(), 1);

    // Non-empty stack: the element joins the top frame's children.
    stack.push(frame("outer"));
    push_element(leaf(), &mut stack, &mut roots);
    assert_eq!(roots.len(), 1, "root count unchanged");
    assert_eq!(stack[0].children.len(), 1);
}
