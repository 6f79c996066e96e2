//! The parsed structure of two representative documents, written out
//! element by element.

use marxml::{ElementRef, Markdown};

fn dump(doc: &Markdown) -> String {
    let mut out = String::new();
    for root in doc.root_elements() {
        dump_node(&root, 0, &mut out);
    }
    out
}

fn dump_node(node: &ElementRef<'_>, depth: usize, out: &mut String) {
    for _ in 0..depth {
        out.push_str("  ");
    }
    out.push('<');
    out.push_str(node.tag());
    for (k, v) in node.attrs() {
        out.push(' ');
        out.push_str(k);
        out.push_str("=\"");
        out.push_str(v);
        out.push('"');
    }
    if node.is_self_closing() {
        out.push_str("/> ");
    } else {
        out.push('>');
        out.push(' ');
        let content = node.content();
        if !content.is_empty() {
            out.push_str(&format!("body={content:?} "));
        }
    }
    let loc = node.location();
    out.push_str(&format!(
        "@ {}:{} \u{2192} {}:{}",
        loc.start.line, loc.start.offset, loc.end.line, loc.end.offset
    ));
    out.push('\n');
    for child in node.children() {
        dump_node(&child, depth + 1, out);
    }
}

#[test]
fn snapshot_gg_style_doc() {
    let src = r#"# Project

<phase id="1" status="todo">

<task id="1.1" status="todo">
<criterion>do thing one</criterion>
<criterion>do thing two</criterion>
</task>

<task id="1.2" status="done">
<criterion>done already</criterion>
</task>

</phase>

<phase id="2" status="todo">
<task id="2.1"/>
</phase>
"#;

    let doc = marxml::parse(src).expect("gg-style doc must parse cleanly");
    let expected = "<phase id=\"1\" status=\"todo\"> body=\"\\n\\n<task id=\\\"1.1\\\" status=\\\"todo\\\">\\n<criterion>do thing one</criterion>\\n<criterion>do thing two</criterion>\\n</task>\\n\\n<task id=\\\"1.2\\\" status=\\\"done\\\">\\n<criterion>done already</criterion>\\n</task>\\n\\n\" @ 3:11 → 14:235\n  <task id=\"1.1\" status=\"todo\"> body=\"\\n<criterion>do thing one</criterion>\\n<criterion>do thing two</criterion>\\n\" @ 5:41 → 8:150\n    <criterion> body=\"do thing one\" @ 6:71 → 6:106\n    <criterion> body=\"do thing two\" @ 7:107 → 7:142\n  <task id=\"1.2\" status=\"done\"> body=\"\\n<criterion>done already</criterion>\\n\" @ 10:152 → 12:225\n    <criterion> body=\"done already\" @ 11:182 → 11:217\n<phase id=\"2\" status=\"todo\"> body=\"\\n<task id=\\\"2.1\\\"/>\\n\" @ 16:237 → 18:291\n  <task id=\"2.1\"/> @ 17:266 → 17:282\n";
    assert_eq!(dump(&doc), expected);
}

#[test]
fn snapshot_mixed_text_and_tags() {
    let src =
        "Intro paragraph.\n\n<note>quick</note>\n\nMid text with x < 3.\n\n<note>second</note>\n";
    let doc = marxml::parse(src).expect("mixed doc must parse");
    let expected = "<note> body=\"quick\" @ 3:18 → 3:36\n<note> body=\"second\" @ 7:60 → 7:79\n";
    assert_eq!(dump(&doc), expected);
}
