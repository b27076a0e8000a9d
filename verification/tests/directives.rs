use gitbook_pages::directives::{marker, marker_in_text, mkdocs, Marker};
use gitbook_pages::document::{AdmonitionKind, Node, NodeKind};

fn node(kind: NodeKind, children: Vec<Node>) -> Node {
    Node { kind, origin: None, children }
}

fn text(literal: &str) -> Node {
    node(NodeKind::Text { literal: literal.to_string() }, vec![])
}

fn p(literal: &str) -> Node {
    node(NodeKind::Paragraph, vec![text(literal)])
}

fn doc(children: Vec<Node>) -> Node {
    node(NodeKind::Document, children)
}

fn shape(n: &Node) -> String {
    let name = match &n.kind {
        NodeKind::Document => "doc".to_string(),
        NodeKind::Paragraph => "p".to_string(),
        NodeKind::Text { literal } => format!("'{}'", literal),
        NodeKind::Admonition { kind } => format!("note[{:?}]", kind),
        NodeKind::TabGroup => "tabs".to_string(),
        NodeKind::Tab { label } => format!("tab[{}]", label),
        NodeKind::Item => "item".to_string(),
        _ => "other".to_string(),
    };
    let inner: Vec<String> = n.children.iter().map(shape).collect();
    format!("{}({})", name, inner.join(" "))
}

fn expanded(children: Vec<Node>) -> String {
    shape(&mkdocs(&doc(children)))
}

#[test]
fn texts_that_are_directives() {
    assert!(matches!(marker_in_text("!!!"), Some(Marker::CloseNote)));
    assert!(matches!(marker_in_text("!!! note"), Some(Marker::OpenNote(AdmonitionKind::Note))));
    assert!(matches!(marker_in_text("!!! tip"), Some(Marker::OpenNote(AdmonitionKind::Tip))));
    assert!(matches!(marker_in_text("!!! info"), Some(Marker::OpenNote(AdmonitionKind::Info))));
    assert!(matches!(marker_in_text("!!! warning"), Some(Marker::OpenNote(AdmonitionKind::Warning))));
    assert!(matches!(marker_in_text("!!! alert"), Some(Marker::OpenNote(AdmonitionKind::Alert))));
    assert!(matches!(marker_in_text("==="), Some(Marker::CloseTabs)));
    match marker_in_text("=== \"Tab one\"") {
        Some(Marker::OpenTab(label)) => assert_eq!(label, "Tab one"),
        _ => panic!("should open a tab"),
    }
    match marker_in_text("=== \"\"") {
        Some(Marker::OpenTab(label)) => assert_eq!(label, ""),
        _ => panic!("should open a tab"),
    }
}

#[test]
fn texts_that_are_no_directives() {
    for text in ["", "!!", "!!!!", "!!! danger", "!!! Note", " !!! note", "!!! note ", "== \"x\"", "=== x", "=== \"x", "=== \"", "====", "text"] {
        assert!(marker_in_text(text).is_none(), "{:?}", text);
    }
}

#[test]
fn only_a_paragraph_of_one_text_is_a_directive() {
    assert!(marker(&p("!!!")).is_some());
    assert!(marker(&text("!!!")).is_none());
    assert!(marker(&node(NodeKind::Paragraph, vec![text("!!!"), text("")])).is_none());
    assert!(marker(&node(NodeKind::Paragraph, vec![])).is_none());
    assert!(marker(&node(NodeKind::Item, vec![text("!!!")])).is_none());
    assert!(marker(&node(NodeKind::Paragraph, vec![node(NodeKind::InlineCode { literal: "!!!".to_string() }, vec![])])).is_none());
}

#[test]
fn note_takes_what_stands_between() {
    assert_eq!(
        expanded(vec![p("before"), p("!!! note"), p("one"), p("two"), p("!!!"), p("after")]),
        "doc(p('before'()) note[Note](p('one'()) p('two'())) p('after'()))"
    );
}

#[test]
fn tabs_are_grouped() {
    assert_eq!(
        expanded(vec![p("=== \"A\""), p("a1"), p("a2"), p("=== \"B\""), p("==="), p("end")]),
        "doc(tabs(tab[A](p('a1'()) p('a2'())) tab[B]()) p('end'()))"
    );
}

#[test]
fn groups_nest() {
    assert_eq!(
        expanded(vec![
            p("!!! tip"),
            p("=== \"A\""),
            p("!!! warning"),
            p("deep"),
            p("!!!"),
            p("==="),
            p("!!!"),
        ]),
        "doc(note[Tip](tabs(tab[A](note[Warning](p('deep'()))))))"
    );
}

#[test]
fn directives_inside_other_nodes_are_expanded() {
    let item = node(NodeKind::Item, vec![p("!!! info"), p("x"), p("!!!")]);
    assert_eq!(expanded(vec![item]), "doc(item(note[Info](p('x'()))))");
}

#[test]
fn unclosed_groups_stay_as_text() {
    assert_eq!(
        expanded(vec![p("a"), p("!!! note"), p("b")]),
        "doc(p('a'()) p('!!! note'()) p('b'()))"
    );
    assert_eq!(
        expanded(vec![p("=== \"A\""), p("x"), p("=== \"B\""), p("y")]),
        "doc(p('=== \"A\"'()) p('x'()) p('=== \"B\"'()) p('y'()))"
    );
}

#[test]
fn closings_without_openings_stay_as_text() {
    assert_eq!(expanded(vec![p("!!!"), p("===")]), "doc(p('!!!'()) p('==='()))");
    assert_eq!(
        expanded(vec![p("!!! note"), p("==="), p("!!!")]),
        "doc(note[Note](p('==='())))"
    );
}

#[test]
fn inner_group_survives_an_unclosed_outer_one() {
    assert_eq!(
        expanded(vec![p("!!! note"), p("=== \"A\""), p("x"), p("===")]),
        "doc(p('!!! note'()) tabs(tab[A](p('x'()))))"
    );
    assert_eq!(
        expanded(vec![p("=== \"A\""), p("!!!"), p("!!! alert"), p("x")]),
        "doc(p('=== \"A\"'()) p('!!!'()) p('!!! alert'()) p('x'()))"
    );
}

#[test]
fn document_without_directives_is_unchanged() {
    let children = vec![p("a"), node(NodeKind::Item, vec![p("b"), text("!!!")]), p("!! note")];
    assert_eq!(expanded(children), "doc(p('a'()) item(p('b'()) '!!!'()) p('!! note'()))");
}
