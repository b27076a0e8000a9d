use gitbook_pages::document::{clone_node, flavour, text_of_node, Node, NodeKind};
use gitbook_pages::tables::wrap_tables;

fn node(kind: NodeKind, children: Vec<Node>) -> Node {
    Node { kind, origin: None, children }
}

fn from(kind: NodeKind, origin: usize, children: Vec<Node>) -> Node {
    Node { kind, origin: Some(origin), children }
}

fn text(literal: &str) -> Node {
    node(NodeKind::Text { literal: literal.to_string() }, vec![])
}

fn shape(n: &Node) -> String {
    let name = match &n.kind {
        NodeKind::Document => "doc".to_string(),
        NodeKind::Heading { level } => format!("h{}", level),
        NodeKind::Paragraph => "p".to_string(),
        NodeKind::Text { literal } => format!("'{}'", literal),
        NodeKind::InlineCode { literal } => format!("`{}`", literal),
        NodeKind::CodeBlock { info, literal } => format!("code[{}|{}]", info, literal),
        NodeKind::Table => "table".to_string(),
        NodeKind::List => "list".to_string(),
        NodeKind::Item => "item".to_string(),
        NodeKind::Link { url } => format!("link[{}]", url),
        NodeKind::Html { literal } => format!("html[{}]", literal),
        NodeKind::TableWrapper => "wrap".to_string(),
        NodeKind::Admonition { kind } => format!("note[{:?}]", kind),
        NodeKind::TabGroup => "tabs".to_string(),
        NodeKind::Tab { label } => format!("tab[{}]", label),
        NodeKind::Other => "other".to_string(),
    };
    let origin = match n.origin {
        Some(at) => format!("#{}", at),
        None => String::new(),
    };
    let inner: Vec<String> = n.children.iter().map(shape).collect();
    format!("{}{}({})", name, origin, inner.join(" "))
}

#[test]
fn every_table_gets_one_wrapper() {
    let doc = from(
        NodeKind::Document,
        0,
        vec![
            from(NodeKind::Paragraph, 1, vec![text("a")]),
            from(NodeKind::Table, 2, vec![from(NodeKind::Other, 3, vec![text("cell")])]),
            from(NodeKind::Item, 4, vec![from(NodeKind::Table, 5, vec![])]),
        ],
    );
    let wrapped = wrap_tables(&doc);
    assert_eq!(
        shape(&wrapped),
        "doc#0(p#1('a'()) wrap(table#2(other#3('cell'()))) item#4(wrap(table#5())))"
    );
}

#[test]
fn wrapping_again_changes_nothing() {
    let doc = node(
        NodeKind::Document,
        vec![
            node(NodeKind::Table, vec![]),
            node(NodeKind::Other, vec![node(NodeKind::Table, vec![text("x")])]),
        ],
    );
    let once = wrap_tables(&doc);
    let twice = wrap_tables(&once);
    assert_eq!(shape(&once), shape(&twice));
    assert_eq!(shape(&once), "doc(wrap(table()) other(wrap(table('x'()))))");
}

#[test]
fn no_table_means_no_change() {
    let doc = from(
        NodeKind::Document,
        0,
        vec![
            from(NodeKind::Heading { level: 1 }, 1, vec![text("T")]),
            from(NodeKind::List, 2, vec![from(NodeKind::Item, 3, vec![text("i")])]),
        ],
    );
    assert_eq!(shape(&wrap_tables(&doc)), shape(&doc));
}

#[test]
fn inside_of_a_table_is_not_touched() {
    let doc = node(
        NodeKind::Document,
        vec![node(NodeKind::Table, vec![node(NodeKind::Table, vec![])])],
    );
    assert_eq!(shape(&wrap_tables(&doc)), "doc(wrap(table(table())))");
}

#[test]
fn a_table_at_the_root_is_wrapped() {
    let table = node(NodeKind::Table, vec![]);
    assert_eq!(shape(&wrap_tables(&table)), "wrap(table())");
}

#[test]
fn clone_and_text_keep_the_tree() {
    let doc = from(
        NodeKind::Document,
        0,
        vec![
            from(NodeKind::Link { url: "a.md".to_string() }, 1, vec![text("see "), text("this")]),
            from(NodeKind::CodeBlock { info: "sql".to_string(), literal: "SELECT".to_string() }, 2, vec![]),
        ],
    );
    assert_eq!(shape(&clone_node(&doc)), shape(&doc));
    let shown: String = text_of_node(&doc).into_iter().collect();
    assert_eq!(shown, "see this");
}

#[test]
fn content_files_use_every_addition() {
    let f = flavour();
    assert!(f.tables && f.strikethrough && f.autolinks && f.task_lists);
    assert!(f.superscript && f.footnotes && f.description_lists && f.raw_html);
}
