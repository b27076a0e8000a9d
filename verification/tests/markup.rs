use gitbook_pages::document::{AdmonitionKind, Node, NodeKind};
use gitbook_pages::markup::{close_tag, flatten, open_tag};

fn node(kind: NodeKind, children: Vec<Node>) -> Node {
    Node { kind, origin: None, children }
}

fn text(literal: &str) -> Node {
    node(NodeKind::Text { literal: literal.to_string() }, vec![])
}

fn shape(n: &Node) -> String {
    let name = match &n.kind {
        NodeKind::Document => "doc".to_string(),
        NodeKind::Paragraph => "p".to_string(),
        NodeKind::Text { literal } => format!("'{}'", literal),
        NodeKind::Table => "table".to_string(),
        NodeKind::Item => "item".to_string(),
        NodeKind::Html { literal } => format!("[{}]", literal),
        _ => "box".to_string(),
    };
    if n.children.is_empty() {
        return name;
    }
    let inner: Vec<String> = n.children.iter().map(shape).collect();
    format!("{}({})", name, inner.join(" "))
}

#[test]
fn boxes_have_their_tags() {
    assert_eq!(
        open_tag(&NodeKind::TableWrapper),
        Some("<div class=\"overflow-auto w-100\">".to_string())
    );
    assert_eq!(
        open_tag(&NodeKind::Admonition { kind: AdmonitionKind::Note }),
        Some("<div class=\"admonition admonition-note\">".to_string())
    );
    assert_eq!(
        open_tag(&NodeKind::Admonition { kind: AdmonitionKind::Tip }),
        Some("<div class=\"admonition admonition-tip\">".to_string())
    );
    assert_eq!(
        open_tag(&NodeKind::Admonition { kind: AdmonitionKind::Info }),
        Some("<div class=\"admonition admonition-info\">".to_string())
    );
    assert_eq!(
        open_tag(&NodeKind::Admonition { kind: AdmonitionKind::Warning }),
        Some("<div class=\"admonition admonition-warning\">".to_string())
    );
    assert_eq!(
        open_tag(&NodeKind::Admonition { kind: AdmonitionKind::Alert }),
        Some("<div class=\"admonition admonition-alert\">".to_string())
    );
    assert_eq!(open_tag(&NodeKind::TabGroup), Some("<div class=\"tabs\">".to_string()));
    assert_eq!(
        open_tag(&NodeKind::Tab { label: "A \"b\" <c>".to_string() }),
        Some("<div class=\"tab\" data-label=\"A &quot;b&quot; &lt;c&gt;\">".to_string())
    );
    for kind in [
        NodeKind::TableWrapper,
        NodeKind::Admonition { kind: AdmonitionKind::Note },
        NodeKind::TabGroup,
        NodeKind::Tab { label: String::new() },
    ] {
        assert_eq!(close_tag(&kind), Some("</div>".to_string()));
    }
}

#[test]
fn other_nodes_have_no_tags() {
    for kind in [
        NodeKind::Document,
        NodeKind::Paragraph,
        NodeKind::Table,
        NodeKind::Html { literal: "<div>".to_string() },
        NodeKind::Other,
    ] {
        assert_eq!(open_tag(&kind), None);
        assert_eq!(close_tag(&kind), None);
    }
}

#[test]
fn boxes_are_written_out_in_place() {
    let doc = node(
        NodeKind::Document,
        vec![
            node(NodeKind::Paragraph, vec![text("a")]),
            node(
                NodeKind::TabGroup,
                vec![
                    node(NodeKind::Tab { label: "X".to_string() }, vec![text("x")]),
                    node(
                        NodeKind::Tab { label: "Y".to_string() },
                        vec![node(NodeKind::TableWrapper, vec![node(NodeKind::Table, vec![])])],
                    ),
                ],
            ),
            node(NodeKind::Item, vec![node(NodeKind::TableWrapper, vec![node(NodeKind::Table, vec![])])]),
        ],
    );
    assert_eq!(
        shape(&flatten(&doc)),
        "doc(p('a') [<div class=\"tabs\">] [<div class=\"tab\" data-label=\"X\">] 'x' [</div>] [<div class=\"tab\" data-label=\"Y\">] [<div class=\"overflow-auto w-100\">] table [</div>] [</div>] [</div>] item([<div class=\"overflow-auto w-100\">] table [</div>]))"
    );
}

#[test]
fn tree_without_boxes_is_unchanged() {
    let doc = node(
        NodeKind::Document,
        vec![node(NodeKind::Item, vec![node(NodeKind::Table, vec![text("c")])]), text("t")],
    );
    assert_eq!(flatten(&doc), doc);
    assert_eq!(shape(&flatten(&doc)), "doc(item(table('c')) 't')");
}
