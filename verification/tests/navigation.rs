use gitbook_pages::document::{Node, NodeKind};
use gitbook_pages::navigation::{
    clone_links, parse_summary_into_nav_links, request_path_of, skipped_summary_items, NavLink,
};
use gitbook_pages::summary::read_summary;

fn node(kind: NodeKind, children: Vec<Node>) -> Node {
    Node { kind, origin: None, children }
}

fn text(literal: &str) -> Node {
    node(NodeKind::Text { literal: literal.to_string() }, vec![])
}

fn link(title: &str, url: &str) -> Node {
    node(NodeKind::Link { url: url.to_string() }, vec![text(title)])
}

fn item(label: Node, rest: Vec<Node>) -> Node {
    let mut children = vec![node(NodeKind::Paragraph, vec![label])];
    children.extend(rest);
    node(NodeKind::Item, children)
}

fn list(items: Vec<Node>) -> Node {
    node(NodeKind::List, items)
}

fn doc(children: Vec<Node>) -> Node {
    node(NodeKind::Document, children)
}

fn shape(links: &[NavLink]) -> String {
    let parts: Vec<String> = links
        .iter()
        .map(|l| format!("{}<{}>[{}]", l.title, l.href, shape(&l.children)))
        .collect();
    parts.join(" ")
}

#[test]
fn nested_lists_keep_their_order() {
    let summary = doc(vec![list(vec![
        item(
            link("A", "a.md"),
            vec![list(vec![
                item(link("B", "a/b.md"), vec![]),
                item(link("C", "a/c.md"), vec![list(vec![item(link("D", "a/c/d.md"), vec![])])]),
            ])],
        ),
        item(link("E", "e.md"), vec![]),
    ])]);
    let index = parse_summary_into_nav_links(&summary, "/docs");
    assert_eq!(
        shape(&index),
        "A</docs/a>[B</docs/a/b>[] C</docs/a/c>[D</docs/a/c/d>[]]] E</docs/e>[]"
    );
    assert_eq!(index.len(), 2);
    assert_eq!(index[0].children.len(), 2);
    assert_eq!(index[0].children[1].children[0].title, "D");
}

#[test]
fn summary_read_by_the_parser_gives_the_same_index() {
    let summary = "# Table of contents\n\n* [A](a.md)\n  * [B](a/b.md)\n  * [C](a/c.md)\n    * [D](a/c/d.md)\n* [E](e.md)\n";
    let tree = read_summary(summary).unwrap();
    let index = parse_summary_into_nav_links(&tree, "/docs");
    assert_eq!(
        shape(&index),
        "A</docs/a>[B</docs/a/b>[] C</docs/a/c>[D</docs/a/c/d>[]]] E</docs/e>[]"
    );
}

#[test]
fn gitbook_summary_with_sections() {
    let summary = "# Table of contents\n\n* [Overview](README.md)\n* [Getting Started](getting-started/README.md)\n  * [Install `pgml`](getting-started/install.md)\n\n## API\n\n* Reference\n  * [SQL](./api/sql.md)\n* plain words\n";
    let tree = read_summary(summary).unwrap();
    let index = parse_summary_into_nav_links(&tree, "/docs");
    assert_eq!(
        shape(&index),
        "Overview</docs/>[] Getting Started</docs/getting-started/>[Install pgml</docs/getting-started/install>[]] Reference<>[SQL</docs/api/sql>[]]"
    );
}

#[test]
fn several_lists_follow_each_other() {
    let summary = doc(vec![
        list(vec![item(link("A", "a.md"), vec![])]),
        node(NodeKind::Heading { level: 2 }, vec![text("More")]),
        list(vec![item(link("B", "b.md"), vec![])]),
    ]);
    assert_eq!(
        shape(&parse_summary_into_nav_links(&summary, "/blog")),
        "A</blog/a>[] B</blog/b>[]"
    );
}

#[test]
fn group_header_has_no_address() {
    let summary = doc(vec![list(vec![item(
        text("Guides"),
        vec![list(vec![item(link("One", "guides/one.md"), vec![])])],
    )])]);
    let index = parse_summary_into_nav_links(&summary, "/docs");
    assert_eq!(shape(&index), "Guides<>[One</docs/guides/one>[]]");
    assert_eq!(index[0].href, "");
}

#[test]
fn malformed_items_are_skipped() {
    let summary = doc(vec![list(vec![
        item(link("", "empty.md"), vec![]),
        item(text("no link, nothing below"), vec![]),
        node(NodeKind::Item, vec![]),
        node(NodeKind::Paragraph, vec![link("stray", "stray.md")]),
        item(text(""), vec![list(vec![item(link("Lost", "lost.md"), vec![])])]),
        item(link("Kept", "kept.md"), vec![]),
    ])]);
    assert_eq!(
        shape(&parse_summary_into_nav_links(&summary, "/docs")),
        "Kept</docs/kept>[]"
    );
}

#[test]
fn document_without_lists_has_an_empty_index() {
    let summary = doc(vec![node(NodeKind::Paragraph, vec![link("A", "a.md")])]);
    assert!(parse_summary_into_nav_links(&summary, "/docs").is_empty());
    assert!(parse_summary_into_nav_links(&doc(vec![]), "/docs").is_empty());
}

#[test]
fn targets_become_request_paths() {
    let cases = [
        ("install.md", "install"),
        ("./install.md", "install"),
        ("/install.md", "install"),
        ("README.md", ""),
        ("./README.md", ""),
        ("guides/README.md", "guides/"),
        ("guides/setup.md", "guides/setup"),
        ("guides/MYREADME.md", "guides/MYREADME"),
        ("README", ""),
        ("notes", "notes"),
        ("a.markdown", "a.markdown"),
        ("", ""),
        (".md", ""),
    ];
    for (url, path) in cases {
        let chars: Vec<char> = url.chars().collect();
        let got: String = request_path_of(&chars).into_iter().collect();
        assert_eq!(got, path, "{:?}", url);
    }
}

#[test]
fn every_address_lies_under_the_root() {
    let summary = "* [A](a.md)\n  * [B](../b.md)\n* Group\n  * [C](/c.md)\n  * [D](https://example.com/d)\n";
    let tree = read_summary(summary).unwrap();
    let index = parse_summary_into_nav_links(&tree, "/careers");
    fn check(links: &[NavLink]) {
        for l in links {
            assert!(l.href.is_empty() || l.href.starts_with("/careers/"), "{}", l.href);
            check(&l.children);
        }
    }
    check(&index);
    assert_eq!(
        shape(&index),
        "A</careers/a>[B</careers/../b>[]] Group<>[C</careers/c>[] D</careers/https://example.com/d>[]]"
    );
}

#[test]
fn copies_of_an_index_are_equal_to_it() {
    let summary = doc(vec![list(vec![item(
        link("A", "a.md"),
        vec![list(vec![item(link("B", "b.md"), vec![])])],
    )])]);
    let index = parse_summary_into_nav_links(&summary, "/docs");
    assert_eq!(shape(&clone_links(&index)), shape(&index));
}

fn outline(n: &Node) -> String {
    let name = match &n.kind {
        NodeKind::Document => "doc".to_string(),
        NodeKind::Heading { level } => format!("h{}", level),
        NodeKind::Paragraph => "p".to_string(),
        NodeKind::Text { literal } => format!("'{}'", literal),
        NodeKind::InlineCode { literal } => format!("`{}`", literal),
        NodeKind::List => "list".to_string(),
        NodeKind::Item => "item".to_string(),
        NodeKind::Link { url } => format!("link[{}]", url),
        NodeKind::Other => "other".to_string(),
        _ => "unexpected".to_string(),
    };
    assert_eq!(n.origin, None);
    let inner: Vec<String> = n.children.iter().map(outline).collect();
    format!("{}({})", name, inner.join(" "))
}

#[test]
fn summary_is_read_into_a_document_tree() {
    let tree = read_summary("# Top\n\n* [A `b`](a.md)\n  * *c*\n\n> q\n").unwrap();
    assert_eq!(
        outline(&tree),
        "doc(h1('Top'()) list(item(p(link[a.md]('A '() `b`())) list(item(p(other('c'())))))) other(p('q'())))"
    );
    assert_eq!(outline(&read_summary("").unwrap()), "doc()");
}

#[test]
fn skipped_items_are_listed() {
    let summary = doc(vec![list(vec![
        item(link("", "empty.md"), vec![]),
        item(text("no link, nothing below"), vec![]),
        node(NodeKind::Item, vec![]),
        node(NodeKind::Paragraph, vec![link("stray", "stray.md")]),
        item(text(""), vec![list(vec![item(link("Lost", "lost.md"), vec![])])]),
        item(
            link("Kept", "kept.md"),
            vec![list(vec![
                item(text("dangling"), vec![]),
                item(link("Inner", "inner.md"), vec![]),
            ])],
        ),
        item(text("Group"), vec![list(vec![item(link("One", "one.md"), vec![])])]),
    ])]);
    assert_eq!(
        skipped_summary_items(&summary, "/docs"),
        vec!["", "no link, nothing below", "", "Lost", "dangling"]
    );
    assert_eq!(
        shape(&parse_summary_into_nav_links(&summary, "/docs")),
        "Kept</docs/kept>[Inner</docs/inner>[]] Group<>[One</docs/one>[]]"
    );
}

#[test]
fn nothing_is_skipped_in_a_sound_summary() {
    let tree = read_summary("* [A](a.md)\n  * [B](b.md)\n* Group\n  * [C](c.md)\n").unwrap();
    assert!(skipped_summary_items(&tree, "/docs").is_empty());
}
