use gitbook_pages::document::{Node, NodeKind};
use gitbook_pages::error::ContentError;
use gitbook_pages::headings::{
    get_title, get_toc, heading_close, heading_open, ids_for, HeadingIds,
};

fn node(kind: NodeKind, children: Vec<Node>) -> Node {
    Node { kind, origin: None, children }
}

fn text(literal: &str) -> Node {
    node(NodeKind::Text { literal: literal.to_string() }, vec![])
}

fn heading(level: u8, literal: &str) -> Node {
    node(NodeKind::Heading { level }, vec![text(literal)])
}

fn paragraph(literal: &str) -> Node {
    node(NodeKind::Paragraph, vec![text(literal)])
}

#[test]
fn ids_are_lower_case_with_dashes() {
    let mut ids = HeadingIds::new();
    assert_eq!(ids.assign("Hello, World!"), "hello--world-");
    assert_eq!(ids.assign("Install PostgresML 2.0"), "install-postgresml-2-0");
    assert_eq!(ids.assign("Crème brûlée"), "cr-me-br-l-e");
    assert_eq!(ids.assign(""), "");
}

#[test]
fn colliding_ids_get_a_counter() {
    let mut ids = HeadingIds::new();
    assert_eq!(ids.assign("Setup"), "setup");
    assert_eq!(ids.assign("Setup"), "setup-1");
    assert_eq!(ids.assign("setup"), "setup-2");
    assert_eq!(ids.assign("Setup 1"), "setup-1-1");
    assert_eq!(ids.assign("Setup"), "setup-3");
    assert_eq!(ids.assign("Other"), "other");
}

#[test]
fn counters_go_past_nine() {
    let mut ids = HeadingIds::new();
    assert_eq!(ids.assign("x"), "x");
    for k in 1..=12 {
        assert_eq!(ids.assign("x"), format!("x-{}", k));
    }
}

#[test]
fn title_is_the_first_heading_at_the_top() {
    let doc = node(
        NodeKind::Document,
        vec![
            paragraph("intro"),
            node(
                NodeKind::Heading { level: 2 },
                vec![
                    text("Using "),
                    node(NodeKind::InlineCode { literal: "pgml".to_string() }, vec![]),
                    node(NodeKind::Other, vec![text(" now")]),
                ],
            ),
            heading(1, "Later"),
        ],
    );
    assert_eq!(get_title(&doc).unwrap(), "Using pgml now");
}

#[test]
fn document_without_heading_has_no_title() {
    let doc = node(NodeKind::Document, vec![paragraph("only text")]);
    assert_eq!(get_title(&doc), Err(ContentError::MissingTitle));
    let empty = node(NodeKind::Document, vec![]);
    assert_eq!(get_title(&empty), Err(ContentError::MissingTitle));
}

#[test]
fn nested_heading_is_no_title() {
    let doc = node(
        NodeKind::Document,
        vec![node(NodeKind::Other, vec![heading(1, "Quoted")])],
    );
    assert_eq!(get_title(&doc), Err(ContentError::MissingTitle));
    let toc = get_toc(&doc);
    assert_eq!(toc.len(), 1);
    assert_eq!(toc[0].id, "quoted");
}

#[test]
fn toc_lists_every_heading_in_order() {
    let doc = node(
        NodeKind::Document,
        vec![
            heading(1, "Guide"),
            paragraph("text"),
            heading(2, "Install"),
            node(NodeKind::Other, vec![heading(3, "Install")]),
            heading(2, "Use"),
        ],
    );
    let toc = get_toc(&doc);
    let got: Vec<(String, String, u8)> = toc
        .iter()
        .map(|link| (link.text.clone(), link.id.clone(), link.level))
        .collect();
    assert_eq!(
        got,
        vec![
            ("Guide".to_string(), "guide".to_string(), 1),
            ("Install".to_string(), "install".to_string(), 2),
            ("Install".to_string(), "install-1".to_string(), 3),
            ("Use".to_string(), "use".to_string(), 2),
        ]
    );
}

#[test]
fn toc_ids_are_those_of_the_allocator() {
    let titles = ["A b", "a B", "A-b", "a b 1", "A b"];
    let doc = node(
        NodeKind::Document,
        titles.iter().map(|t| heading(2, t)).collect(),
    );
    let toc = get_toc(&doc);
    let mut ids = HeadingIds::new();
    for (link, title) in toc.iter().zip(titles.iter()) {
        assert_eq!(link.id, ids.assign(title));
    }
    for i in 0..toc.len() {
        for j in (i + 1)..toc.len() {
            assert_ne!(toc[i].id, toc[j].id);
        }
    }
}

#[test]
fn errors_have_messages() {
    assert_eq!(ContentError::NotFound.message(), "not found");
    assert_eq!(ContentError::MissingTitle.message(), "missing title");
}

#[test]
fn ids_for_a_run_of_headings() {
    let texts: Vec<String> = ["Intro", "Usage", "intro", "Intro"].iter().map(|t| t.to_string()).collect();
    assert_eq!(ids_for(&texts), vec!["intro", "usage", "intro-1", "intro-2"]);
    assert!(ids_for(&Vec::new()).is_empty());
}

#[test]
fn heading_tags_carry_level_and_id() {
    assert_eq!(heading_open(1, "guide"), "<h1 id=\"guide\">");
    assert_eq!(heading_open(2, "set-up-1"), "<h2 id=\"set-up-1\">");
    assert_eq!(heading_open(6, ""), "<h6 id=\"\">");
    assert_eq!(heading_open(3, "a\"b<c"), "<h3 id=\"a&quot;b&lt;c\">");
    assert_eq!(heading_open(12, "x"), "<h12 id=\"x\">");
    assert_eq!(heading_close(1), "</h1>");
    assert_eq!(heading_close(6), "</h6>");
}

#[test]
fn levels_of_the_contents_are_those_of_the_headings() {
    let doc = node(
        NodeKind::Document,
        (1..=6).map(|level| heading(level, "h")).collect(),
    );
    let levels: Vec<u8> = get_toc(&doc).iter().map(|l| l.level).collect();
    assert_eq!(levels, vec![1, 2, 3, 4, 5, 6]);
}
