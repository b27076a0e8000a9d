use gitbook_pages::collection::{
    document_path, restore_slash, summary_path, Collection, ContentFile,
};
use gitbook_pages::document::{Node, NodeKind};
use gitbook_pages::error::ContentError;
use gitbook_pages::front_matter::PageMeta;

fn node(kind: NodeKind, children: Vec<Node>) -> Node {
    Node { kind, origin: None, children }
}

fn text(literal: &str) -> Node {
    node(NodeKind::Text { literal: literal.to_string() }, vec![])
}

fn p(literal: &str) -> Node {
    node(NodeKind::Paragraph, vec![text(literal)])
}

fn heading(level: u8, literal: &str) -> Node {
    node(NodeKind::Heading { level }, vec![text(literal)])
}

fn summary() -> Node {
    let link = node(NodeKind::Link { url: "README.md".to_string() }, vec![text("Home")]);
    let item = node(NodeKind::Item, vec![node(NodeKind::Paragraph, vec![link])]);
    node(NodeKind::Document, vec![node(NodeKind::List, vec![item])])
}

fn no_meta() -> PageMeta {
    PageMeta { image: None, description: None }
}

#[test]
fn request_paths_map_to_files() {
    assert_eq!(document_path(""), "README.md");
    assert_eq!(document_path("install/"), "install/README.md");
    assert_eq!(document_path("install"), "install.md");
    assert_eq!(document_path("a/b/c"), "a/b/c.md");
    assert_eq!(document_path("/"), "/README.md");
}

#[test]
fn collection_knows_its_places() {
    let docs = Collection::from_summary("Docs", &summary());
    assert_eq!(docs.name, "Docs");
    assert_eq!(docs.dir, "docs");
    assert_eq!(docs.asset_dir, "docs/.gitbook/assets");
    assert_eq!(docs.index.len(), 1);
    assert_eq!(docs.index[0].title, "Home");
    assert_eq!(docs.index[0].href, "/docs/");
    assert_eq!(docs.content_path(""), "docs/README.md");
    assert_eq!(docs.content_path("install/"), "docs/install/README.md");
    assert_eq!(docs.content_path("install"), "docs/install.md");
    assert_eq!(summary_path("Docs"), "docs/SUMMARY.md");
    assert_eq!(summary_path("Careers"), "careers/SUMMARY.md");
}

#[test]
fn assets_stay_in_their_directory() {
    let blog = Collection::from_summary("Blog", &summary());
    assert_eq!(blog.get_asset("logo.png"), Some("blog/.gitbook/assets/logo.png".to_string()));
    assert_eq!(blog.get_asset("img/a.b.png"), Some("blog/.gitbook/assets/img/a.b.png".to_string()));
    assert_eq!(blog.get_asset(""), None);
    assert_eq!(blog.get_asset("/etc/passwd"), None);
    assert_eq!(blog.get_asset("../secret"), None);
    assert_eq!(blog.get_asset("img/../../secret"), None);
    assert_eq!(blog.get_asset(".."), None);
    assert_eq!(blog.get_asset("img/.."), None);
    assert_eq!(blog.get_asset("a/../b.png"), None);
}

#[test]
fn dots_inside_a_name_are_no_step_upwards() {
    let blog = Collection::from_summary("Blog", &summary());
    assert_eq!(blog.get_asset("a..b"), Some("blog/.gitbook/assets/a..b".to_string()));
    assert_eq!(blog.get_asset("logo..png"), Some("blog/.gitbook/assets/logo..png".to_string()));
    assert_eq!(blog.get_asset("v1..2/x.png"), Some("blog/.gitbook/assets/v1..2/x.png".to_string()));
    assert_eq!(blog.get_asset("..."), Some("blog/.gitbook/assets/...".to_string()));
    assert_eq!(blog.get_asset("..a/b.."), Some("blog/.gitbook/assets/..a/b..".to_string()));
    assert_eq!(blog.get_asset("./a"), Some("blog/.gitbook/assets/./a".to_string()));
}

#[test]
fn unreadable_file_is_not_found() {
    let docs = Collection::from_summary("Docs", &summary());
    match docs.get_content(None) {
        Err(e) => assert_eq!(e, ContentError::NotFound),
        Ok(_) => panic!("should fail"),
    }
}

#[test]
fn document_without_heading_is_missing_its_title() {
    let docs = Collection::from_summary("Docs", &summary());
    let document = node(NodeKind::Document, vec![p("just text"), node(NodeKind::Table, vec![])]);
    match docs.get_content(Some(ContentFile { meta: no_meta(), document })) {
        Err(e) => assert_eq!(e, ContentError::MissingTitle),
        Ok(_) => panic!("should fail"),
    }
}

#[test]
fn page_holds_all_that_the_layout_needs() {
    let docs = Collection::from_summary("Docs", &summary());
    let document = node(
        NodeKind::Document,
        vec![
            heading(1, "Install"),
            p("!!! note"),
            node(NodeKind::Table, vec![]),
            p("!!!"),
            heading(2, "Install"),
        ],
    );
    let meta = PageMeta {
        image: Some("cover.png".to_string()),
        description: Some("How to".to_string()),
    };
    let page = docs.get_content(Some(ContentFile { meta, document })).ok().unwrap();
    assert_eq!(page.title, "Install");
    assert_eq!(page.collection, "Docs");
    assert_eq!(page.meta.image, Some("cover.png".to_string()));
    assert_eq!(page.meta.description, Some("How to".to_string()));
    assert_eq!(page.index.len(), 1);
    assert_eq!(page.index[0].href, "/docs/");
    let ids: Vec<&str> = page.toc.iter().map(|l| l.id.as_str()).collect();
    assert_eq!(ids, vec!["install", "install-1"]);
    assert_eq!(page.toc[1].level, 2);
    let kinds: Vec<String> = page
        .document
        .children
        .iter()
        .map(|n| match &n.kind {
            NodeKind::Heading { level } => format!("h{}", level),
            NodeKind::Table => "table".to_string(),
            NodeKind::Html { literal } => literal.clone(),
            _ => "unexpected".to_string(),
        })
        .collect();
    assert_eq!(
        kinds,
        vec![
            "h1",
            "<div class=\"admonition admonition-note\">",
            "<div class=\"overflow-auto w-100\">",
            "table",
            "</div>",
            "</div>",
            "h2",
        ]
    );
}

#[test]
fn trailing_slash_is_put_back() {
    assert_eq!(restore_slash("install", "/docs/install/"), "install/");
    assert_eq!(restore_slash("install", "/docs/install"), "install");
    assert_eq!(restore_slash("", "/docs/"), "");
    assert_eq!(restore_slash("a/b", "/docs/a/b/"), "a/b/");
    assert_eq!(restore_slash("a/", "/docs/a/"), "a/");
    assert_eq!(restore_slash("a", ""), "a");
    assert_eq!(document_path(&restore_slash("install", "/docs/install/")), "install/README.md");
}

#[test]
fn collection_is_built_from_the_text_of_its_summary() {
    let text = "# Table of contents\n\n* [Home](README.md)\n* [Install](install/README.md)\n  * [Linux](install/linux.md)\n";
    let careers = Collection::new("Careers", text).unwrap();
    assert_eq!(careers.name, "Careers");
    assert_eq!(careers.asset_dir, "careers/.gitbook/assets");
    assert_eq!(careers.index.len(), 2);
    assert_eq!(careers.index[0].href, "/careers/");
    assert_eq!(careers.index[1].title, "Install");
    assert_eq!(careers.index[1].href, "/careers/install/");
    assert_eq!(careers.index[1].children[0].href, "/careers/install/linux");
    let empty = Collection::new("Docs", "").unwrap();
    assert!(empty.index.is_empty());
}

#[test]
fn names_are_lowered_as_a_whole() {
    let c = Collection::new("ÄRGER Und Co", "").unwrap();
    assert_eq!(c.dir, "ärger und co");
    assert_eq!(c.asset_dir, "ärger und co/.gitbook/assets");
    assert_eq!(c.content_path(""), "ärger und co/README.md");
    assert_eq!(summary_path("ÄRGER"), "ärger/SUMMARY.md");
}

#[test]
fn collection_names_what_its_index_leaves_out() {
    let link = node(NodeKind::Link { url: "a.md".to_string() }, vec![text("A")]);
    let kept = node(NodeKind::Item, vec![node(NodeKind::Paragraph, vec![link])]);
    let lost = node(NodeKind::Item, vec![p("no link here")]);
    let tree = node(NodeKind::Document, vec![node(NodeKind::List, vec![kept, lost])]);
    let docs = Collection::from_summary("Docs", &tree);
    assert_eq!(docs.index.len(), 1);
    assert_eq!(docs.skipped(&tree), vec!["no link here"]);
    assert!(docs.skipped(&summary()).is_empty());
}

#[test]
fn request_is_mapped_to_its_file() {
    let docs = Collection::from_summary("Docs", &summary());
    assert_eq!(docs.request_file("", "/docs/"), "docs/README.md");
    assert_eq!(docs.request_file("install", "/docs/install/"), "docs/install/README.md");
    assert_eq!(docs.request_file("install", "/docs/install"), "docs/install.md");
    assert_eq!(docs.request_file("a/b", "/docs/a/b/"), "docs/a/b/README.md");
}
