use gitbook_pages::front_matter::{front_matter_with, read_block, split_front_matter, MetaBlock, MetaField};

#[test]
fn dashes_in_prose_leave_the_content_whole() {
    let content = "# Title\n\nSome text --- with a dash --- in it";
    let (meta, body) = split_front_matter(content).unwrap();
    assert_eq!(meta.image, None);
    assert_eq!(meta.description, None);
    assert_eq!(body, content);
}

#[test]
fn valid_block_gives_metadata_and_body() {
    let content = "---\ndescription: How to install\nimage: ./cover.png\n---\n# Install\n\nText\n";
    let (meta, body) = split_front_matter(content).unwrap();
    assert_eq!(meta.description, Some("How to install".to_string()));
    assert_eq!(meta.image, Some("./cover.png".to_string()));
    assert_eq!(body, "\n# Install\n\nText\n");
}

#[test]
fn body_keeps_later_markers() {
    let content = "---\ndescription: d\n---\nfirst\n---\nsecond";
    let (meta, body) = split_front_matter(content).unwrap();
    assert_eq!(meta.description, Some("d".to_string()));
    assert_eq!(meta.image, None);
    assert_eq!(body, "\nfirst\n---\nsecond");
}

#[test]
fn content_without_marker_is_all_body() {
    let (meta, body) = split_front_matter("# Title\n\nplain").unwrap();
    assert_eq!(meta.image, None);
    assert_eq!(meta.description, None);
    assert_eq!(body, "# Title\n\nplain");
}

#[test]
fn single_rule_falls_back() {
    let content = "# Title\n\nabove\n\n---\n\nbelow\n";
    let (meta, body) = split_front_matter(content).unwrap();
    assert_eq!(meta.image, None);
    assert_eq!(meta.description, None);
    assert_eq!(body, content);
}

#[test]
fn mapping_without_second_marker_has_empty_body() {
    let content = "intro---\ndescription: d\n";
    let (meta, body) = split_front_matter(content).unwrap();
    assert_eq!(meta.description, Some("d".to_string()));
    assert_eq!(body, "");
}

#[test]
fn non_string_entry_is_refused() {
    let content = "---\ndescription: 5\n---\nbody";
    assert!(split_front_matter(content).is_none());
}

#[test]
fn read_block_tells_the_cases_apart() {
    assert!(matches!(read_block("a: [unclosed"), MetaBlock::Unreadable));
    assert!(matches!(read_block(""), MetaBlock::Empty));
    assert!(matches!(read_block(" with a dash "), MetaBlock::NotMapping));
    match read_block("image: x.png\nother: 1\n") {
        MetaBlock::Mapping { description, image } => {
            assert!(matches!(description, MetaField::Missing));
            match image {
                MetaField::Text(text) => assert_eq!(text, "x.png"),
                _ => panic!("image should be text"),
            }
        }
        _ => panic!("should be a mapping"),
    }
    match read_block("description: [1, 2]\n") {
        MetaBlock::Mapping { description, .. } => assert!(matches!(description, MetaField::Other)),
        _ => panic!("should be a mapping"),
    }
}

#[test]
fn front_matter_with_follows_the_block() {
    let block = MetaBlock::Mapping {
        description: MetaField::Text("d".to_string()),
        image: MetaField::Missing,
    };
    let (meta, body) = front_matter_with("a---b---c---d", &block);
    assert_eq!(meta.description, Some("d".to_string()));
    assert_eq!(meta.image, None);
    assert_eq!(body, "c---d");
    let (meta, body) = front_matter_with("a---b---c---d", &MetaBlock::NotMapping);
    assert_eq!(meta.description, None);
    assert_eq!(body, "a---b---c---d");
    let (meta, body) = front_matter_with("no marker", &block);
    assert_eq!(meta.description, None);
    assert_eq!(body, "no marker");
}

#[test]
fn body_is_all_that_follows_the_block() {
    let cases = [
        ("", "\ndescription: d\n", "\n# T\n\ntext"),
        ("", "\nimage: i.png\n", ""),
        ("ignored", "\ndescription: x\nimage: y\n", "a --- b --- c"),
        ("", "\ndescription: d\n", "---"),
    ];
    for (head, meta, body) in cases {
        let content = format!("{}---{}---{}", head, meta, body);
        let (_, got) = split_front_matter(&content).unwrap();
        assert_eq!(got, body);
        assert_eq!(format!("{}---{}---{}", head, meta, got), content);
    }
}
