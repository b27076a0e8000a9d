//! The optional metadata block at the head of a content file.
//!
//! A file is cut at every `---`. When that gives at least two pieces and the
//! second one reads as a YAML mapping, its `description` and `image` entries
//! become the page's metadata and the body is what follows the second `---`.
//! In every other case the whole file is the body.

use crate::text::{
    chars_of, join, join_chars, lemma_join_split, split, split_chars, string_of, views,
};
use vstd::prelude::*;
use yaml_rust::scanner::ScanError;
use yaml_rust::{Yaml, YamlLoader};

verus! {

/// A value read by `yaml_rust`. Nothing of its inside is visible here.
#[verifier::external_type_specification]
#[verifier::external_body]
pub struct ExYaml(Yaml);

/// The error that `yaml_rust` reports for text it cannot read.
#[verifier::external_type_specification]
#[verifier::external_body]
pub struct ExScanError(ScanError);

/// The documents that `YamlLoader::load_from_str` reads from `source`, or
/// `None` where it reports an error.
pub uninterp spec fn yaml_documents(source: Seq<char>) -> Option<Seq<Yaml>>;

/// Whether a YAML value is a mapping (`Yaml::Hash`).
pub uninterp spec fn yaml_is_mapping(doc: Yaml) -> bool;

/// What a YAML value holds under its string keys: a key is present when
/// indexing the value by it gives something other than `Yaml::BadValue`, and
/// it is bound to `Some` text when that is a `Yaml::String`, to `None` when it
/// is a value of any other sort.
pub uninterp spec fn yaml_entries(doc: Yaml) -> Map<Seq<char>, Option<Seq<char>>>;

/// One entry of a metadata block.
#[derive(Debug, PartialEq, Eq)]
pub enum MetaField {
    /// The key is not there.
    Missing,
    /// The key is bound to a string.
    Text(String),
    /// The key is bound to something that is no string.
    Other,
}

pub enum MetaFieldView {
    Missing,
    Text(Seq<char>),
    Other,
}

impl View for MetaField {
    type V = MetaFieldView;

    open spec fn view(&self) -> MetaFieldView {
        match self {
            MetaField::Missing => MetaFieldView::Missing,
            MetaField::Text(text) => MetaFieldView::Text(text@),
            MetaField::Other => MetaFieldView::Other,
        }
    }
}

/// What the second piece of a file turned out to be.
#[derive(Debug, PartialEq, Eq)]
pub enum MetaBlock {
    /// It is no YAML.
    Unreadable,
    /// It is YAML without any document.
    Empty,
    /// Its first document is no mapping.
    NotMapping,
    /// Its first document is a mapping, with these two entries.
    Mapping { description: MetaField, image: MetaField },
}

pub enum MetaBlockView {
    Unreadable,
    Empty,
    NotMapping,
    Mapping { description: MetaFieldView, image: MetaFieldView },
}

impl View for MetaBlock {
    type V = MetaBlockView;

    open spec fn view(&self) -> MetaBlockView {
        match self {
            MetaBlock::Unreadable => MetaBlockView::Unreadable,
            MetaBlock::Empty => MetaBlockView::Empty,
            MetaBlock::NotMapping => MetaBlockView::NotMapping,
            MetaBlock::Mapping { description, image } => MetaBlockView::Mapping {
                description: description@,
                image: image@,
            },
        }
    }
}

/// The metadata of a page.
#[derive(Debug, PartialEq, Eq)]
pub struct PageMeta {
    pub image: Option<String>,
    pub description: Option<String>,
}

pub struct PageMetaView {
    pub image: Option<Seq<char>>,
    pub description: Option<Seq<char>>,
}

impl View for PageMeta {
    type V = PageMetaView;

    open spec fn view(&self) -> PageMetaView {
        PageMetaView {
            image: match self.image {
                Some(text) => Some(text@),
                None => None,
            },
            description: match self.description {
                Some(text) => Some(text@),
                None => None,
            },
        }
    }
}

/// The marker that parts the metadata from the body.
pub open spec fn delimiter() -> Seq<char> {
    seq!['-', '-', '-']
}

/// Metadata with nothing in it.
pub open spec fn no_meta() -> PageMetaView {
    PageMetaView { image: None, description: None }
}

/// The entry that a YAML value holds under `key`.
pub open spec fn field_of(
    entries: Map<Seq<char>, Option<Seq<char>>>,
    key: Seq<char>,
) -> MetaFieldView {
    if !entries.contains_key(key) {
        MetaFieldView::Missing
    } else {
        match entries[key] {
            Some(text) => MetaFieldView::Text(text),
            None => MetaFieldView::Other,
        }
    }
}

/// What `source` is as a metadata block.
pub open spec fn block_of(source: Seq<char>) -> MetaBlockView {
    match yaml_documents(source) {
        None => MetaBlockView::Unreadable,
        Some(docs) => if docs.len() == 0 {
            MetaBlockView::Empty
        } else if !yaml_is_mapping(docs[0]) {
            MetaBlockView::NotMapping
        } else {
            MetaBlockView::Mapping {
                description: field_of(yaml_entries(docs[0]), "description"@),
                image: field_of(yaml_entries(docs[0]), "image"@),
            }
        },
    }
}

/// The text of an entry, if it has one.
pub open spec fn text_of(field: MetaFieldView) -> Option<Seq<char>> {
    match field {
        MetaFieldView::Text(text) => Some(text),
        _ => None,
    }
}

/// Whether each of the two entries of a mapping is a string or missing.
pub open spec fn textual(block: MetaBlockView) -> bool {
    match block {
        MetaBlockView::Mapping { description, image } => description !is Other && image !is Other,
        _ => true,
    }
}

/// The metadata and the body of `content`, given what its second piece is.
pub open spec fn split_with(content: Seq<char>, block: MetaBlockView) -> (PageMetaView, Seq<char>) {
    let parts = split(content, delimiter());
    match block {
        MetaBlockView::Mapping { description, image } if parts.len() >= 2 => (
            PageMetaView { image: text_of(image), description: text_of(description) },
            join(parts.skip(2), delimiter()),
        ),
        _ => (no_meta(), content),
    }
}

/// The block that governs `content`: what its second piece is, where it has one.
pub open spec fn governing_block(content: Seq<char>) -> MetaBlockView {
    let parts = split(content, delimiter());
    if parts.len() >= 2 {
        block_of(parts[1])
    } else {
        MetaBlockView::Empty
    }
}

/// Calls `YamlLoader::load_from_str`. The contract is not proved. It claims
/// that the outcome depends on the text alone, and calls it
/// `yaml_documents`: the documents that were read, or nothing where the
/// loader reports an error.
#[verifier::external_body]
fn load_documents(source: &str) -> (r: Result<Vec<Yaml>, ScanError>)
    ensures
        match r {
            Ok(docs) => yaml_documents(source@) == Some(docs@),
            Err(_) => yaml_documents(source@) is None,
        },
{
    YamlLoader::load_from_str(source)
}

/// Calls `Yaml::as_hash`, which gives something for a `Yaml::Hash` and for no
/// other value. The contract is not proved. It calls the answer
/// `yaml_is_mapping`.
#[verifier::external_body]
fn is_mapping(doc: &Yaml) -> (r: bool)
    ensures
        r == yaml_is_mapping(*doc),
{
    doc.as_hash().is_some()
}

/// Indexes a YAML value by a string key (`Index<&str> for Yaml`), which
/// gives `Yaml::BadValue` where the value is no mapping or lacks the key, and
/// tells three sorts of outcome apart: `BadValue`, a `Yaml::String`, and
/// anything else. The contract is not proved. It claims that the outcome is
/// what `yaml_entries` holds under the key.
#[verifier::external_body]
fn lookup(doc: &Yaml, key: &str) -> (r: MetaField)
    ensures
        r@ == field_of(yaml_entries(*doc), key@),
{
    match &doc[key] {
        Yaml::BadValue => MetaField::Missing,
        Yaml::String(text) => MetaField::Text(text.clone()),
        _ => MetaField::Other,
    }
}

/// Reads `source` as a metadata block.
pub fn read_block(source: &str) -> (block: MetaBlock)
    ensures
        block@ == block_of(source@),
{
    match load_documents(source) {
        Err(_) => MetaBlock::Unreadable,
        Ok(docs) => {
            if docs.len() == 0 {
                MetaBlock::Empty
            } else if !is_mapping(&docs[0]) {
                MetaBlock::NotMapping
            } else {
                let description = lookup(&docs[0], "description");
                let image = lookup(&docs[0], "image");
                MetaBlock::Mapping { description, image }
            }
        },
    }
}

fn field_text(field: &MetaField) -> (r: Option<String>)
    ensures
        match r {
            Some(text) => text_of(field@) == Some(text@),
            None => text_of(field@) is None,
        },
{
    match field {
        MetaField::Text(text) => Some(text.clone()),
        _ => None,
    }
}

fn delimiter_chars() -> (d: Vec<char>)
    ensures
        d@ == delimiter(),
{
    let mut d: Vec<char> = Vec::new();
    d.push('-');
    d.push('-');
    d.push('-');
    assert(d@ =~= delimiter());
    d
}

/// The metadata and the body of `content`, given what its second piece is.
///
/// A mapping gives its two entries as the metadata and what follows the second
/// marker as the body. Anything else leaves the metadata empty and the
/// content whole.
pub fn front_matter_with(content: &str, block: &MetaBlock) -> (r: (PageMeta, String))
    requires
        textual(block@),
    ensures
        (r.0@, r.1@) == split_with(content@, block@),
{
    let chars = chars_of(content);
    let delim = delimiter_chars();
    let parts = split_chars(&chars, &delim);
    match block {
        MetaBlock::Mapping { description, image } => {
            if parts.len() >= 2 {
                let body = join_chars(&parts, 2, &delim);
                let meta = PageMeta {
                    image: field_text(image),
                    description: field_text(description),
                };
                return (meta, string_of(&body));
            }
        },
        _ => {},
    }
    (PageMeta { image: None, description: None }, string_of(&chars))
}

/// The metadata and the body of `content`.
///
/// The second piece of the content, where there is one, is read as YAML and
/// decides as in `front_matter_with`. The result is `None` exactly when that
/// piece is a mapping that binds `description` or `image` to something that is
/// no string.
pub fn split_front_matter(content: &str) -> (r: Option<(PageMeta, String)>)
    ensures
        match r {
            Some(page) => {
                &&& textual(governing_block(content@))
                &&& (page.0@, page.1@) == split_with(content@, governing_block(content@))
            },
            None => !textual(governing_block(content@)),
        },
{
    let chars = chars_of(content);
    let delim = delimiter_chars();
    let parts = split_chars(&chars, &delim);
    if parts.len() < 2 {
        let block = MetaBlock::Empty;
        return Some(front_matter_with(content, &block));
    }
    let second = string_of(&parts[1]);
    assert(views(parts@)[1] == parts@[1]@);
    let block = read_block(second.as_str());
    match &block {
        MetaBlock::Mapping { description, image } => {
            match (description, image) {
                (MetaField::Other, _) => {
                    return None;
                },
                (_, MetaField::Other) => {
                    return None;
                },
                _ => {},
            }
        },
        _ => {},
    }
    Some(front_matter_with(content, &block))
}

/// Where the second piece of a file is a mapping, the file is its first
/// piece, the marker, its second piece and, where a second marker follows,
/// that marker and the body: the body is all that follows the metadata
/// block, and it is empty where nothing does.
pub proof fn lemma_front_matter_round_trip(content: Seq<char>, block: MetaBlockView)
    requires
        block is Mapping,
        split(content, delimiter()).len() >= 2,
    ensures
        split(content, delimiter()).len() >= 3 ==> content == split(content, delimiter())[0]
            + delimiter() + split(content, delimiter())[1] + delimiter() + split_with(
            content,
            block,
        ).1,
        split(content, delimiter()).len() == 2 ==> split_with(content, block).1.len() == 0
            && content == split(content, delimiter())[0] + delimiter() + split(
            content,
            delimiter(),
        )[1],
{
    let d = delimiter();
    let parts = split(content, d);
    lemma_join_split(content, d, 0);
    assert(content.subrange(0, content.len() as int) =~= content);
    assert(parts.skip(1).skip(1) =~= parts.skip(2));
    assert(parts.skip(1)[0] == parts[1]);
    assert(join(parts, d) == parts[0] + d + join(parts.skip(1), d));
    if parts.len() >= 3 {
        assert(join(parts.skip(1), d) == parts[1] + d + join(parts.skip(2), d));
        assert(parts[0] + d + (parts[1] + d + join(parts.skip(2), d)) =~= parts[0] + d + parts[1]
            + d + join(parts.skip(2), d));
    } else {
        assert(join(parts.skip(1), d) == parts[1]);
        assert(join(parts.skip(2), d).len() == 0);
    }
}

/// Where the second piece of a file is no mapping, the body is the file as it
/// stands, markers included.
pub proof fn lemma_fallback_keeps_content(content: Seq<char>, block: MetaBlockView)
    requires
        block !is Mapping,
    ensures
        split_with(content, block) == (no_meta(), content),
{
}

} // verus!
