//! A collection: a named set of documents with one navigation index and one
//! directory of assets.
//!
//! A collection named `Docs` lives in the directory `docs`: its summary is
//! `docs/SUMMARY.md`, the document for the request path `install` is
//! `docs/install.md`, and its assets are in `docs/.gitbook/assets`. All
//! paths are relative to the directory that holds the collections.

use crate::directives::{expanded, mkdocs};
use crate::document::{headings, Node, NodeView};
use crate::error::ContentError;
use crate::front_matter::PageMeta;
use crate::headings::{
    get_title, get_toc, lemma_no_heading_no_title, title_of, toc_of, toc_views, TocLink,
};
use crate::markup::{box_count_in, flatten, flattened, lemma_flattened_has_no_boxes};
use crate::navigation::{
    all_rooted, clone_links, extension, link_models, nav_index, parse_summary_into_nav_links,
    readme, request_path, skipped_items, skipped_summary_items, without_extension, without_lead,
    NavLink,
};
use crate::summary::{read_summary, summary_tree};
use crate::tables::{wrap_tables, wrapped};
use crate::text::{
    chars_of, ends_with, extend, first_occurrence, lemma_first_occurrence, lemma_split_first,
    occurs_at, same_chars, split, split_chars, string_of, string_views, views,
};
use vstd::prelude::*;

verus! {

/// A named set of documents.
#[derive(Debug, PartialEq, Eq)]
pub struct Collection {
    pub name: String,
    /// The directory of the collection: its name in lower case.
    pub dir: String,
    /// The directory of the collection's assets.
    pub asset_dir: String,
    /// The navigation index.
    pub index: Vec<NavLink>,
}

/// A content file as read, split and parsed.
#[derive(Debug, PartialEq, Eq)]
pub struct ContentFile {
    pub meta: PageMeta,
    pub document: Node,
}

/// All that the layout needs of a page.
#[derive(Debug, PartialEq, Eq)]
pub struct Page {
    pub title: String,
    /// The document, ready to be written as HTML.
    pub document: Node,
    pub toc: Vec<TocLink>,
    pub meta: PageMeta,
    /// The navigation index of the collection.
    pub index: Vec<NavLink>,
    /// The name of the collection.
    pub collection: String,
}

/// A text in lower case, as `str::to_lowercase` gives it.
pub uninterp spec fn lowercase_of(text: Seq<char>) -> Seq<char>;

/// Calls `str::to_lowercase`. The contract is not proved. It claims that
/// the outcome depends on the text alone, and calls it `lowercase_of`.
#[verifier::external_body]
fn to_lowercase(text: &str) -> (r: String)
    ensures
        r@ == lowercase_of(text@),
{
    text.to_lowercase()
}

/// The directory of the collection `name`: the name in lower case.
pub open spec fn directory_of(name: Seq<char>) -> Seq<char> {
    lowercase_of(name)
}

/// The address under which the collection `name` is served.
pub open spec fn root_of(name: Seq<char>) -> Seq<char> {
    seq!['/'] + directory_of(name)
}

/// The file that holds the summary of the collection `name`.
pub open spec fn summary_file(name: Seq<char>) -> Seq<char> {
    directory_of(name) + "/SUMMARY.md"@
}

/// The directory that holds the assets of the collection `name`.
pub open spec fn asset_dir_of(name: Seq<char>) -> Seq<char> {
    directory_of(name) + "/.gitbook/assets"@
}

/// The file, within a collection's directory, for a request path: a path
/// that is empty or ends in `/` asks for the `README` of that directory.
pub open spec fn document_file(path: Seq<char>) -> Seq<char> {
    if path.len() == 0 || path.last() == '/' {
        path + readme() + extension()
    } else {
        path + extension()
    }
}

/// The file for a request path in the collection that lives in `dir`.
pub open spec fn content_file(dir: Seq<char>, path: Seq<char>) -> Seq<char> {
    dir + seq!['/'] + document_file(path)
}

/// The step that leads from a directory to the one above it.
pub open spec fn parent_step() -> Seq<char> {
    seq!['.', '.']
}

/// The components of a path: its pieces between the `/`.
pub open spec fn components(path: Seq<char>) -> Seq<Seq<char>> {
    split(path, seq!['/'])
}

/// Whether a path names something inside the directory it is resolved in:
/// it is not empty, does not start at the root, and none of its components
/// is `..`.
pub open spec fn stays_inside(path: Seq<char>) -> bool {
    &&& path.len() > 0
    &&& path[0] != '/'
    &&& forall|i: int| 0 <= i < components(path).len() ==> components(path)[i] != parent_step()
}

/// The document as it is handed to the renderer: tables wrapped, then
/// directives expanded, then every box written out as HTML.
pub open spec fn prepared(doc: NodeView) -> NodeView {
    flattened(expanded(wrapped(doc)))
}

/// The request path with its last `/` put back. A router hands over the
/// path of an address without the `/` that the address ended in; where the
/// address ends in `/` and the path is not empty and does not, the path gets
/// one.
pub open spec fn with_slash(path: Seq<char>, address: Seq<char>) -> Seq<char> {
    if address.len() > 0 && address.last() == '/' && path.len() > 0 && path.last() != '/' {
        path.push('/')
    } else {
        path
    }
}

/// The request path with its last `/` put back where the address had one.
pub fn restore_slash(path: &str, address: &str) -> (r: String)
    ensures
        r@ == with_slash(path@, address@),
{
    let mut request = chars_of(path);
    let asked = chars_of(address);
    let asked_dir = asked.len() > 0 && asked[asked.len() - 1] == '/';
    if asked_dir && request.len() > 0 && request[request.len() - 1] != '/' {
        request.push('/');
    }
    string_of(&request)
}

/// The file, within a collection's directory, for a request path.
pub fn document_path(path: &str) -> (r: String)
    ensures
        r@ == document_file(path@),
{
    let mut file = chars_of(path);
    if file.len() == 0 || file[file.len() - 1] == '/' {
        let name = chars_of("README");
        proof {
            reveal_strlit("README");
            assert(name@ =~= readme());
        }
        extend(&mut file, &name);
    }
    let ext = chars_of(".md");
    proof {
        reveal_strlit(".md");
        assert(ext@ =~= extension());
    }
    extend(&mut file, &ext);
    string_of(&file)
}

/// The file that holds the summary of the collection `name`.
pub fn summary_path(name: &str) -> (r: String)
    ensures
        r@ == summary_file(name@),
{
    let dir = to_lowercase(name);
    let mut file = chars_of(dir.as_str());
    let tail = chars_of("/SUMMARY.md");
    extend(&mut file, &tail);
    string_of(&file)
}

impl Collection {
    /// The collection `name`, with the navigation index that the text of its
    /// summary gives, or `None` where the parser does not take the text.
    pub fn new(name: &str, summary: &str) -> (r: Option<Collection>)
        ensures
            match summary_tree(summary@) {
                Some(tree) => {
                    &&& r matches Some(c)
                    &&& c.name@ == name@
                    &&& c.dir@ == directory_of(name@)
                    &&& c.asset_dir@ == asset_dir_of(name@)
                    &&& link_models(c.index@) == nav_index(tree, root_of(name@))
                    &&& all_rooted(link_models(c.index@), root_of(name@))
                },
                None => r is None,
            },
    {
        match read_summary(summary) {
            Some(tree) => Some(Collection::from_summary(name, &tree)),
            None => None,
        }
    }

    /// The collection `name`, with the navigation index that its summary
    /// document gives.
    pub fn from_summary(name: &str, summary: &Node) -> (r: Collection)
        ensures
            r.name@ == name@,
            r.dir@ == directory_of(name@),
            r.asset_dir@ == asset_dir_of(name@),
            link_models(r.index@) == nav_index(summary@, root_of(name@)),
            all_rooted(link_models(r.index@), root_of(name@)),
    {
        let lowered = to_lowercase(name);
        let dir = chars_of(lowered.as_str());
        let mut root: Vec<char> = Vec::new();
        root.push('/');
        extend(&mut root, &dir);
        assert(root@ =~= root_of(name@));
        let root = string_of(&root);
        let index = parse_summary_into_nav_links(summary, root.as_str());
        let mut assets = dir;
        let tail = chars_of("/.gitbook/assets");
        extend(&mut assets, &tail);
        Collection { name: name.to_owned(), dir: lowered, asset_dir: string_of(&assets), index }
    }

    /// The items of the collection's summary that its index leaves out, each
    /// by the text it shows: those that have no link and nothing below them,
    /// and those whose link or label shows no text.
    pub fn skipped(&self, summary: &Node) -> (r: Vec<String>)
        ensures
            string_views(r@) == skipped_items(summary@, seq!['/'] + self.dir@),
    {
        let mut root: Vec<char> = Vec::new();
        root.push('/');
        let dir = chars_of(self.dir.as_str());
        extend(&mut root, &dir);
        assert(root@ =~= seq!['/'] + self.dir@);
        let root = string_of(&root);
        skipped_summary_items(summary, root.as_str())
    }

    /// The file that holds the document for a request: the path that the
    /// router hands over, with the `/` that the address ended in put back,
    /// mapped to its file.
    pub fn request_file(&self, path: &str, address: &str) -> (r: String)
        ensures
            r@ == content_file(self.dir@, with_slash(path@, address@)),
    {
        let request = restore_slash(path, address);
        self.content_path(request.as_str())
    }

    /// The file that holds the document for a request path.
    pub fn content_path(&self, path: &str) -> (r: String)
        ensures
            r@ == content_file(self.dir@, path@),
    {
        let mut file = chars_of(self.dir.as_str());
        file.push('/');
        let doc = document_path(path);
        let doc_chars = chars_of(doc.as_str());
        extend(&mut file, &doc_chars);
        assert(file@ =~= content_file(self.dir@, path@));
        string_of(&file)
    }

    /// The file of an asset: the path below the collection's asset
    /// directory, or `None` for a path that is empty, starts at the root, or
    /// has `..` as one of its components.
    pub fn get_asset(&self, path: &str) -> (r: Option<String>)
        ensures
            match r {
                Some(file) => stays_inside(path@) && file@ == self.asset_dir@ + seq!['/'] + path@,
                None => !stays_inside(path@),
            },
    {
        let chars = chars_of(path);
        if chars.len() == 0 || chars[0] == '/' {
            return None;
        }
        let mut dots: Vec<char> = Vec::new();
        dots.push('.');
        dots.push('.');
        assert(dots@ =~= parent_step());
        let mut slash: Vec<char> = Vec::new();
        slash.push('/');
        assert(slash@ =~= seq!['/']);
        let parts = split_chars(&chars, &slash);
        let mut i: usize = 0;
        while i < parts.len()
            invariant
                i <= parts.len(),
                dots@ == parent_step(),
                views(parts@) == components(path@),
                forall|k: int| 0 <= k < i ==> components(path@)[k] != parent_step(),
            decreases parts.len() - i,
        {
            assert(views(parts@)[i as int] == parts@[i as int]@);
            if same_chars(&parts[i], &dots) {
                return None;
            }
            i = i + 1;
        }
        let mut file = chars_of(self.asset_dir.as_str());
        file.push('/');
        extend(&mut file, &chars);
        assert(file@ =~= self.asset_dir@ + seq!['/'] + path@);
        Some(string_of(&file))
    }

    /// The page for a content file. `None` stands for a file that could not
    /// be read, and gives `NotFound`. A document without a heading among the
    /// children of its root gives `MissingTitle`. Any other document gives
    /// its page: the title and the table of contents of the document as it
    /// was read, the document with its tables wrapped, its directives
    /// expanded and every box written out as HTML, the file's metadata, and
    /// the collection's index and name.
    pub fn get_content(&self, file: Option<ContentFile>) -> (r: Result<Page, ContentError>)
        ensures
            match file {
                None => r matches Err(e) && e == ContentError::NotFound,
                Some(f) => match title_of(f.document@) {
                    None => r matches Err(e) && e == ContentError::MissingTitle,
                    Some(title) => {
                        &&& r matches Ok(page)
                        &&& page.title@ == title
                        &&& toc_views(page.toc@) == toc_of(f.document@)
                        &&& page.document@ == prepared(f.document@)
                        &&& box_count_in(page.document@.children) == 0
                        &&& page.meta@ == f.meta@
                        &&& link_models(page.index@) == link_models(self.index@)
                        &&& page.collection@ == self.name@
                    },
                },
            },
            file matches Some(f) && headings(f.document@).len() == 0 ==> (r matches Err(e) && e
                == ContentError::MissingTitle),
    {
        match file {
            None => Err(ContentError::NotFound),
            Some(f) => {
                proof {
                    if headings(f.document@).len() == 0 {
                        lemma_no_heading_no_title(f.document@);
                    }
                }
                match get_title(&f.document) {
                    Err(e) => Err(e),
                    Ok(title) => {
                        let toc = get_toc(&f.document);
                        let with_tables = wrap_tables(&f.document);
                        let with_boxes = mkdocs(&with_tables);
                        let document = flatten(&with_boxes);
                        proof {
                            lemma_flattened_has_no_boxes(with_boxes@.children);
                        }
                        Ok(
                            Page {
                                title,
                                document,
                                toc,
                                meta: f.meta,
                                index: clone_links(&self.index),
                                collection: self.name.clone(),
                            },
                        )
                    },
                }
            },
        }
    }
}

/// A name without any `/` stays inside unless it is `..` itself: dots
/// within a name are no step upwards.
pub proof fn lemma_plain_name_stays_inside(name: Seq<char>)
    requires
        name.len() > 0,
        forall|i: int| 0 <= i < name.len() ==> name[i] != '/',
    ensures
        stays_inside(name) <==> name != parent_step(),
{
    let slash = seq!['/'];
    lemma_first_occurrence(name, slash, 0);
    match first_occurrence(name, slash, 0) {
        Some(at) => {
            assert(occurs_at(name, slash, at));
            assert(name.subrange(at, at + 1)[0] == slash[0]);
            assert(name[at] == '/');
        },
        None => {},
    }
    assert(name.subrange(0, name.len() as int) =~= name);
    assert(components(name) =~= seq![name]);
    if name != parent_step() {
        assert forall|i: int| 0 <= i < components(name).len() implies components(name)[i]
            != parent_step() by {
            assert(components(name)[i] == name);
        }
    } else {
        assert(components(name)[0] == parent_step());
    }
}

/// The components of a path are what stands before its first `/` and then
/// the components of what stands behind it.
pub proof fn lemma_components_step(first: Seq<char>, rest: Seq<char>)
    requires
        forall|i: int| 0 <= i < first.len() ==> first[i] != '/',
    ensures
        components(first + seq!['/'] + rest) == seq![first] + components(rest),
{
    let slash = seq!['/'];
    let whole = first + slash + rest;
    assert forall|k: int| 0 <= k < first.len() implies !occurs_at(whole, slash, k) by {
        if occurs_at(whole, slash, k) {
            assert(whole.subrange(k, k + 1)[0] == slash[0]);
            assert(whole[k] == first[k]);
        }
    }
    lemma_split_first(first, rest, slash);
}

/// A path whose first component is `..` leads out of the directory, and a
/// path that starts with any other name leads out exactly when what follows
/// its first `/` has a component `..`.
pub proof fn lemma_stays_inside_step(first: Seq<char>, rest: Seq<char>)
    requires
        first.len() > 0,
        forall|i: int| 0 <= i < first.len() ==> first[i] != '/',
    ensures
        stays_inside(first + seq!['/'] + rest) <==> first != parent_step() && forall|i: int|
            0 <= i < components(rest).len() ==> components(rest)[i] != parent_step(),
{
    let whole = first + seq!['/'] + rest;
    lemma_components_step(first, rest);
    assert(whole[0] == first[0]);
    assert(components(whole)[0] == first);
    if first != parent_step() && forall|i: int|
        0 <= i < components(rest).len() ==> components(rest)[i] != parent_step() {
        assert forall|i: int| 0 <= i < components(whole).len() implies components(whole)[i]
            != parent_step() by {
            if i > 0 {
                assert(components(whole)[i] == components(rest)[i - 1]);
            }
        }
    }
    if stays_inside(whole) {
        assert forall|i: int| 0 <= i < components(rest).len() implies components(rest)[i]
            != parent_step() by {
            assert(components(whole)[i + 1] == components(rest)[i]);
        }
    }
}

/// The file for a request path is the collection's directory, `/`, the
/// path, `README` where the path is empty or ends in `/`, and `.md`, once.
pub proof fn lemma_request_maps_to_file(dir: Seq<char>, path: Seq<char>)
    ensures
        path.len() == 0 || path.last() == '/' ==> content_file(dir, path) == dir + "/"@ + path
            + "README.md"@,
        path.len() > 0 && path.last() != '/' ==> content_file(dir, path) == dir + "/"@ + path
            + ".md"@,
        ends_with(content_file(dir, path), extension()),
{
    reveal_strlit("/");
    reveal_strlit("README.md");
    reveal_strlit(".md");
    let file = content_file(dir, path);
    assert("/"@ =~= seq!['/']);
    assert(".md"@ =~= extension());
    assert("README.md"@ =~= readme() + extension());
    if path.len() == 0 || path.last() == '/' {
        assert(file =~= dir + "/"@ + path + "README.md"@);
    } else {
        assert(file =~= dir + "/"@ + path + ".md"@);
    }
    assert(file.skip(file.len() - 3) =~= extension());
}

/// The address that the index gives for a content file leads back to that
/// file: for a target that ends in `.md` and names a file, the document of
/// its request path is the target itself, without a leading `./` or `/`.
pub proof fn lemma_address_leads_back(url: Seq<char>)
    requires
        ends_with(without_lead(url), extension()),
        without_lead(url).len() > 3,
        without_lead(url)[without_lead(url).len() - 4] != '/',
    ensures
        document_file(request_path(url)) == without_lead(url),
{
    let u = without_lead(url);
    let stem = without_extension(u);
    assert(stem == u.take(u.len() - 3));
    assert(u =~= stem + extension()) by {
        assert(u.skip(u.len() - 3) == extension());
        assert(u =~= u.take(u.len() - 3) + u.skip(u.len() - 3));
    }
    if stem == readme() || ends_with(stem, seq!['/'] + readme()) {
        let dir = stem.take(stem.len() - 6);
        assert(stem.skip(stem.len() - 6) =~= readme()) by {
            if stem != readme() {
                let tail = seq!['/'] + readme();
                assert(stem.skip(stem.len() - 7) == tail);
                assert(stem.skip(stem.len() - 6) =~= tail.skip(1));
                assert(tail.skip(1) =~= readme());
            }
        }
        assert(stem =~= dir + readme());
        if dir.len() > 0 {
            let tail = seq!['/'] + readme();
            assert(stem.skip(stem.len() - 7)[0] == tail[0]);
            assert(dir.last() == '/');
        }
        assert(dir + readme() + extension() =~= u);
    } else {
        assert(stem.last() == u[u.len() - 4]);
    }
}

} // verus!
