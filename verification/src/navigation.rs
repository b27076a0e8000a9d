//! The navigation index of a collection, read from its summary document.
//!
//! The summary is a document of nested lists. A list item whose first
//! paragraph holds a link becomes an entry with the link's text as its title
//! and the link's target, put under the collection's root, as its address.
//! The entries of the lists inside an item become the children of its entry.
//! An item without a link that has text and entries below it becomes a group
//! header: an entry with an empty address. Any other item is skipped.
//! The order of the entries is the order of the items.

use crate::document::{
    lemma_model_children, model, models, text_content, text_of_node, Node, NodeKind, NodeKindView,
    NodeView,
};
use crate::text::{
    chars_of, ends_with, extend, has_prefix, has_suffix, slice, starts_with, string_of,
    string_views,
};
use vstd::prelude::*;

verus! {

/// One entry of a navigation index.
#[derive(Debug, PartialEq, Eq)]
pub struct NavLink {
    pub title: String,
    /// Where the entry leads; empty for a group header.
    pub href: String,
    pub children: Vec<NavLink>,
}

pub struct NavLinkView {
    pub title: Seq<char>,
    pub href: Seq<char>,
    pub children: Seq<NavLinkView>,
}

/// The entry that a link stands for.
pub open spec fn link_model(l: NavLink) -> NavLinkView
    decreases l,
{
    NavLinkView {
        title: l.title@,
        href: l.href@,
        children: Seq::new(
            l.children@.len(),
            |i: int|
                if 0 <= i < l.children@.len() {
                    link_model(l.children@[i])
                } else {
                    arbitrary()
                },
        ),
    }
}

/// The entries that a list of links stands for.
pub open spec fn link_models(links: Seq<NavLink>) -> Seq<NavLinkView> {
    Seq::new(links.len(), |i: int| link_model(links[i]))
}

impl View for NavLink {
    type V = NavLinkView;

    open spec fn view(&self) -> NavLinkView {
        link_model(*self)
    }
}

/// The children of a link's entry are the entries of its children.
pub proof fn lemma_link_children(l: NavLink)
    ensures
        link_model(l).children == link_models(l.children@),
        link_model(l).title == l.title@,
        link_model(l).href == l.href@,
{
    assert(link_model(l).children =~= link_models(l.children@));
}

/// Adding a link at the end adds its entry at the end.
pub proof fn lemma_link_models_push(links: Seq<NavLink>, l: NavLink)
    ensures
        link_models(links.push(l)) == link_models(links).push(link_model(l)),
{
    assert(link_models(links.push(l)) =~= link_models(links).push(link_model(l)));
}

/// The extension of a content file.
pub open spec fn extension() -> Seq<char> {
    seq!['.', 'm', 'd']
}

/// The name, without extension, of the file that stands for its directory.
pub open spec fn readme() -> Seq<char> {
    seq!['R', 'E', 'A', 'D', 'M', 'E']
}

/// A target without a leading `./` or `/`.
pub open spec fn without_lead(url: Seq<char>) -> Seq<char> {
    if starts_with(url, seq!['.', '/']) {
        url.skip(2)
    } else if starts_with(url, seq!['/']) {
        url.skip(1)
    } else {
        url
    }
}

/// A target without the extension of content files.
pub open spec fn without_extension(url: Seq<char>) -> Seq<char> {
    if ends_with(url, extension()) {
        url.take(url.len() - 3)
    } else {
        url
    }
}

/// A target that names a directory by its last `/` where it named the
/// directory's own file.
pub open spec fn without_readme(url: Seq<char>) -> Seq<char> {
    if url == readme() || ends_with(url, seq!['/'] + readme()) {
        url.take(url.len() - 6)
    } else {
        url
    }
}

/// The path, below a collection's root, that a target of the summary asks for.
pub open spec fn request_path(url: Seq<char>) -> Seq<char> {
    without_readme(without_extension(without_lead(url)))
}

/// The address for a target of the summary, under the root `root`.
pub open spec fn href_for(root: Seq<char>, url: Seq<char>) -> Seq<char> {
    root + seq!['/'] + request_path(url)
}

/// The index of the first node of the list, from `from` on, that is a
/// paragraph.
pub open spec fn first_paragraph(nodes: Seq<NodeView>, from: int) -> Option<int>
    decreases nodes.len() - from,
{
    if from < 0 || from >= nodes.len() {
        None
    } else if nodes[from].kind is Paragraph {
        Some(from)
    } else {
        first_paragraph(nodes, from + 1)
    }
}

/// The index of the first node of the list, from `from` on, that is a link.
pub open spec fn first_link(nodes: Seq<NodeView>, from: int) -> Option<int>
    decreases nodes.len() - from,
{
    if from < 0 || from >= nodes.len() {
        None
    } else if nodes[from].kind is Link {
        Some(from)
    } else {
        first_link(nodes, from + 1)
    }
}

/// The entry of a list item, given the entries `below` it: one entry, or
/// none where the item is skipped.
pub open spec fn entry_of(
    item: NodeView,
    root: Seq<char>,
    below: Seq<NavLinkView>,
) -> Seq<NavLinkView> {
    match first_paragraph(item.children, 0) {
        None => Seq::empty(),
        Some(at) => {
            let label = item.children[at];
            match first_link(label.children, 0) {
                Some(i) => {
                    let link = label.children[i];
                    if text_content(link).len() == 0 {
                        Seq::empty()
                    } else {
                        seq![
                            NavLinkView {
                                title: text_content(link),
                                href: href_for(root, link.kind->url),
                                children: below,
                            },
                        ]
                    }
                },
                None => if text_content(label).len() == 0 || below.len() == 0 {
                    Seq::empty()
                } else {
                    seq![
                        NavLinkView {
                            title: text_content(label),
                            href: Seq::empty(),
                            children: below,
                        },
                    ]
                },
            }
        },
    }
}

/// The entries that a node gives: those of its items where it is a list,
/// its own entry where it is an item, none otherwise.
pub open spec fn links_at(n: NodeView, root: Seq<char>) -> Seq<NavLinkView>
    decreases n,
{
    match n.kind {
        NodeKindView::List => links_in(n.children, root),
        NodeKindView::Item => entry_of(n, root, links_in(n.children, root)),
        _ => Seq::empty(),
    }
}

/// The entries that a list of nodes gives, in order.
pub open spec fn links_in(nodes: Seq<NodeView>, root: Seq<char>) -> Seq<NavLinkView>
    decreases nodes,
{
    if nodes.len() == 0 {
        Seq::empty()
    } else {
        links_in(nodes.drop_last(), root) + links_at(nodes.last(), root)
    }
}

/// The navigation index that a summary document gives under the root `root`.
pub open spec fn nav_index(summary: NodeView, root: Seq<char>) -> Seq<NavLinkView> {
    links_in(summary.children, root)
}

/// The items that a node leaves out of the index, each by the text it
/// shows: an item that gives no entry is left out with all that stands below
/// it, and an item that gives one leaves out what the items below it leave
/// out.
pub open spec fn skipped_at(n: NodeView, root: Seq<char>) -> Seq<Seq<char>>
    decreases n,
{
    match n.kind {
        NodeKindView::List => skipped_in(n.children, root),
        NodeKindView::Item => if entry_of(n, root, links_in(n.children, root)).len() == 0 {
            seq![text_content(n)]
        } else {
            skipped_in(n.children, root)
        },
        _ => Seq::empty(),
    }
}

/// The items that a list of nodes leaves out of the index, in order.
pub open spec fn skipped_in(nodes: Seq<NodeView>, root: Seq<char>) -> Seq<Seq<char>>
    decreases nodes,
{
    if nodes.len() == 0 {
        Seq::empty()
    } else {
        skipped_in(nodes.drop_last(), root) + skipped_at(nodes.last(), root)
    }
}

/// The items of a summary document that its index leaves out.
pub open spec fn skipped_items(summary: NodeView, root: Seq<char>) -> Seq<Seq<char>> {
    skipped_in(summary.children, root)
}

/// The entries of one run of nodes followed by another are the entries of
/// the first followed by the entries of the second: the index keeps the
/// order of the document.
pub proof fn lemma_links_in_concat(a: Seq<NodeView>, b: Seq<NodeView>, root: Seq<char>)
    ensures
        links_in(a + b, root) == links_in(a, root) + links_in(b, root),
    decreases b.len(),
{
    if b.len() == 0 {
        assert(a + b =~= a);
        assert(links_in(a, root) + links_in(b, root) =~= links_in(a, root));
    } else {
        lemma_links_in_concat(a, b.drop_last(), root);
        assert((a + b).drop_last() =~= a + b.drop_last());
        assert((a + b).last() == b.last());
        assert((links_in(a, root) + links_in(b.drop_last(), root)) + links_at(b.last(), root)
            =~= links_in(a, root) + (links_in(b.drop_last(), root) + links_at(b.last(), root)));
    }
}

/// The entries of a list of items come in the order of the items: the
/// entries of the item at `i` stand behind those of all items before it
/// and before those of all items behind it.
pub proof fn lemma_links_in_order(nodes: Seq<NodeView>, i: int, root: Seq<char>)
    requires
        0 <= i < nodes.len(),
    ensures
        links_in(nodes, root) == links_in(nodes.take(i), root) + links_at(nodes[i], root)
            + links_in(nodes.skip(i + 1), root),
{
    let head = nodes.take(i + 1);
    assert(head.drop_last() =~= nodes.take(i));
    assert(head.last() == nodes[i]);
    assert(head + nodes.skip(i + 1) =~= nodes);
    lemma_links_in_concat(head, nodes.skip(i + 1), root);
}

/// Whether an entry and all entries below it are group headers or lead to
/// an address under `root`.
pub open spec fn rooted(l: NavLinkView, root: Seq<char>) -> bool
    decreases l,
{
    &&& l.href.len() == 0 || starts_with(l.href, root + seq!['/'])
    &&& all_rooted(l.children, root)
}

/// Whether every entry of the list is `rooted`.
pub open spec fn all_rooted(links: Seq<NavLinkView>, root: Seq<char>) -> bool
    decreases links,
{
    links.len() == 0 || (all_rooted(links.drop_last(), root) && rooted(links.last(), root))
}

proof fn lemma_all_rooted_concat(a: Seq<NavLinkView>, b: Seq<NavLinkView>, root: Seq<char>)
    requires
        all_rooted(a, root),
        all_rooted(b, root),
    ensures
        all_rooted(a + b, root),
    decreases b.len(),
{
    if b.len() == 0 {
        assert(a + b =~= a);
    } else {
        lemma_all_rooted_concat(a, b.drop_last(), root);
        assert((a + b).drop_last() =~= a + b.drop_last());
        assert((a + b).last() == b.last());
    }
}

/// Every address of an index lies under the root it was built for.
pub proof fn lemma_links_rooted(nodes: Seq<NodeView>, root: Seq<char>)
    ensures
        all_rooted(links_in(nodes, root), root),
    decreases nodes,
{
    if nodes.len() > 0 {
        lemma_links_rooted(nodes.drop_last(), root);
        lemma_links_at_rooted(nodes.last(), root);
        lemma_all_rooted_concat(
            links_in(nodes.drop_last(), root),
            links_at(nodes.last(), root),
            root,
        );
    }
}

/// Every address that a node gives lies under the root.
pub proof fn lemma_links_at_rooted(n: NodeView, root: Seq<char>)
    ensures
        all_rooted(links_at(n, root), root),
    decreases n,
{
    match n.kind {
        NodeKindView::List => {
            lemma_links_rooted(n.children, root);
        },
        NodeKindView::Item => {
            lemma_links_rooted(n.children, root);
            let below = links_in(n.children, root);
            let e = entry_of(n, root, below);
            if e.len() > 0 {
                assert(e.len() == 1);
                assert(e.drop_last() =~= Seq::<NavLinkView>::empty());
                let l = e.last();
                assert(l.children == below);
                if l.href.len() > 0 {
                    let prefix = root + seq!['/'];
                    assert(l.href.take(prefix.len() as int) =~= prefix);
                }
                assert(rooted(l, root));
                assert(all_rooted(e.drop_last(), root));
                assert(all_rooted(e, root));
            }
        },
        _ => {},
    }
}

fn find_paragraph(nodes: &Vec<Node>) -> (r: Option<usize>)
    ensures
        match r {
            Some(at) => first_paragraph(models(nodes@), 0) == Some(at as int) && at < nodes.len(),
            None => first_paragraph(models(nodes@), 0) is None,
        },
{
    let mut i: usize = 0;
    while i < nodes.len()
        invariant
            i <= nodes.len(),
            first_paragraph(models(nodes@), 0) == first_paragraph(models(nodes@), i as int),
        decreases nodes.len() - i,
    {
        proof {
            lemma_model_children(nodes@[i as int]);
        }
        match &nodes[i].kind {
            NodeKind::Paragraph => {
                return Some(i);
            },
            _ => {},
        }
        i = i + 1;
    }
    None
}

fn find_link(nodes: &Vec<Node>) -> (r: Option<usize>)
    ensures
        match r {
            Some(at) => first_link(models(nodes@), 0) == Some(at as int) && at < nodes.len()
                && nodes@[at as int].kind is Link,
            None => first_link(models(nodes@), 0) is None,
        },
{
    let mut i: usize = 0;
    while i < nodes.len()
        invariant
            i <= nodes.len(),
            first_link(models(nodes@), 0) == first_link(models(nodes@), i as int),
        decreases nodes.len() - i,
    {
        proof {
            lemma_model_children(nodes@[i as int]);
        }
        match &nodes[i].kind {
            NodeKind::Link { .. } => {
                return Some(i);
            },
            _ => {},
        }
        i = i + 1;
    }
    None
}

/// The path, below a collection's root, that a target of the summary asks for.
pub fn request_path_of(url: &Vec<char>) -> (r: Vec<char>)
    ensures
        r@ == request_path(url@),
{
    let mut dot_slash: Vec<char> = Vec::new();
    dot_slash.push('.');
    dot_slash.push('/');
    assert(dot_slash@ =~= seq!['.', '/']);
    let mut slash: Vec<char> = Vec::new();
    slash.push('/');
    assert(slash@ =~= seq!['/']);
    let lead: usize = if has_prefix(url, &dot_slash) {
        2
    } else if has_prefix(url, &slash) {
        1
    } else {
        0
    };
    let a = slice(url, lead, url.len());
    assert(a@ =~= without_lead(url@));
    let ext = chars_of(".md");
    proof {
        reveal_strlit(".md");
        assert(ext@ =~= extension());
    }
    let b = if has_suffix(&a, &ext) {
        slice(&a, 0, a.len() - 3)
    } else {
        a
    };
    assert(b@ =~= without_extension(without_lead(url@)));
    let name = chars_of("README");
    let tail = chars_of("/README");
    proof {
        reveal_strlit("README");
        reveal_strlit("/README");
        assert(name@ =~= readme());
        assert(tail@ =~= seq!['/'] + readme());
    }
    let c = if crate::text::same_chars(&b, &name) || has_suffix(&b, &tail) {
        slice(&b, 0, b.len() - 6)
    } else {
        b
    };
    assert(c@ =~= request_path(url@));
    c
}

fn href_of(root: &Vec<char>, url: &str) -> (r: String)
    ensures
        r@ == href_for(root@, url@),
{
    let chars = chars_of(url);
    let path = request_path_of(&chars);
    let mut r: Vec<char> = Vec::new();
    extend(&mut r, root);
    r.push('/');
    extend(&mut r, &path);
    assert(r@ =~= href_for(root@, url@));
    string_of(&r)
}

fn make_link(title: &Vec<char>, href: String, children: Vec<NavLink>) -> (r: NavLink)
    ensures
        r@ == (NavLinkView { title: title@, href: href@, children: link_models(children@) }),
{
    let r = NavLink { title: string_of(title), href, children };
    proof {
        lemma_link_children(r);
    }
    r
}

fn push_entry(item: &Node, root: &Vec<char>, below: Vec<NavLink>, out: &mut Vec<NavLink>)
    ensures
        link_models(final(out)@) == link_models(old(out)@) + entry_of(
            item@,
            root@,
            link_models(below@),
        ),
{
    proof {
        lemma_model_children(*item);
        assert(link_models(out@) + Seq::<NavLinkView>::empty() =~= link_models(out@));
    }
    match find_paragraph(&item.children) {
        None => {},
        Some(at) => {
            let label = &item.children[at];
            proof {
                lemma_model_children(*label);
            }
            match find_link(&label.children) {
                Some(i) => {
                    let link = &label.children[i];
                    proof {
                        lemma_model_children(*link);
                    }
                    let title = text_of_node(link);
                    if title.len() > 0 {
                        match &link.kind {
                            NodeKind::Link { url } => {
                                let href = href_of(root, url.as_str());
                                let entry = make_link(&title, href, below);
                                proof {
                                    lemma_link_models_push(out@, entry);
                                    assert(link_models(out@).push(entry@) =~= link_models(out@)
                                        + seq![entry@]);
                                }
                                out.push(entry);
                            },
                            _ => {},
                        }
                    }
                },
                None => {
                    let title = text_of_node(label);
                    if title.len() > 0 && below.len() > 0 {
                        let entry = make_link(&title, String::new(), below);
                        proof {
                            lemma_link_models_push(out@, entry);
                            assert(link_models(out@).push(entry@) =~= link_models(out@) + seq![
                                entry@,
                            ]);
                        }
                        out.push(entry);
                    }
                },
            }
        },
    }
}

fn push_links(n: &Node, root: &Vec<char>, out: &mut Vec<NavLink>)
    ensures
        link_models(final(out)@) == link_models(old(out)@) + links_in(n@.children, root@),
    decreases n,
{
    proof {
        lemma_model_children(*n);
        assert(link_models(out@) + Seq::<NavLinkView>::empty() =~= link_models(out@));
    }
    let mut i: usize = 0;
    while i < n.children.len()
        invariant
            i <= n.children.len(),
            n@.children == models(n.children@),
            link_models(out@) == link_models(old(out)@) + links_in(
                models(n.children@).take(i as int),
                root@,
            ),
        decreases n.children.len() - i,
    {
        let child = &n.children[i];
        let ghost before = link_models(out@);
        proof {
            let upto = models(n.children@).take(i as int + 1);
            assert(upto.drop_last() =~= models(n.children@).take(i as int));
            assert(upto.last() == model(n.children@[i as int]));
            lemma_model_children(*child);
        }
        match &child.kind {
            NodeKind::List => {
                push_links(child, root, out);
            },
            NodeKind::Item => {
                let mut below: Vec<NavLink> = Vec::new();
                proof {
                    assert(link_models(below@) =~= Seq::<NavLinkView>::empty());
                }
                push_links(child, root, &mut below);
                assert(link_models(below@) =~= links_in(child@.children, root@));
                push_entry(child, root, below, out);
            },
            _ => {
                assert(before + Seq::<NavLinkView>::empty() =~= before);
            },
        }
        assert(link_models(out@) =~= link_models(old(out)@) + (links_in(
            models(n.children@).take(i as int),
            root@,
        ) + links_at(child@, root@)));
        i = i + 1;
    }
    assert(models(n.children@).take(i as int) =~= models(n.children@));
}

/// The navigation index that a summary document gives under the root
/// `root`: the entries of its lists, in the order of the document, each
/// with the entries of the lists below it as its children.
pub fn parse_summary_into_nav_links(summary: &Node, root: &str) -> (links: Vec<NavLink>)
    ensures
        link_models(links@) == nav_index(summary@, root@),
        all_rooted(link_models(links@), root@),
{
    let root_chars = chars_of(root);
    let mut links: Vec<NavLink> = Vec::new();
    proof {
        assert(link_models(links@) =~= Seq::<NavLinkView>::empty());
    }
    push_links(summary, &root_chars, &mut links);
    proof {
        assert(Seq::<NavLinkView>::empty() + links_in(summary@.children, root@) =~= links_in(
            summary@.children,
            root@,
        ));
        lemma_links_rooted(summary@.children, root@);
    }
    links
}

fn push_skipped(n: &Node, root: &Vec<char>, out: &mut Vec<String>)
    ensures
        string_views(final(out)@) == string_views(old(out)@) + skipped_in(n@.children, root@),
    decreases n,
{
    proof {
        lemma_model_children(*n);
        assert(string_views(out@) + Seq::<Seq<char>>::empty() =~= string_views(out@));
    }
    let mut i: usize = 0;
    while i < n.children.len()
        invariant
            i <= n.children.len(),
            n@.children == models(n.children@),
            string_views(out@) == string_views(old(out)@) + skipped_in(
                models(n.children@).take(i as int),
                root@,
            ),
        decreases n.children.len() - i,
    {
        let child = &n.children[i];
        let ghost before = string_views(out@);
        proof {
            let upto = models(n.children@).take(i as int + 1);
            assert(upto.drop_last() =~= models(n.children@).take(i as int));
            assert(upto.last() == model(n.children@[i as int]));
            lemma_model_children(*child);
        }
        match &child.kind {
            NodeKind::List => {
                push_skipped(child, root, out);
            },
            NodeKind::Item => {
                let mut below: Vec<NavLink> = Vec::new();
                let mut entry: Vec<NavLink> = Vec::new();
                proof {
                    assert(link_models(below@) =~= Seq::<NavLinkView>::empty());
                    assert(link_models(entry@) =~= Seq::<NavLinkView>::empty());
                }
                push_links(child, root, &mut below);
                assert(link_models(below@) =~= links_in(child@.children, root@));
                push_entry(child, root, below, &mut entry);
                assert(link_models(entry@).len() == entry_of(
                    child@,
                    root@,
                    links_in(child@.children, root@),
                ).len());
                if entry.len() == 0 {
                    let shown = text_of_node(child);
                    let text = string_of(&shown);
                    out.push(text);
                    assert(string_views(out@) =~= before + seq![text_content(child@)]);
                } else {
                    push_skipped(child, root, out);
                }
            },
            _ => {
                assert(before + Seq::<Seq<char>>::empty() =~= before);
            },
        }
        assert(string_views(out@) =~= string_views(old(out)@) + (skipped_in(
            models(n.children@).take(i as int),
            root@,
        ) + skipped_at(child@, root@)));
        i = i + 1;
    }
    assert(models(n.children@).take(i as int) =~= models(n.children@));
}

/// The items of a summary document that the index for `root` leaves out,
/// each by the text it shows, in the order of the document. An item that is
/// left out is named once, for itself and all that stands below it.
pub fn skipped_summary_items(summary: &Node, root: &str) -> (skipped: Vec<String>)
    ensures
        string_views(skipped@) == skipped_items(summary@, root@),
{
    let root_chars = chars_of(root);
    let mut skipped: Vec<String> = Vec::new();
    proof {
        assert(string_views(skipped@) =~= Seq::<Seq<char>>::empty());
    }
    push_skipped(summary, &root_chars, &mut skipped);
    proof {
        assert(Seq::<Seq<char>>::empty() + skipped_in(summary@.children, root@) =~= skipped_in(
            summary@.children,
            root@,
        ));
    }
    skipped
}

/// A copy of a list of links.
pub fn clone_links(links: &Vec<NavLink>) -> (r: Vec<NavLink>)
    ensures
        link_models(r@) == link_models(links@),
    decreases links,
{
    let mut r: Vec<NavLink> = Vec::new();
    let mut i: usize = 0;
    while i < links.len()
        invariant
            i <= links.len(),
            link_models(r@) == link_models(links@).take(i as int),
        decreases links.len() - i,
    {
        let l = &links[i];
        let children = clone_links(&l.children);
        let copy = NavLink { title: l.title.clone(), href: l.href.clone(), children };
        proof {
            lemma_link_children(copy);
            lemma_link_children(*l);
            lemma_link_models_push(r@, copy);
            assert(link_models(links@).take(i as int + 1) =~= link_models(links@).take(
                i as int,
            ).push(link_model(links@[i as int])));
        }
        r.push(copy);
        i = i + 1;
    }
    assert(link_models(links@).take(i as int) =~= link_models(links@));
    r
}

} // verus!
