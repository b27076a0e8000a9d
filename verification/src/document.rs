//! The document tree: what a parsed markdown file is to this library.
//!
//! A tree holds what the transforms and extractors read: the kind of each
//! node, the text that a node carries, and the order of its children. Each
//! node that the parser made records the place it had in the parser's own
//! tree, so that the caller can find it again; nodes that a transform adds
//! have none.

use crate::text::extend;
use vstd::prelude::*;

verus! {

/// The grammar of the content files: CommonMark with the additions that
/// are switched on here.
#[derive(Clone, Copy, PartialEq, Eq, Structural, Debug)]
pub struct Flavour {
    pub tables: bool,
    pub strikethrough: bool,
    pub autolinks: bool,
    pub task_lists: bool,
    pub superscript: bool,
    pub footnotes: bool,
    pub description_lists: bool,
    /// Whether raw HTML is written out as it stands. The boxes that the
    /// transforms add are raw HTML.
    pub raw_html: bool,
}

/// The grammar that every content file is read with: all additions are on.
pub fn flavour() -> (r: Flavour)
    ensures
        r == (Flavour {
            tables: true,
            strikethrough: true,
            autolinks: true,
            task_lists: true,
            superscript: true,
            footnotes: true,
            description_lists: true,
            raw_html: true,
        }),
{
    Flavour {
        tables: true,
        strikethrough: true,
        autolinks: true,
        task_lists: true,
        superscript: true,
        footnotes: true,
        description_lists: true,
        raw_html: true,
    }
}

/// The kinds of boxed note.
#[derive(Clone, Copy, PartialEq, Eq, Structural, Debug)]
pub enum AdmonitionKind {
    Note,
    Tip,
    Info,
    Warning,
    Alert,
}

/// What a node is.
#[derive(Debug, PartialEq, Eq)]
pub enum NodeKind {
    /// The root of a document.
    Document,
    /// A heading of the given level.
    Heading { level: u8 },
    Paragraph,
    /// A run of text.
    Text { literal: String },
    /// Code within a line.
    InlineCode { literal: String },
    /// A fenced or indented block of code, with the tag that follows the fence.
    CodeBlock { info: String, literal: String },
    Table,
    List,
    /// One entry of a list.
    Item,
    /// A link; its children are what is shown.
    Link { url: String },
    /// Raw HTML.
    Html { literal: String },
    /// The box put around a table so that it can scroll sideways.
    TableWrapper,
    /// A boxed note; its children are what the note says.
    Admonition { kind: AdmonitionKind },
    /// A group of tabs; its children are its tabs.
    TabGroup,
    /// One tab of a group; its children are what the tab shows.
    Tab { label: String },
    /// Anything else.
    Other,
}

pub enum NodeKindView {
    Document,
    Heading { level: u8 },
    Paragraph,
    Text { literal: Seq<char> },
    InlineCode { literal: Seq<char> },
    CodeBlock { info: Seq<char>, literal: Seq<char> },
    Table,
    List,
    Item,
    Link { url: Seq<char> },
    Html { literal: Seq<char> },
    TableWrapper,
    Admonition { kind: AdmonitionKind },
    TabGroup,
    Tab { label: Seq<char> },
    Other,
}

impl View for NodeKind {
    type V = NodeKindView;

    open spec fn view(&self) -> NodeKindView {
        match self {
            NodeKind::Document => NodeKindView::Document,
            NodeKind::Heading { level } => NodeKindView::Heading { level: *level },
            NodeKind::Paragraph => NodeKindView::Paragraph,
            NodeKind::Text { literal } => NodeKindView::Text { literal: literal@ },
            NodeKind::InlineCode { literal } => NodeKindView::InlineCode { literal: literal@ },
            NodeKind::CodeBlock { info, literal } => NodeKindView::CodeBlock {
                info: info@,
                literal: literal@,
            },
            NodeKind::Table => NodeKindView::Table,
            NodeKind::List => NodeKindView::List,
            NodeKind::Item => NodeKindView::Item,
            NodeKind::Link { url } => NodeKindView::Link { url: url@ },
            NodeKind::Html { literal } => NodeKindView::Html { literal: literal@ },
            NodeKind::TableWrapper => NodeKindView::TableWrapper,
            NodeKind::Admonition { kind } => NodeKindView::Admonition { kind: *kind },
            NodeKind::TabGroup => NodeKindView::TabGroup,
            NodeKind::Tab { label } => NodeKindView::Tab { label: label@ },
            NodeKind::Other => NodeKindView::Other,
        }
    }
}

/// A node of a document tree.
#[derive(Debug, PartialEq, Eq)]
pub struct Node {
    pub kind: NodeKind,
    /// The place this node had in the parser's tree, if it came from there.
    pub origin: Option<usize>,
    pub children: Vec<Node>,
}

pub struct NodeView {
    pub kind: NodeKindView,
    pub origin: Option<usize>,
    pub children: Seq<NodeView>,
}

/// The tree that a node stands for.
pub open spec fn model(n: Node) -> NodeView
    decreases n,
{
    NodeView {
        kind: n.kind@,
        origin: n.origin,
        children: Seq::new(
            n.children@.len(),
            |i: int|
                if 0 <= i < n.children@.len() {
                    model(n.children@[i])
                } else {
                    arbitrary()
                },
        ),
    }
}

/// The trees that a list of nodes stands for.
pub open spec fn models(nodes: Seq<Node>) -> Seq<NodeView> {
    Seq::new(nodes.len(), |i: int| model(nodes[i]))
}

impl View for Node {
    type V = NodeView;

    open spec fn view(&self) -> NodeView {
        model(*self)
    }
}

/// The children of a node's tree are the trees of its children.
pub proof fn lemma_model_children(n: Node)
    ensures
        model(n).children == models(n.children@),
        model(n).kind == n.kind@,
        model(n).origin == n.origin,
{
    assert(model(n).children =~= models(n.children@));
}

/// Adding a node at the end adds its tree at the end.
pub proof fn lemma_models_push(nodes: Seq<Node>, n: Node)
    ensures
        models(nodes.push(n)) == models(nodes).push(model(n)),
{
    assert(models(nodes.push(n)) =~= models(nodes).push(model(n)));
}

/// The text that a node shows: its own where it carries text, else that of
/// its children, in order.
pub open spec fn text_content(n: NodeView) -> Seq<char>
    decreases n,
{
    match n.kind {
        NodeKindView::Text { literal } => literal,
        NodeKindView::InlineCode { literal } => literal,
        _ => texts(n.children),
    }
}

/// The text that a list of nodes shows.
pub open spec fn texts(nodes: Seq<NodeView>) -> Seq<char>
    decreases nodes,
{
    if nodes.len() == 0 {
        Seq::empty()
    } else {
        texts(nodes.drop_last()) + text_content(nodes.last())
    }
}

/// A heading as the extractors see it: its level and the text it shows.
pub struct Heading {
    pub level: u8,
    pub text: Seq<char>,
}

/// The headings of a tree, in document order.
pub open spec fn headings(n: NodeView) -> Seq<Heading>
    decreases n,
{
    match n.kind {
        NodeKindView::Heading { level } => seq![Heading { level, text: text_content(n) }]
            + headings_in(n.children),
        _ => headings_in(n.children),
    }
}

/// The headings of a list of trees, in document order.
pub open spec fn headings_in(nodes: Seq<NodeView>) -> Seq<Heading>
    decreases nodes,
{
    if nodes.len() == 0 {
        Seq::empty()
    } else {
        headings_in(nodes.drop_last()) + headings(nodes.last())
    }
}

/// Whether a tree is as a parser gives it: every heading in it has a level
/// from 1 to 6.
pub open spec fn well_formed(n: NodeView) -> bool
    decreases n,
{
    &&& n.kind matches NodeKindView::Heading { level } ==> 1 <= level <= 6
    &&& all_well_formed(n.children)
}

/// Whether every tree of the list is `well_formed`.
pub open spec fn all_well_formed(nodes: Seq<NodeView>) -> bool
    decreases nodes,
{
    nodes.len() == 0 || (all_well_formed(nodes.drop_last()) && well_formed(nodes.last()))
}

/// The number of tables in a tree.
pub open spec fn table_count(n: NodeView) -> nat
    decreases n,
{
    if n.kind is Table {
        1 + table_count_in(n.children)
    } else {
        table_count_in(n.children)
    }
}

/// The number of tables in a list of trees.
pub open spec fn table_count_in(nodes: Seq<NodeView>) -> nat
    decreases nodes,
{
    if nodes.len() == 0 {
        0
    } else {
        table_count_in(nodes.drop_last()) + table_count(nodes.last())
    }
}

/// A copy of a kind.
pub fn clone_kind(kind: &NodeKind) -> (r: NodeKind)
    ensures
        r@ == kind@,
{
    match kind {
        NodeKind::Document => NodeKind::Document,
        NodeKind::Heading { level } => NodeKind::Heading { level: *level },
        NodeKind::Paragraph => NodeKind::Paragraph,
        NodeKind::Text { literal } => NodeKind::Text { literal: literal.clone() },
        NodeKind::InlineCode { literal } => NodeKind::InlineCode { literal: literal.clone() },
        NodeKind::CodeBlock { info, literal } => NodeKind::CodeBlock {
            info: info.clone(),
            literal: literal.clone(),
        },
        NodeKind::Table => NodeKind::Table,
        NodeKind::List => NodeKind::List,
        NodeKind::Item => NodeKind::Item,
        NodeKind::Link { url } => NodeKind::Link { url: url.clone() },
        NodeKind::Html { literal } => NodeKind::Html { literal: literal.clone() },
        NodeKind::TableWrapper => NodeKind::TableWrapper,
        NodeKind::Admonition { kind } => NodeKind::Admonition { kind: *kind },
        NodeKind::TabGroup => NodeKind::TabGroup,
        NodeKind::Tab { label } => NodeKind::Tab { label: label.clone() },
        NodeKind::Other => NodeKind::Other,
    }
}

/// A copy of a tree.
pub fn clone_node(n: &Node) -> (r: Node)
    ensures
        r@ == n@,
    decreases n,
{
    let mut children: Vec<Node> = Vec::new();
    let mut i: usize = 0;
    while i < n.children.len()
        invariant
            i <= n.children.len(),
            models(children@) == models(n.children@).take(i as int),
        decreases n.children.len() - i,
    {
        let child = clone_node(&n.children[i]);
        proof {
            lemma_models_push(children@, child);
            assert(models(n.children@).take(i as int + 1) =~= models(n.children@).take(
                i as int,
            ).push(model(n.children@[i as int])));
        }
        children.push(child);
        i = i + 1;
    }
    let r = Node { kind: clone_kind(&n.kind), origin: n.origin, children };
    proof {
        lemma_model_children(r);
        lemma_model_children(*n);
        assert(models(n.children@).take(i as int) =~= models(n.children@));
    }
    r
}

/// Appends the text that a node shows to `out`.
pub fn push_text(n: &Node, out: &mut Vec<char>)
    ensures
        final(out)@ == old(out)@ + text_content(n@),
    decreases n,
{
    proof {
        lemma_model_children(*n);
    }
    match &n.kind {
        NodeKind::Text { literal } => {
            let chars = crate::text::chars_of(literal.as_str());
            extend(out, &chars);
        },
        NodeKind::InlineCode { literal } => {
            let chars = crate::text::chars_of(literal.as_str());
            extend(out, &chars);
        },
        _ => {
            let mut i: usize = 0;
            while i < n.children.len()
                invariant
                    i <= n.children.len(),
                    out@ == old(out)@ + texts(models(n.children@).take(i as int)),
                decreases n.children.len() - i,
            {
                proof {
                    let upto = models(n.children@).take(i as int + 1);
                    assert(upto.drop_last() =~= models(n.children@).take(i as int));
                    assert(upto.last() == model(n.children@[i as int]));
                }
                push_text(&n.children[i], out);
                assert(out@ =~= old(out)@ + texts(models(n.children@).take(i as int + 1)));
                i = i + 1;
            }
            assert(models(n.children@).take(i as int) =~= models(n.children@));
        },
    }
}

/// The text that a node shows.
pub fn text_of_node(n: &Node) -> (r: Vec<char>)
    ensures
        r@ == text_content(n@),
{
    let mut out: Vec<char> = Vec::new();
    push_text(n, &mut out);
    assert(Seq::<char>::empty() + text_content(n@) =~= text_content(n@));
    out
}

} // verus!
