//! Reading a summary document.
//!
//! The text of a summary is parsed by the `markdown` crate. The tree that
//! the parser gives is walked here, node by node, and becomes a document
//! tree: roots, headings, paragraphs, texts, inline code, lists, list items
//! and links keep what they are and hold, and every other node is `Other`.

use crate::document::{lemma_model_children, lemma_models_push, models, Node, NodeKind, NodeView};
use markdown::mdast::Node as MdastNode;
use markdown::message::Message;
use markdown::ParseOptions;
use vstd::prelude::*;

verus! {

/// A node of the tree that `markdown` parses a text into. Nothing of its
/// inside is visible here.
#[verifier::external_type_specification]
#[verifier::external_body]
pub struct ExMdastNode(MdastNode);

/// What `markdown` reports about a text it does not parse.
#[verifier::external_type_specification]
#[verifier::external_body]
pub struct ExMessage(Message);

/// The tree that `markdown::to_mdast` gives for `text` with the default
/// options, or `None` where it reports a message instead.
pub uninterp spec fn mdast_of(text: Seq<char>) -> Option<MdastNode>;

/// What a node of a parsed tree holds: its kind, with the text, depth or
/// target that belongs to it, and under it what its children hold, in their
/// order. No node has an origin.
pub uninterp spec fn mdast_tree(node: MdastNode) -> NodeView;

/// A tree with no origin on any node.
pub open spec fn unplaced(n: NodeView) -> NodeView
    decreases n,
{
    NodeView { kind: n.kind, origin: None, children: unplaced_all(n.children) }
}

/// A list of trees with no origin on any node.
pub open spec fn unplaced_all(nodes: Seq<NodeView>) -> Seq<NodeView>
    decreases nodes,
{
    if nodes.len() == 0 {
        Seq::empty()
    } else {
        unplaced_all(nodes.drop_last()).push(unplaced(nodes.last()))
    }
}

/// The document tree of the summary `text`, where it parses.
pub open spec fn summary_tree(text: Seq<char>) -> Option<NodeView> {
    match mdast_of(text) {
        Some(root) => Some(unplaced(mdast_tree(root))),
        None => None,
    }
}

/// Calls `markdown::to_mdast` with `ParseOptions::default()`. The contract
/// is not proved. It claims that the outcome depends on the text alone, and
/// calls it `mdast_of`.
#[verifier::external_body]
fn to_mdast(text: &str) -> (r: Result<MdastNode, Message>)
    ensures
        match r {
            Ok(root) => mdast_of(text@) == Some(root),
            Err(_) => mdast_of(text@) is None,
        },
{
    markdown::to_mdast(text, &ParseOptions::default())
}

/// Tells the variants of `mdast::Node` apart and takes over the text of a
/// `Text` and an `InlineCode`, the depth of a `Heading` and the target of a
/// `Link`. The contract is not proved. It calls the outcome the kind of the
/// node's `mdast_tree`.
#[verifier::external_body]
fn kind_of(node: &MdastNode) -> (kind: NodeKind)
    ensures
        kind@ == mdast_tree(*node).kind,
{
    match node {
        MdastNode::Root(_) => NodeKind::Document,
        MdastNode::Heading(heading) => NodeKind::Heading { level: heading.depth },
        MdastNode::Paragraph(_) => NodeKind::Paragraph,
        MdastNode::Text(text) => NodeKind::Text { literal: text.value.clone() },
        MdastNode::InlineCode(code) => NodeKind::InlineCode { literal: code.value.clone() },
        MdastNode::List(_) => NodeKind::List,
        MdastNode::ListItem(_) => NodeKind::Item,
        MdastNode::Link(link) => NodeKind::Link { url: link.url.clone() },
        _ => NodeKind::Other,
    }
}

/// Calls `mdast::Node::children`, which gives the list of a node's children
/// for a node that can have children and nothing for any other. The
/// contract is not proved. It claims that the children of the node's
/// `mdast_tree` are the trees of these children, in their order.
#[verifier::external_body]
fn children_of(node: &MdastNode) -> (r: Option<&Vec<MdastNode>>)
    ensures
        match r {
            Some(list) => list@.len() == mdast_tree(*node).children.len() && forall|i: int|
                0 <= i < list@.len() ==> mdast_tree(#[trigger] list@[i]) == mdast_tree(
                    *node,
                ).children[i],
            None => mdast_tree(*node).children.len() == 0,
        },
{
    node.children()
}

proof fn lemma_unplaced_all(nodes: Seq<NodeView>)
    ensures
        unplaced_all(nodes).len() == nodes.len(),
        forall|i: int|
            0 <= i < nodes.len() ==> #[trigger] unplaced_all(nodes)[i] == unplaced(nodes[i]),
    decreases nodes.len(),
{
    if nodes.len() > 0 {
        lemma_unplaced_all(nodes.drop_last());
    }
}

fn convert(node: &MdastNode) -> (r: Node)
    ensures
        r@ == unplaced(mdast_tree(*node)),
    decreases mdast_tree(*node),
{
    let kind = kind_of(node);
    let mut children: Vec<Node> = Vec::new();
    let ghost tree = mdast_tree(*node);
    proof {
        lemma_unplaced_all(tree.children);
    }
    match children_of(node) {
        Some(list) => {
            let mut i: usize = 0;
            while i < list.len()
                invariant
                    i <= list.len(),
                    tree == mdast_tree(*node),
                    list@.len() == tree.children.len(),
                    forall|k: int|
                        0 <= k < list@.len() ==> mdast_tree(#[trigger] list@[k])
                            == tree.children[k],
                    models(children@) == unplaced_all(tree.children).take(i as int),
                    unplaced_all(tree.children).len() == tree.children.len(),
                    forall|k: int|
                        0 <= k < tree.children.len() ==> #[trigger] unplaced_all(
                            tree.children,
                        )[k] == unplaced(tree.children[k]),
                decreases list.len() - i,
            {
                assert(mdast_tree(list@[i as int]) == tree.children[i as int]);
                let child = convert(&list[i]);
                proof {
                    lemma_models_push(children@, child);
                    assert(unplaced_all(tree.children).take(i as int + 1) =~= unplaced_all(
                        tree.children,
                    ).take(i as int).push(unplaced(tree.children[i as int])));
                }
                children.push(child);
                i = i + 1;
            }
            assert(unplaced_all(tree.children).take(i as int) =~= unplaced_all(tree.children));
        },
        None => {
            assert(models(children@) =~= unplaced_all(tree.children));
        },
    }
    let r = Node { kind, origin: None, children };
    proof {
        lemma_model_children(r);
    }
    r
}

/// The document tree of a summary, or `None` where the parser does not
/// take the text.
pub fn read_summary(text: &str) -> (r: Option<Node>)
    ensures
        match r {
            Some(tree) => summary_tree(text@) == Some(tree@),
            None => summary_tree(text@) is None,
        },
{
    match to_mdast(text) {
        Ok(root) => Some(convert(&root)),
        Err(_) => None,
    }
}

} // verus!
