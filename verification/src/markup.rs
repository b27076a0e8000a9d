//! The HTML that stands for the boxes which the transforms add.
//!
//! A wrapper, a boxed note, a group of tabs and a tab are each written as an
//! opening tag, the node's children, and a closing tag. `flatten` puts these
//! three in the place of every box, so that a tree holds nothing but what a
//! markdown renderer knows.

use crate::document::{
    clone_kind, lemma_model_children, lemma_models_push, model, models, AdmonitionKind, Node,
    NodeKind, NodeKindView, NodeView,
};
use crate::highlight::{escaped, push_escaped};
use crate::text::{chars_of, extend, string_of};
use vstd::prelude::*;

verus! {

/// The name of a kind of note, as it stands in a class name.
pub open spec fn kind_name(kind: AdmonitionKind) -> Seq<char> {
    match kind {
        AdmonitionKind::Note => "note"@,
        AdmonitionKind::Tip => "tip"@,
        AdmonitionKind::Info => "info"@,
        AdmonitionKind::Warning => "warning"@,
        AdmonitionKind::Alert => "alert"@,
    }
}

/// The tag that opens a box, for the kinds of node that are boxes.
pub open spec fn opening(kind: NodeKindView) -> Option<Seq<char>> {
    match kind {
        NodeKindView::TableWrapper => Some("<div class=\"overflow-auto w-100\">"@),
        NodeKindView::Admonition { kind } => Some(
            "<div class=\"admonition admonition-"@ + kind_name(kind) + "\">"@,
        ),
        NodeKindView::TabGroup => Some("<div class=\"tabs\">"@),
        NodeKindView::Tab { label } => Some(
            "<div class=\"tab\" data-label=\""@ + escaped(label) + "\">"@,
        ),
        _ => None,
    }
}

/// The tag that closes a box, for the kinds of node that are boxes.
pub open spec fn closing(kind: NodeKindView) -> Option<Seq<char>> {
    match kind {
        NodeKindView::TableWrapper => Some("</div>"@),
        NodeKindView::Admonition { .. } => Some("</div>"@),
        NodeKindView::TabGroup => Some("</div>"@),
        NodeKindView::Tab { .. } => Some("</div>"@),
        _ => None,
    }
}

/// The view of a text that may be there.
pub open spec fn text_view(text: Option<String>) -> Option<Seq<char>> {
    match text {
        Some(t) => Some(t@),
        None => None,
    }
}

fn name_of(kind: AdmonitionKind) -> (r: &'static str)
    ensures
        r@ == kind_name(kind),
{
    match kind {
        AdmonitionKind::Note => "note",
        AdmonitionKind::Tip => "tip",
        AdmonitionKind::Info => "info",
        AdmonitionKind::Warning => "warning",
        AdmonitionKind::Alert => "alert",
    }
}

/// The tag that opens a box; `None` for a node that is no box.
pub fn open_tag(kind: &NodeKind) -> (r: Option<String>)
    ensures
        text_view(r) == opening(kind@),
{
    match kind {
        NodeKind::TableWrapper => Some("<div class=\"overflow-auto w-100\">".to_owned()),
        NodeKind::Admonition { kind } => {
            let mut tag = chars_of("<div class=\"admonition admonition-");
            let name = chars_of(name_of(*kind));
            let end = chars_of("\">");
            extend(&mut tag, &name);
            extend(&mut tag, &end);
            Some(string_of(&tag))
        },
        NodeKind::TabGroup => Some("<div class=\"tabs\">".to_owned()),
        NodeKind::Tab { label } => {
            let mut tag = chars_of("<div class=\"tab\" data-label=\"");
            let chars = chars_of(label.as_str());
            let end = chars_of("\">");
            push_escaped(&chars, 0, chars.len(), &mut tag);
            assert(chars@.subrange(0, chars.len() as int) =~= chars@);
            extend(&mut tag, &end);
            Some(string_of(&tag))
        },
        _ => None,
    }
}

/// The tag that closes a box; `None` for a node that is no box.
pub fn close_tag(kind: &NodeKind) -> (r: Option<String>)
    ensures
        text_view(r) == closing(kind@),
{
    match kind {
        NodeKind::TableWrapper => Some("</div>".to_owned()),
        NodeKind::Admonition { .. } => Some("</div>".to_owned()),
        NodeKind::TabGroup => Some("</div>".to_owned()),
        NodeKind::Tab { .. } => Some("</div>".to_owned()),
        _ => None,
    }
}

/// A node of raw HTML that no parser made.
pub open spec fn html_node(literal: Seq<char>) -> NodeView {
    NodeView { kind: NodeKindView::Html { literal }, origin: None, children: Seq::empty() }
}

/// A tree with every box below its root written out: where a box stood
/// stand its opening tag, its children, and its closing tag.
pub open spec fn flattened(n: NodeView) -> NodeView
    decreases n,
{
    NodeView { kind: n.kind, origin: n.origin, children: flattened_all(n.children) }
}

/// A list of trees with every box written out.
pub open spec fn flattened_all(nodes: Seq<NodeView>) -> Seq<NodeView>
    decreases nodes,
{
    if nodes.len() == 0 {
        Seq::empty()
    } else {
        let last = nodes.last();
        match (opening(last.kind), closing(last.kind)) {
            (Some(open), Some(close)) => flattened_all(nodes.drop_last()) + seq![html_node(open)]
                + flattened_all(last.children) + seq![html_node(close)],
            _ => flattened_all(nodes.drop_last()).push(flattened(last)),
        }
    }
}

/// The number of boxes in a tree.
pub open spec fn box_count(n: NodeView) -> nat
    decreases n,
{
    if opening(n.kind) is Some {
        1 + box_count_in(n.children)
    } else {
        box_count_in(n.children)
    }
}

/// The number of boxes in a list of trees.
pub open spec fn box_count_in(nodes: Seq<NodeView>) -> nat
    decreases nodes,
{
    if nodes.len() == 0 {
        0
    } else {
        box_count_in(nodes.drop_last()) + box_count(nodes.last())
    }
}

proof fn lemma_box_count_concat(a: Seq<NodeView>, b: Seq<NodeView>)
    ensures
        box_count_in(a + b) == box_count_in(a) + box_count_in(b),
    decreases b.len(),
{
    if b.len() == 0 {
        assert(a + b =~= a);
    } else {
        lemma_box_count_concat(a, b.drop_last());
        assert((a + b).drop_last() =~= a + b.drop_last());
        assert((a + b).last() == b.last());
    }
}

proof fn lemma_box_count_one(n: NodeView)
    ensures
        box_count_in(seq![n]) == box_count(n),
{
    assert(seq![n].drop_last() =~= Seq::<NodeView>::empty());
    assert(box_count_in(seq![n].drop_last()) == 0);
}

/// Once the boxes are written out, none is left below the root.
pub proof fn lemma_flattened_has_no_boxes(nodes: Seq<NodeView>)
    ensures
        box_count_in(flattened_all(nodes)) == 0,
    decreases nodes,
{
    if nodes.len() > 0 {
        let last = nodes.last();
        let rest = flattened_all(nodes.drop_last());
        lemma_flattened_has_no_boxes(nodes.drop_last());
        lemma_flattened_has_no_boxes(last.children);
        match (opening(last.kind), closing(last.kind)) {
            (Some(open), Some(close)) => {
                let inner = flattened_all(last.children);
                lemma_box_count_one(html_node(open));
                lemma_box_count_one(html_node(close));
                assert(box_count(html_node(open)) == 0);
                assert(box_count(html_node(close)) == 0);
                lemma_box_count_concat(rest, seq![html_node(open)]);
                lemma_box_count_concat(rest + seq![html_node(open)], inner);
                lemma_box_count_concat(
                    rest + seq![html_node(open)] + inner,
                    seq![html_node(close)],
                );
            },
            _ => {
                let all = rest.push(flattened(last));
                assert(all.drop_last() =~= rest);
                assert(all.last() == flattened(last));
                assert(opening(last.kind) is Some ==> closing(last.kind) is Some);
                assert(box_count(flattened(last)) == box_count_in(flattened_all(last.children)));
            },
        }
    }
}

/// A tree without boxes is left as it is.
pub proof fn lemma_flatten_without_boxes(n: NodeView)
    requires
        box_count_in(n.children) == 0,
    ensures
        flattened(n) == n,
    decreases n,
{
    lemma_flatten_all_without_boxes(n.children);
}

/// A list of trees without boxes is left as it is.
pub proof fn lemma_flatten_all_without_boxes(nodes: Seq<NodeView>)
    requires
        box_count_in(nodes) == 0,
    ensures
        flattened_all(nodes) == nodes,
    decreases nodes,
{
    if nodes.len() > 0 {
        let last = nodes.last();
        lemma_flatten_all_without_boxes(nodes.drop_last());
        assert(box_count(last) == 0);
        assert(opening(last.kind) is None);
        lemma_flatten_without_boxes(last);
        assert(nodes.drop_last().push(last) =~= nodes);
    } else {
        assert(nodes =~= Seq::<NodeView>::empty());
    }
}

fn make_html(literal: String) -> (r: Node)
    ensures
        r@ == html_node(literal@),
{
    let r = Node { kind: NodeKind::Html { literal }, origin: None, children: Vec::new() };
    proof {
        lemma_model_children(r);
        assert(models(r.children@) =~= Seq::<NodeView>::empty());
    }
    r
}

fn flatten_into(n: &Node, out: &mut Vec<Node>)
    ensures
        models(final(out)@) == models(old(out)@) + flattened_all(n@.children),
    decreases n, 0nat,
{
    proof {
        lemma_model_children(*n);
        assert(models(out@) + Seq::<NodeView>::empty() =~= models(out@));
    }
    let mut i: usize = 0;
    while i < n.children.len()
        invariant
            i <= n.children.len(),
            n@.children == models(n.children@),
            models(out@) == models(old(out)@) + flattened_all(models(n.children@).take(i as int)),
        decreases n.children.len() - i,
    {
        let child = &n.children[i];
        let ghost before = models(out@);
        let ghost done = flattened_all(models(n.children@).take(i as int));
        proof {
            let upto = models(n.children@).take(i as int + 1);
            assert(upto.drop_last() =~= models(n.children@).take(i as int));
            assert(upto.last() == model(n.children@[i as int]));
            lemma_model_children(*child);
        }
        match (open_tag(&child.kind), close_tag(&child.kind)) {
            (Some(open), Some(close)) => {
                let first = make_html(open);
                proof {
                    lemma_models_push(out@, first);
                }
                out.push(first);
                flatten_into(child, out);
                let last = make_html(close);
                proof {
                    lemma_models_push(out@, last);
                }
                out.push(last);
                assert(models(out@) =~= models(old(out)@) + (done + seq![html_node(open@)]
                    + flattened_all(child@.children) + seq![html_node(close@)]));
            },
            _ => {
                let same = flatten(child);
                proof {
                    lemma_models_push(out@, same);
                }
                out.push(same);
                assert(models(out@) =~= models(old(out)@) + done.push(flattened(child@)));
            },
        }
        i = i + 1;
    }
    assert(models(n.children@).take(i as int) =~= models(n.children@));
}

/// Writes out every box below the root of the document: in the place of a
/// box stand its opening tag, its children, and its closing tag.
pub fn flatten(doc: &Node) -> (r: Node)
    ensures
        r@ == flattened(doc@),
    decreases doc, 1nat,
{
    let mut children: Vec<Node> = Vec::new();
    proof {
        assert(models(children@) =~= Seq::<NodeView>::empty());
    }
    flatten_into(doc, &mut children);
    proof {
        assert(Seq::<NodeView>::empty() + flattened_all(doc@.children) =~= flattened_all(
            doc@.children,
        ));
        lemma_model_children(*doc);
    }
    let r = Node { kind: clone_kind(&doc.kind), origin: doc.origin, children };
    proof {
        lemma_model_children(r);
    }
    r
}

} // verus!
