//! Boxed notes and tab groups written in the MkDocs manner.
//!
//! A directive is a paragraph that holds one run of text and nothing else:
//!
//! - `!!! note` (or `tip`, `info`, `warning`, `alert`) opens a boxed note and
//!   `!!!` closes it;
//! - `=== "Label"` opens a tab, closing the tab before it if one is open, and
//!   `===` closes the group of tabs.
//!
//! The siblings between an opening and its closing become the children of one
//! `Admonition` node, or of the `Tab` nodes of one `TabGroup`. Groups nest. A
//! closing without its opening stays the paragraph it was, and so does an
//! opening that is never closed, together with all that follows it.

use crate::document::{
    clone_kind, clone_node, lemma_model_children, lemma_models_push, model, models,
    AdmonitionKind, Node, NodeKind, NodeKindView, NodeView,
};
use crate::text::{chars_of, is_word, slice, string_of};
use vstd::prelude::*;

verus! {

/// What a directive asks for.
#[derive(Debug, PartialEq, Eq)]
pub enum Marker {
    OpenNote(AdmonitionKind),
    CloseNote,
    OpenTab(String),
    CloseTabs,
}

pub enum MarkerView {
    OpenNote(AdmonitionKind),
    CloseNote,
    OpenTab(Seq<char>),
    CloseTabs,
}

impl View for Marker {
    type V = MarkerView;

    open spec fn view(&self) -> MarkerView {
        match self {
            Marker::OpenNote(kind) => MarkerView::OpenNote(*kind),
            Marker::CloseNote => MarkerView::CloseNote,
            Marker::OpenTab(label) => MarkerView::OpenTab(label@),
            Marker::CloseTabs => MarkerView::CloseTabs,
        }
    }
}

/// What stands before the label of a tab.
pub open spec fn tab_prefix() -> Seq<char> {
    seq!['=', '=', '=', ' ', '"']
}

/// Whether a text opens a tab: `=== "`, a label, and `"`.
pub open spec fn opens_tab(text: Seq<char>) -> bool {
    text.len() >= 6 && text.subrange(0, 5) == tab_prefix() && text[text.len() - 1] == '"'
}

/// The directive that a text is, if it is one.
pub open spec fn marker_in(text: Seq<char>) -> Option<MarkerView> {
    if text == "!!!"@ {
        Some(MarkerView::CloseNote)
    } else if text == "!!! note"@ {
        Some(MarkerView::OpenNote(AdmonitionKind::Note))
    } else if text == "!!! tip"@ {
        Some(MarkerView::OpenNote(AdmonitionKind::Tip))
    } else if text == "!!! info"@ {
        Some(MarkerView::OpenNote(AdmonitionKind::Info))
    } else if text == "!!! warning"@ {
        Some(MarkerView::OpenNote(AdmonitionKind::Warning))
    } else if text == "!!! alert"@ {
        Some(MarkerView::OpenNote(AdmonitionKind::Alert))
    } else if text == "==="@ {
        Some(MarkerView::CloseTabs)
    } else if opens_tab(text) {
        Some(MarkerView::OpenTab(text.subrange(5, text.len() - 1)))
    } else {
        None
    }
}

/// The directive that a node is, if it is one: a paragraph whose only child
/// is a run of text that is a directive.
pub open spec fn marker_of(n: NodeView) -> Option<MarkerView> {
    if n.kind is Paragraph && n.children.len() == 1 {
        match n.children[0].kind {
            NodeKindView::Text { literal } => marker_in(literal),
            _ => None,
        }
    } else {
        None
    }
}

/// A group that has been opened and not yet closed.
pub struct FrameView {
    /// The kind of note, or `None` for a group of tabs.
    pub note: Option<AdmonitionKind>,
    /// What the group gives back if it is never closed: its directives and
    /// what stands between them.
    pub literal: Seq<NodeView>,
    /// The tabs that are complete.
    pub tabs: Seq<NodeView>,
    /// The label of the tab that is open.
    pub label: Seq<char>,
    /// What the note, or the open tab, holds so far.
    pub items: Seq<NodeView>,
}

/// Where a pass over a list of siblings stands.
pub struct ScanView {
    /// What has been written at the level of the siblings.
    pub out: Seq<NodeView>,
    /// The groups that are open, the innermost last.
    pub stack: Seq<FrameView>,
}

/// A boxed note.
pub open spec fn note_node(kind: AdmonitionKind, items: Seq<NodeView>) -> NodeView {
    NodeView { kind: NodeKindView::Admonition { kind }, origin: None, children: items }
}

/// One tab.
pub open spec fn tab_node(label: Seq<char>, items: Seq<NodeView>) -> NodeView {
    NodeView { kind: NodeKindView::Tab { label }, origin: None, children: items }
}

/// A group of tabs.
pub open spec fn group_node(tabs: Seq<NodeView>) -> NodeView {
    NodeView { kind: NodeKindView::TabGroup, origin: None, children: tabs }
}

/// The state after `nodes` have been written into the innermost open group,
/// or at the level of the siblings where no group is open.
pub open spec fn put_all(s: ScanView, nodes: Seq<NodeView>) -> ScanView {
    if s.stack.len() == 0 {
        ScanView { out: s.out + nodes, stack: s.stack }
    } else {
        let top = s.stack.last();
        ScanView {
            out: s.out,
            stack: s.stack.drop_last().push(
                FrameView {
                    note: top.note,
                    literal: top.literal + nodes,
                    tabs: top.tabs,
                    label: top.label,
                    items: top.items + nodes,
                },
            ),
        }
    }
}

/// The state without its innermost open group.
pub open spec fn popped(s: ScanView) -> ScanView {
    ScanView { out: s.out, stack: s.stack.drop_last() }
}

/// The state with one more open group, which starts at the directive `n`.
pub open spec fn opened(
    s: ScanView,
    note: Option<AdmonitionKind>,
    label: Seq<char>,
    n: NodeView,
) -> ScanView {
    ScanView {
        out: s.out,
        stack: s.stack.push(
            FrameView { note, literal: seq![n], tabs: Seq::empty(), label, items: Seq::empty() },
        ),
    }
}

/// The state after the open tab has been completed and the tab `label` begun
/// at the directive `n`.
pub open spec fn next_tab(s: ScanView, label: Seq<char>, n: NodeView) -> ScanView {
    let top = s.stack.last();
    ScanView {
        out: s.out,
        stack: s.stack.drop_last().push(
            FrameView {
                note: None,
                literal: top.literal.push(n),
                tabs: top.tabs.push(tab_node(top.label, top.items)),
                label,
                items: Seq::empty(),
            },
        ),
    }
}

/// Whether a boxed note is the innermost open group.
pub open spec fn in_note(s: ScanView) -> bool {
    s.stack.len() > 0 && s.stack.last().note is Some
}

/// Whether a group of tabs is the innermost open group.
pub open spec fn in_tabs(s: ScanView) -> bool {
    s.stack.len() > 0 && s.stack.last().note is None
}

/// The state after the sibling `n`, whose own expansion is `e`.
pub open spec fn step(s: ScanView, n: NodeView, e: NodeView) -> ScanView {
    match marker_of(n) {
        None => put_all(s, seq![e]),
        Some(MarkerView::OpenNote(kind)) => opened(s, Some(kind), Seq::empty(), n),
        Some(MarkerView::CloseNote) => if in_note(s) {
            put_all(popped(s), seq![note_node(s.stack.last().note->0, s.stack.last().items)])
        } else {
            put_all(s, seq![n])
        },
        Some(MarkerView::OpenTab(label)) => if in_tabs(s) {
            next_tab(s, label, n)
        } else {
            opened(s, None, label, n)
        },
        Some(MarkerView::CloseTabs) => if in_tabs(s) {
            put_all(
                popped(s),
                seq![
                    group_node(
                        s.stack.last().tabs.push(
                            tab_node(s.stack.last().label, s.stack.last().items),
                        ),
                    ),
                ],
            )
        } else {
            put_all(s, seq![n])
        },
    }
}

/// What has been written once every group that is still open has given back
/// what it took.
pub open spec fn finished(s: ScanView) -> Seq<NodeView>
    decreases s.stack.len(),
{
    if s.stack.len() == 0 {
        s.out
    } else {
        finished(put_all(popped(s), s.stack.last().literal))
    }
}

/// The state before any sibling has been seen.
pub open spec fn start() -> ScanView {
    ScanView { out: Seq::empty(), stack: Seq::empty() }
}

/// A tree with its directives expanded.
pub open spec fn expanded(n: NodeView) -> NodeView
    decreases n,
{
    NodeView { kind: n.kind, origin: n.origin, children: finished(scan_from(start(), n.children)) }
}

/// The state after a pass over `nodes` that begins in the state `s`.
pub open spec fn scan_from(s: ScanView, nodes: Seq<NodeView>) -> ScanView
    decreases nodes,
{
    if nodes.len() == 0 {
        s
    } else {
        step(scan_from(s, nodes.drop_last()), nodes.last(), expanded(nodes.last()))
    }
}

/// The state after a pass over `nodes`.
pub open spec fn scanned(nodes: Seq<NodeView>) -> ScanView {
    scan_from(start(), nodes)
}

/// A list of siblings with its directives expanded.
pub open spec fn expanded_all(nodes: Seq<NodeView>) -> Seq<NodeView> {
    finished(scanned(nodes))
}

/// The number of directives in a tree.
pub open spec fn marker_count(n: NodeView) -> nat
    decreases n,
{
    if marker_of(n) is Some {
        1 + marker_count_in(n.children)
    } else {
        marker_count_in(n.children)
    }
}

/// The number of directives in a list of trees.
pub open spec fn marker_count_in(nodes: Seq<NodeView>) -> nat
    decreases nodes,
{
    if nodes.len() == 0 {
        0
    } else {
        marker_count_in(nodes.drop_last()) + marker_count(nodes.last())
    }
}

/// A tree without any directive is left as it is.
pub proof fn lemma_expand_without_markers(n: NodeView)
    requires
        marker_count(n) == 0,
    ensures
        expanded(n) == n,
    decreases n,
{
    lemma_scan_without_markers(n.children);
}

/// A pass over siblings without any directive writes them out as they are
/// and opens no group.
pub proof fn lemma_scan_without_markers(nodes: Seq<NodeView>)
    requires
        marker_count_in(nodes) == 0,
    ensures
        scanned(nodes) == (ScanView { out: nodes, stack: Seq::<FrameView>::empty() }),
        expanded_all(nodes) == nodes,
    decreases nodes,
{
    if nodes.len() > 0 {
        lemma_scan_without_markers(nodes.drop_last());
        lemma_expand_without_markers(nodes.last());
        assert(marker_count(nodes.last()) == 0);
        assert(marker_of(nodes.last()) is None);
        let before = scanned(nodes.drop_last());
        assert(scanned(nodes) == put_all(before, seq![nodes.last()]));
        assert(nodes.drop_last() + seq![nodes.last()] =~= nodes);
    } else {
        assert(nodes =~= Seq::<NodeView>::empty());
    }
}

/// A pass over two lists, one after the other, is a pass over the first and
/// then, from where that ended, a pass over the second.
pub proof fn lemma_scan_concat(s: ScanView, a: Seq<NodeView>, b: Seq<NodeView>)
    ensures
        scan_from(s, a + b) == scan_from(scan_from(s, a), b),
    decreases b.len(),
{
    if b.len() == 0 {
        assert(a + b =~= a);
    } else {
        lemma_scan_concat(s, a, b.drop_last());
        assert((a + b).drop_last() =~= a + b.drop_last());
        assert((a + b).last() == b.last());
    }
}

/// The state `s` with `head` written before everything else.
pub open spec fn after(head: Seq<NodeView>, s: ScanView) -> ScanView {
    ScanView { out: head + s.out, stack: s.stack }
}

proof fn lemma_put_after(head: Seq<NodeView>, s: ScanView, nodes: Seq<NodeView>)
    ensures
        put_all(after(head, s), nodes) == after(head, put_all(s, nodes)),
{
    if s.stack.len() == 0 {
        assert((head + s.out) + nodes =~= head + (s.out + nodes));
    }
}

proof fn lemma_step_after(head: Seq<NodeView>, s: ScanView, n: NodeView, e: NodeView)
    ensures
        step(after(head, s), n, e) == after(head, step(s, n, e)),
{
    lemma_put_after(head, s, seq![e]);
    lemma_put_after(head, s, seq![n]);
    if s.stack.len() > 0 {
        let top = s.stack.last();
        assert(popped(after(head, s)) == after(head, popped(s)));
        if top.note is Some {
            lemma_put_after(head, popped(s), seq![note_node(top.note->0, top.items)]);
        } else {
            lemma_put_after(
                head,
                popped(s),
                seq![group_node(top.tabs.push(tab_node(top.label, top.items)))],
            );
        }
    }
}

/// What was written before a pass began stays in front of what the pass
/// writes.
pub proof fn lemma_scan_after(head: Seq<NodeView>, s: ScanView, nodes: Seq<NodeView>)
    ensures
        scan_from(after(head, s), nodes) == after(head, scan_from(s, nodes)),
    decreases nodes.len(),
{
    if nodes.len() > 0 {
        lemma_scan_after(head, s, nodes.drop_last());
        lemma_step_after(
            head,
            scan_from(s, nodes.drop_last()),
            nodes.last(),
            expanded(nodes.last()),
        );
    }
}

/// What was written before a pass began stays in front of what the pass
/// gives in the end.
pub proof fn lemma_finished_after(head: Seq<NodeView>, s: ScanView)
    ensures
        finished(after(head, s)) == head + finished(s),
    decreases s.stack.len(),
{
    if s.stack.len() > 0 {
        let literal = s.stack.last().literal;
        assert(popped(after(head, s)) == after(head, popped(s)));
        lemma_put_after(head, popped(s), literal);
        lemma_finished_after(head, put_all(popped(s), literal));
    }
}

proof fn lemma_put_put(s: ScanView, a: Seq<NodeView>, b: Seq<NodeView>)
    ensures
        put_all(put_all(s, a), b) == put_all(s, a + b),
{
    if s.stack.len() == 0 {
        assert((s.out + a) + b =~= s.out + (a + b));
    } else {
        let top = s.stack.last();
        let mid = put_all(s, a);
        assert(mid.stack.drop_last() =~= s.stack.drop_last());
        assert((top.literal + a) + b =~= top.literal + (a + b));
        assert((top.items + a) + b =~= top.items + (a + b));
    }
}

/// A pass over siblings without any directive writes them, as they are, to
/// where the pass stands.
pub proof fn lemma_scan_plain(s: ScanView, nodes: Seq<NodeView>)
    requires
        marker_count_in(nodes) == 0,
    ensures
        scan_from(s, nodes) == put_all(s, nodes),
    decreases nodes,
{
    if nodes.len() > 0 {
        lemma_scan_plain(s, nodes.drop_last());
        assert(marker_count(nodes.last()) == 0);
        lemma_expand_without_markers(nodes.last());
        assert(marker_of(nodes.last()) is None);
        lemma_put_put(s, nodes.drop_last(), seq![nodes.last()]);
        assert(nodes.drop_last() + seq![nodes.last()] =~= nodes);
    } else {
        if s.stack.len() == 0 {
            assert(s.out + nodes =~= s.out);
        } else {
            let top = s.stack.last();
            assert(top.literal + nodes =~= top.literal);
            assert(top.items + nodes =~= top.items);
            assert(s.stack.drop_last().push(top) =~= s.stack);
        }
    }
}

proof fn lemma_scan_opening(pre: Seq<NodeView>, open: NodeView, mid: Seq<NodeView>)
    requires
        marker_count_in(pre) == 0,
        marker_count_in(mid) == 0,
        marker_of(open) matches Some(m) && (m is OpenNote || m is OpenTab),
    ensures
        scanned(pre + seq![open] + mid) == (ScanView {
            out: pre,
            stack: seq![
                FrameView {
                    note: match marker_of(open)->0 {
                        MarkerView::OpenNote(kind) => Some(kind),
                        _ => None,
                    },
                    literal: seq![open] + mid,
                    tabs: Seq::empty(),
                    label: match marker_of(open)->0 {
                        MarkerView::OpenTab(label) => label,
                        _ => Seq::empty(),
                    },
                    items: mid,
                },
            ],
        }),
{
    lemma_scan_without_markers(pre);
    let s0 = scanned(pre);
    let upto = pre + seq![open];
    assert(upto.drop_last() =~= pre);
    assert(upto.last() == open);
    let s1 = scanned(upto);
    assert(s1 == step(s0, open, expanded(open)));
    lemma_scan_concat(start(), upto, mid);
    lemma_scan_plain(s1, mid);
    assert(s1.stack.drop_last() =~= Seq::<FrameView>::empty());
    assert(Seq::<NodeView>::empty() + mid =~= mid);
    assert(Seq::<FrameView>::empty().push(put_all(s1, mid).stack.last()) =~= seq![
        put_all(s1, mid).stack.last(),
    ]);
}

/// The siblings between `!!! kind` and `!!!` become the children of one
/// boxed note, which stands in their place.
pub proof fn lemma_note_takes_its_siblings(
    pre: Seq<NodeView>,
    open: NodeView,
    mid: Seq<NodeView>,
    close: NodeView,
    post: Seq<NodeView>,
    kind: AdmonitionKind,
)
    requires
        marker_count_in(pre) == 0,
        marker_count_in(mid) == 0,
        marker_of(open) == Some(MarkerView::OpenNote(kind)),
        marker_of(close) == Some(MarkerView::CloseNote),
    ensures
        expanded_all(pre + seq![open] + mid + seq![close] + post) == pre + seq![
            note_node(kind, mid),
        ] + expanded_all(post),
{
    lemma_scan_opening(pre, open, mid);
    let inner = pre + seq![open] + mid;
    let s2 = scanned(inner);
    let upto = inner + seq![close];
    assert(upto.drop_last() =~= inner);
    assert(upto.last() == close);
    let s3 = scanned(upto);
    assert(s3 == step(s2, close, expanded(close)));
    let head = pre + seq![note_node(kind, mid)];
    assert(popped(s2).stack =~= Seq::<FrameView>::empty());
    assert(s3 == after(head, start())) by {
        assert(head + Seq::<NodeView>::empty() =~= head);
        assert(s3.stack =~= Seq::<FrameView>::empty());
    }
    lemma_scan_concat(start(), upto, post);
    lemma_scan_after(head, start(), post);
    lemma_finished_after(head, scanned(post));
}

/// The siblings behind `=== "one"` and behind `=== "two"`, up to `===`,
/// become the children of two tabs of one group, which stands in their place.
pub proof fn lemma_tabs_take_their_siblings(
    pre: Seq<NodeView>,
    first: NodeView,
    one: Seq<NodeView>,
    second: NodeView,
    two: Seq<NodeView>,
    close: NodeView,
    post: Seq<NodeView>,
)
    requires
        marker_count_in(pre) == 0,
        marker_count_in(one) == 0,
        marker_count_in(two) == 0,
        marker_of(first) matches Some(m) && m is OpenTab,
        marker_of(second) matches Some(m) && m is OpenTab,
        marker_of(close) == Some(MarkerView::CloseTabs),
    ensures
        expanded_all(pre + seq![first] + one + seq![second] + two + seq![close] + post) == pre
            + seq![
            group_node(
                seq![
                    tab_node(marker_of(first)->0->OpenTab_0, one),
                    tab_node(marker_of(second)->0->OpenTab_0, two),
                ],
            ),
        ] + expanded_all(post),
{
    lemma_scan_opening(pre, first, one);
    let a = pre + seq![first] + one;
    let s2 = scanned(a);
    let b = a + seq![second];
    assert(b.drop_last() =~= a);
    assert(b.last() == second);
    let s3 = scanned(b);
    assert(s3 == step(s2, second, expanded(second)));
    assert(s3 == next_tab(s2, marker_of(second)->0->OpenTab_0, second));
    let c = b + two;
    lemma_scan_concat(start(), b, two);
    lemma_scan_plain(s3, two);
    let s4 = scanned(c);
    assert(s4 == put_all(s3, two));
    let d = c + seq![close];
    assert(d.drop_last() =~= c);
    assert(d.last() == close);
    let s5 = scanned(d);
    assert(s5 == step(s4, close, expanded(close)));
    let group = group_node(
        seq![
            tab_node(marker_of(first)->0->OpenTab_0, one),
            tab_node(marker_of(second)->0->OpenTab_0, two),
        ],
    );
    let head = pre + seq![group];
    assert(s4.stack.last().items =~= two);
    assert(s4.stack.last().tabs =~= seq![tab_node(marker_of(first)->0->OpenTab_0, one)]);
    assert(s4.stack.last().tabs.push(tab_node(s4.stack.last().label, s4.stack.last().items))
        =~= seq![
        tab_node(marker_of(first)->0->OpenTab_0, one),
        tab_node(marker_of(second)->0->OpenTab_0, two),
    ]);
    assert(popped(s4).stack =~= Seq::<FrameView>::empty());
    assert(s5 == after(head, start())) by {
        assert(head + Seq::<NodeView>::empty() =~= head);
        assert(s5.stack =~= Seq::<FrameView>::empty());
    }
    lemma_scan_concat(start(), d, post);
    lemma_scan_after(head, start(), post);
    lemma_finished_after(head, scanned(post));
}

/// An opening that is never closed stays the paragraph it was, and what
/// follows it stays where it was.
pub proof fn lemma_unclosed_opening_stays_text(
    pre: Seq<NodeView>,
    open: NodeView,
    rest: Seq<NodeView>,
)
    requires
        marker_count_in(pre) == 0,
        marker_count_in(rest) == 0,
        marker_of(open) matches Some(m) && (m is OpenNote || m is OpenTab),
    ensures
        expanded_all(pre + seq![open] + rest) == pre + seq![open] + rest,
{
    lemma_scan_opening(pre, open, rest);
    let s = scanned(pre + seq![open] + rest);
    let flushed = put_all(popped(s), s.stack.last().literal);
    assert(popped(s).stack =~= Seq::<FrameView>::empty());
    assert(flushed.stack.len() == 0);
    assert(finished(s) == finished(flushed));
    assert(flushed.out =~= pre + seq![open] + rest);
}

/// A closing that closes nothing stays the paragraph it was.
pub proof fn lemma_lone_closing_stays_text(pre: Seq<NodeView>, close: NodeView, post: Seq<NodeView>)
    requires
        marker_count_in(pre) == 0,
        marker_of(close) matches Some(m) && (m is CloseNote || m is CloseTabs),
    ensures
        expanded_all(pre + seq![close] + post) == pre + seq![close] + expanded_all(post),
{
    lemma_scan_without_markers(pre);
    let upto = pre + seq![close];
    assert(upto.drop_last() =~= pre);
    assert(upto.last() == close);
    let s1 = scanned(upto);
    assert(s1 == step(scanned(pre), close, expanded(close)));
    assert(s1 == after(upto, start())) by {
        assert(upto + Seq::<NodeView>::empty() =~= upto);
    }
    lemma_scan_concat(start(), upto, post);
    lemma_scan_after(upto, start(), post);
    lemma_finished_after(upto, scanned(post));
}

/// The view of a directive that may be there.
pub open spec fn marker_view(m: Option<Marker>) -> Option<MarkerView> {
    match m {
        Some(marker) => Some(marker@),
        None => None,
    }
}

/// The directive that a text is, if it is one.
pub fn marker_in_text(text: &str) -> (r: Option<Marker>)
    ensures
        marker_view(r) == marker_in(text@),
{
    let chars = chars_of(text);
    if is_word(&chars, "!!!") {
        Some(Marker::CloseNote)
    } else if is_word(&chars, "!!! note") {
        Some(Marker::OpenNote(AdmonitionKind::Note))
    } else if is_word(&chars, "!!! tip") {
        Some(Marker::OpenNote(AdmonitionKind::Tip))
    } else if is_word(&chars, "!!! info") {
        Some(Marker::OpenNote(AdmonitionKind::Info))
    } else if is_word(&chars, "!!! warning") {
        Some(Marker::OpenNote(AdmonitionKind::Warning))
    } else if is_word(&chars, "!!! alert") {
        Some(Marker::OpenNote(AdmonitionKind::Alert))
    } else if is_word(&chars, "===") {
        Some(Marker::CloseTabs)
    } else {
        let mut prefix: Vec<char> = Vec::new();
        prefix.push('=');
        prefix.push('=');
        prefix.push('=');
        prefix.push(' ');
        prefix.push('"');
        assert(prefix@ =~= tab_prefix());
        if chars.len() >= 6 && crate::text::occurs(&chars, &prefix, 0) && chars[chars.len() - 1]
            == '"' {
            let label = slice(&chars, 5, chars.len() - 1);
            Some(Marker::OpenTab(string_of(&label)))
        } else {
            None
        }
    }
}

/// The directive that a node is, if it is one.
pub fn marker(n: &Node) -> (r: Option<Marker>)
    ensures
        marker_view(r) == marker_of(n@),
{
    proof {
        lemma_model_children(*n);
    }
    match &n.kind {
        NodeKind::Paragraph => {
            if n.children.len() == 1 {
                proof {
                    lemma_model_children(n.children@[0]);
                }
                match &n.children[0].kind {
                    NodeKind::Text { literal } => marker_in_text(literal.as_str()),
                    _ => None,
                }
            } else {
                None
            }
        },
        _ => None,
    }
}

struct Frame {
    note: Option<AdmonitionKind>,
    literal: Vec<Node>,
    tabs: Vec<Node>,
    label: String,
    items: Vec<Node>,
}

struct Scan {
    out: Vec<Node>,
    stack: Vec<Frame>,
}

spec fn frame_view(f: Frame) -> FrameView {
    FrameView {
        note: f.note,
        literal: models(f.literal@),
        tabs: models(f.tabs@),
        label: f.label@,
        items: models(f.items@),
    }
}

spec fn frames_view(stack: Seq<Frame>) -> Seq<FrameView> {
    Seq::new(stack.len(), |i: int| frame_view(stack[i]))
}

spec fn scan_view(s: Scan) -> ScanView {
    ScanView { out: models(s.out@), stack: frames_view(s.stack@) }
}

proof fn lemma_frames_push(stack: Seq<Frame>, f: Frame)
    ensures
        frames_view(stack.push(f)) == frames_view(stack).push(frame_view(f)),
{
    assert(frames_view(stack.push(f)) =~= frames_view(stack).push(frame_view(f)));
}

proof fn lemma_frames_drop_last(stack: Seq<Frame>)
    requires
        stack.len() > 0,
    ensures
        frames_view(stack.drop_last()) == frames_view(stack).drop_last(),
        frames_view(stack).last() == frame_view(stack.last()),
{
    assert(frames_view(stack.drop_last()) =~= frames_view(stack).drop_last());
}

fn append_copies(dst: &mut Vec<Node>, src: &Vec<Node>)
    ensures
        models(final(dst)@) == models(old(dst)@) + models(src@),
{
    let mut i: usize = 0;
    assert(models(dst@) =~= models(old(dst)@) + models(src@).take(0));
    while i < src.len()
        invariant
            i <= src.len(),
            models(dst@) == models(old(dst)@) + models(src@).take(i as int),
        decreases src.len() - i,
    {
        let copy = clone_node(&src[i]);
        proof {
            lemma_models_push(dst@, copy);
            assert(models(old(dst)@) + models(src@).take(i as int + 1) =~= (models(old(dst)@)
                + models(src@).take(i as int)).push(model(src@[i as int])));
        }
        dst.push(copy);
        i = i + 1;
    }
    assert(models(src@).take(i as int) =~= models(src@));
}

fn put_nodes(s: &mut Scan, nodes: &Vec<Node>)
    ensures
        scan_view(*final(s)) == put_all(scan_view(*old(s)), models(nodes@)),
{
    match s.stack.pop() {
        None => {
            append_copies(&mut s.out, nodes);
            assert(frames_view(s.stack@) =~= frames_view(old(s).stack@));
        },
        Some(top) => {
            proof {
                lemma_frames_drop_last(old(s).stack@);
            }
            let mut top = top;
            append_copies(&mut top.literal, nodes);
            append_copies(&mut top.items, nodes);
            proof {
                lemma_frames_push(s.stack@, top);
            }
            s.stack.push(top);
        },
    }
}

fn put_node(s: &mut Scan, node: Node)
    ensures
        scan_view(*final(s)) == put_all(scan_view(*old(s)), seq![node@]),
{
    let mut nodes: Vec<Node> = Vec::new();
    proof {
        lemma_models_push(nodes@, node);
        assert(models(nodes@).push(node@) =~= seq![node@]);
    }
    nodes.push(node);
    put_nodes(s, &nodes);
}

fn open_group(s: &mut Scan, note: Option<AdmonitionKind>, label: String, n: &Node)
    ensures
        scan_view(*final(s)) == opened(scan_view(*old(s)), note, label@, n@),
{
    let mut literal: Vec<Node> = Vec::new();
    let copy = clone_node(n);
    proof {
        lemma_models_push(literal@, copy);
        assert(models(literal@).push(copy@) =~= seq![n@]);
    }
    literal.push(copy);
    let frame = Frame { note, literal, tabs: Vec::new(), label, items: Vec::new() };
    proof {
        lemma_frames_push(s.stack@, frame);
        assert(models(frame.tabs@) =~= Seq::<NodeView>::empty());
        assert(models(frame.items@) =~= Seq::<NodeView>::empty());
    }
    s.stack.push(frame);
}

fn make_node(kind: NodeKind, children: Vec<Node>) -> (r: Node)
    ensures
        r@ == (NodeView { kind: kind@, origin: None, children: models(children@) }),
{
    let r = Node { kind, origin: None, children };
    proof {
        lemma_model_children(r);
    }
    r
}

fn top_is_note(s: &Scan) -> (r: bool)
    ensures
        r == in_note(scan_view(*s)),
{
    if s.stack.len() == 0 {
        return false;
    }
    proof {
        lemma_frames_drop_last(s.stack@);
    }
    s.stack[s.stack.len() - 1].note.is_some()
}

fn top_is_tabs(s: &Scan) -> (r: bool)
    ensures
        r == in_tabs(scan_view(*s)),
{
    if s.stack.len() == 0 {
        return false;
    }
    proof {
        lemma_frames_drop_last(s.stack@);
    }
    s.stack[s.stack.len() - 1].note.is_none()
}

fn apply(s: &mut Scan, m: Marker, n: &Node)
    requires
        marker_of(n@) == Some(m@),
    ensures
        scan_view(*final(s)) == step(scan_view(*old(s)), n@, expanded(n@)),
{
    match m {
        Marker::OpenNote(kind) => {
            let label = String::new();
            open_group(s, Some(kind), label, n);
        },
        Marker::CloseNote => {
            if top_is_note(s) {
                proof {
                    lemma_frames_drop_last(s.stack@);
                }
                let top = s.stack.pop().unwrap();
                let kind = top.note.unwrap();
                let node = make_node(NodeKind::Admonition { kind }, top.items);
                put_node(s, node);
            } else {
                put_node(s, clone_node(n));
            }
        },
        Marker::OpenTab(label) => {
            if top_is_tabs(s) {
                proof {
                    lemma_frames_drop_last(s.stack@);
                }
                let top = s.stack.pop().unwrap();
                let Frame { note: _, literal, tabs, label: done, items } = top;
                let mut literal = literal;
                let mut tabs = tabs;
                let tab = make_node(NodeKind::Tab { label: done }, items);
                let copy = clone_node(n);
                proof {
                    lemma_models_push(tabs@, tab);
                    lemma_models_push(literal@, copy);
                }
                tabs.push(tab);
                literal.push(copy);
                let frame = Frame { note: None, literal, tabs, label, items: Vec::new() };
                proof {
                    lemma_frames_push(s.stack@, frame);
                    assert(models(frame.items@) =~= Seq::<NodeView>::empty());
                }
                s.stack.push(frame);
            } else {
                open_group(s, None, label, n);
            }
        },
        Marker::CloseTabs => {
            if top_is_tabs(s) {
                proof {
                    lemma_frames_drop_last(s.stack@);
                }
                let top = s.stack.pop().unwrap();
                let Frame { note: _, literal: _, tabs, label: done, items } = top;
                let mut tabs = tabs;
                let tab = make_node(NodeKind::Tab { label: done }, items);
                proof {
                    lemma_models_push(tabs@, tab);
                }
                tabs.push(tab);
                let node = make_node(NodeKind::TabGroup, tabs);
                put_node(s, node);
            } else {
                put_node(s, clone_node(n));
            }
        },
    }
}

fn finish(s: Scan) -> (r: Vec<Node>)
    ensures
        models(r@) == finished(scan_view(s)),
{
    let mut s = s;
    let ghost first = scan_view(s);
    while s.stack.len() > 0
        invariant
            finished(scan_view(s)) == finished(first),
        decreases s.stack.len(),
    {
        proof {
            lemma_frames_drop_last(s.stack@);
        }
        let ghost before = s.stack@.len();
        let top = s.stack.pop().unwrap();
        put_nodes(&mut s, &top.literal);
        assert(scan_view(s).stack.len() == s.stack@.len());
        assert(s.stack@.len() == before - 1);
    }
    s.out
}

/// Expands the directives of a document into boxed notes and tab groups.
pub fn mkdocs(doc: &Node) -> (r: Node)
    ensures
        r@ == expanded(doc@),
    decreases doc,
{
    proof {
        lemma_model_children(*doc);
    }
    let mut s = Scan { out: Vec::new(), stack: Vec::new() };
    assert(scan_view(s) =~= scanned(models(doc.children@).take(0))) by {
        assert(models(s.out@) =~= Seq::<NodeView>::empty());
        assert(frames_view(s.stack@) =~= Seq::<FrameView>::empty());
    }
    let mut i: usize = 0;
    while i < doc.children.len()
        invariant
            i <= doc.children.len(),
            scan_view(s) == scanned(models(doc.children@).take(i as int)),
        decreases doc.children.len() - i,
    {
        proof {
            let upto = models(doc.children@).take(i as int + 1);
            assert(upto.drop_last() =~= models(doc.children@).take(i as int));
            assert(upto.last() == model(doc.children@[i as int]));
        }
        let child = &doc.children[i];
        match marker(child) {
            Some(m) => {
                apply(&mut s, m, child);
            },
            None => {
                let e = mkdocs(child);
                put_node(&mut s, e);
            },
        }
        i = i + 1;
    }
    assert(models(doc.children@).take(i as int) =~= models(doc.children@));
    let children = finish(s);
    let r = Node { kind: clone_kind(&doc.kind), origin: doc.origin, children };
    proof {
        lemma_model_children(r);
    }
    r
}

} // verus!
