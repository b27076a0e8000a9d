//! Wrapping tables so that they can scroll sideways.
//!
//! Every table gets a `TableWrapper` node as its parent, in the table's
//! place among its siblings. What is inside a table, and inside a wrapper
//! that is already there, is left as it is; every other node keeps its kind,
//! its place and the order of its children.

use crate::document::{
    clone_kind, clone_node, lemma_model_children, lemma_models_push, model, models, table_count,
    table_count_in, Node, NodeKind, NodeKindView, NodeView,
};
use vstd::prelude::*;

verus! {

/// A tree with its tables wrapped.
pub open spec fn wrapped(n: NodeView) -> NodeView
    decreases n,
{
    match n.kind {
        NodeKindView::Table => NodeView {
            kind: NodeKindView::TableWrapper,
            origin: None,
            children: seq![n],
        },
        NodeKindView::TableWrapper => n,
        _ => NodeView { kind: n.kind, origin: n.origin, children: wrapped_all(n.children) },
    }
}

/// A list of trees, each with its tables wrapped.
pub open spec fn wrapped_all(nodes: Seq<NodeView>) -> Seq<NodeView>
    decreases nodes,
{
    if nodes.len() == 0 {
        Seq::empty()
    } else {
        wrapped_all(nodes.drop_last()).push(wrapped(nodes.last()))
    }
}

/// Wrapping a list wraps each of its trees, in place.
pub proof fn lemma_wrapped_all(nodes: Seq<NodeView>)
    ensures
        wrapped_all(nodes).len() == nodes.len(),
        forall|i: int|
            0 <= i < nodes.len() ==> #[trigger] wrapped_all(nodes)[i] == wrapped(nodes[i]),
    decreases nodes.len(),
{
    if nodes.len() > 0 {
        lemma_wrapped_all(nodes.drop_last());
    }
}

/// Wrapping twice gives what wrapping once gives: no table gets a second
/// wrapper.
pub proof fn lemma_wrap_idempotent(n: NodeView)
    ensures
        wrapped(wrapped(n)) == wrapped(n),
    decreases n,
{
    match n.kind {
        NodeKindView::Table => {},
        NodeKindView::TableWrapper => {},
        _ => {
            lemma_wrap_all_idempotent(n.children);
        },
    }
}

/// Wrapping a list twice gives what wrapping it once gives.
pub proof fn lemma_wrap_all_idempotent(nodes: Seq<NodeView>)
    ensures
        wrapped_all(wrapped_all(nodes)) == wrapped_all(nodes),
    decreases nodes,
{
    if nodes.len() > 0 {
        lemma_wrap_all_idempotent(nodes.drop_last());
        lemma_wrap_idempotent(nodes.last());
        let once = wrapped_all(nodes);
        assert(once.drop_last() =~= wrapped_all(nodes.drop_last()));
        assert(once.last() == wrapped(nodes.last()));
    }
}

/// A tree without any table is left as it is.
pub proof fn lemma_wrap_without_tables(n: NodeView)
    requires
        table_count(n) == 0,
    ensures
        wrapped(n) == n,
    decreases n,
{
    match n.kind {
        NodeKindView::Table => {},
        NodeKindView::TableWrapper => {},
        _ => {
            lemma_wrap_all_without_tables(n.children);
        },
    }
}

/// A list of trees without any table is left as it is.
pub proof fn lemma_wrap_all_without_tables(nodes: Seq<NodeView>)
    requires
        table_count_in(nodes) == 0,
    ensures
        wrapped_all(nodes) == nodes,
    decreases nodes,
{
    if nodes.len() > 0 {
        lemma_wrap_all_without_tables(nodes.drop_last());
        lemma_wrap_without_tables(nodes.last());
        assert(nodes.drop_last().push(nodes.last()) =~= nodes);
    }
}

/// The number of wrappers in a tree.
pub open spec fn wrapper_count(n: NodeView) -> nat
    decreases n,
{
    if n.kind is TableWrapper {
        1 + wrapper_count_in(n.children)
    } else {
        wrapper_count_in(n.children)
    }
}

/// The number of wrappers in a list of trees.
pub open spec fn wrapper_count_in(nodes: Seq<NodeView>) -> nat
    decreases nodes,
{
    if nodes.len() == 0 {
        0
    } else {
        wrapper_count_in(nodes.drop_last()) + wrapper_count(nodes.last())
    }
}

/// A tree with every wrapper below its root taken out again: what a wrapper
/// holds stands where the wrapper stood.
pub open spec fn unwrapped(n: NodeView) -> NodeView
    decreases n,
{
    NodeView { kind: n.kind, origin: n.origin, children: unwrapped_all(n.children) }
}

/// A list of trees with every wrapper taken out again.
pub open spec fn unwrapped_all(nodes: Seq<NodeView>) -> Seq<NodeView>
    decreases nodes,
{
    if nodes.len() == 0 {
        Seq::empty()
    } else if nodes.last().kind is TableWrapper {
        unwrapped_all(nodes.drop_last()) + nodes.last().children
    } else {
        unwrapped_all(nodes.drop_last()).push(unwrapped(nodes.last()))
    }
}

/// Wrapping adds wrappers and nothing else: taking them out again gives the
/// tree as it was, every table with what it held and every node in its place.
pub proof fn lemma_wrap_keeps_content(n: NodeView)
    requires
        wrapper_count(n) == 0,
        !(n.kind is Table),
    ensures
        unwrapped(wrapped(n)) == n,
    decreases n,
{
    lemma_wrap_all_keeps_content(n.children);
}

/// Taking the wrappers out of a wrapped list gives the list as it was.
pub proof fn lemma_wrap_all_keeps_content(nodes: Seq<NodeView>)
    requires
        wrapper_count_in(nodes) == 0,
    ensures
        unwrapped_all(wrapped_all(nodes)) == nodes,
    decreases nodes,
{
    if nodes.len() > 0 {
        let last = nodes.last();
        lemma_wrap_all_keeps_content(nodes.drop_last());
        assert(wrapper_count(last) == 0);
        let once = wrapped_all(nodes);
        assert(once.drop_last() =~= wrapped_all(nodes.drop_last()));
        assert(once.last() == wrapped(last));
        if last.kind is Table {
            assert(nodes.drop_last() + seq![last] =~= nodes);
        } else {
            lemma_wrap_keeps_content(last);
            assert(nodes.drop_last().push(last) =~= nodes);
        }
    } else {
        assert(nodes =~= Seq::<NodeView>::empty());
    }
}

/// The number of tables in a tree that stand in no other table and in no
/// wrapper: the tables that wrapping reaches.
pub open spec fn open_table_count(n: NodeView) -> nat
    decreases n,
{
    match n.kind {
        NodeKindView::Table => 1,
        NodeKindView::TableWrapper => 0,
        _ => open_table_count_in(n.children),
    }
}

/// The number of tables in a list of trees that wrapping reaches.
pub open spec fn open_table_count_in(nodes: Seq<NodeView>) -> nat
    decreases nodes,
{
    if nodes.len() == 0 {
        0
    } else {
        open_table_count_in(nodes.drop_last()) + open_table_count(nodes.last())
    }
}

/// Whether no table of the tree holds another table.
pub open spec fn tables_are_flat(n: NodeView) -> bool
    decreases n,
{
    if n.kind is Table {
        table_count_in(n.children) == 0
    } else {
        all_tables_flat(n.children)
    }
}

/// Whether no table in the list of trees holds another table.
pub open spec fn all_tables_flat(nodes: Seq<NodeView>) -> bool
    decreases nodes,
{
    nodes.len() == 0 || (all_tables_flat(nodes.drop_last()) && tables_are_flat(nodes.last()))
}

/// Whether every wrapper in the tree holds one child, a table, and nothing
/// else.
pub open spec fn wrappers_hold_one_table(n: NodeView) -> bool
    decreases n,
{
    &&& n.kind is TableWrapper ==> n.children.len() == 1 && n.children[0].kind is Table
    &&& all_wrappers_hold_one_table(n.children)
}

/// Whether every wrapper in the list of trees holds one table and nothing
/// else.
pub open spec fn all_wrappers_hold_one_table(nodes: Seq<NodeView>) -> bool
    decreases nodes,
{
    nodes.len() == 0 || (all_wrappers_hold_one_table(nodes.drop_last())
        && wrappers_hold_one_table(nodes.last()))
}

proof fn lemma_wrapper_count_one(n: NodeView)
    ensures
        wrapper_count_in(seq![n]) == wrapper_count(n),
{
    assert(seq![n].drop_last() =~= Seq::<NodeView>::empty());
    assert(wrapper_count_in(seq![n].drop_last()) == 0);
}

/// Wrapping adds one wrapper for every table that it reaches, and no other.
pub proof fn lemma_wrap_adds_one_per_table(n: NodeView)
    ensures
        wrapper_count(wrapped(n)) == wrapper_count(n) + open_table_count(n),
    decreases n,
{
    match n.kind {
        NodeKindView::Table => {
            lemma_wrapper_count_one(n);
        },
        NodeKindView::TableWrapper => {},
        _ => {
            lemma_wrap_all_adds_one_per_table(n.children);
        },
    }
}

/// Wrapping a list adds one wrapper for every table that it reaches.
pub proof fn lemma_wrap_all_adds_one_per_table(nodes: Seq<NodeView>)
    ensures
        wrapper_count_in(wrapped_all(nodes)) == wrapper_count_in(nodes) + open_table_count_in(
            nodes,
        ),
    decreases nodes,
{
    if nodes.len() > 0 {
        lemma_wrap_all_adds_one_per_table(nodes.drop_last());
        lemma_wrap_adds_one_per_table(nodes.last());
        let once = wrapped_all(nodes);
        assert(once.drop_last() =~= wrapped_all(nodes.drop_last()));
        assert(once.last() == wrapped(nodes.last()));
    }
}

/// In a tree without wrappers in which no table holds a table, wrapping
/// reaches every table.
pub proof fn lemma_open_tables_are_all(n: NodeView)
    requires
        wrapper_count(n) == 0,
        tables_are_flat(n),
    ensures
        open_table_count(n) == table_count(n),
    decreases n,
{
    if !(n.kind is Table) {
        lemma_open_tables_are_all_in(n.children);
    }
}

/// In a list of trees without wrappers in which no table holds a table,
/// wrapping reaches every table.
pub proof fn lemma_open_tables_are_all_in(nodes: Seq<NodeView>)
    requires
        wrapper_count_in(nodes) == 0,
        all_tables_flat(nodes),
    ensures
        open_table_count_in(nodes) == table_count_in(nodes),
    decreases nodes,
{
    if nodes.len() > 0 {
        assert(wrapper_count(nodes.last()) == 0);
        lemma_open_tables_are_all_in(nodes.drop_last());
        lemma_open_tables_are_all(nodes.last());
    }
}

/// A document as a parser gives it, with `n` tables, none in a wrapper and
/// none in another table, has `n` wrappers once it is wrapped, and each of
/// them holds one table and nothing else.
pub proof fn lemma_each_table_gets_its_wrapper(n: NodeView)
    requires
        wrapper_count(n) == 0,
        tables_are_flat(n),
    ensures
        wrapper_count(wrapped(n)) == table_count(n),
        wrappers_hold_one_table(wrapped(n)),
    decreases n,
{
    lemma_wrap_adds_one_per_table(n);
    lemma_open_tables_are_all(n);
    lemma_wrapped_wrappers_hold_one_table(n);
}

proof fn lemma_no_wrappers_hold(n: NodeView)
    requires
        wrapper_count(n) == 0,
    ensures
        wrappers_hold_one_table(n),
    decreases n,
{
    lemma_no_wrappers_hold_in(n.children);
}

proof fn lemma_no_wrappers_hold_in(nodes: Seq<NodeView>)
    requires
        wrapper_count_in(nodes) == 0,
    ensures
        all_wrappers_hold_one_table(nodes),
    decreases nodes,
{
    if nodes.len() > 0 {
        assert(wrapper_count(nodes.last()) == 0);
        lemma_no_wrappers_hold_in(nodes.drop_last());
        lemma_no_wrappers_hold(nodes.last());
    }
}

/// Once a tree without wrappers is wrapped, every wrapper in it holds one
/// table and nothing else.
pub proof fn lemma_wrapped_wrappers_hold_one_table(n: NodeView)
    requires
        wrapper_count(n) == 0,
    ensures
        wrappers_hold_one_table(wrapped(n)),
    decreases n,
{
    match n.kind {
        NodeKindView::Table => {
            lemma_no_wrappers_hold(n);
            let w = wrapped(n);
            assert(w.children.drop_last() =~= Seq::<NodeView>::empty());
            assert(all_wrappers_hold_one_table(w.children.drop_last()));
            assert(w.children.last() == n);
            assert(all_wrappers_hold_one_table(w.children));
        },
        NodeKindView::TableWrapper => {},
        _ => {
            lemma_wrapped_all_wrappers_hold_one_table(n.children);
        },
    }
}

proof fn lemma_wrapped_all_wrappers_hold_one_table(nodes: Seq<NodeView>)
    requires
        wrapper_count_in(nodes) == 0,
    ensures
        all_wrappers_hold_one_table(wrapped_all(nodes)),
    decreases nodes,
{
    if nodes.len() > 0 {
        assert(wrapper_count(nodes.last()) == 0);
        lemma_wrapped_all_wrappers_hold_one_table(nodes.drop_last());
        lemma_wrapped_wrappers_hold_one_table(nodes.last());
        let once = wrapped_all(nodes);
        assert(once.drop_last() =~= wrapped_all(nodes.drop_last()));
        assert(once.last() == wrapped(nodes.last()));
    }
}

/// Puts a wrapper around every table of the document.
pub fn wrap_tables(doc: &Node) -> (r: Node)
    ensures
        r@ == wrapped(doc@),
    decreases doc,
{
    proof {
        lemma_model_children(*doc);
    }
    match &doc.kind {
        NodeKind::Table => {
            let mut children: Vec<Node> = Vec::new();
            let table = clone_node(doc);
            children.push(table);
            let r = Node { kind: NodeKind::TableWrapper, origin: None, children };
            proof {
                lemma_model_children(r);
                assert(models(r.children@) =~= seq![doc@]);
            }
            r
        },
        NodeKind::TableWrapper => clone_node(doc),
        _ => {
            let mut children: Vec<Node> = Vec::new();
            let mut i: usize = 0;
            while i < doc.children.len()
                invariant
                    i <= doc.children.len(),
                    models(children@) == wrapped_all(models(doc.children@).take(i as int)),
                decreases doc.children.len() - i,
            {
                let child = wrap_tables(&doc.children[i]);
                proof {
                    lemma_models_push(children@, child);
                    let upto = models(doc.children@).take(i as int + 1);
                    assert(upto.drop_last() =~= models(doc.children@).take(i as int));
                    assert(upto.last() == model(doc.children@[i as int]));
                }
                children.push(child);
                i = i + 1;
            }
            let r = Node { kind: clone_kind(&doc.kind), origin: doc.origin, children };
            proof {
                lemma_model_children(r);
                assert(models(doc.children@).take(i as int) =~= models(doc.children@));
            }
            r
        },
    }
}

} // verus!
