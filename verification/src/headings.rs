//! Titles, heading ids and the table of contents.
//!
//! The id of a heading is its text in lower case with every character that
//! is no ASCII letter or digit turned into `-`. Where an earlier heading of
//! the document already has that id, `-1`, `-2`, ... is put behind it, the
//! least number that gives an id not yet taken. The renderer and the table of
//! contents both draw their ids from `HeadingIds`, heading by heading in
//! document order, so they agree.

use crate::document::{
    all_well_formed, headings, headings_in, lemma_model_children, model, models, text_content,
    text_of_node, well_formed, Heading, Node, NodeKind, NodeKindView, NodeView,
};
use crate::error::ContentError;
use crate::highlight::{escaped, push_escaped};
use crate::text::{chars_of, extend, same_chars, string_of, string_views, views};
use vstd::prelude::*;

verus! {

/// What a character becomes in an id.
pub open spec fn slug_char(c: char) -> char {
    if 'A' <= c <= 'Z' {
        ((c as u8 + 32) as u8) as char
    } else if 'a' <= c <= 'z' || '0' <= c <= '9' {
        c
    } else {
        '-'
    }
}

/// The id that a text asks for.
pub open spec fn slug(text: Seq<char>) -> Seq<char> {
    Seq::new(text.len(), |i: int| slug_char(text[i]))
}

/// The character of a decimal digit.
pub open spec fn digit(d: nat) -> char {
    ((48 + d % 10) as u8) as char
}

/// A number in decimal, without leading zeros.
pub open spec fn decimal(k: nat) -> Seq<char>
    decreases k,
{
    if k < 10 {
        seq![digit(k)]
    } else {
        decimal(k / 10).push(digit(k % 10))
    }
}

/// The number that a run of decimal digits stands for.
pub open spec fn decimal_value(s: Seq<char>) -> nat
    decreases s.len(),
{
    if s.len() == 0 {
        0
    } else {
        (decimal_value(s.drop_last()) * 10 + (s.last() as u8 - 48)) as nat
    }
}

/// The `k`-th id tried for a text whose slug is `base`.
pub open spec fn candidate(base: Seq<char>, k: nat) -> Seq<char> {
    if k == 0 {
        base
    } else {
        base + seq!['-'] + decimal(k)
    }
}

/// The least number from `k` on whose candidate is not among `used`.
pub open spec fn first_free(base: Seq<char>, used: Seq<Seq<char>>, k: nat) -> nat
    decreases used.len() + 1 - k,
{
    if k > used.len() || !used.contains(candidate(base, k)) {
        k
    } else {
        first_free(base, used, k + 1)
    }
}

/// The id given to a text whose slug is `base` when the ids `used` are taken.
pub open spec fn unique(base: Seq<char>, used: Seq<Seq<char>>) -> Seq<char> {
    candidate(base, first_free(base, used, 0))
}

/// One entry of a table of contents.
#[derive(Debug, PartialEq, Eq)]
pub struct TocLink {
    pub text: String,
    pub id: String,
    pub level: u8,
}

pub struct TocLinkView {
    pub text: Seq<char>,
    pub id: Seq<char>,
    pub level: u8,
}

impl View for TocLink {
    type V = TocLinkView;

    open spec fn view(&self) -> TocLinkView {
        TocLinkView { text: self.text@, id: self.id@, level: self.level }
    }
}

/// The views of a list of entries.
pub open spec fn toc_views(links: Seq<TocLink>) -> Seq<TocLinkView> {
    Seq::new(links.len(), |i: int| links[i]@)
}

/// The ids of a list of entries.
pub open spec fn ids_of(links: Seq<TocLinkView>) -> Seq<Seq<char>> {
    Seq::new(links.len(), |i: int| links[i].id)
}

/// The table of contents for a run of headings: one entry for each, in
/// order, each with the id that is free after those before it.
pub open spec fn toc_from(hs: Seq<Heading>) -> Seq<TocLinkView>
    decreases hs.len(),
{
    if hs.len() == 0 {
        Seq::empty()
    } else {
        let before = toc_from(hs.drop_last());
        before.push(
            TocLinkView {
                text: hs.last().text,
                id: unique(slug(hs.last().text), ids_of(before)),
                level: hs.last().level,
            },
        )
    }
}

/// The ids that a run of headings with the given texts gets from
/// `HeadingIds`, asked heading by heading.
pub open spec fn assigned(texts: Seq<Seq<char>>) -> Seq<Seq<char>>
    decreases texts.len(),
{
    if texts.len() == 0 {
        Seq::empty()
    } else {
        let before = assigned(texts.drop_last());
        before.push(unique(slug(texts.last()), before))
    }
}

/// The texts of a run of headings.
pub open spec fn texts_of(hs: Seq<Heading>) -> Seq<Seq<char>> {
    Seq::new(hs.len(), |i: int| hs[i].text)
}

/// The tag that opens a heading of the given level with the given id.
pub open spec fn heading_opening(level: u8, id: Seq<char>) -> Seq<char> {
    "<h"@ + decimal(level as nat) + " id=\""@ + escaped(id) + "\">"@
}

/// The tag that closes a heading of the given level.
pub open spec fn heading_closing(level: u8) -> Seq<char> {
    "</h"@ + decimal(level as nat) + ">"@
}

/// The table of contents of a document.
pub open spec fn toc_of(doc: NodeView) -> Seq<TocLinkView> {
    toc_from(headings(doc))
}

/// The index of the first heading in a list of nodes, from `from` on.
pub open spec fn first_heading(nodes: Seq<NodeView>, from: int) -> Option<int>
    decreases nodes.len() - from,
{
    if from < 0 || from >= nodes.len() {
        None
    } else if nodes[from].kind is Heading {
        Some(from)
    } else {
        first_heading(nodes, from + 1)
    }
}

/// The title of a document: the text of the first heading among the
/// children of its root.
pub open spec fn title_of(doc: NodeView) -> Option<Seq<char>> {
    match first_heading(doc.children, 0) {
        Some(i) => Some(text_content(doc.children[i])),
        None => None,
    }
}

fn slug_of_char(c: char) -> (r: char)
    ensures
        r == slug_char(c),
{
    if 'A' <= c && c <= 'Z' {
        ((c as u8) + 32) as char
    } else if ('a' <= c && c <= 'z') || ('0' <= c && c <= '9') {
        c
    } else {
        '-'
    }
}

/// The id that a text asks for.
pub fn slug_of(text: &Vec<char>) -> (r: Vec<char>)
    ensures
        r@ == slug(text@),
{
    let mut r: Vec<char> = Vec::new();
    let mut i: usize = 0;
    while i < text.len()
        invariant
            i <= text.len(),
            r@ == slug(text@.take(i as int)),
        decreases text.len() - i,
    {
        r.push(slug_of_char(text[i]));
        assert(r@ =~= slug(text@.take(i as int + 1)));
        i = i + 1;
    }
    assert(text@.take(i as int) =~= text@);
    r
}

fn push_decimal(k: u128, out: &mut Vec<char>)
    ensures
        final(out)@ == old(out)@ + decimal(k as nat),
    decreases k,
{
    if k >= 10 {
        push_decimal(k / 10, out);
    }
    let d: u8 = (k % 10) as u8;
    out.push((48 + d) as char);
    assert(out@ =~= old(out)@ + decimal(k as nat));
}

fn candidate_of(base: &Vec<char>, k: u128) -> (r: Vec<char>)
    ensures
        r@ == candidate(base@, k as nat),
{
    let mut r: Vec<char> = Vec::new();
    extend(&mut r, base);
    if k > 0 {
        r.push('-');
        push_decimal(k, &mut r);
    }
    assert(r@ =~= candidate(base@, k as nat));
    r
}

fn is_taken(used: &Vec<Vec<char>>, id: &Vec<char>) -> (r: bool)
    ensures
        r == views(used@).contains(id@),
{
    let mut i: usize = 0;
    while i < used.len()
        invariant
            i <= used.len(),
            forall|j: int| 0 <= j < i ==> views(used@)[j] != id@,
        decreases used.len() - i,
    {
        if same_chars(&used[i], id) {
            assert(views(used@)[i as int] == id@);
            return true;
        }
        i = i + 1;
    }
    false
}

/// The ids given out so far within one document.
pub struct HeadingIds {
    pub used: Vec<Vec<char>>,
}

impl View for HeadingIds {
    type V = Seq<Seq<char>>;

    open spec fn view(&self) -> Seq<Seq<char>> {
        views(self.used@)
    }
}

impl HeadingIds {
    /// No id given out yet.
    pub fn new() -> (r: HeadingIds)
        ensures
            r@ == Seq::<Seq<char>>::empty(),
    {
        let r = HeadingIds { used: Vec::new() };
        assert(r@ =~= Seq::<Seq<char>>::empty());
        r
    }

    fn assign_chars(&mut self, text: &Vec<char>) -> (id: Vec<char>)
        ensures
            id@ == unique(slug(text@), old(self)@),
            final(self)@ == old(self)@.push(id@),
    {
        let base = slug_of(text);
        let limit: u128 = self.used.len() as u128;
        let mut k: u128 = 0;
        let mut id = candidate_of(&base, 0);
        while k <= limit && is_taken(&self.used, &id)
            invariant
                self.used == old(self).used,
                limit == self.used.len(),
                k <= limit + 1,
                id@ == candidate(base@, k as nat),
                first_free(base@, self@, 0) == first_free(base@, self@, k as nat),
            decreases limit + 1 - k,
        {
            k = k + 1;
            id = candidate_of(&base, k);
        }
        let mut copy: Vec<char> = Vec::new();
        extend(&mut copy, &id);
        self.used.push(copy);
        assert(self@ =~= old(self)@.push(id@));
        id
    }

    /// Gives the next heading, whose text is `text`, its id and marks the id
    /// as taken.
    pub fn assign(&mut self, text: &str) -> (id: String)
        ensures
            id@ == unique(slug(text@), old(self)@),
            final(self)@ == old(self)@.push(id@),
    {
        let chars = chars_of(text);
        let id = self.assign_chars(&chars);
        string_of(&id)
    }
}

/// The ids for a run of headings with the given texts, in their order.
pub fn ids_for(texts: &Vec<String>) -> (ids: Vec<String>)
    ensures
        string_views(ids@) == assigned(string_views(texts@)),
{
    let mut given = HeadingIds::new();
    let mut ids: Vec<String> = Vec::new();
    let mut i: usize = 0;
    assert(string_views(texts@).take(0) =~= Seq::<Seq<char>>::empty());
    assert(string_views(ids@) =~= Seq::<Seq<char>>::empty());
    while i < texts.len()
        invariant
            i <= texts.len(),
            given@ == string_views(ids@),
            string_views(ids@) == assigned(string_views(texts@).take(i as int)),
        decreases texts.len() - i,
    {
        proof {
            let upto = string_views(texts@).take(i as int + 1);
            assert(upto.drop_last() =~= string_views(texts@).take(i as int));
            assert(upto.last() == texts@[i as int]@);
        }
        let ghost before = string_views(ids@);
        let id = given.assign(texts[i].as_str());
        ids.push(id);
        assert(string_views(ids@) =~= before.push(id@));
        i = i + 1;
    }
    assert(string_views(texts@).take(i as int) =~= string_views(texts@));
    ids
}

/// The tag that opens a heading: `<h2 id="set-up">` for level 2 and the id
/// `set-up`.
pub fn heading_open(level: u8, id: &str) -> (r: String)
    ensures
        r@ == heading_opening(level, id@),
{
    let mut tag = chars_of("<h");
    push_decimal(level as u128, &mut tag);
    let middle = chars_of(" id=\"");
    extend(&mut tag, &middle);
    let chars = chars_of(id);
    push_escaped(&chars, 0, chars.len(), &mut tag);
    assert(chars@.subrange(0, chars.len() as int) =~= chars@);
    let end = chars_of("\">");
    extend(&mut tag, &end);
    string_of(&tag)
}

/// The tag that closes a heading: `</h2>` for level 2.
pub fn heading_close(level: u8) -> (r: String)
    ensures
        r@ == heading_closing(level),
{
    let mut tag = chars_of("</h");
    push_decimal(level as u128, &mut tag);
    let end = chars_of(">");
    extend(&mut tag, &end);
    string_of(&tag)
}

/// The title of a document: the text of the first heading among the
/// children of its root, or `MissingTitle` where none of them is a heading.
pub fn get_title(doc: &Node) -> (r: Result<String, ContentError>)
    ensures
        match r {
            Ok(title) => title_of(doc@) == Some(title@),
            Err(e) => title_of(doc@) is None && e == ContentError::MissingTitle,
        },
{
    proof {
        lemma_model_children(*doc);
    }
    let mut i: usize = 0;
    while i < doc.children.len()
        invariant
            i <= doc.children.len(),
            doc@.children == models(doc.children@),
            first_heading(doc@.children, 0) == first_heading(doc@.children, i as int),
        decreases doc.children.len() - i,
    {
        proof {
            lemma_model_children(doc.children@[i as int]);
        }
        match &doc.children[i].kind {
            NodeKind::Heading { .. } => {
                let text = text_of_node(&doc.children[i]);
                return Ok(string_of(&text));
            },
            _ => {},
        }
        i = i + 1;
    }
    Err(ContentError::MissingTitle)
}

struct Found {
    level: u8,
    text: Vec<char>,
}

spec fn found_views(found: Seq<Found>) -> Seq<Heading> {
    Seq::new(found.len(), |i: int| Heading { level: found[i].level, text: found[i].text@ })
}

fn collect_headings(n: &Node, out: &mut Vec<Found>)
    ensures
        found_views(final(out)@) == found_views(old(out)@) + headings(n@),
    decreases n,
{
    proof {
        lemma_model_children(*n);
    }
    match &n.kind {
        NodeKind::Heading { level } => {
            let text = text_of_node(n);
            out.push(Found { level: *level, text });
        },
        _ => {},
    }
    let ghost start = found_views(out@);
    assert(start =~= found_views(old(out)@) + (match n@.kind {
        NodeKindView::Heading { level } => seq![Heading { level, text: text_content(n@) }],
        _ => Seq::empty(),
    }));
    let mut i: usize = 0;
    while i < n.children.len()
        invariant
            i <= n.children.len(),
            found_views(out@) == start + headings_in(models(n.children@).take(i as int)),
        decreases n.children.len() - i,
    {
        proof {
            let upto = models(n.children@).take(i as int + 1);
            assert(upto.drop_last() =~= models(n.children@).take(i as int));
            assert(upto.last() == model(n.children@[i as int]));
        }
        collect_headings(&n.children[i], out);
        assert(found_views(out@) =~= start + headings_in(models(n.children@).take(i as int + 1)));
        i = i + 1;
    }
    assert(models(n.children@).take(i as int) =~= models(n.children@));
    assert(found_views(out@) =~= found_views(old(out)@) + headings(n@));
}

/// The table of contents of a document: an entry for every heading, in
/// document order, with its text, its level and its id.
pub fn get_toc(doc: &Node) -> (links: Vec<TocLink>)
    ensures
        toc_views(links@) == toc_of(doc@),
        well_formed(doc@) ==> forall|i: int|
            0 <= i < links@.len() ==> 1 <= (#[trigger] links@[i]).level <= 6,
{
    let mut found: Vec<Found> = Vec::new();
    collect_headings(doc, &mut found);
    assert(found_views(found@) =~= headings(doc@));
    let mut ids = HeadingIds::new();
    let mut links: Vec<TocLink> = Vec::new();
    let mut i: usize = 0;
    while i < found.len()
        invariant
            i <= found.len(),
            found_views(found@) == headings(doc@),
            toc_views(links@) == toc_from(headings(doc@).take(i as int)),
            ids@ == ids_of(toc_views(links@)),
        decreases found.len() - i,
    {
        proof {
            let upto = headings(doc@).take(i as int + 1);
            assert(upto.drop_last() =~= headings(doc@).take(i as int));
            assert(upto.last() == found_views(found@)[i as int]);
        }
        let ghost before = toc_views(links@);
        let id = ids.assign_chars(&found[i].text);
        let link = TocLink {
            text: string_of(&found[i].text),
            id: string_of(&id),
            level: found[i].level,
        };
        links.push(link);
        assert(toc_views(links@) =~= before.push(link@));
        assert(ids@ =~= ids_of(toc_views(links@)));
        i = i + 1;
    }
    assert(headings(doc@).take(i as int) =~= headings(doc@));
    proof {
        if well_formed(doc@) {
            lemma_toc_levels(doc@);
            assert forall|i: int| 0 <= i < links@.len() implies 1 <= (#[trigger] links@[i]).level
                <= 6 by {
                assert(toc_views(links@)[i] == links@[i]@);
                assert(toc_of(doc@)[i].level == links@[i].level);
            }
        }
    }
    links
}

/// Reading a number's decimal form gives the number back.
pub proof fn lemma_decimal_value(k: nat)
    ensures
        decimal_value(decimal(k)) == k,
        decimal(k).len() >= 1,
    decreases k,
{
    if k < 10 {
        assert(decimal(k).drop_last() =~= Seq::<char>::empty());
        assert(decimal_value(decimal(k).drop_last()) == 0);
    } else {
        lemma_decimal_value(k / 10);
        assert(decimal(k).drop_last() =~= decimal(k / 10));
    }
}

/// Two numbers whose candidates are the same id are the same number.
pub proof fn lemma_candidate_injective(base: Seq<char>, a: nat, b: nat)
    requires
        candidate(base, a) == candidate(base, b),
    ensures
        a == b,
{
    lemma_decimal_value(a);
    lemma_decimal_value(b);
    if a != 0 && b != 0 {
        let n = base.len() as int + 1;
        let ca = candidate(base, a);
        let cb = candidate(base, b);
        assert(ca.subrange(n, ca.len() as int) =~= decimal(a));
        assert(cb.subrange(n, cb.len() as int) =~= decimal(b));
    } else if a != 0 {
        assert(candidate(base, a).len() > base.len());
    } else if b != 0 {
        assert(candidate(base, b).len() > base.len());
    }
}

/// A list that holds the first `n` candidates of a base has at least `n`
/// entries.
pub proof fn lemma_candidates_need_room(base: Seq<char>, used: Seq<Seq<char>>, n: nat)
    requires
        forall|j: nat| j < n ==> used.contains(#[trigger] candidate(base, j)),
    ensures
        n <= used.len(),
    decreases n,
{
    if n > 0 {
        let last = candidate(base, (n - 1) as nat);
        assert(used.contains(last));
        let at = choose|i: int| 0 <= i < used.len() && used[i] == last;
        let rest = used.remove(at);
        assert forall|j: nat| j < n - 1 implies rest.contains(#[trigger] candidate(base, j)) by {
            let c = candidate(base, j);
            assert(used.contains(c));
            let m = choose|i: int| 0 <= i < used.len() && used[i] == c;
            if m == at {
                lemma_candidate_injective(base, j, (n - 1) as nat);
            } else if m < at {
                assert(rest[m] == c);
            } else {
                assert(rest[m - 1] == c);
            }
        }
        lemma_candidates_need_room(base, rest, (n - 1) as nat);
    }
}

proof fn lemma_first_free(base: Seq<char>, used: Seq<Seq<char>>, k: nat)
    ensures
        k <= first_free(base, used, k),
        forall|j: nat|
            k <= j < first_free(base, used, k) ==> used.contains(#[trigger] candidate(base, j)),
        first_free(base, used, k) > used.len() || !used.contains(
            candidate(base, first_free(base, used, k)),
        ),
    decreases used.len() + 1 - k,
{
    if !(k > used.len() || !used.contains(candidate(base, k))) {
        lemma_first_free(base, used, k + 1);
    }
}

/// The id given to a heading is none of those already taken.
pub proof fn lemma_unique_is_fresh(base: Seq<char>, used: Seq<Seq<char>>)
    ensures
        !used.contains(unique(base, used)),
        exists|k: nat| unique(base, used) == candidate(base, k),
{
    let r = first_free(base, used, 0);
    lemma_first_free(base, used, 0);
    if r > used.len() {
        lemma_candidates_need_room(base, used, r);
    }
}

/// A table of contents has one entry for each heading, with the heading's
/// text and level and an id made from the text, and no two entries share an
/// id.
pub proof fn lemma_toc_entries(hs: Seq<Heading>)
    ensures
        toc_from(hs).len() == hs.len(),
        forall|i: int|
            0 <= i < hs.len() ==> (#[trigger] toc_from(hs)[i]).text == hs[i].text && toc_from(
                hs,
            )[i].level == hs[i].level && exists|k: nat|
                toc_from(hs)[i].id == candidate(slug(hs[i].text), k),
        forall|i: int, j: int|
            0 <= i < j < hs.len() ==> (#[trigger] toc_from(hs)[i]).id != (#[trigger] toc_from(
                hs,
            )[j]).id,
    decreases hs.len(),
{
    if hs.len() > 0 {
        let before = toc_from(hs.drop_last());
        lemma_toc_entries(hs.drop_last());
        lemma_unique_is_fresh(slug(hs.last().text), ids_of(before));
        let toc = toc_from(hs);
        let last = hs.len() - 1;
        assert forall|i: int, j: int| 0 <= i < j < hs.len() implies (#[trigger] toc[i]).id != (
        #[trigger] toc[j]).id by {
            if j == last {
                assert(ids_of(before)[i] == toc[i].id);
            } else {
                assert(toc[i] == before[i] && toc[j] == before[j]);
            }
        }
        assert forall|i: int| 0 <= i < hs.len() implies (#[trigger] toc[i]).text == hs[i].text
            && toc[i].level == hs[i].level && exists|k: nat|
            toc[i].id == candidate(slug(hs[i].text), k) by {
            if i < last {
                assert(toc[i] == before[i]);
                assert(hs[i] == hs.drop_last()[i]);
            }
        }
    }
}

/// The ids of a table of contents are the ids that `HeadingIds` gives when
/// it is asked for the same headings in the same order.
pub proof fn lemma_toc_ids_are_assigned(hs: Seq<Heading>)
    ensures
        ids_of(toc_from(hs)) == assigned(texts_of(hs)),
    decreases hs.len(),
{
    if hs.len() > 0 {
        lemma_toc_ids_are_assigned(hs.drop_last());
        assert(texts_of(hs).drop_last() =~= texts_of(hs.drop_last()));
        assert(ids_of(toc_from(hs)) =~= ids_of(toc_from(hs.drop_last())).push(
            toc_from(hs).last().id,
        ));
    } else {
        assert(ids_of(toc_from(hs)) =~= Seq::<Seq<char>>::empty());
    }
}

proof fn lemma_headings_in_holds(nodes: Seq<NodeView>, i: int)
    requires
        0 <= i < nodes.len(),
    ensures
        headings_in(nodes).len() >= headings(nodes[i]).len(),
    decreases nodes.len(),
{
    if i < nodes.len() - 1 {
        lemma_headings_in_holds(nodes.drop_last(), i);
    }
}

proof fn lemma_first_heading(nodes: Seq<NodeView>, from: int)
    requires
        0 <= from,
    ensures
        match first_heading(nodes, from) {
            Some(i) => from <= i < nodes.len() && nodes[i].kind is Heading,
            None => true,
        },
    decreases nodes.len() - from,
{
    if from < nodes.len() && !(nodes[from].kind is Heading) {
        lemma_first_heading(nodes, from + 1);
    }
}

/// A document without any heading has no title.
pub proof fn lemma_no_heading_no_title(doc: NodeView)
    requires
        headings(doc).len() == 0,
    ensures
        title_of(doc) is None,
{
    lemma_first_heading(doc.children, 0);
    match first_heading(doc.children, 0) {
        Some(i) => {
            lemma_headings_in_holds(doc.children, i);
            assert(headings(doc.children[i]).len() >= 1);
        },
        None => {},
    }
}

proof fn lemma_heading_levels(n: NodeView)
    requires
        well_formed(n),
    ensures
        forall|i: int| 0 <= i < headings(n).len() ==> 1 <= (#[trigger] headings(n)[i]).level <= 6,
    decreases n,
{
    lemma_heading_levels_in(n.children);
    let below = headings_in(n.children);
    assert forall|i: int| 0 <= i < headings(n).len() implies 1 <= (#[trigger] headings(
        n,
    )[i]).level <= 6 by {
        if n.kind is Heading {
            if i > 0 {
                assert(headings(n)[i] == below[i - 1]);
            }
        } else {
            assert(headings(n)[i] == below[i]);
        }
    }
}

proof fn lemma_heading_levels_in(nodes: Seq<NodeView>)
    requires
        all_well_formed(nodes),
    ensures
        forall|i: int|
            0 <= i < headings_in(nodes).len() ==> 1 <= (#[trigger] headings_in(nodes)[i]).level
                <= 6,
    decreases nodes,
{
    if nodes.len() > 0 {
        lemma_heading_levels_in(nodes.drop_last());
        lemma_heading_levels(nodes.last());
        let before = headings_in(nodes.drop_last());
        let last = headings(nodes.last());
        assert forall|i: int| 0 <= i < headings_in(nodes).len() implies 1 <= (
        #[trigger] headings_in(nodes)[i]).level <= 6 by {
            if i < before.len() {
                assert(headings_in(nodes)[i] == before[i]);
            } else {
                assert(headings_in(nodes)[i] == last[i - before.len()]);
            }
        }
    }
}

/// The table of contents of a well-formed document has no level outside 1
/// to 6.
pub proof fn lemma_toc_levels(doc: NodeView)
    requires
        well_formed(doc),
    ensures
        forall|i: int| 0 <= i < toc_of(doc).len() ==> 1 <= (#[trigger] toc_of(doc)[i]).level <= 6,
{
    lemma_heading_levels(doc);
    lemma_toc_entries(headings(doc));
}

} // verus!
