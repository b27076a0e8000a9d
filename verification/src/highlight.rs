//! Syntax highlighting of fenced code.
//!
//! Code in a recognised language is scanned from left to right. Where a
//! keyword of the language stands as a whole word, it is put between the two
//! highlight markers and the scan goes on behind it; any other character is
//! written out escaped. Code in any other language, or in none, is escaped
//! and nothing else.

use crate::text::{
    chars_of, extend, first_occurrence, is_word, occurs, occurs_at, string_of, views,
};
use vstd::prelude::*;

verus! {

/// The languages whose keywords are known.
#[derive(Clone, Copy, PartialEq, Eq, Structural, Debug)]
pub enum Language {
    Sql,
    Shell,
}

/// What stands before a highlighted token.
pub open spec fn marker_open() -> Seq<char> {
    "<span class=\"syntax-highlight\">"@
}

/// What stands behind a highlighted token.
pub open spec fn marker_close() -> Seq<char> {
    "</span>"@
}

/// A character as it is written into HTML.
pub open spec fn escaped_char(c: char) -> Seq<char> {
    if c == '&' {
        seq!['&', 'a', 'm', 'p', ';']
    } else if c == '<' {
        seq!['&', 'l', 't', ';']
    } else if c == '>' {
        seq!['&', 'g', 't', ';']
    } else if c == '"' {
        seq!['&', 'q', 'u', 'o', 't', ';']
    } else {
        seq![c]
    }
}

/// A text as it is written into HTML.
pub open spec fn escaped(text: Seq<char>) -> Seq<char>
    decreases text.len(),
{
    if text.len() == 0 {
        Seq::empty()
    } else {
        escaped(text.drop_last()) + escaped_char(text.last())
    }
}

/// The language that a fence's tag names, if it is a known one.
pub open spec fn language_of(tag: Seq<char>) -> Option<Language> {
    if tag == "sql"@ || tag == "postgresql"@ || tag == "postgres"@ {
        Some(Language::Sql)
    } else if tag == "bash"@ || tag == "sh"@ {
        Some(Language::Shell)
    } else {
        None
    }
}

/// The keywords of a language. Where one keyword starts with another, the
/// longer one comes first.
pub open spec fn keywords(lang: Language) -> Seq<Seq<char>> {
    match lang {
        Language::Sql => seq![
            "CREATE TABLE"@,
            "CREATE INDEX"@,
            "PRIMARY KEY"@,
            "INSERT INTO"@,
            "DELETE FROM"@,
            "ORDER BY"@,
            "GROUP BY"@,
            "SELECT"@,
            "INSERT"@,
            "UPDATE"@,
            "DELETE"@,
            "VALUES"@,
            "CREATE"@,
            "WHERE"@,
            "LIMIT"@,
            "TABLE"@,
            "INDEX"@,
            "FROM"@,
            "JOIN"@,
            "NULL"@,
            "DROP"@,
            "AND"@,
            "NOT"@,
            "SET"@,
            "AS"@,
            "ON"@,
            "OR"@,
            "IN"@,
        ],
        Language::Shell => seq!["export"@, "sudo"@, "echo"@, "cd"@],
    }
}

/// Whether a character can be part of a word.
pub open spec fn word_char(c: char) -> bool {
    'a' <= c <= 'z' || 'A' <= c <= 'Z' || '0' <= c <= '9' || c == '_'
}

/// Whether `word` stands in `code` at `p` as a whole word: it is not empty,
/// and no word character touches it on either side.
pub open spec fn token_at(code: Seq<char>, p: int, word: Seq<char>) -> bool {
    &&& word.len() > 0
    &&& occurs_at(code, word, p)
    &&& (p == 0 || !word_char(code[p - 1]))
    &&& (p + word.len() == code.len() || !word_char(code[p + word.len()]))
}

/// The index of the first keyword, from index `i` of the list on, that
/// stands in `code` at `p` as a whole word.
pub open spec fn keyword_at(code: Seq<char>, p: int, words: Seq<Seq<char>>, i: int) -> Option<int>
    decreases words.len() - i,
{
    if i < 0 || i >= words.len() {
        None
    } else if token_at(code, p, words[i]) {
        Some(i)
    } else {
        keyword_at(code, p, words, i + 1)
    }
}

/// The length of the token that the scan takes at `p`: that of the keyword
/// found there, or 0 where there is none.
pub open spec fn token_len(code: Seq<char>, words: Seq<Seq<char>>, p: int) -> int {
    match keyword_at(code, p, words, 0) {
        Some(i) if 0 <= i < words.len() && words[i].len() > 0 && p + words[i].len() <= code.len() => {
            words[i].len() as int
        },
        _ => 0,
    }
}

/// What the scan writes for the position `p`: the keyword found there
/// between the markers, or the character there, escaped.
pub open spec fn piece_at(code: Seq<char>, words: Seq<Seq<char>>, p: int) -> Seq<char> {
    if token_len(code, words, p) > 0 {
        marker_open() + escaped(code.subrange(p, p + token_len(code, words, p))) + marker_close()
    } else {
        escaped_char(code[p])
    }
}

/// The position at which the scan goes on after `p`.
pub open spec fn next_point(code: Seq<char>, words: Seq<Seq<char>>, p: int) -> int {
    if token_len(code, words, p) > 0 {
        p + token_len(code, words, p)
    } else {
        p + 1
    }
}

/// What the scan writes from `p` to the end of the code.
pub open spec fn highlighted_from(code: Seq<char>, words: Seq<Seq<char>>, p: int) -> Seq<char>
    decreases code.len() - p,
{
    if p < 0 || p >= code.len() {
        Seq::empty()
    } else {
        piece_at(code, words, p) + highlighted_from(code, words, next_point(code, words, p))
    }
}

/// What the scan writes from `from` up to `p`, where it comes by `p`.
pub open spec fn highlighted_between(
    code: Seq<char>,
    words: Seq<Seq<char>>,
    from: int,
    p: int,
) -> Seq<char>
    decreases code.len() - from,
{
    if from < 0 || from >= code.len() || from >= p {
        Seq::empty()
    } else {
        piece_at(code, words, from) + highlighted_between(
            code,
            words,
            next_point(code, words, from),
            p,
        )
    }
}

/// Whether the scan that starts at `from` comes by `p`.
pub open spec fn reached(code: Seq<char>, words: Seq<Seq<char>>, from: int, p: int) -> bool
    decreases code.len() - from,
{
    if from == p {
        true
    } else if from < 0 || from >= code.len() || from > p {
        false
    } else {
        reached(code, words, next_point(code, words, from), p)
    }
}

/// The HTML for a block of code with the given tag.
pub open spec fn highlighted(tag: Option<Seq<char>>, code: Seq<char>) -> Seq<char> {
    match tag {
        Some(name) => match language_of(name) {
            Some(lang) => highlighted_from(code, keywords(lang), 0),
            None => escaped(code),
        },
        None => escaped(code),
    }
}

fn push_escaped_char(c: char, out: &mut Vec<char>)
    ensures
        final(out)@ == old(out)@ + escaped_char(c),
{
    if c == '&' {
        out.push('&');
        out.push('a');
        out.push('m');
        out.push('p');
        out.push(';');
    } else if c == '<' {
        out.push('&');
        out.push('l');
        out.push('t');
        out.push(';');
    } else if c == '>' {
        out.push('&');
        out.push('g');
        out.push('t');
        out.push(';');
    } else if c == '"' {
        out.push('&');
        out.push('q');
        out.push('u');
        out.push('o');
        out.push('t');
        out.push(';');
    } else {
        out.push(c);
    }
    assert(out@ =~= old(out)@ + escaped_char(c));
}

/// Appends the characters of `text` from `from` up to `to`, escaped.
pub fn push_escaped(text: &Vec<char>, from: usize, to: usize, out: &mut Vec<char>)
    requires
        from <= to <= text.len(),
    ensures
        final(out)@ == old(out)@ + escaped(text@.subrange(from as int, to as int)),
{
    let mut i: usize = from;
    assert(text@.subrange(from as int, from as int) =~= Seq::<char>::empty());
    assert(out@ =~= old(out)@ + escaped(text@.subrange(from as int, from as int)));
    while i < to
        invariant
            from <= i <= to <= text.len(),
            out@ == old(out)@ + escaped(text@.subrange(from as int, i as int)),
        decreases to - i,
    {
        proof {
            let upto = text@.subrange(from as int, i as int + 1);
            assert(upto.drop_last() =~= text@.subrange(from as int, i as int));
            assert(upto.last() == text@[i as int]);
        }
        push_escaped_char(text[i], out);
        assert(out@ =~= old(out)@ + escaped(text@.subrange(from as int, i as int + 1)));
        i = i + 1;
    }
}

/// A text as it is written into HTML: `&`, `<`, `>` and `"` give way to
/// their entities.
pub fn escape(text: &str) -> (r: String)
    ensures
        r@ == escaped(text@),
{
    let chars = chars_of(text);
    let mut out: Vec<char> = Vec::new();
    push_escaped(&chars, 0, chars.len(), &mut out);
    assert(chars@.subrange(0, chars.len() as int) =~= chars@);
    assert(Seq::<char>::empty() + escaped(chars@) =~= escaped(chars@));
    string_of(&out)
}

fn is_word_char(c: char) -> (r: bool)
    ensures
        r == word_char(c),
{
    ('a' <= c && c <= 'z') || ('A' <= c && c <= 'Z') || ('0' <= c && c <= '9') || c == '_'
}

fn is_token_at(code: &Vec<char>, p: usize, word: &Vec<char>) -> (r: bool)
    requires
        p <= code.len(),
    ensures
        r == token_at(code@, p as int, word@),
{
    if word.len() == 0 || !occurs(code, word, p) {
        return false;
    }
    if p > 0 && is_word_char(code[p - 1]) {
        return false;
    }
    let end: usize = p + word.len();
    if end < code.len() && is_word_char(code[end]) {
        return false;
    }
    true
}

fn find_keyword(code: &Vec<char>, p: usize, words: &Vec<Vec<char>>) -> (r: Option<usize>)
    requires
        p <= code.len(),
    ensures
        match r {
            Some(i) => keyword_at(code@, p as int, views(words@), 0) == Some(i as int) && i
                < words.len(),
            None => keyword_at(code@, p as int, views(words@), 0) is None,
        },
{
    let mut i: usize = 0;
    while i < words.len()
        invariant
            i <= words.len(),
            p <= code.len(),
            keyword_at(code@, p as int, views(words@), 0) == keyword_at(
                code@,
                p as int,
                views(words@),
                i as int,
            ),
        decreases words.len() - i,
    {
        if is_token_at(code, p, &words[i]) {
            return Some(i);
        }
        i = i + 1;
    }
    None
}

fn word_list(words: &[&str]) -> (r: Vec<Vec<char>>)
    ensures
        r@.len() == words@.len(),
        forall|i: int| 0 <= i < words@.len() ==> (#[trigger] r@[i])@ == words@[i]@,
{
    let mut r: Vec<Vec<char>> = Vec::new();
    let mut i: usize = 0;
    while i < words.len()
        invariant
            i <= words.len(),
            r@.len() == i,
            forall|j: int| 0 <= j < i ==> (#[trigger] r@[j])@ == words@[j]@,
        decreases words.len() - i,
    {
        r.push(chars_of(words[i]));
        i = i + 1;
    }
    r
}

fn keyword_list(lang: Language) -> (r: Vec<Vec<char>>)
    ensures
        views(r@) == keywords(lang),
{
    match lang {
        Language::Sql => {
            let words = [
                "CREATE TABLE",
                "CREATE INDEX",
                "PRIMARY KEY",
                "INSERT INTO",
                "DELETE FROM",
                "ORDER BY",
                "GROUP BY",
                "SELECT",
                "INSERT",
                "UPDATE",
                "DELETE",
                "VALUES",
                "CREATE",
                "WHERE",
                "LIMIT",
                "TABLE",
                "INDEX",
                "FROM",
                "JOIN",
                "NULL",
                "DROP",
                "AND",
                "NOT",
                "SET",
                "AS",
                "ON",
                "OR",
                "IN",
            ];
            let r = word_list(&words);
            assert(views(r@) =~= keywords(lang));
            r
        },
        Language::Shell => {
            let words = ["export", "sudo", "echo", "cd"];
            let r = word_list(&words);
            assert(views(r@) =~= keywords(lang));
            r
        },
    }
}

/// The language that a fence's tag names, if it is a known one.
pub fn language(tag: &str) -> (r: Option<Language>)
    ensures
        r == language_of(tag@),
{
    let chars = chars_of(tag);
    if is_word(&chars, "sql") || is_word(&chars, "postgresql") || is_word(&chars, "postgres") {
        Some(Language::Sql)
    } else if is_word(&chars, "bash") || is_word(&chars, "sh") {
        Some(Language::Shell)
    } else {
        None
    }
}

fn highlight_chars(code: &Vec<char>, words: &Vec<Vec<char>>) -> (out: Vec<char>)
    ensures
        out@ == highlighted_from(code@, views(words@), 0),
{
    let open = chars_of("<span class=\"syntax-highlight\">");
    let close = chars_of("</span>");
    let mut out: Vec<char> = Vec::new();
    let mut p: usize = 0;
    assert(out@ + highlighted_from(code@, views(words@), 0) =~= highlighted_from(
        code@,
        views(words@),
        0,
    ));
    while p < code.len()
        invariant
            p <= code.len(),
            open@ == marker_open(),
            close@ == marker_close(),
            out@ + highlighted_from(code@, views(words@), p as int) == highlighted_from(
                code@,
                views(words@),
                0,
            ),
        decreases code.len() - p,
    {
        let ghost before = out@;
        let ghost piece = piece_at(code@, views(words@), p as int);
        let ghost next = next_point(code@, views(words@), p as int);
        let found = find_keyword(code, p, words);
        let mut taken: usize = 0;
        match found {
            Some(i) => {
                if words[i].len() > 0 && words[i].len() <= code.len() - p {
                    taken = words[i].len();
                }
            },
            None => {},
        }
        assert(taken == token_len(code@, views(words@), p as int));
        if taken > 0 {
            extend(&mut out, &open);
            push_escaped(code, p, p + taken, &mut out);
            extend(&mut out, &close);
            assert(out@ =~= before + piece);
            p = p + taken;
        } else {
            push_escaped_char(code[p], &mut out);
            p = p + 1;
        }
        assert(p == next);
        assert(out@ + highlighted_from(code@, views(words@), p as int) =~= before + (piece
            + highlighted_from(code@, views(words@), next)));
    }
    assert(out@ + Seq::<char>::empty() =~= out@);
    out
}

/// The HTML for a block of code whose fence carries the given tag.
///
/// With the tag of a known language, the keywords of that language are put
/// between the highlight markers. With any other tag, or none, the code is
/// escaped and holds no marker.
pub fn highlight(tag: Option<&str>, code: &str) -> (r: String)
    ensures
        r@ == highlighted(
            match tag {
                Some(name) => Some(name@),
                None => None,
            },
            code@,
        ),
{
    let chars = chars_of(code);
    let lang = match tag {
        Some(name) => language(name),
        None => None,
    };
    match lang {
        Some(lang) => {
            let words = keyword_list(lang);
            let out = highlight_chars(&chars, &words);
            string_of(&out)
        },
        None => {
            let mut out: Vec<char> = Vec::new();
            push_escaped(&chars, 0, chars.len(), &mut out);
            assert(chars@.subrange(0, chars.len() as int) =~= chars@);
            assert(Seq::<char>::empty() + escaped(chars@) =~= escaped(chars@));
            string_of(&out)
        },
    }
}

/// Escaped text holds no `<`.
pub proof fn lemma_escaped_has_no_angle(text: Seq<char>)
    ensures
        forall|i: int| 0 <= i < escaped(text).len() ==> escaped(text)[i] != '<',
    decreases text.len(),
{
    if text.len() > 0 {
        lemma_escaped_has_no_angle(text.drop_last());
        let head = escaped(text.drop_last());
        let tail = escaped_char(text.last());
        assert forall|i: int| 0 <= i < escaped(text).len() implies escaped(text)[i] != '<' by {
            if i >= head.len() {
                assert(escaped(text)[i] == tail[i - head.len()]);
                assert(forall|k: int| 0 <= k < tail.len() ==> tail[k] != '<');
            }
        }
    }
}

/// Escaped text holds no highlight marker.
pub proof fn lemma_escaped_has_no_marker(text: Seq<char>)
    ensures
        first_occurrence(escaped(text), marker_open(), 0) is None,
{
    reveal_strlit("<span class=\"syntax-highlight\">");
    lemma_escaped_has_no_angle(text);
    crate::text::lemma_first_occurrence(escaped(text), marker_open(), 0);
    match first_occurrence(escaped(text), marker_open(), 0) {
        Some(at) => {
            let found = escaped(text).subrange(at, at + marker_open().len());
            assert(found[0] == marker_open()[0]);
            assert(escaped(text)[at] == '<');
        },
        None => {},
    }
}

/// Code whose fence has no tag, or a tag that names no known language, comes
/// out escaped and without any highlight marker.
pub proof fn lemma_unrecognized_is_plain(tag: Option<Seq<char>>, code: Seq<char>)
    requires
        tag matches Some(name) ==> language_of(name) is None,
    ensures
        highlighted(tag, code) == escaped(code),
        first_occurrence(highlighted(tag, code), marker_open(), 0) is None,
{
    lemma_escaped_has_no_marker(code);
}

/// What `keyword_at` finds is a keyword that stands at `p` as a whole word,
/// and the first of the list from `i` on that does.
pub proof fn lemma_keyword_at(code: Seq<char>, p: int, words: Seq<Seq<char>>, i: int)
    requires
        0 <= i,
    ensures
        match keyword_at(code, p, words, i) {
            Some(k) => i <= k < words.len() && token_at(code, p, words[k]) && forall|j: int|
                i <= j < k ==> !token_at(code, p, #[trigger] words[j]),
            None => forall|j: int| i <= j < words.len() ==> !token_at(code, p, #[trigger] words[j]),
        },
    decreases words.len() - i,
{
    if i < words.len() && !token_at(code, p, words[i]) {
        lemma_keyword_at(code, p, words, i + 1);
    }
}

/// Where the scan from `from` comes by `p`, what it writes is what it writes
/// up to `p` and then what it writes from `p` on.
pub proof fn lemma_scan_splits(code: Seq<char>, words: Seq<Seq<char>>, from: int, p: int)
    requires
        0 <= from,
        reached(code, words, from, p),
    ensures
        highlighted_from(code, words, from) == highlighted_between(code, words, from, p)
            + highlighted_from(code, words, p),
    decreases code.len() - from,
{
    if from == p || from >= code.len() || from > p {
        assert(highlighted_between(code, words, from, p) =~= Seq::<char>::empty());
        assert(Seq::<char>::empty() + highlighted_from(code, words, p) =~= highlighted_from(
            code,
            words,
            p,
        ));
    } else {
        let next = next_point(code, words, from);
        lemma_scan_splits(code, words, next, p);
        assert(piece_at(code, words, from) + (highlighted_between(code, words, next, p)
            + highlighted_from(code, words, p)) =~= (piece_at(code, words, from)
            + highlighted_between(code, words, next, p)) + highlighted_from(code, words, p));
    }
}

/// Every position of the code is one that the scan comes by, or lies inside
/// a token that the scan took.
pub proof fn lemma_scan_covers(code: Seq<char>, words: Seq<Seq<char>>, from: int, p: int)
    requires
        0 <= from <= p <= code.len(),
    ensures
        reached(code, words, from, p) || exists|q: int|
            from <= q < p && #[trigger] reached(code, words, from, q) && p < q + token_len(
                code,
                words,
                q,
            ),
    decreases code.len() - from,
{
    if from < p {
        let next = next_point(code, words, from);
        if next <= p {
            lemma_scan_covers(code, words, next, p);
            if !reached(code, words, next, p) {
                let q = choose|q: int|
                    next <= q < p && #[trigger] reached(code, words, next, q) && p < q + token_len(
                        code,
                        words,
                        q,
                    );
                assert(reached(code, words, from, q));
            }
        } else {
            assert(reached(code, words, from, from));
        }
    }
}

/// Where the scan comes by a position at which a keyword of the list stands
/// as a whole word, the first keyword of the list that stands there is
/// written between the two markers, and the scan goes on behind it.
pub proof fn lemma_keywords_are_wrapped(code: Seq<char>, words: Seq<Seq<char>>, p: int, j: int)
    requires
        reached(code, words, 0, p),
        0 <= j < words.len(),
        token_at(code, p, words[j]),
    ensures
        exists|i: int|
            0 <= i <= j && #[trigger] token_at(code, p, words[i]) && highlighted_from(
                code,
                words,
                0,
            ) == highlighted_between(code, words, 0, p) + marker_open() + escaped(words[i])
                + marker_close() + highlighted_from(code, words, p + words[i].len()),
{
    lemma_keyword_at(code, p, words, 0);
    lemma_scan_splits(code, words, 0, p);
    let i = keyword_at(code, p, words, 0).unwrap();
    assert(code.subrange(p, p + words[i].len()) == words[i]);
    assert(token_len(code, words, p) == words[i].len());
    let head = highlighted_between(code, words, 0, p);
    let tail = highlighted_from(code, words, p + words[i].len());
    assert(head + (marker_open() + escaped(words[i]) + marker_close() + tail) =~= head
        + marker_open() + escaped(words[i]) + marker_close() + tail);
    assert(token_at(code, p, words[i]));
}

} // verus!
