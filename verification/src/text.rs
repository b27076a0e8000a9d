//! Character sequences: searching, splitting, joining and conversion between
//! `str`, `String` and `Vec<char>`.

use vstd::prelude::*;

verus! {

/// Whether `needle` stands in `hay` at index `at`.
pub open spec fn occurs_at(hay: Seq<char>, needle: Seq<char>, at: int) -> bool {
    &&& 0 <= at
    &&& at + needle.len() <= hay.len()
    &&& hay.subrange(at, at + needle.len()) == needle
}

/// The least index at or after `from` at which `needle` stands in `hay`.
pub open spec fn first_occurrence(hay: Seq<char>, needle: Seq<char>, from: int) -> Option<int>
    decreases hay.len() + 1 - from,
{
    if from < 0 || from + needle.len() > hay.len() {
        None
    } else if occurs_at(hay, needle, from) {
        Some(from)
    } else {
        first_occurrence(hay, needle, from + 1)
    }
}

/// The pieces of `hay` from `start` on that lie between the occurrences of
/// `delim`, found from left to right without overlap.
pub open spec fn split_from(hay: Seq<char>, delim: Seq<char>, start: int) -> Seq<Seq<char>>
    decreases hay.len() - start,
{
    match first_occurrence(hay, delim, start) {
        Some(at) if start <= at && delim.len() > 0 && at + delim.len() <= hay.len() => {
            seq![hay.subrange(start, at)] + split_from(hay, delim, at + delim.len())
        },
        _ => seq![hay.subrange(start, hay.len() as int)],
    }
}

/// The pieces of `hay` between the occurrences of `delim`.
pub open spec fn split(hay: Seq<char>, delim: Seq<char>) -> Seq<Seq<char>> {
    split_from(hay, delim, 0)
}

/// The pieces put together again with `delim` between each two.
pub open spec fn join(parts: Seq<Seq<char>>, delim: Seq<char>) -> Seq<char>
    decreases parts.len(),
{
    if parts.len() == 0 {
        Seq::empty()
    } else if parts.len() == 1 {
        parts[0]
    } else {
        parts[0] + delim + join(parts.skip(1), delim)
    }
}

/// The views of the elements of a list of character vectors.
pub open spec fn views(parts: Seq<Vec<char>>) -> Seq<Seq<char>> {
    Seq::new(parts.len(), |i: int| parts[i]@)
}

/// The texts of a list of strings.
pub open spec fn string_views(strings: Seq<String>) -> Seq<Seq<char>> {
    Seq::new(strings.len(), |i: int| strings[i]@)
}

/// What `first_occurrence` finds is an occurrence, and none lies before it.
pub proof fn lemma_first_occurrence(hay: Seq<char>, needle: Seq<char>, from: int)
    requires
        0 <= from,
    ensures
        match first_occurrence(hay, needle, from) {
            Some(at) => from <= at && occurs_at(hay, needle, at) && forall|k: int|
                from <= k < at ==> !occurs_at(hay, needle, k),
            None => forall|k: int| from <= k ==> !occurs_at(hay, needle, k),
        },
    decreases hay.len() + 1 - from,
{
    if from + needle.len() <= hay.len() && !occurs_at(hay, needle, from) {
        lemma_first_occurrence(hay, needle, from + 1);
    }
}

/// Behind a text `x`, a needle stands where it stands in what follows `x`.
pub proof fn lemma_first_occurrence_shift(x: Seq<char>, y: Seq<char>, needle: Seq<char>, k: int)
    requires
        0 <= k,
    ensures
        first_occurrence(x + y, needle, x.len() + k) == match first_occurrence(y, needle, k) {
            Some(at) => Some(x.len() + at),
            None => None,
        },
    decreases y.len() + 1 - k,
{
    if k + needle.len() <= y.len() {
        assert((x + y).subrange(x.len() + k, x.len() + k + needle.len()) =~= y.subrange(
            k,
            k + needle.len(),
        ));
        if !occurs_at(y, needle, k) {
            lemma_first_occurrence_shift(x, y, needle, k + 1);
        }
    }
}

/// Behind a text `x`, the pieces are the pieces of what follows `x`.
pub proof fn lemma_split_shift(x: Seq<char>, y: Seq<char>, delim: Seq<char>, k: int)
    requires
        0 <= k <= y.len(),
    ensures
        split_from(x + y, delim, x.len() + k) == split_from(y, delim, k),
    decreases y.len() - k,
{
    lemma_first_occurrence_shift(x, y, delim, k);
    lemma_first_occurrence(y, delim, k);
    match first_occurrence(y, delim, k) {
        Some(at) if k <= at && delim.len() > 0 && at + delim.len() <= y.len() => {
            lemma_split_shift(x, y, delim, at + delim.len());
            assert((x + y).subrange(x.len() + k, x.len() + at) =~= y.subrange(k, at));
        },
        _ => {
            assert((x + y).subrange(x.len() + k, (x + y).len() as int) =~= y.subrange(
                k,
                y.len() as int,
            ));
        },
    }
}

/// Where `delim` first stands behind `first`, the pieces of `first`,
/// `delim` and `rest` are `first` and then the pieces of `rest`.
pub proof fn lemma_split_first(first: Seq<char>, rest: Seq<char>, delim: Seq<char>)
    requires
        delim.len() > 0,
        forall|k: int| 0 <= k < first.len() ==> !occurs_at(first + delim + rest, delim, k),
    ensures
        split(first + delim + rest, delim) == seq![first] + split(rest, delim),
{
    let whole = first + delim + rest;
    let n = first.len() as int;
    assert(whole.subrange(n, n + delim.len()) =~= delim);
    assert(occurs_at(whole, delim, n));
    lemma_first_occurrence(whole, delim, 0);
    assert(first_occurrence(whole, delim, 0) == Some(n));
    assert(whole.subrange(0, n) =~= first);
    assert(whole =~= (first + delim) + rest);
    lemma_split_shift(first + delim, rest, delim, 0);
}

/// Joining what a split gave restores the text that was split.
pub proof fn lemma_join_split(hay: Seq<char>, delim: Seq<char>, start: int)
    requires
        0 <= start <= hay.len(),
    ensures
        join(split_from(hay, delim, start), delim) == hay.subrange(start, hay.len() as int),
        split_from(hay, delim, start).len() >= 1,
    decreases hay.len() - start,
{
    lemma_first_occurrence(hay, delim, start);
    match first_occurrence(hay, delim, start) {
        Some(at) if start <= at && delim.len() > 0 && at + delim.len() <= hay.len() => {
            let rest = split_from(hay, delim, at + delim.len());
            lemma_join_split(hay, delim, at + delim.len());
            let all = seq![hay.subrange(start, at)] + rest;
            assert(all.skip(1) =~= rest);
            assert(all[0] == hay.subrange(start, at));
            assert(hay.subrange(start, at) + delim + hay.subrange(
                at + delim.len(),
                hay.len() as int,
            ) =~= hay.subrange(start, hay.len() as int));
        },
        _ => {},
    }
}

/// The characters of a string slice.
pub fn chars_of(s: &str) -> (v: Vec<char>)
    ensures
        v@ == s@,
{
    let mut v: Vec<char> = Vec::new();
    for c in it: s.chars()
        invariant
            v@ == it.seq().take(it.index()),
            it.seq() == s@,
    {
        v.push(c);
    }
    v
}

/// Calls `String::push`. The contract is not proved. It states what the
/// documentation of `push` says: the character is appended to the string.
#[verifier::external_body]
fn push_char(s: &mut String, c: char)
    ensures
        final(s)@ == old(s)@.push(c),
{
    s.push(c)
}

/// The string made of the given characters.
pub fn string_of(v: &Vec<char>) -> (s: String)
    ensures
        s@ == v@,
{
    let mut s = String::new();
    let mut i: usize = 0;
    while i < v.len()
        invariant
            i <= v.len(),
            s@ == v@.take(i as int),
        decreases v.len() - i,
    {
        push_char(&mut s, v[i]);
        assert(v@.take(i as int + 1) =~= v@.take(i as int).push(v@[i as int]));
        i = i + 1;
    }
    assert(v@.take(i as int) =~= v@);
    s
}

/// Whether two character vectors hold the same text.
pub fn same_chars(a: &Vec<char>, b: &Vec<char>) -> (r: bool)
    ensures
        r == (a@ == b@),
{
    if a.len() != b.len() {
        return false;
    }
    let mut i: usize = 0;
    while i < a.len()
        invariant
            i <= a.len(),
            a.len() == b.len(),
            a@.take(i as int) == b@.take(i as int),
        decreases a.len() - i,
    {
        if a[i] != b[i] {
            return false;
        }
        assert(a@.take(i as int + 1) =~= a@.take(i as int).push(a@[i as int]));
        assert(b@.take(i as int + 1) =~= b@.take(i as int).push(b@[i as int]));
        i = i + 1;
    }
    assert(a@.take(i as int) =~= a@);
    assert(b@.take(i as int) =~= b@);
    true
}

/// Whether the characters are those of `word`.
pub fn is_word(chars: &Vec<char>, word: &str) -> (r: bool)
    ensures
        r == (chars@ == word@),
{
    let other = chars_of(word);
    same_chars(chars, &other)
}

/// Whether `needle` stands in `hay` at index `at`.
pub fn occurs(hay: &Vec<char>, needle: &Vec<char>, at: usize) -> (r: bool)
    ensures
        r == occurs_at(hay@, needle@, at as int),
{
    if needle.len() > hay.len() || at > hay.len() - needle.len() {
        return false;
    }
    let mut i: usize = 0;
    while i < needle.len()
        invariant
            i <= needle.len(),
            at + needle.len() <= hay.len(),
            hay@.subrange(at as int, at + i) == needle@.take(i as int),
        decreases needle.len() - i,
    {
        if hay[at + i] != needle[i] {
            assert(hay@.subrange(at as int, at + needle.len())[i as int] != needle@[i as int]);
            return false;
        }
        assert(hay@.subrange(at as int, at + i + 1) =~= hay@.subrange(at as int, at + i).push(
            hay@[at + i],
        ));
        assert(needle@.take(i as int + 1) =~= needle@.take(i as int).push(needle@[i as int]));
        i = i + 1;
    }
    assert(needle@.take(i as int) =~= needle@);
    true
}

/// The least index at or after `from` at which `needle` stands in `hay`.
pub fn find(hay: &Vec<char>, needle: &Vec<char>, from: usize) -> (r: Option<usize>)
    ensures
        match r {
            Some(at) => first_occurrence(hay@, needle@, from as int) == Some(at as int),
            None => first_occurrence(hay@, needle@, from as int) is None,
        },
{
    if needle.len() > hay.len() {
        return None;
    }
    let last: usize = hay.len() - needle.len();
    let mut at: usize = from;
    while at <= last
        invariant
            from <= at,
            last == hay.len() - needle.len(),
            first_occurrence(hay@, needle@, from as int) == first_occurrence(
                hay@,
                needle@,
                at as int,
            ),
        decreases last + 1 - at,
    {
        if occurs(hay, needle, at) {
            return Some(at);
        }
        if at == last {
            assert(first_occurrence(hay@, needle@, at as int + 1) is None);
            return None;
        }
        at = at + 1;
    }
    None
}

/// A copy of the characters of `v` from `from` up to `to`.
pub fn slice(v: &Vec<char>, from: usize, to: usize) -> (r: Vec<char>)
    requires
        from <= to <= v.len(),
    ensures
        r@ == v@.subrange(from as int, to as int),
{
    let mut r: Vec<char> = Vec::new();
    let mut i: usize = from;
    while i < to
        invariant
            from <= i <= to <= v.len(),
            r@ == v@.subrange(from as int, i as int),
        decreases to - i,
    {
        r.push(v[i]);
        assert(v@.subrange(from as int, i as int + 1) =~= v@.subrange(from as int, i as int).push(
            v@[i as int],
        ));
        i = i + 1;
    }
    r
}

/// Appends the characters of `src` to `dst`.
pub fn extend(dst: &mut Vec<char>, src: &Vec<char>)
    ensures
        final(dst)@ == old(dst)@ + src@,
{
    let mut i: usize = 0;
    while i < src.len()
        invariant
            i <= src.len(),
            dst@ == old(dst)@ + src@.take(i as int),
        decreases src.len() - i,
    {
        dst.push(src[i]);
        assert(src@.take(i as int + 1) =~= src@.take(i as int).push(src@[i as int]));
        assert(dst@ =~= old(dst)@ + src@.take(i as int + 1));
        i = i + 1;
    }
    assert(src@.take(i as int) =~= src@);
}

/// The pieces of `hay` between the occurrences of `delim`.
pub fn split_chars(hay: &Vec<char>, delim: &Vec<char>) -> (parts: Vec<Vec<char>>)
    ensures
        views(parts@) == split(hay@, delim@),
        parts@.len() >= 1,
{
    let mut parts: Vec<Vec<char>> = Vec::new();
    let mut start: usize = 0;
    loop
        invariant_except_break
            start <= hay.len(),
            split(hay@, delim@) == views(parts@) + split_from(hay@, delim@, start as int),
        ensures
            views(parts@) == split(hay@, delim@),
            parts@.len() >= 1,
        decreases hay.len() - start,
    {
        let found = if delim.len() > 0 {
            find(hay, delim, start)
        } else {
            None
        };
        proof {
            lemma_first_occurrence(hay@, delim@, start as int);
        }
        match found {
            Some(at) => {
                let piece = slice(hay, start, at);
                let ghost before = parts@;
                parts.push(piece);
                assert(views(parts@) =~= views(before) + seq![hay@.subrange(
                    start as int,
                    at as int,
                )]);
                start = at + delim.len();
            },
            None => {
                let piece = slice(hay, start, hay.len());
                let ghost before = parts@;
                parts.push(piece);
                assert(views(parts@) =~= views(before) + seq![hay@.subrange(
                    start as int,
                    hay@.len() as int,
                )]);
                break ;
            },
        }
    }
    parts
}

/// The pieces from index `from` on, put together with `delim` between each two.
pub fn join_chars(parts: &Vec<Vec<char>>, from: usize, delim: &Vec<char>) -> (r: Vec<char>)
    requires
        from <= parts.len(),
    ensures
        r@ == join(views(parts@).skip(from as int), delim@),
    decreases parts.len() - from,
{
    let mut r: Vec<char> = Vec::new();
    if from < parts.len() {
        extend(&mut r, &parts[from]);
        if from + 1 < parts.len() {
            extend(&mut r, delim);
            let rest = join_chars(parts, from + 1, delim);
            extend(&mut r, &rest);
            assert(views(parts@).skip(from as int).skip(1) =~= views(parts@).skip(from + 1));
        }
    }
    r
}

/// Whether `text` begins with `prefix`.
pub open spec fn starts_with(text: Seq<char>, prefix: Seq<char>) -> bool {
    prefix.len() <= text.len() && text.take(prefix.len() as int) == prefix
}

/// Whether `text` ends with `suffix`.
pub open spec fn ends_with(text: Seq<char>, suffix: Seq<char>) -> bool {
    suffix.len() <= text.len() && text.skip(text.len() - suffix.len()) == suffix
}

/// Whether `text` begins with `prefix`.
pub fn has_prefix(text: &Vec<char>, prefix: &Vec<char>) -> (r: bool)
    ensures
        r == starts_with(text@, prefix@),
{
    let r = occurs(text, prefix, 0);
    proof {
        if prefix@.len() <= text@.len() {
            assert(text@.take(prefix@.len() as int) =~= text@.subrange(
                0,
                0 + prefix@.len() as int,
            ));
        }
    }
    r
}

/// Whether `text` ends with `suffix`.
pub fn has_suffix(text: &Vec<char>, suffix: &Vec<char>) -> (r: bool)
    ensures
        r == ends_with(text@, suffix@),
{
    if suffix.len() > text.len() {
        return false;
    }
    let at: usize = text.len() - suffix.len();
    let r = occurs(text, suffix, at);
    proof {
        assert(text@.skip(at as int) =~= text@.subrange(at as int, at + suffix@.len() as int));
    }
    r
}

} // verus!
