//! Text as sequences of characters.
//!
//! The contracts of this library speak of a text by its view, a sequence of `char`. This module
//! gives the few operations on such sequences that the protocol is built from, each as a spec
//! function with the executable function that computes it.

use vstd::prelude::*;

verus! {

/// `String::push` appends the given character to the end of the string.
pub assume_specification[ String::push ](s: &mut String, c: char)
    ensures
        final(s)@ == old(s)@.push(c),
;

/// `==` on `str` says whether the two texts hold the same characters.
pub assume_specification[ <str as PartialEq>::eq ](a: &str, b: &str) -> (r: bool)
    ensures
        r == (a@ == b@),
;

/// The views of a sequence of strings.
pub open spec fn texts(v: Seq<String>) -> Seq<Seq<char>> {
    v.map_values(|s: String| s@)
}

/// The position of the first `c` in `s`, or the length of `s` if there is none.
pub open spec fn find_char(s: Seq<char>, c: char) -> int
    decreases s.len(),
{
    if s.len() == 0 || s[0] == c {
        0
    } else {
        1 + find_char(s.drop_first(), c)
    }
}

/// The pieces of `s` between the occurrences of `sep`: one more than there are occurrences.
pub open spec fn split(s: Seq<char>, sep: char) -> Seq<Seq<char>>
    decreases s.len(),
    via split_decreases
{
    let i = find_char(s, sep);
    if i < s.len() {
        seq![s.take(i)] + split(s.skip(i + 1), sep)
    } else {
        seq![s]
    }
}

#[via_fn]
proof fn split_decreases(s: Seq<char>, sep: char) {
    lemma_find_char(s, sep);
}

/// The pieces put together, with `sep` between each two of them.
pub open spec fn join(pieces: Seq<Seq<char>>, sep: char) -> Seq<char>
    decreases pieces.len(),
{
    if pieces.len() == 0 {
        seq![]
    } else if pieces.len() == 1 {
        pieces[0]
    } else {
        pieces[0] + seq![sep] + join(pieces.drop_first(), sep)
    }
}

/// `s` without the characters `c` that it starts with.
pub open spec fn trim_start(s: Seq<char>, c: char) -> Seq<char>
    decreases s.len(),
{
    if s.len() > 0 && s[0] == c {
        trim_start(s.drop_first(), c)
    } else {
        s
    }
}

/// The part of `s` before the first `c`, or all of it if there is none.
pub open spec fn before(s: Seq<char>, c: char) -> Seq<char> {
    s.take(find_char(s, c))
}

/// Whether `pattern` stands in `s` at position `i`.
pub open spec fn occurs_at(s: Seq<char>, pattern: Seq<char>, i: int) -> bool {
    0 <= i && i + pattern.len() <= s.len() && s.subrange(i, i + pattern.len()) == pattern
}

/// Whether `pattern` stands in `s` somewhere.
pub open spec fn contains(s: Seq<char>, pattern: Seq<char>) -> bool {
    exists|i: int| occurs_at(s, pattern, i)
}

/// Whether `s` starts with `prefix`.
pub open spec fn starts_with(s: Seq<char>, prefix: Seq<char>) -> bool {
    occurs_at(s, prefix, 0)
}

/// A character with an ASCII capital made small.
pub open spec fn lower_char(c: char) -> char {
    if 'A' <= c <= 'Z' {
        (c as int + 32) as char
    } else {
        c
    }
}

/// `s` with its ASCII capitals made small.
pub open spec fn lower(s: Seq<char>) -> Seq<char> {
    s.map_values(|c: char| lower_char(c))
}

/// `s` with every `from` replaced by `to`.
pub open spec fn replace(s: Seq<char>, from: char, to: char) -> Seq<char> {
    s.map_values(
        |c: char|
            if c == from {
                to
            } else {
                c
            },
    )
}

/// What `find_char` finds is the first occurrence, or the end.
pub proof fn lemma_find_char(s: Seq<char>, c: char)
    ensures
        0 <= find_char(s, c) <= s.len(),
        forall|j: int| 0 <= j < find_char(s, c) ==> s[j] != c,
        find_char(s, c) < s.len() ==> s[find_char(s, c)] == c,
    decreases s.len(),
{
    if s.len() > 0 && s[0] != c {
        let rest = s.drop_first();
        lemma_find_char(rest, c);
        assert forall|j: int| 0 <= j < find_char(s, c) implies s[j] != c by {
            if j > 0 {
                assert(s[j] == rest[j - 1]);
            }
        }
        if find_char(s, c) < s.len() {
            assert(s[find_char(s, c)] == rest[find_char(rest, c)]);
        }
    }
}

/// The first occurrence is where `c` stands and does not stand before.
pub proof fn lemma_find_char_is(s: Seq<char>, c: char, i: int)
    requires
        0 <= i <= s.len(),
        forall|j: int| 0 <= j < i ==> s[j] != c,
        i < s.len() ==> s[i] == c,
    ensures
        find_char(s, c) == i,
{
    lemma_find_char(s, c);
}

/// Whether `c` stands nowhere in `s`.
pub open spec fn is_free_of(s: Seq<char>, c: char) -> bool {
    forall|i: int| 0 <= i < s.len() ==> #[trigger] s[i] != c
}

/// A text without the separator is a single piece.
pub proof fn lemma_split_single(s: Seq<char>, sep: char)
    requires
        is_free_of(s, sep),
    ensures
        split(s, sep) == seq![s],
{
    lemma_find_char_is(s, sep, s.len() as int);
}

/// The first piece is what stands before the first separator.
pub proof fn lemma_split_first(head: Seq<char>, tail: Seq<char>, sep: char)
    requires
        is_free_of(head, sep),
    ensures
        split(head + seq![sep] + tail, sep) == seq![head] + split(tail, sep),
{
    let s = head + seq![sep] + tail;
    assert forall|j: int| 0 <= j < head.len() implies s[j] != sep by {
        assert(s[j] == head[j]);
    }
    lemma_find_char_is(s, sep, head.len() as int);
    assert(s.take(head.len() as int) =~= head);
    assert(s.skip(head.len() as int + 1) =~= tail);
}

/// Pieces that were joined come apart again.
pub proof fn lemma_split_joined(pieces: Seq<Seq<char>>, sep: char)
    requires
        pieces.len() > 0,
        forall|i: int| 0 <= i < pieces.len() ==> is_free_of(#[trigger] pieces[i], sep),
    ensures
        split(join(pieces, sep), sep) == pieces,
    decreases pieces.len(),
{
    assert(is_free_of(pieces[0], sep));
    if pieces.len() == 1 {
        lemma_split_single(pieces[0], sep);
        assert(seq![pieces[0]] =~= pieces);
    } else {
        let rest = pieces.drop_first();
        assert forall|i: int| 0 <= i < rest.len() implies is_free_of(#[trigger] rest[i], sep) by {
            assert(rest[i] == pieces[i + 1]);
        }
        lemma_split_joined(rest, sep);
        lemma_split_first(pieces[0], join(rest, sep), sep);
        assert(seq![pieces[0]] + rest =~= pieces);
    }
}

/// The characters of `s`, one by one.
pub fn chars_of(s: &str) -> (v: Vec<char>)
    ensures
        v@ == s@,
{
    let mut v: Vec<char> = Vec::new();
    for c in it: s.chars()
        invariant
            it.seq() == s@,
            v@ == s@.take(it.index()),
    {
        v.push(c);
    }
    v
}

/// The text made of the characters from `from` up to, not including, `to`.
pub fn text_of(v: &[char], from: usize, to: usize) -> (s: String)
    requires
        from <= to <= v@.len(),
    ensures
        s@ == v@.subrange(from as int, to as int),
{
    let mut s = String::new();
    let mut i: usize = from;
    while i < to
        invariant
            from <= i <= to <= v@.len(),
            s@ == v@.subrange(from as int, i as int),
        decreases to - i,
    {
        s.push(v[i]);
        i = i + 1;
    }
    s
}

/// Splits a text at every `sep`.
pub fn split_text(s: &str, sep: char) -> (pieces: Vec<String>)
    ensures
        texts(pieces@) == split(s@, sep),
        pieces@.len() >= 1,
{
    let v = chars_of(s);
    let mut pieces: Vec<String> = Vec::new();
    let mut start: usize = 0;
    let mut i: usize = 0;
    assert(v@.skip(0) =~= v@);
    assert(texts(pieces@) + split(v@, sep) =~= split(v@, sep));
    while i < v.len()
        invariant
            start <= i <= v@.len(),
            forall|j: int| start <= j < i ==> v@[j] != sep,
            texts(pieces@) + split(v@.skip(start as int), sep) == split(v@, sep),
        decreases v@.len() - i,
    {
        if v[i] == sep {
            let piece = text_of(&v, start, i);
            let ghost rest = v@.skip(start as int);
            let ghost before = texts(pieces@);
            pieces.push(piece);
            proof {
                lemma_find_char_is(rest, sep, i - start);
                assert(rest.take(i - start) =~= piece@);
                assert(rest.skip(i - start + 1) =~= v@.skip(i + 1));
                assert(texts(pieces@) =~= before + seq![piece@]);
                assert(texts(pieces@) + split(v@.skip(i + 1), sep) =~= before + split(rest, sep));
            }
            start = i + 1;
        }
        i = i + 1;
    }
    let piece = text_of(&v, start, v.len());
    let ghost rest = v@.skip(start as int);
    let ghost before = texts(pieces@);
    pieces.push(piece);
    proof {
        lemma_find_char_is(rest, sep, rest.len() as int);
        assert(piece@ =~= rest);
        assert(texts(pieces@) =~= before + split(rest, sep));
    }
    pieces
}

/// Puts pieces together with `sep` between each two of them.
pub fn join_text(pieces: &Vec<String>, sep: char) -> (s: String)
    ensures
        s@ == join(texts(pieces@), sep),
{
    let mut s = String::new();
    let mut i: usize = 0;
    let ghost all = texts(pieces@);
    assert(all.skip(0) =~= all);
    while i < pieces.len()
        invariant
            i <= pieces@.len(),
            all == texts(pieces@),
            s@ + joined_rest(all, sep, i as int) == join(all, sep),
        decreases pieces@.len() - i,
    {
        let ghost before = s@;
        if i > 0 {
            s.push(sep);
        }
        s.append(pieces[i].as_str());
        proof {
            let rest = all.skip(i as int);
            assert(rest[0] == pieces@[i as int]@);
            assert(rest.drop_first() =~= all.skip(i + 1));
            assert(s@ + joined_rest(all, sep, i + 1) =~= before + joined_rest(all, sep, i as int));
        }
        i = i + 1;
    }
    assert(s@ + joined_rest(all, sep, i as int) =~= s@);
    s
}

/// What `join` adds behind the first `i` pieces.
spec fn joined_rest(pieces: Seq<Seq<char>>, sep: char, i: int) -> Seq<char> {
    if i == 0 {
        join(pieces, sep)
    } else if i >= pieces.len() {
        seq![]
    } else {
        seq![sep] + join(pieces.skip(i), sep)
    }
}

/// The text without the characters `c` that it starts with.
pub fn trim_start_text(s: &str, c: char) -> (r: String)
    ensures
        r@ == trim_start(s@, c),
{
    let v = chars_of(s);
    let mut i: usize = 0;
    assert(v@.skip(0) =~= v@);
    while i < v.len() && v[i] == c
        invariant
            i <= v@.len(),
            trim_start(v@.skip(i as int), c) == trim_start(v@, c),
        decreases v@.len() - i,
    {
        assert(v@.skip(i as int).drop_first() =~= v@.skip(i + 1));
        i = i + 1;
    }
    let r = text_of(&v, i, v.len());
    assert(r@ =~= v@.skip(i as int));
    r
}

/// The part of the text before the first `c`, or all of it if there is none.
pub fn before_text(s: &str, c: char) -> (r: String)
    ensures
        r@ == before(s@, c),
{
    let v = chars_of(s);
    let mut i: usize = 0;
    while i < v.len() && v[i] != c
        invariant
            i <= v@.len(),
            forall|j: int| 0 <= j < i ==> v@[j] != c,
        decreases v@.len() - i,
    {
        i = i + 1;
    }
    proof {
        lemma_find_char_is(v@, c, i as int);
    }
    text_of(&v, 0, i)
}

/// Whether `pattern` stands in `v` at position `i`.
fn occurs_at_text(v: &Vec<char>, pattern: &Vec<char>, i: usize) -> (r: bool)
    requires
        i + pattern@.len() <= v@.len(),
    ensures
        r == occurs_at(v@, pattern@, i as int),
{
    let mut j: usize = 0;
    while j < pattern.len()
        invariant
            j <= pattern@.len(),
            i + pattern.len() <= v.len(),
            forall|k: int| 0 <= k < j ==> v@[i + k] == pattern@[k],
        decreases pattern@.len() - j,
    {
        if v[i + j] != pattern[j] {
            assert(v@.subrange(i as int, i + pattern@.len())[j as int] != pattern@[j as int]);
            return false;
        }
        j = j + 1;
    }
    assert(v@.subrange(i as int, i + pattern@.len()) =~= pattern@);
    true
}

/// Whether the text starts with `prefix`.
pub fn starts_with_text(s: &str, prefix: &str) -> (r: bool)
    ensures
        r == starts_with(s@, prefix@),
{
    let v = chars_of(s);
    let p = chars_of(prefix);
    p.len() <= v.len() && occurs_at_text(&v, &p, 0)
}

/// The text with its ASCII capitals made small.
pub fn lower_text(s: &str) -> (r: String)
    ensures
        r@ == lower(s@),
{
    let v = chars_of(s);
    let mut r = String::new();
    let mut i: usize = 0;
    while i < v.len()
        invariant
            i <= v@.len(),
            r@ =~= lower(v@.take(i as int)),
        decreases v@.len() - i,
    {
        let c = v[i];
        if 'A' <= c && c <= 'Z' {
            r.push((c as u8 + 32) as char);
        } else {
            r.push(c);
        }
        i = i + 1;
    }
    assert(v@.take(i as int) =~= v@);
    r
}

/// The text with every `from` replaced by `to`.
pub fn replace_text(s: &str, from: char, to: char) -> (r: String)
    ensures
        r@ == replace(s@, from, to),
{
    let v = chars_of(s);
    let mut r = String::new();
    let mut i: usize = 0;
    while i < v.len()
        invariant
            i <= v@.len(),
            r@ =~= replace(v@.take(i as int), from, to),
        decreases v@.len() - i,
    {
        if v[i] == from {
            r.push(to);
        } else {
            r.push(v[i]);
        }
        i = i + 1;
    }
    assert(v@.take(i as int) =~= v@);
    r
}

/// The views of strings are their views one by one, none left out.
pub proof fn law_texts_are_the_views(v: Seq<String>)
    ensures
        texts(v).len() == v.len(),
        forall|i: int| 0 <= i < v.len() ==> #[trigger] texts(v)[i] == v[i]@,
{
}

/// A text comes apart at its separators and nowhere else, and nothing of it is lost: the pieces hold
/// no separator, and put together with separators between them they are the text.
pub proof fn law_split_loses_nothing(s: Seq<char>, sep: char)
    ensures
        split(s, sep).len() >= 1,
        join(split(s, sep), sep) == s,
        forall|i: int| 0 <= i < split(s, sep).len() ==> is_free_of(#[trigger] split(s, sep)[i], sep),
    decreases s.len(),
{
    lemma_find_char(s, sep);
    let i = find_char(s, sep);
    let pieces = split(s, sep);
    if i < s.len() {
        let rest = s.skip(i + 1);
        law_split_loses_nothing(rest, sep);
        assert(pieces.drop_first() =~= split(rest, sep));
        assert(pieces[0] + seq![sep] + rest =~= s);
        assert forall|k: int| 0 <= k < pieces.len() implies is_free_of(#[trigger] pieces[k], sep) by {
            if k > 0 {
                assert(pieces[k] == split(rest, sep)[k - 1]);
            }
        }
    }
}

/// Two texts with a separator between them have the pieces of the first and then those of the
/// second.
pub proof fn law_split_of_two(a: Seq<char>, b: Seq<char>, sep: char)
    ensures
        split(a + seq![sep] + b, sep) == split(a, sep) + split(b, sep),
    decreases a.len(),
{
    lemma_find_char(a, sep);
    let i = find_char(a, sep);
    if i < a.len() {
        let head = a.take(i);
        let rest = a.skip(i + 1);
        law_split_of_two(rest, b, sep);
        assert(a + seq![sep] + b =~= head + seq![sep] + (rest + seq![sep] + b));
        lemma_split_first(head, rest + seq![sep] + b, sep);
        assert(split(a + seq![sep] + b, sep) =~= split(a, sep) + split(b, sep));
    } else {
        lemma_split_first(a, b, sep);
        lemma_split_single(a, sep);
    }
}

/// No pieces make an empty text, one piece makes itself, and more are put together with one
/// separator between each two.
pub proof fn law_join_of_two(a: Seq<Seq<char>>, b: Seq<Seq<char>>, piece: Seq<char>, sep: char)
    ensures
        join(seq![], sep) == Seq::<char>::empty(),
        join(seq![piece], sep) == piece,
        a.len() > 0 && b.len() > 0 ==> join(a + b, sep) == join(a, sep) + seq![sep] + join(b, sep),
    decreases a.len(),
{
    if a.len() > 0 && b.len() > 0 {
        if a.len() == 1 {
            assert((a + b).drop_first() =~= b);
        } else {
            law_join_of_two(a.drop_first(), b, piece, sep);
            assert((a + b).drop_first() =~= a.drop_first() + b);
            assert(join(a + b, sep) =~= join(a, sep) + seq![sep] + join(b, sep));
        }
    }
}

/// What is trimmed off the start is a row of the character, and all of that row.
pub proof fn law_trim_start(s: Seq<char>, c: char)
    ensures
        ({
            let t = trim_start(s, c);
            let n = s.len() - t.len();
            &&& 0 <= n
            &&& t == s.skip(n)
            &&& forall|i: int| 0 <= i < n ==> #[trigger] s[i] == c
            &&& t.len() > 0 ==> t[0] != c
        }),
    decreases s.len(),
{
    if s.len() > 0 && s[0] == c {
        let rest = s.drop_first();
        law_trim_start(rest, c);
        let t = trim_start(s, c);
        let n = s.len() - t.len();
        assert(t =~= s.skip(n));
        assert forall|i: int| 0 <= i < n implies #[trigger] s[i] == c by {
            if i > 0 {
                assert(s[i] == rest[i - 1]);
            }
        }
    } else {
        assert(s.skip(0) =~= s);
    }
}

/// What stands before a character does not hold it, and the character, or the end, comes next.
pub proof fn law_before(s: Seq<char>, c: char)
    ensures
        ({
            let n = before(s, c).len() as int;
            &&& n <= s.len()
            &&& before(s, c) == s.take(n)
            &&& is_free_of(before(s, c), c)
            &&& n < s.len() ==> s[n] == c
        }),
{
    lemma_find_char(s, c);
}

/// A text starts with a prefix exactly if it is the prefix and something behind it, and a text
/// contains another exactly if it is the other with something before and behind it.
pub proof fn law_prefix_and_rest(s: Seq<char>, p: Seq<char>, front: Seq<char>, rest: Seq<char>)
    ensures
        starts_with(p + rest, p),
        starts_with(s, p) ==> s == p + s.skip(p.len() as int),
        contains(front + p + rest, p),
        contains(s, p) ==> exists|x: Seq<char>, y: Seq<char>| s == #[trigger] (x + p + y),
{
    assert((p + rest).subrange(0, p.len() as int) =~= p);
    if starts_with(s, p) {
        let found = s.subrange(0, p.len() as int);
        assert forall|i: int| 0 <= i < p.len() implies s[i] == p[i] by {
            assert(found[i] == s[i]);
        }
        assert(s =~= p + s.skip(p.len() as int));
    }
    let all = front + p + rest;
    let n = front.len() as int;
    assert(all.subrange(n, n + p.len()) =~= p);
    assert(occurs_at(all, p, n));
    if contains(s, p) {
        let i = choose|i: int| occurs_at(s, p, i);
        let (x, y) = (s.take(i), s.skip(i + p.len()));
        assert(s.take(i) + s.subrange(i, i + p.len()) + s.skip(i + p.len()) =~= s);
        assert(s == x + p + y);
    }
}

/// Each capital from A to Z becomes the letter of the same place from a to z, and nothing else is
/// changed.
pub proof fn law_lower(s: Seq<char>)
    ensures
        lower(s).len() == s.len(),
        forall|i: int|
            0 <= i < s.len() ==> {
                let (c, small) = (s[i], #[trigger] lower(s)[i]);
                if 'A' <= c && c <= 'Z' {
                    'a' <= small && small <= 'z' && small as int - 'a' as int == c as int
                        - 'A' as int
                } else {
                    small == c
                }
            },
{
}

/// Each occurrence of the one character becomes the other, and nothing else is changed.
pub proof fn law_replace(s: Seq<char>, from: char, to: char)
    ensures
        replace(s, from, to).len() == s.len(),
        from != to ==> is_free_of(replace(s, from, to), from),
        forall|i: int|
            0 <= i < s.len() && s[i] != from ==> #[trigger] replace(s, from, to)[i] == s[i],
        forall|i: int|
            0 <= i < s.len() && s[i] == from ==> #[trigger] replace(s, from, to)[i] == to,
{
}

} // verus!
