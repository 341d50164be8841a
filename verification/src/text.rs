//! Text as sequences of characters: conversion to and from `String`, white
//! space, trimming, splitting at a separator and joining.

use vstd::prelude::*;

verus! {

/// Calls `String::push` of std, for which there is no contract to build on.
/// Taken on trust of it: the string afterwards is the string before with `c`
/// added at its end.
#[verifier::external_body]
fn push_char(s: &mut String, c: char)
    ensures
        final(s)@ == old(s)@.push(c),
{
    s.push(c)
}

/// The characters of `s`, in order.
pub fn chars_of(s: &str) -> (out: Vec<char>)
    ensures
        out@ == s@,
{
    let mut out: Vec<char> = Vec::new();
    for c in it: s.chars()
        invariant
            it.seq() == s@,
            out@ == s@.take(it.index() as int),
    {
        out.push(c);
    }
    out
}

/// Adds the characters `chars[from..to]` at the end of `s`.
pub(crate) fn push_range(s: &mut String, chars: &Vec<char>, from: usize, to: usize)
    requires
        from <= to <= chars.len(),
    ensures
        final(s)@ == old(s)@ + chars@.subrange(from as int, to as int),
{
    let mut i: usize = from;
    while i < to
        invariant
            from <= i <= to <= chars.len(),
            s@ == old(s)@ + chars@.subrange(from as int, i as int),
        decreases to - i,
    {
        push_char(s, chars[i]);
        i += 1;
    }
}

/// Adds all of `chars` at the end of `s`.
pub fn push_chars(s: &mut String, chars: &Vec<char>)
    ensures
        final(s)@ == old(s)@ + chars@,
{
    push_range(s, chars, 0, chars.len());
    assert(chars@.subrange(0, chars.len() as int) == chars@);
}

/// Adds the one character `c` at the end of `s`.
pub fn push_one(s: &mut String, c: char)
    ensures
        final(s)@ == old(s)@.push(c),
{
    push_char(s, c);
}

/// The string that holds exactly `chars`.
pub fn string_of(chars: &Vec<char>) -> (out: String)
    ensures
        out@ == chars@,
{
    let mut out = String::new();
    push_chars(&mut out, chars);
    out
}

/// Adds the characters of `piece` at the end of `chars`.
pub fn extend_with(chars: &mut Vec<char>, piece: &Vec<char>)
    ensures
        final(chars)@ == old(chars)@ + piece@,
{
    let mut i: usize = 0;
    while i < piece.len()
        invariant
            i <= piece.len(),
            chars@ == old(chars)@ + piece@.take(i as int),
        decreases piece.len() - i,
    {
        chars.push(piece[i]);
        i += 1;
    }
}

/// Whether the two hold the same characters.
pub fn same_chars(a: &Vec<char>, b: &Vec<char>) -> (r: bool)
    ensures
        r == (a@ == b@),
{
    if a.len() != b.len() {
        return false;
    }
    let mut i: usize = 0;
    while i < a.len()
        invariant
            a.len() == b.len(),
            i <= a.len(),
            a@.take(i as int) == b@.take(i as int),
        decreases a.len() - i,
    {
        if a[i] != b[i] {
            return false;
        }
        assert(a@.take(i + 1) == a@.take(i as int).push(a@[i as int]));
        assert(b@.take(i + 1) == b@.take(i as int).push(b@[i as int]));
        i += 1;
    }
    assert(a@ == a@.take(a.len() as int));
    assert(b@ == b@.take(b.len() as int));
    true
}

/// White space in the sense of Unicode's `White_Space` property, which is
/// what trimming removes.
pub open spec fn is_whitespace(c: char) -> bool {
    let v = c as u32;
    ||| 0x09 <= v <= 0x0D
    ||| v == 0x20
    ||| v == 0x85
    ||| v == 0xA0
    ||| v == 0x1680
    ||| 0x2000 <= v <= 0x200A
    ||| v == 0x2028
    ||| v == 0x2029
    ||| v == 0x202F
    ||| v == 0x205F
    ||| v == 0x3000
}

/// Whether `c` is white space.
pub fn is_whitespace_char(c: char) -> (r: bool)
    ensures
        r == is_whitespace(c),
{
    let v: u32 = c as u32;
    (0x09 <= v && v <= 0x0D) || v == 0x20 || v == 0x85 || v == 0xA0 || v == 0x1680 || (0x2000 <= v
        && v <= 0x200A) || v == 0x2028 || v == 0x2029 || v == 0x202F || v == 0x205F || v == 0x3000
}

/// `s` without the white space at its start.
pub open spec fn trim_start(s: Seq<char>) -> Seq<char>
    decreases s.len(),
{
    if s.len() > 0 && is_whitespace(s[0]) {
        trim_start(s.drop_first())
    } else {
        s
    }
}

/// `s` without the white space at its end.
pub open spec fn trim_end(s: Seq<char>) -> Seq<char>
    decreases s.len(),
{
    if s.len() > 0 && is_whitespace(s.last()) {
        trim_end(s.drop_last())
    } else {
        s
    }
}

/// `s` without the white space at either end.
pub open spec fn trimmed(s: Seq<char>) -> Seq<char> {
    trim_end(trim_start(s))
}

/// The bounds of `trimmed(line)` within `line`.
pub fn trim_bounds(line: &Vec<char>) -> (b: (usize, usize))
    ensures
        b.0 <= b.1 <= line.len(),
        line@.subrange(b.0 as int, b.1 as int) == trimmed(line@),
{
    let n = line.len();
    let mut i: usize = 0;
    assert(line@.skip(0) == line@);
    while i < n && is_whitespace_char(line[i])
        invariant
            n == line.len(),
            i <= n,
            trim_start(line@) == trim_start(line@.skip(i as int)),
        decreases n - i,
    {
        assert(line@.skip(i as int).drop_first() == line@.skip(i + 1));
        i += 1;
    }
    assert(trim_start(line@) == line@.skip(i as int));
    let mut j: usize = n;
    assert(line@.skip(i as int) == line@.subrange(i as int, j as int));
    while j > i && is_whitespace_char(line[j - 1])
        invariant
            i <= j <= n,
            n == line.len(),
            trim_end(line@.skip(i as int)) == trim_end(line@.subrange(i as int, j as int)),
        decreases j,
    {
        assert(line@.subrange(i as int, j as int).drop_last() == line@.subrange(
            i as int,
            j - 1,
        ));
        j -= 1;
    }
    (i, j)
}

/// The index of the first `c` in `s`, or the length of `s` where it holds
/// none.
pub open spec fn first_index(s: Seq<char>, c: char) -> nat
    decreases s.len(),
{
    if s.len() == 0 || s[0] == c {
        0
    } else {
        1 + first_index(s.drop_first(), c)
    }
}

/// The first index lies within the text or at its end, no place before it
/// holds `c`, and it holds `c` where it lies within.
pub proof fn lemma_first_index(s: Seq<char>, c: char)
    ensures
        first_index(s, c) <= s.len(),
        forall|j: int| 0 <= j < first_index(s, c) ==> s[j] != c,
        first_index(s, c) < s.len() ==> s[first_index(s, c) as int] == c,
    decreases s.len(),
{
    if s.len() == 0 || s[0] == c {
    } else {
        lemma_first_index(s.drop_first(), c);
        let k = first_index(s.drop_first(), c);
        assert forall|j: int| 0 <= j < first_index(s, c) implies s[j] != c by {
            if j > 0 {
                assert(s[j] == s.drop_first()[j - 1]);
            }
        }
        if first_index(s, c) < s.len() {
            assert(s[k as int + 1] == s.drop_first()[k as int]);
        }
    }
}

/// The first place that holds `c` and has none before it is `first_index`.
pub proof fn lemma_first_index_is(s: Seq<char>, c: char, k: int)
    requires
        0 <= k <= s.len(),
        forall|j: int| 0 <= j < k ==> s[j] != c,
        k < s.len() ==> s[k] == c,
    ensures
        first_index(s, c) == k,
{
    lemma_first_index(s, c);
    let f = first_index(s, c) as int;
    if f < k {
        assert(s[f] == c);
    } else if k < f {
        assert(s[k] != c);
    }
}

/// The pieces of `s` between the occurrences of `sep`: one more piece than
/// there are separators, so at least one.
pub open spec fn split_on(s: Seq<char>, sep: char) -> Seq<Seq<char>>
    decreases s.len(),
{
    let k = first_index(s, sep);
    if k >= s.len() {
        seq![s]
    } else {
        seq![s.take(k as int)] + split_on(s.skip(k as int + 1), sep)
    }
}

/// The views of the character vectors, one for one.
pub open spec fn texts(v: Seq<Vec<char>>) -> Seq<Seq<char>> {
    Seq::new(v.len(), |i: int| v[i]@)
}

/// The characters `chars[from..to]`.
pub(crate) fn copy_range(chars: &Vec<char>, from: usize, to: usize) -> (out: Vec<char>)
    requires
        from <= to <= chars.len(),
    ensures
        out@ == chars@.subrange(from as int, to as int),
{
    let mut out: Vec<char> = Vec::new();
    let mut i: usize = from;
    while i < to
        invariant
            from <= i <= to <= chars.len(),
            out@ == chars@.subrange(from as int, i as int),
        decreases to - i,
    {
        out.push(chars[i]);
        i += 1;
    }
    out
}

/// The pieces of `chars` between the occurrences of `sep`.
pub fn split_chars(chars: &Vec<char>, sep: char) -> (out: Vec<Vec<char>>)
    ensures
        texts(out@) == split_on(chars@, sep),
        out.len() >= 1,
{
    let n = chars.len();
    let mut out: Vec<Vec<char>> = Vec::new();
    let mut start: usize = 0;
    let mut i: usize = 0;
    assert(chars@.skip(0) == chars@);
    assert(texts(out@) + split_on(chars@, sep) == split_on(chars@, sep));
    while i < n
        invariant
            n == chars.len(),
            start <= i <= n,
            forall|j: int| start <= j < i ==> chars@[j] != sep,
            split_on(chars@, sep) == texts(out@) + split_on(chars@.skip(start as int), sep),
        decreases n - i,
    {
        if chars[i] == sep {
            let piece = copy_range(chars, start, i);
            proof {
                let rest = chars@.skip(start as int);
                lemma_first_index_is(rest, sep, i - start);
                assert(rest.take(i - start) == piece@);
                assert(rest.skip(i - start + 1) == chars@.skip(i + 1));
                assert(texts(out@.push(piece)) == texts(out@) + seq![piece@]);
            }
            out.push(piece);
            start = i + 1;
        }
        i += 1;
    }
    let piece = copy_range(chars, start, n);
    proof {
        let rest = chars@.skip(start as int);
        lemma_first_index_is(rest, sep, n - start);
        assert(rest == piece@);
        assert(texts(out@.push(piece)) == texts(out@) + seq![piece@]);
    }
    out.push(piece);
    out
}

/// The parts in order, with `sep` between each two.
pub open spec fn join_with(parts: Seq<Seq<char>>, sep: char) -> Seq<char>
    decreases parts.len(),
{
    if parts.len() == 0 {
        Seq::empty()
    } else if parts.len() == 1 {
        parts[0]
    } else {
        join_with(parts.drop_last(), sep).push(sep) + parts.last()
    }
}

/// Joins `parts[from..to]` with `sep`.
pub(crate) fn join_range(parts: &Vec<Vec<char>>, from: usize, to: usize, sep: char) -> (out: Vec<char>)
    requires
        from <= to <= parts.len(),
    ensures
        out@ == join_with(texts(parts@).subrange(from as int, to as int), sep),
{
    let mut out: Vec<char> = Vec::new();
    let mut i: usize = from;
    while i < to
        invariant
            from <= i <= to <= parts.len(),
            out@ == join_with(texts(parts@).subrange(from as int, i as int), sep),
        decreases to - i,
    {
        proof {
            let before = texts(parts@).subrange(from as int, i as int);
            let after = texts(parts@).subrange(from as int, i + 1);
            assert(after.drop_last() == before);
            assert(after.last() == parts@[i as int]@);
        }
        if i > from {
            out.push(sep);
        }
        extend_with(&mut out, &parts[i]);
        i += 1;
    }
    out
}

} // verus!
