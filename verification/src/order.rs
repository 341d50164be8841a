//! The order of paths, which is the order of their UTF-8 bytes, and the
//! stable sort of trigger entries by path.

use vstd::prelude::*;
use vstd::utf8::*;
use vstd::seq_lib::*;
use crate::trigger::{paths_of, Trigger, TriggerEntry};

verus! {

/// Lexicographic order of byte sequences: the first byte that differs
/// decides, and a proper prefix comes first.
pub open spec fn lex_le(a: Seq<u8>, b: Seq<u8>) -> bool
    decreases a.len(),
{
    if a.len() == 0 {
        true
    } else if b.len() == 0 {
        false
    } else if a[0] != b[0] {
        a[0] < b[0]
    } else {
        lex_le(a.drop_first(), b.drop_first())
    }
}

/// Every byte sequence is in order with itself.
pub proof fn lemma_lex_le_reflexive(a: Seq<u8>)
    ensures
        lex_le(a, a),
    decreases a.len(),
{
    if a.len() > 0 {
        lemma_lex_le_reflexive(a.drop_first());
    }
}

/// Of two byte sequences one is in order with the other.
pub proof fn lemma_lex_le_total(a: Seq<u8>, b: Seq<u8>)
    ensures
        lex_le(a, b) || lex_le(b, a),
    decreases a.len(),
{
    if a.len() > 0 && b.len() > 0 && a[0] == b[0] {
        lemma_lex_le_total(a.drop_first(), b.drop_first());
    }
}

/// The order passes on from one byte sequence over a second to a third.
pub proof fn lemma_lex_le_transitive(a: Seq<u8>, b: Seq<u8>, c: Seq<u8>)
    requires
        lex_le(a, b),
        lex_le(b, c),
    ensures
        lex_le(a, c),
    decreases a.len(),
{
    if a.len() > 0 && b.len() > 0 && c.len() > 0 && a[0] == b[0] && b[0] == c[0] {
        lemma_lex_le_transitive(a.drop_first(), b.drop_first(), c.drop_first());
    }
}

/// Each of two byte sequences that are in order both ways is the other.
pub proof fn lemma_lex_le_antisymmetric(a: Seq<u8>, b: Seq<u8>)
    requires
        lex_le(a, b),
        lex_le(b, a),
    ensures
        a == b,
    decreases a.len(),
{
    if a.len() > 0 && b.len() > 0 {
        lemma_lex_le_antisymmetric(a.drop_first(), b.drop_first());
        assert(a == seq![a[0]] + a.drop_first());
        assert(b == seq![b[0]] + b.drop_first());
    } else {
        assert(a == b);
    }
}

/// The order of two paths: that of their UTF-8 encodings, byte by byte.
pub open spec fn path_le(a: Seq<char>, b: Seq<char>) -> bool {
    lex_le(encode_utf8(a), encode_utf8(b))
}

/// Each of two paths that are in order both ways is the other.
pub proof fn lemma_path_le_antisymmetric(a: Seq<char>, b: Seq<char>)
    requires
        path_le(a, b),
        path_le(b, a),
    ensures
        a == b,
{
    lemma_lex_le_antisymmetric(encode_utf8(a), encode_utf8(b));
    encode_utf8_decode_utf8(a);
    encode_utf8_decode_utf8(b);
}

/// Whether `a` comes before `b` or is equal to it, as paths.
pub fn path_le_exec(a: &str, b: &str) -> (r: bool)
    ensures
        r == path_le(a@, b@),
{
    let x = a.as_bytes();
    let y = b.as_bytes();
    let mut i: usize = 0;
    assert(x@.skip(0) == x@ && y@.skip(0) == y@);
    while i < x.len() && i < y.len()
        invariant
            i <= x.len(),
            i <= y.len(),
            x@ == encode_utf8(a@),
            y@ == encode_utf8(b@),
            lex_le(x@, y@) == lex_le(x@.skip(i as int), y@.skip(i as int)),
        decreases x.len() - i,
    {
        assert(x@.skip(i as int).drop_first() == x@.skip(i + 1));
        assert(y@.skip(i as int).drop_first() == y@.skip(i + 1));
        if x[i] != y[i] {
            assert(x@.skip(i as int)[0] == x@[i as int]);
            assert(y@.skip(i as int)[0] == y@[i as int]);
            return x[i] < y[i];
        }
        i += 1;
    }
    x.len() <= y.len()
}

/// Each entry's path is at most the path of every later entry.
pub open spec fn sorted_by_path(s: Seq<Trigger>) -> bool {
    forall|i: int, j: int| 0 <= i <= j < s.len() ==> path_le(#[trigger] s[i].path, #[trigger] s[j].path)
}

/// Where `t` goes into `s`: behind the last entry whose path is not greater
/// than that of `t`, so behind every entry of the same path.
pub open spec fn insert_position(s: Seq<Trigger>, t: Trigger) -> nat
    decreases s.len(),
{
    if s.len() == 0 || path_le(s.last().path, t.path) {
        s.len()
    } else {
        insert_position(s.drop_last(), t)
    }
}

/// `s` with `t` put in at its position.
pub open spec fn insert_by_path(s: Seq<Trigger>, t: Trigger) -> Seq<Trigger> {
    s.insert(insert_position(s, t) as int, t)
}

/// The entries of `s` in the order of their paths; entries of one path stay
/// in the order they had.
pub open spec fn sort_by_path(s: Seq<Trigger>) -> Seq<Trigger>
    decreases s.len(),
{
    if s.len() == 0 {
        s
    } else {
        insert_by_path(sort_by_path(s.drop_last()), s.last())
    }
}

/// The entry before the position is not greater than `t`, and every entry
/// from the position on is.
pub proof fn lemma_insert_position(s: Seq<Trigger>, t: Trigger)
    ensures
        insert_position(s, t) <= s.len(),
        insert_position(s, t) > 0 ==> path_le(s[insert_position(s, t) - 1].path, t.path),
        forall|j: int| insert_position(s, t) <= j < s.len() ==> !path_le(#[trigger] s[j].path, t.path),
    decreases s.len(),
{
    if s.len() == 0 || path_le(s.last().path, t.path) {
    } else {
        let front = s.drop_last();
        lemma_insert_position(front, t);
        assert forall|j: int| insert_position(s, t) <= j < s.len() implies !path_le(
            #[trigger] s[j].path,
            t.path,
        ) by {
            if j < front.len() {
                assert(s[j] == front[j]);
            }
        }
    }
}

/// A position with an entry not greater than `t` before it, and only greater
/// ones from it on, is the position at which `t` goes in.
pub proof fn lemma_insert_position_is(s: Seq<Trigger>, t: Trigger, p: int)
    requires
        0 <= p <= s.len(),
        p > 0 ==> path_le(s[p - 1].path, t.path),
        forall|j: int| p <= j < s.len() ==> !path_le(#[trigger] s[j].path, t.path),
    ensures
        insert_position(s, t) == p,
    decreases s.len(),
{
    if s.len() == 0 || p == s.len() {
    } else {
        assert(!path_le(s[s.len() - 1].path, t.path));
        lemma_insert_position_is(s.drop_last(), t, p);
    }
}

/// Putting an entry into a sorted sequence leaves it sorted.
pub proof fn lemma_insert_keeps_sorted(s: Seq<Trigger>, t: Trigger)
    requires
        sorted_by_path(s),
    ensures
        sorted_by_path(insert_by_path(s, t)),
{
    let p = insert_position(s, t) as int;
    let r = insert_by_path(s, t);
    lemma_insert_position(s, t);
    s.insert_ensures(p, t);
    assert forall|i: int, j: int| 0 <= i <= j < r.len() implies path_le(
        #[trigger] r[i].path,
        #[trigger] r[j].path,
    ) by {
        if j < p {
            assert(r[i] == s[i] && r[j] == s[j]);
        } else if i > p {
            assert(r[i] == s[i - 1] && r[j] == s[j - 1]);
        } else if i == p && j == p {
            lemma_lex_le_reflexive(encode_utf8(t.path));
        } else if i == p {
            assert(r[j] == s[j - 1]);
            assert(!path_le(s[j - 1].path, t.path));
            lemma_lex_le_total(encode_utf8(s[j - 1].path), encode_utf8(t.path));
        } else if j == p {
            assert(r[i] == s[i]);
            assert(path_le(s[i].path, s[p - 1].path));
            lemma_lex_le_transitive(
                encode_utf8(s[i].path),
                encode_utf8(s[p - 1].path),
                encode_utf8(t.path),
            );
        } else {
            assert(r[i] == s[i] && r[j] == s[j - 1]);
        }
    }
}

/// Sorting gives a sorted sequence of the same entries, each as often as it
/// was there.
pub proof fn lemma_sort_by_path(s: Seq<Trigger>)
    ensures
        sorted_by_path(sort_by_path(s)),
        sort_by_path(s).to_multiset() == s.to_multiset(),
        sort_by_path(s).len() == s.len(),
    decreases s.len(),
{
    broadcast use group_to_multiset_ensures;

    if s.len() == 0 {
    } else {
        let front = sort_by_path(s.drop_last());
        lemma_sort_by_path(s.drop_last());
        lemma_insert_keeps_sorted(front, s.last());
        lemma_insert_position(front, s.last());
        to_multiset_insert(front, insert_position(front, s.last()) as int, s.last());
        assert(s == s.drop_last().push(s.last()));
        to_multiset_build(s.drop_last(), s.last());
    }
}

/// A sorted sequence is its own sorting.
pub proof fn lemma_sort_of_sorted(s: Seq<Trigger>)
    requires
        sorted_by_path(s),
    ensures
        sort_by_path(s) == s,
    decreases s.len(),
{
    if s.len() > 0 {
        let front = s.drop_last();
        assert(sorted_by_path(front)) by {
            assert forall|i: int, j: int| 0 <= i <= j < front.len() implies path_le(
                #[trigger] front[i].path,
                #[trigger] front[j].path,
            ) by {
                assert(front[i] == s[i] && front[j] == s[j]);
            }
        }
        lemma_sort_of_sorted(front);
        if front.len() > 0 {
            assert(front.last() == s[s.len() - 2]);
            assert(path_le(s[s.len() - 2].path, s[s.len() - 1].path));
        }
        assert(insert_position(front, s.last()) == front.len());
        assert(front.insert(front.len() as int, s.last()) == s);
    }
}

/// Sorts the entries by path, keeping the order of entries of one path.
pub fn sort_triggers(v: Vec<TriggerEntry>) -> (out: Vec<TriggerEntry>)
    ensures
        out.deep_view() == sort_by_path(v.deep_view()),
{
    let mut out: Vec<TriggerEntry> = Vec::new();
    let mut i: usize = 0;
    assert(v.deep_view().take(0) == Seq::<Trigger>::empty());
    assert(out.deep_view() == Seq::<Trigger>::empty());
    while i < v.len()
        invariant
            i <= v.len(),
            out.deep_view() == sort_by_path(v.deep_view().take(i as int)),
        decreases v.len() - i,
    {
        let item = v[i].duplicate();
        let mut p: usize = out.len();
        while p > 0 && !path_le_exec(out[p - 1].path.as_str(), item.path.as_str())
            invariant
                p <= out.len(),
                forall|j: int| p <= j < out.len() ==> !path_le(#[trigger] out.deep_view()[j].path, item@.path),
            decreases p,
        {
            p -= 1;
        }
        proof {
            let before = v.deep_view().take(i as int);
            let after = v.deep_view().take(i + 1);
            assert(after.drop_last() == before);
            assert(after.last() == item@);
            lemma_insert_position_is(out.deep_view(), item@, p as int);
        }
        let ghost old_out = out.deep_view();
        out.insert(p, item);
        assert(out.deep_view() == old_out.insert(p as int, item@));
        i += 1;
    }
    assert(v.deep_view().take(v.len() as int) == v.deep_view());
    out
}

/// Sorting keeps the paths: the sorted entries have pairwise different paths
/// if the given ones have, and each path of either is a path of the other.
pub proof fn lemma_sort_keeps_paths(s: Seq<Trigger>)
    ensures
        paths_of(s).no_duplicates() ==> paths_of(sort_by_path(s)).no_duplicates(),
        forall|p: Seq<char>| paths_of(s).contains(p) <==> paths_of(sort_by_path(s)).contains(p),
{
    broadcast use group_to_multiset_ensures;

    let t = sort_by_path(s);
    lemma_sort_by_path(s);
    assert forall|p: Seq<char>| paths_of(s).contains(p) <==> paths_of(t).contains(p) by {
        if paths_of(s).contains(p) {
            let i = choose|i: int| 0 <= i < paths_of(s).len() && paths_of(s)[i] == p;
            assert(s.contains(s[i]));
            assert(t.to_multiset().count(s[i]) > 0);
            assert(t.contains(s[i]));
            let j = choose|j: int| 0 <= j < t.len() && t[j] == s[i];
            assert(paths_of(t)[j] == p);
        }
        if paths_of(t).contains(p) {
            let i = choose|i: int| 0 <= i < paths_of(t).len() && paths_of(t)[i] == p;
            assert(t.contains(t[i]));
            assert(s.to_multiset().count(t[i]) > 0);
            assert(s.contains(t[i]));
            let j = choose|j: int| 0 <= j < s.len() && s[j] == t[i];
            assert(paths_of(s)[j] == p);
        }
    }
    if paths_of(s).no_duplicates() {
        assert(s.no_duplicates()) by {
            assert forall|i: int, j: int| 0 <= i < s.len() && 0 <= j < s.len() && i != j implies s[i]
                != s[j] by {
                assert(paths_of(s)[i] != paths_of(s)[j]);
            }
        }
        s.lemma_multiset_has_no_duplicates();
        t.lemma_multiset_has_no_duplicates_conv();
        assert forall|i: int, j: int|
            0 <= i < t.len() && 0 <= j < t.len() && i != j implies paths_of(t)[i] != paths_of(t)[j] by {
            assert(t[i] != t[j]);
            assert(t.contains(t[i]) && t.contains(t[j]));
            assert(s.to_multiset().count(t[i]) > 0 && s.to_multiset().count(t[j]) > 0);
            assert(s.contains(t[i]) && s.contains(t[j]));
            let a = choose|a: int| 0 <= a < s.len() && s[a] == t[i];
            let b = choose|b: int| 0 <= b < s.len() && s[b] == t[j];
            assert(paths_of(s)[a] != paths_of(s)[b]);
        }
    }
}

/// Two sorted sequences of the same entries, whose paths are pairwise
/// different, are the same sequence.
pub proof fn lemma_sorted_is_unique(x: Seq<Trigger>, y: Seq<Trigger>)
    requires
        sorted_by_path(x),
        sorted_by_path(y),
        x.to_multiset() == y.to_multiset(),
        forall|i: int, j: int| 0 <= i < j < x.len() ==> (#[trigger] x[i]).path != (#[trigger] x[j]).path,
    ensures
        x == y,
    decreases x.len(),
{
    broadcast use group_to_multiset_ensures;

    x.to_multiset_ensures();
    y.to_multiset_ensures();
    assert(x.len() == y.len());
    if x.len() > 0 {
        let n = x.len() as int;
        assert(x.contains(x[n - 1]));
        assert(y.to_multiset().count(x[n - 1]) > 0);
        assert(y.contains(x[n - 1]));
        let j = choose|j: int| 0 <= j < y.len() && y[j] == x[n - 1];
        assert(y.contains(y[n - 1]));
        assert(x.to_multiset().count(y[n - 1]) > 0);
        assert(x.contains(y[n - 1]));
        let i = choose|i: int| 0 <= i < x.len() && x[i] == y[n - 1];
        assert(path_le(x[i].path, x[n - 1].path));
        assert(path_le(y[j].path, y[n - 1].path));
        lemma_path_le_antisymmetric(x[n - 1].path, y[n - 1].path);
        assert(i == n - 1);
        assert(x.last() == y.last());
        let xs = x.drop_last();
        let ys = y.drop_last();
        assert(xs == x.remove(n - 1));
        assert(ys == y.remove(n - 1));
        to_multiset_remove(x, n - 1);
        to_multiset_remove(y, n - 1);
        assert(sorted_by_path(xs)) by {
            assert forall|a: int, b: int| 0 <= a <= b < xs.len() implies path_le(
                #[trigger] xs[a].path,
                #[trigger] xs[b].path,
            ) by {
                assert(xs[a] == x[a] && xs[b] == x[b]);
            }
        }
        assert(sorted_by_path(ys)) by {
            assert forall|a: int, b: int| 0 <= a <= b < ys.len() implies path_le(
                #[trigger] ys[a].path,
                #[trigger] ys[b].path,
            ) by {
                assert(ys[a] == y[a] && ys[b] == y[b]);
            }
        }
        assert forall|a: int, b: int| 0 <= a < b < xs.len() implies (#[trigger] xs[a]).path != (
        #[trigger] xs[b]).path by {
            assert(xs[a] == x[a] && xs[b] == x[b]);
        }
        lemma_sorted_is_unique(xs, ys);
        assert(x == xs.push(x.last()));
        assert(y == ys.push(y.last()));
    }
}

/// Sorting does not depend on the order of what is sorted: two sequences of
/// the same entries, whose paths are pairwise different, are sorted to the
/// same sequence.
pub proof fn lemma_sorting_ignores_order(a: Seq<Trigger>, b: Seq<Trigger>)
    requires
        a.to_multiset() == b.to_multiset(),
        paths_of(a).no_duplicates(),
    ensures
        sort_by_path(a) == sort_by_path(b),
{
    lemma_sort_by_path(a);
    lemma_sort_by_path(b);
    lemma_sort_keeps_paths(a);
    let x = sort_by_path(a);
    assert forall|i: int, j: int| 0 <= i < j < x.len() implies (#[trigger] x[i]).path != (
    #[trigger] x[j]).path by {
        assert(paths_of(x)[i] != paths_of(x)[j]);
    }
    lemma_sorted_is_unique(x, sort_by_path(b));
}

} // verus!
