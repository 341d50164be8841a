//! What holds of the rewriting of a manifest: the lines outside the trigger
//! section are kept as they are, and a second rewriting with the same
//! triggers changes nothing.

use vstd::prelude::*;
use crate::manifest::{
    bank_end, bank_header, composed, drop_leading_blank, drop_trailing_blank, drop_trailing_empty,
    first_bank_header, first_other_section, head_of, in_trigger_block, is_bank_header, is_blank,
    is_trigger_header,
    lines_of, opens_other_section, opens_section, rewritten, rewritten_lines, strip_cr,
    tail_of, trigger_block, trigger_header, trigger_lines, unlines, without_trigger_blocks,
};
use crate::text::{first_index, is_whitespace, lemma_first_index, lemma_first_index_is, split_on, trimmed};
use crate::trigger::Trigger;

verus! {

/// A line without a line feed in it.
pub open spec fn no_line_feed(line: Seq<char>) -> bool {
    forall|i: int| 0 <= i < line.len() ==> line[i] != '\n'
}

/// A line with a carriage return at its end.
pub open spec fn ends_in_cr(line: Seq<char>) -> bool {
    line.len() > 0 && line.last() == '\r'
}

/// Text that neither starts nor ends with white space is its own trimming.
proof fn lemma_trimmed_is_self(s: Seq<char>)
    requires
        s.len() > 0,
        !is_whitespace(s[0]),
        !is_whitespace(s.last()),
    ensures
        trimmed(s) == s,
{
}

/// What kind of line a blank line, a trigger header and a bank header are.
proof fn lemma_line_kinds(line: Seq<char>)
    ensures
        is_blank(line) ==> !opens_section(line) && !is_trigger_header(line) && !is_bank_header(line),
        is_trigger_header(line) ==> opens_section(line) && !is_bank_header(line),
        is_bank_header(line) ==> opens_section(line) && !opens_other_section(line),
        line.len() == 0 ==> is_blank(line),
{
    reveal_strlit("[[triggers]]");
    reveal_strlit("[bank]");
    assert(trigger_header().len() == 12 && trigger_header()[0] == '[');
    assert(bank_header().len() == 6 && bank_header()[0] == '[');
}

/// The lines of a trigger block: the first is a trigger header, the others
/// start no section, none is empty, none ends in a carriage return, and none
/// holds a line feed that the trigger's name and path do not hold.
proof fn lemma_trigger_block(t: Trigger)
    ensures
        trigger_block(t).len() == 3,
        is_trigger_header(trigger_block(t)[0]),
        forall|k: int|
            1 <= k < 3 ==> !opens_section(#[trigger] trigger_block(t)[k]) && !is_trigger_header(
                trigger_block(t)[k],
            ),
        forall|k: int|
            0 <= k < 3 ==> (#[trigger] trigger_block(t)[k]).len() > 0 && !ends_in_cr(trigger_block(t)[k]),
        no_line_feed(t.name) && no_line_feed(t.path) ==> forall|k: int|
            0 <= k < 3 ==> no_line_feed(#[trigger] trigger_block(t)[k]),
{
    reveal_strlit("[[triggers]]");
    reveal_strlit("name = \"");
    reveal_strlit("path = \"");
    let b = trigger_block(t);
    lemma_trimmed_is_self(b[0]);
    lemma_trimmed_is_self(b[1]);
    lemma_trimmed_is_self(b[2]);
    assert(b[1][0] == 'n');
    assert(b[2][0] == 'p');
    assert(b[0][0] == '[');
    if no_line_feed(t.name) && no_line_feed(t.path) {
        assert forall|k: int| 0 <= k < 3 implies no_line_feed(#[trigger] b[k]) by {
            if k == 1 {
                assert forall|i: int| 0 <= i < b[1].len() implies b[1][i] != '\n' by {
                    if 8 <= i < 8 + t.name.len() {
                        assert(b[1][i] == t.name[i - 8]);
                    }
                }
            } else if k == 2 {
                assert forall|i: int| 0 <= i < b[2].len() implies b[2][i] != '\n' by {
                    if 8 <= i < 8 + t.path.len() {
                        assert(b[2][i] == t.path[i - 8]);
                    }
                }
            }
        }
    }
}

/// The lines of the trigger section, for at least one trigger: the first is
/// a trigger header, each is a trigger header or starts no section, the last
/// is not empty, and none ends in a carriage return.
proof fn lemma_trigger_lines(ts: Seq<Trigger>)
    requires
        ts.len() > 0,
    ensures
        trigger_lines(ts).len() >= 3,
        is_trigger_header(trigger_lines(ts)[0]),
        forall|k: int|
            0 <= k < trigger_lines(ts).len() ==> is_trigger_header(#[trigger] trigger_lines(ts)[k])
                || !opens_section(trigger_lines(ts)[k]),
        trigger_lines(ts).last().len() > 0,
        forall|k: int| 0 <= k < trigger_lines(ts).len() ==> !ends_in_cr(#[trigger] trigger_lines(ts)[k]),
        (forall|i: int| 0 <= i < ts.len() ==> no_line_feed((#[trigger] ts[i]).name) && no_line_feed(ts[i].path))
            ==> forall|k: int|
            0 <= k < trigger_lines(ts).len() ==> no_line_feed(#[trigger] trigger_lines(ts)[k]),
    decreases ts.len(),
{
    let all = trigger_lines(ts);
    let block = trigger_block(ts.last());
    lemma_trigger_block(ts.last());
    lemma_line_kinds(Seq::<char>::empty());
    let fed = forall|i: int| 0 <= i < ts.len() ==> no_line_feed((#[trigger] ts[i]).name) && no_line_feed(ts[i].path);
    if ts.len() == 1 {
        assert(ts.last() == ts[0]);
        if fed {
            assert(no_line_feed(ts[0].name) && no_line_feed(ts[0].path));
        }
    } else {
        let front = trigger_lines(ts.drop_last());
        lemma_trigger_lines(ts.drop_last());
        let n = front.len() as int;
        assert forall|k: int| 0 <= k < all.len() implies (is_trigger_header(#[trigger] all[k])
            || !opens_section(all[k])) && !ends_in_cr(all[k]) by {
            if k < n {
                assert(all[k] == front[k]);
            } else if k == n {
                assert(all[k] == Seq::<char>::empty());
            } else {
                assert(all[k] == block[k - n - 1]);
            }
        }
        assert(all[0] == front[0]);
        assert(all.last() == block[2]);
        if fed {
            assert forall|i: int| 0 <= i < ts.drop_last().len() implies no_line_feed(
                (#[trigger] ts.drop_last()[i]).name,
            ) && no_line_feed(ts.drop_last()[i].path) by {
                assert(ts.drop_last()[i] == ts[i]);
            }
            assert(no_line_feed(ts[ts.len() - 1].name) && no_line_feed(ts[ts.len() - 1].path));
            assert forall|k: int| 0 <= k < all.len() implies no_line_feed(#[trigger] all[k]) by {
                if k < n {
                    assert(all[k] == front[k]);
                } else if k == n {
                    assert(all[k] == Seq::<char>::empty());
                } else {
                    assert(all[k] == block[k - n - 1]);
                }
            }
        }
    }
}

/// No piece of a split holds the separator.
pub proof fn lemma_split_pieces(s: Seq<char>, sep: char)
    ensures
        split_on(s, sep).len() >= 1,
        forall|i: int, j: int|
            0 <= i < split_on(s, sep).len() && 0 <= j < (#[trigger] split_on(s, sep)[i]).len()
                ==> #[trigger] split_on(s, sep)[i][j] != sep,
    decreases s.len(),
{
    lemma_first_index(s, sep);
    let k = first_index(s, sep) as int;
    if k < s.len() {
        let rest = split_on(s.skip(k + 1), sep);
        lemma_split_pieces(s.skip(k + 1), sep);
        let all = split_on(s, sep);
        assert forall|i: int, j: int| 0 <= i < all.len() && 0 <= j < (#[trigger] all[i]).len() implies #[trigger] all[i][j]
            != sep by {
            if i == 0 {
                assert(all[0] == s.take(k));
                assert(all[0][j] == s[j]);
            } else {
                assert(all[i] == rest[i - 1]);
            }
        }
    }
}

/// No line of a text holds a line feed.
pub proof fn lemma_lines_have_no_line_feed(text: Seq<char>)
    ensures
        forall|i: int| 0 <= i < lines_of(text).len() ==> no_line_feed(#[trigger] lines_of(text)[i]),
{
    let pieces = split_on(text, '\n');
    lemma_split_pieces(text, '\n');
    let lines = lines_of(text);
    assert forall|i: int| 0 <= i < lines.len() implies no_line_feed(#[trigger] lines[i]) by {
        let piece = pieces[i];
        assert forall|j: int| 0 <= j < lines[i].len() implies lines[i][j] != '\n' by {
            assert(lines[i][j] == piece[j]);
            assert(pieces[i][j] != '\n');
        }
    }
}

/// Lines without line feeds, put together with a line feed behind each and
/// split at the line feeds again, are the same lines and an empty piece.
proof fn lemma_split_unlines(lines: Seq<Seq<char>>)
    requires
        forall|i: int| 0 <= i < lines.len() ==> no_line_feed(#[trigger] lines[i]),
    ensures
        split_on(unlines(lines), '\n') == lines.push(Seq::<char>::empty()),
    decreases lines.len(),
{
    if lines.len() == 0 {
        assert(split_on(Seq::<char>::empty(), '\n') == seq![Seq::<char>::empty()]);
        assert(lines.push(Seq::<char>::empty()) == seq![Seq::<char>::empty()]);
    } else {
        let first = lines[0];
        let rest = lines.drop_first();
        let text = unlines(lines);
        assert(no_line_feed(lines[0]));
        assert forall|i: int| 0 <= i < rest.len() implies no_line_feed(#[trigger] rest[i]) by {
            assert(rest[i] == lines[i + 1]);
        }
        lemma_split_unlines(rest);
        assert(text == first + seq!['\n'] + unlines(rest));
        assert forall|j: int| 0 <= j < first.len() implies text[j] != '\n' by {
            assert(text[j] == first[j]);
        }
        assert(text[first.len() as int] == '\n');
        lemma_first_index_is(text, '\n', first.len() as int);
        assert(text.take(first.len() as int) == first);
        assert(text.skip(first.len() as int + 1) == unlines(rest));
        assert(seq![first] + rest.push(Seq::<char>::empty()) == lines.push(Seq::<char>::empty()));
    }
}

/// Lines that hold no line feed and do not end in a carriage return are the
/// lines of the text that they make.
pub proof fn lemma_lines_of_unlines(lines: Seq<Seq<char>>)
    requires
        forall|i: int| 0 <= i < lines.len() ==> no_line_feed(#[trigger] lines[i]) && !ends_in_cr(lines[i]),
    ensures
        lines_of(unlines(lines)) == lines,
{
    lemma_split_unlines(lines);
    let pieces = split_on(unlines(lines), '\n');
    assert(pieces.last() == Seq::<char>::empty());
    assert forall|i: int| 0 <= i < lines.len() implies strip_cr(pieces[i]) == lines[i] by {
        assert(pieces[i] == lines[i]);
        assert(!ends_in_cr(lines[i]));
    }
    assert(lines_of(unlines(lines)) == lines);
}

/// The text of a single line feed has one line, which is empty.
proof fn lemma_lines_of_line_feed()
    ensures
        lines_of(seq!['\n']) == seq![Seq::<char>::empty()],
{
    let lines = seq![Seq::<char>::empty()];
    assert(unlines(lines) == seq!['\n']) by {
        assert(unlines(lines.drop_first()) == Seq::<char>::empty());
        assert(lines[0] + seq!['\n'] + Seq::<char>::empty() == seq!['\n']);
    }
    lemma_lines_of_unlines(lines);
}

/// Among the lines outside the trigger blocks there is no trigger header,
/// and each of them is one of the given lines.
pub proof fn lemma_kept_lines(lines: Seq<Seq<char>>, inside: bool)
    ensures
        forall|i: int|
            0 <= i < without_trigger_blocks(lines, inside).len() ==> !is_trigger_header(
                #[trigger] without_trigger_blocks(lines, inside)[i],
            ) && lines.contains(without_trigger_blocks(lines, inside)[i]),
    decreases lines.len(),
{
    if lines.len() > 0 {
        let rest = lines.drop_first();
        let kept = without_trigger_blocks(lines, inside);
        if is_trigger_header(lines[0]) || (inside && !opens_section(lines[0])) {
            lemma_kept_lines(rest, true);
            let tail = without_trigger_blocks(rest, true);
            assert forall|i: int| 0 <= i < kept.len() implies !is_trigger_header(#[trigger] kept[i])
                && lines.contains(kept[i]) by {
                assert(kept[i] == tail[i]);
                assert(rest.contains(tail[i]));
                let j = choose|j: int| 0 <= j < rest.len() && rest[j] == tail[i];
                assert(lines[j + 1] == kept[i]);
            }
        } else {
            lemma_kept_lines(rest, false);
            let tail = without_trigger_blocks(rest, false);
            assert forall|i: int| 0 <= i < kept.len() implies !is_trigger_header(#[trigger] kept[i])
                && lines.contains(kept[i]) by {
                if i == 0 {
                    assert(lines[0] == kept[0]);
                } else {
                    assert(kept[i] == tail[i - 1]);
                    assert(rest.contains(tail[i - 1]));
                    let j = choose|j: int| 0 <= j < rest.len() && rest[j] == tail[i - 1];
                    assert(lines[j + 1] == kept[i]);
                }
            }
        }
    }
}

/// Lines without a trigger header at the start of a text are all kept.
proof fn lemma_keeps_plain_start(a: Seq<Seq<char>>, b: Seq<Seq<char>>)
    requires
        forall|i: int| 0 <= i < a.len() ==> !is_trigger_header(#[trigger] a[i]),
    ensures
        without_trigger_blocks(a + b, false) == a + without_trigger_blocks(b, false),
    decreases a.len(),
{
    if a.len() == 0 {
        assert(a + b == b);
        assert(a + without_trigger_blocks(b, false) == without_trigger_blocks(b, false));
    } else {
        assert((a + b)[0] == a[0]);
        assert((a + b).drop_first() == a.drop_first() + b);
        assert forall|i: int| 0 <= i < a.drop_first().len() implies !is_trigger_header(
            #[trigger] a.drop_first()[i],
        ) by {
            assert(a.drop_first()[i] == a[i + 1]);
        }
        lemma_keeps_plain_start(a.drop_first(), b);
        assert(seq![a[0]] + (a.drop_first() + without_trigger_blocks(b, false)) == a
            + without_trigger_blocks(b, false));
    }
}

/// Inside a trigger block, lines that are trigger headers or start no
/// section are all dropped.
proof fn lemma_drops_block(a: Seq<Seq<char>>, b: Seq<Seq<char>>)
    requires
        forall|i: int| 0 <= i < a.len() ==> is_trigger_header(#[trigger] a[i]) || !opens_section(a[i]),
    ensures
        without_trigger_blocks(a + b, true) == without_trigger_blocks(b, true),
    decreases a.len(),
{
    if a.len() == 0 {
        assert(a + b == b);
    } else {
        assert((a + b)[0] == a[0]);
        assert((a + b).drop_first() == a.drop_first() + b);
        assert forall|i: int| 0 <= i < a.drop_first().len() implies is_trigger_header(
            #[trigger] a.drop_first()[i],
        ) || !opens_section(a.drop_first()[i]) by {
            assert(a.drop_first()[i] == a[i + 1]);
        }
        lemma_drops_block(a.drop_first(), b);
    }
}

/// A trigger block ends where lines without trigger headers begin with a
/// line that starts a section, or where the lines end.
proof fn lemma_block_ends(b: Seq<Seq<char>>)
    requires
        forall|i: int| 0 <= i < b.len() ==> !is_trigger_header(#[trigger] b[i]),
        b.len() > 0 ==> opens_section(b[0]),
    ensures
        without_trigger_blocks(b, true) == b,
{
    if b.len() > 0 {
        assert(!is_trigger_header(b[0]));
        assert forall|i: int| 0 <= i < b.drop_first().len() implies !is_trigger_header(
            #[trigger] b.drop_first()[i],
        ) by {
            assert(b.drop_first()[i] == b[i + 1]);
        }
        lemma_keeps_plain_start(b.drop_first(), Seq::<Seq<char>>::empty());
        assert(b.drop_first() + Seq::<Seq<char>>::empty() == b.drop_first());
        assert(without_trigger_blocks(Seq::<Seq<char>>::empty(), false) == Seq::<Seq<char>>::empty());
        assert(seq![b[0]] + b.drop_first() == b);
    }
}

proof fn lemma_first_bank_header(lines: Seq<Seq<char>>)
    ensures
        first_bank_header(lines) <= lines.len(),
        forall|j: int| 0 <= j < first_bank_header(lines) ==> !is_bank_header(#[trigger] lines[j]),
        first_bank_header(lines) < lines.len() ==> is_bank_header(
            lines[first_bank_header(lines) as int],
        ),
    decreases lines.len(),
{
    if lines.len() == 0 || is_bank_header(lines[0]) {
    } else {
        let rest = lines.drop_first();
        lemma_first_bank_header(rest);
        let k = first_bank_header(rest) as int;
        assert forall|j: int| 0 <= j < first_bank_header(lines) implies !is_bank_header(
            #[trigger] lines[j],
        ) by {
            if j > 0 {
                assert(lines[j] == rest[j - 1]);
            }
        }
        if first_bank_header(lines) < lines.len() {
            assert(lines[k + 1] == rest[k]);
        }
    }
}

proof fn lemma_first_bank_header_is(lines: Seq<Seq<char>>, k: int)
    requires
        0 <= k <= lines.len(),
        forall|j: int| 0 <= j < k ==> !is_bank_header(#[trigger] lines[j]),
        k < lines.len() ==> is_bank_header(lines[k]),
    ensures
        first_bank_header(lines) == k,
{
    lemma_first_bank_header(lines);
    let f = first_bank_header(lines) as int;
    if f < k {
        assert(!is_bank_header(lines[f]));
    } else if k < f {
        assert(!is_bank_header(lines[k]));
    }
}

proof fn lemma_first_other_section(lines: Seq<Seq<char>>)
    ensures
        first_other_section(lines) <= lines.len(),
        forall|j: int| 0 <= j < first_other_section(lines) ==> !opens_other_section(#[trigger] lines[j]),
        first_other_section(lines) < lines.len() ==> opens_other_section(
            lines[first_other_section(lines) as int],
        ),
    decreases lines.len(),
{
    if lines.len() == 0 || opens_other_section(lines[0]) {
    } else {
        let rest = lines.drop_first();
        lemma_first_other_section(rest);
        let k = first_other_section(rest) as int;
        assert forall|j: int| 0 <= j < first_other_section(lines) implies !opens_other_section(
            #[trigger] lines[j],
        ) by {
            if j > 0 {
                assert(lines[j] == rest[j - 1]);
            }
        }
        if first_other_section(lines) < lines.len() {
            assert(lines[k + 1] == rest[k]);
        }
    }
}

proof fn lemma_first_other_section_is(lines: Seq<Seq<char>>, k: int)
    requires
        0 <= k <= lines.len(),
        forall|j: int| 0 <= j < k ==> !opens_other_section(#[trigger] lines[j]),
        k < lines.len() ==> opens_other_section(lines[k]),
    ensures
        first_other_section(lines) == k,
{
    lemma_first_other_section(lines);
    let f = first_other_section(lines) as int;
    if f < k {
        assert(!opens_other_section(lines[f]));
    } else if k < f {
        assert(!opens_other_section(lines[k]));
    }
}

proof fn lemma_drop_trailing_blank(lines: Seq<Seq<char>>)
    ensures
        drop_trailing_blank(lines).len() <= lines.len(),
        drop_trailing_blank(lines) == lines.take(drop_trailing_blank(lines).len() as int),
        drop_trailing_blank(lines).len() > 0 ==> !is_blank(drop_trailing_blank(lines).last()),
        forall|i: int| drop_trailing_blank(lines).len() <= i < lines.len() ==> is_blank(#[trigger] lines[i]),
    decreases lines.len(),
{
    if lines.len() > 0 && is_blank(lines.last()) {
        let front = lines.drop_last();
        lemma_drop_trailing_blank(front);
        let r = drop_trailing_blank(front);
        assert(front.take(r.len() as int) == lines.take(r.len() as int));
        assert forall|i: int| r.len() <= i < lines.len() implies is_blank(#[trigger] lines[i]) by {
            if i < front.len() {
                assert(lines[i] == front[i]);
            }
        }
    } else {
        assert(lines == lines.take(lines.len() as int));
    }
}

proof fn lemma_drop_leading_blank(lines: Seq<Seq<char>>)
    ensures
        drop_leading_blank(lines).len() <= lines.len(),
        drop_leading_blank(lines) == lines.skip(lines.len() - drop_leading_blank(lines).len()),
        drop_leading_blank(lines).len() > 0 ==> !is_blank(drop_leading_blank(lines)[0]),
        forall|i: int|
            0 <= i < lines.len() - drop_leading_blank(lines).len() ==> is_blank(#[trigger] lines[i]),
    decreases lines.len(),
{
    if lines.len() > 0 && is_blank(lines[0]) {
        let rest = lines.drop_first();
        lemma_drop_leading_blank(rest);
        let r = drop_leading_blank(rest);
        assert(rest.skip(rest.len() - r.len()) == lines.skip(lines.len() - r.len()));
        assert forall|i: int| 0 <= i < lines.len() - r.len() implies is_blank(#[trigger] lines[i]) by {
            if i > 0 {
                assert(lines[i] == rest[i - 1]);
            }
        }
    } else {
        assert(lines == lines.skip(0));
    }
}

proof fn lemma_drop_trailing_empty(lines: Seq<Seq<char>>)
    ensures
        drop_trailing_empty(lines).len() <= lines.len(),
        drop_trailing_empty(lines) == lines.take(drop_trailing_empty(lines).len() as int),
        drop_trailing_empty(lines).len() > 0 ==> drop_trailing_empty(lines).last().len() > 0,
    decreases lines.len(),
{
    if lines.len() > 0 && lines.last().len() == 0 {
        let front = lines.drop_last();
        lemma_drop_trailing_empty(front);
        let r = drop_trailing_empty(front);
        assert(front.take(r.len() as int) == lines.take(r.len() as int));
    } else {
        assert(lines == lines.take(lines.len() as int));
    }
}

/// Blank lines behind lines that do not end in a blank line are what is
/// dropped from the end.
proof fn lemma_blank_end_dropped(h: Seq<Seq<char>>, sep: Seq<Seq<char>>)
    requires
        h.len() > 0 ==> !is_blank(h.last()),
        forall|i: int| 0 <= i < sep.len() ==> is_blank(#[trigger] sep[i]),
    ensures
        drop_trailing_blank(h + sep) == h,
    decreases sep.len(),
{
    if sep.len() == 0 {
        assert(h + sep == h);
    } else {
        assert((h + sep).last() == sep[sep.len() - 1]);
        assert((h + sep).drop_last() == h + sep.drop_last());
        assert forall|i: int| 0 <= i < sep.drop_last().len() implies is_blank(
            #[trigger] sep.drop_last()[i],
        ) by {
            assert(sep.drop_last()[i] == sep[i]);
        }
        lemma_blank_end_dropped(h, sep.drop_last());
    }
}

/// Behind a line that is not empty, the empty lines at the end are dropped
/// from what follows it alone.
proof fn lemma_empty_end_dropped(a: Seq<Seq<char>>, b: Seq<Seq<char>>)
    requires
        b.len() > 0,
        b[0].len() > 0,
    ensures
        drop_trailing_empty(a + b) == a + drop_trailing_empty(b),
        drop_trailing_empty(b).len() > 0,
        drop_trailing_empty(b)[0] == b[0],
    decreases b.len(),
{
    assert((a + b).last() == b.last());
    if b.last().len() == 0 {
        assert(b.len() > 1);
        assert((a + b).drop_last() == a + b.drop_last());
        assert(b.drop_last()[0] == b[0]);
        lemma_empty_end_dropped(a, b.drop_last());
    }
}

/// A head and a tail as a rewriting leaves them: the head ends in no blank
/// line and holds the whole bank section, if there is one; the tail, if
/// there is one, lies behind a bank section and starts with the header of
/// another section; neither holds a trigger header.
pub open spec fn is_settled(head: Seq<Seq<char>>, tail: Seq<Seq<char>>) -> bool {
    &&& head.len() > 0 ==> !is_blank(head.last())
    &&& bank_end(head) == head.len()
    &&& tail.len() > 0 ==> first_bank_header(head) < head.len() && opens_other_section(tail[0])
    &&& forall|i: int| 0 <= i < head.len() ==> !is_trigger_header(#[trigger] head[i])
    &&& forall|i: int| 0 <= i < tail.len() ==> !is_trigger_header(#[trigger] tail[i])
}

/// The head and the tail of lines without trigger headers are settled; the
/// head is the start of the lines, the tail is their end, and what lies
/// between them is blank.
pub proof fn lemma_head_and_tail(kept: Seq<Seq<char>>)
    requires
        forall|i: int| 0 <= i < kept.len() ==> !is_trigger_header(#[trigger] kept[i]),
    ensures
        is_settled(head_of(kept), tail_of(kept)),
        head_of(kept).len() + tail_of(kept).len() <= kept.len(),
        head_of(kept) == kept.take(head_of(kept).len() as int),
        tail_of(kept) == kept.skip(kept.len() - tail_of(kept).len()),
        forall|i: int|
            head_of(kept).len() <= i < kept.len() - tail_of(kept).len() ==> is_blank(#[trigger] kept[i]),
{
    let n = kept.len() as int;
    let e = bank_end(kept) as int;
    let b = first_bank_header(kept) as int;
    let h = head_of(kept);
    let t = tail_of(kept);
    lemma_first_bank_header(kept);
    if b < n {
        lemma_first_other_section(kept.skip(b + 1));
    }
    assert(0 <= e <= n);
    lemma_drop_trailing_blank(kept.take(e));
    lemma_drop_leading_blank(kept.skip(e));
    let hl = h.len() as int;
    assert(h == kept.take(hl)) by {
        assert(kept.take(e).take(hl) == kept.take(hl));
    }
    assert forall|i: int| 0 <= i < h.len() implies !is_trigger_header(#[trigger] h[i]) by {
        assert(h[i] == kept[i]);
    }
    assert forall|i: int| hl <= i < e implies is_blank(#[trigger] kept[i]) by {
        assert(kept.take(e)[i] == kept[i]);
    }
    if b < n {
        let o = first_other_section(kept.skip(b + 1)) as int;
        assert(e == b + 1 + o);
        lemma_line_kinds(kept[b]);
        assert(b < hl) by {
            if hl <= b {
                assert(is_blank(kept[b]));
            }
        }
        assert forall|j: int| 0 <= j < b implies !is_bank_header(#[trigger] h[j]) by {
            assert(h[j] == kept[j]);
        }
        assert(h[b] == kept[b]);
        lemma_first_bank_header_is(h, b);
        let behind = h.skip(b + 1);
        assert forall|j: int| 0 <= j < behind.len() implies !opens_other_section(#[trigger] behind[j]) by {
            assert(behind[j] == kept.skip(b + 1)[j]);
        }
        lemma_first_other_section_is(behind, behind.len() as int);
        assert(bank_end(h) == h.len());
        if e < n {
            assert(kept.skip(b + 1)[o] == kept[e]);
            lemma_line_kinds(kept[e]);
            assert(kept.skip(e)[0] == kept[e]);
            assert(t == kept.skip(e));
            assert(t[0] == kept[e]);
        } else {
            assert(kept.skip(e) == Seq::<Seq<char>>::empty());
        }
    } else {
        assert forall|j: int| 0 <= j < h.len() implies !is_bank_header(#[trigger] h[j]) by {
            assert(h[j] == kept[j]);
        }
        lemma_first_bank_header_is(h, h.len() as int);
        assert(kept.skip(e) == Seq::<Seq<char>>::empty());
    }
    assert(t == kept.skip(n - t.len())) by {
        assert(kept.skip(e).skip((n - e) - t.len()) == kept.skip(n - t.len()));
    }
    assert forall|i: int| 0 <= i < t.len() implies !is_trigger_header(#[trigger] t[i]) by {
        assert(t[i] == kept[n - t.len() + i]);
    }
    assert forall|i: int| hl <= i < n - t.len() implies is_blank(#[trigger] kept[i]) by {
        if i >= e {
            assert(kept.skip(e)[i - e] == kept[i]);
        }
    }
}

/// Where blank lines stand between a settled head and tail, the bank section
/// ends behind the blank lines.
proof fn lemma_bank_end_of_settled(h: Seq<Seq<char>>, sep: Seq<Seq<char>>, t: Seq<Seq<char>>)
    requires
        is_settled(h, t),
        forall|i: int| 0 <= i < sep.len() ==> is_blank(#[trigger] sep[i]),
    ensures
        bank_end(h + sep + t) == h.len() + sep.len(),
{
    let all = h + sep + t;
    let b = first_bank_header(h) as int;
    lemma_first_bank_header(h);
    assert forall|i: int| 0 <= i < sep.len() implies !is_bank_header(#[trigger] sep[i])
        && !opens_other_section(sep[i]) by {
        lemma_line_kinds(sep[i]);
    }
    if b < h.len() {
        assert forall|j: int| 0 <= j < b implies !is_bank_header(#[trigger] all[j]) by {
            assert(all[j] == h[j]);
        }
        assert(all[b] == h[b]);
        lemma_first_bank_header_is(all, b);
        let behind = all.skip(b + 1);
        let inner = h.skip(b + 1);
        lemma_first_other_section(inner);
        let k = h.len() - b - 1 + sep.len();
        assert forall|j: int| 0 <= j < k implies !opens_other_section(#[trigger] behind[j]) by {
            if j < inner.len() {
                assert(behind[j] == inner[j]);
            } else {
                assert(behind[j] == sep[j - inner.len()]);
            }
        }
        if t.len() > 0 {
            assert(behind[k] == t[0]);
        }
        lemma_first_other_section_is(behind, k);
    } else {
        assert(t.len() == 0);
        assert forall|j: int| 0 <= j < all.len() implies !is_bank_header(#[trigger] all[j]) by {
            if j < h.len() {
                assert(all[j] == h[j]);
            } else {
                assert(all[j] == sep[j - h.len()]);
            }
        }
        lemma_first_bank_header_is(all, all.len() as int);
    }
}

/// Lines made of a settled head, blank lines and a settled tail have that
/// head and that tail.
proof fn lemma_split_of_settled(h: Seq<Seq<char>>, sep: Seq<Seq<char>>, t: Seq<Seq<char>>)
    requires
        is_settled(h, t),
        forall|i: int| 0 <= i < sep.len() ==> is_blank(#[trigger] sep[i]),
    ensures
        head_of(h + sep + t) == h,
        tail_of(h + sep + t) == t,
{
    let all = h + sep + t;
    let e = h.len() + sep.len();
    lemma_bank_end_of_settled(h, sep, t);
    assert(all.take(e as int) == h + sep);
    assert(all.skip(e as int) == t);
    lemma_blank_end_dropped(h, sep);
    if t.len() > 0 {
        lemma_line_kinds(t[0]);
    }
}

/// What the head, the tail and the lines of a rewriting are, for any text:
/// the head and the tail are settled, the text that is written is that of
/// the head, the triggers and the tail without the empty lines at its end,
/// and that tail is settled with the head too.
proof fn lemma_first_rewriting(text: Seq<char>, ts: Seq<Trigger>)
    ensures
        ({
            let kept = without_trigger_blocks(lines_of(text), false);
            let h = head_of(kept);
            let t = drop_trailing_empty(tail_of(kept));
            &&& is_settled(h, t)
            &&& drop_trailing_empty(rewritten_lines(text, ts)) == composed(h, ts, t)
            &&& forall|i: int| 0 <= i < h.len() ==> no_line_feed(#[trigger] h[i])
            &&& forall|i: int| 0 <= i < t.len() ==> no_line_feed(#[trigger] t[i])
        }),
{
    let lines = lines_of(text);
    let kept = without_trigger_blocks(lines, false);
    let h = head_of(kept);
    let t0 = tail_of(kept);
    let t = drop_trailing_empty(t0);
    let empty = Seq::<char>::empty();
    let none = Seq::<Seq<char>>::empty();
    lemma_kept_lines(lines, false);
    lemma_lines_have_no_line_feed(text);
    lemma_head_and_tail(kept);
    lemma_drop_trailing_empty(t0);
    lemma_line_kinds(empty);
    assert forall|i: int| 0 <= i < kept.len() implies no_line_feed(#[trigger] kept[i]) by {
        assert(lines.contains(kept[i]));
        let j = choose|j: int| 0 <= j < lines.len() && lines[j] == kept[i];
        assert(no_line_feed(lines[j]));
    }
    assert forall|i: int| 0 <= i < h.len() implies no_line_feed(#[trigger] h[i]) by {
        assert(h[i] == kept[i]);
    }
    assert forall|i: int| 0 <= i < t.len() implies no_line_feed(#[trigger] t[i])
        && !is_trigger_header(t[i]) by {
        assert(t[i] == t0[i]);
        assert(t0[i] == kept[kept.len() - t0.len() + i]);
    }
    let r = rewritten_lines(text, ts);
    assert(r == composed(h, ts, t0));
    if t0.len() > 0 {
        assert(t0[0].len() > 0);
        let front = if ts.len() == 0 {
            h
        } else {
            h + seq![empty] + trigger_lines(ts) + seq![empty]
        };
        assert(r == front + t0);
        lemma_empty_end_dropped(front, t0);
        assert(composed(h, ts, t) == front + t);
    } else {
        assert(t == none);
        if ts.len() == 0 {
            assert(r == h);
            assert(h + none == h);
            if h.len() > 0 {
                assert(h.last().len() > 0);
            }
        } else {
            lemma_trigger_lines(ts);
            assert(r.last() == trigger_lines(ts).last());
        }
    }
}

/// The trigger section of `ts`, read again as text, is trigger blocks and
/// nothing else: no line of it is left when the trigger blocks are taken out.
pub open spec fn reads_as_trigger_blocks(ts: Seq<Trigger>) -> bool {
    without_trigger_blocks(lines_of(unlines(trigger_lines(ts))), false).len() == 0
}

/// Lines put together are the first of them put together, and then the
/// others.
proof fn lemma_unlines_concat(a: Seq<Seq<char>>, b: Seq<Seq<char>>)
    ensures
        unlines(a + b) == unlines(a) + unlines(b),
    decreases a.len(),
{
    if a.len() == 0 {
        assert(a + b == b);
        assert(unlines(a) + unlines(b) == unlines(b));
    } else {
        assert((a + b)[0] == a[0]);
        assert((a + b).drop_first() == a.drop_first() + b);
        lemma_unlines_concat(a.drop_first(), b);
        assert(a[0] + seq!['\n'] + (unlines(a.drop_first()) + unlines(b)) == (a[0] + seq!['\n']
            + unlines(a.drop_first())) + unlines(b));
    }
}

/// The text of at least one line ends with a line feed.
proof fn lemma_unlines_ends(a: Seq<Seq<char>>)
    requires
        a.len() > 0,
    ensures
        unlines(a).len() > 0,
        unlines(a).last() == '\n',
    decreases a.len(),
{
    let rest = unlines(a.drop_first());
    let text = unlines(a);
    assert(text == a[0] + seq!['\n'] + rest);
    if a.len() == 1 {
        assert(rest == Seq::<char>::empty());
        assert(text[a[0].len() as int] == '\n');
    } else {
        lemma_unlines_ends(a.drop_first());
        assert(text.last() == rest.last());
    }
}

/// The split of a text that ends with the separator ends with an empty
/// piece, and more text behind it is split on its own.
proof fn lemma_split_concat(x: Seq<char>, y: Seq<char>, sep: char)
    requires
        x.len() > 0,
        x.last() == sep,
    ensures
        split_on(x, sep).len() >= 1,
        split_on(x, sep).last().len() == 0,
        split_on(x + y, sep) == split_on(x, sep).drop_last() + split_on(y, sep),
    decreases x.len(),
{
    lemma_first_index(x, sep);
    let k = first_index(x, sep) as int;
    assert(k < x.len()) by {
        if k >= x.len() {
            assert(x[x.len() - 1] != sep);
        }
    }
    let all = x + y;
    assert forall|j: int| 0 <= j < k implies all[j] != sep by {
        assert(all[j] == x[j]);
    }
    assert(all[k] == x[k]);
    lemma_first_index_is(all, sep, k);
    let rest = x.skip(k + 1);
    assert(all.take(k) == x.take(k));
    assert(all.skip(k + 1) == rest + y);
    lemma_split_pieces(y, sep);
    if rest.len() == 0 {
        assert(rest + y == y);
        assert(rest == Seq::<char>::empty());
        assert(first_index(rest, sep) == 0);
        assert(split_on(rest, sep) == seq![Seq::<char>::empty()]);
        assert(split_on(x, sep).drop_last() == seq![x.take(k)]);
    } else {
        assert(rest.last() == x.last());
        lemma_split_concat(rest, y, sep);
        let pieces = split_on(rest, sep);
        assert((seq![x.take(k)] + pieces).drop_last() == seq![x.take(k)] + pieces.drop_last());
        assert(seq![x.take(k)] + (pieces.drop_last() + split_on(y, sep)) == seq![x.take(k)]
            + pieces.drop_last() + split_on(y, sep));
    }
}

/// The lines of a text that ends with a line feed, with more text behind
/// it, are its lines and then the lines of the other text.
proof fn lemma_lines_concat(x: Seq<char>, y: Seq<char>)
    requires
        x.len() == 0 || x.last() == '\n',
    ensures
        lines_of(x + y) == lines_of(x) + lines_of(y),
{
    if x.len() == 0 {
        assert(x + y == y);
        assert(split_on(x, '\n') == seq![x]);
        assert(lines_of(x) == Seq::<Seq<char>>::empty());
        assert(lines_of(x) + lines_of(y) == lines_of(y));
    } else {
        lemma_split_concat(x, y, '\n');
        lemma_split_pieces(y, '\n');
        let px = split_on(x, '\n');
        let py = split_on(y, '\n');
        let p = split_on(x + y, '\n');
        assert(p == px.drop_last() + py);
        assert(p.last() == py.last());
        let ended = Seq::new((p.len() - 1) as nat, |i: int| strip_cr(p[i]));
        let ended_x = Seq::new((px.len() - 1) as nat, |i: int| strip_cr(px[i]));
        let ended_y = Seq::new((py.len() - 1) as nat, |i: int| strip_cr(py[i]));
        assert(ended == ended_x + ended_y) by {
            assert forall|i: int| 0 <= i < ended.len() implies ended[i] == (ended_x + ended_y)[i] by {
                if i < px.len() - 1 {
                    assert(p[i] == px[i]);
                } else {
                    assert(p[i] == py[i - (px.len() - 1)]);
                }
            }
        }
        assert(lines_of(x) == ended_x);
        if py.last().len() != 0 {
            assert(ended.push(py.last()) == ended_x + ended_y.push(py.last()));
        }
    }
}

/// The lines that are kept of lines and more lines behind them are what is
/// kept of the first and then what is kept of the others, which start in a
/// trigger block if the first end in one.
proof fn lemma_kept_concat(a: Seq<Seq<char>>, b: Seq<Seq<char>>, inside: bool)
    ensures
        without_trigger_blocks(a + b, inside) == without_trigger_blocks(a, inside)
            + without_trigger_blocks(b, ends_inside(a, inside)),
    decreases a.len(),
{
    if a.len() == 0 {
        assert(a + b == b);
        assert(without_trigger_blocks(a, inside) + without_trigger_blocks(b, inside)
            == without_trigger_blocks(b, inside));
    } else {
        let next = is_trigger_header(a[0]) || (inside && !opens_section(a[0]));
        assert((a + b)[0] == a[0]);
        assert((a + b).drop_first() == a.drop_first() + b);
        lemma_kept_concat(a.drop_first(), b, next);
        if !next {
            assert(seq![a[0]] + (without_trigger_blocks(a.drop_first(), false) + without_trigger_blocks(
                b,
                ends_inside(a, inside),
            )) == (seq![a[0]] + without_trigger_blocks(a.drop_first(), false)) + without_trigger_blocks(
                b,
                ends_inside(a, inside),
            ));
        }
    }
}

/// Lines of which none is kept end in a trigger block.
proof fn lemma_all_dropped(a: Seq<Seq<char>>, inside: bool)
    requires
        a.len() > 0,
        without_trigger_blocks(a, inside).len() == 0,
    ensures
        ends_inside(a, inside),
    decreases a.len(),
{
    let rest = a.drop_first();
    if !(is_trigger_header(a[0]) || (inside && !opens_section(a[0]))) {
        assert(without_trigger_blocks(a, inside)[0] == a[0]);
    }
    assert(without_trigger_blocks(a, inside) == without_trigger_blocks(rest, true));
    assert(ends_inside(a, inside) == ends_inside(rest, true));
    if rest.len() > 0 {
        lemma_all_dropped(rest, true);
    } else {
        assert(ends_inside(rest, true));
    }
}

/// A trigger section whose names and paths hold no line feed reads as
/// trigger blocks.
pub proof fn lemma_plain_triggers_read_as_blocks(ts: Seq<Trigger>)
    requires
        forall|i: int| 0 <= i < ts.len() ==> no_line_feed((#[trigger] ts[i]).name) && no_line_feed(ts[i].path),
    ensures
        reads_as_trigger_blocks(ts),
{
    let none = Seq::<Seq<char>>::empty();
    let tl = trigger_lines(ts);
    if ts.len() > 0 {
        lemma_trigger_lines(ts);
        lemma_lines_of_unlines(tl);
        assert(without_trigger_blocks(tl, false) == without_trigger_blocks(tl.drop_first(), true));
        assert forall|i: int| 0 <= i < tl.drop_first().len() implies is_trigger_header(
            #[trigger] tl.drop_first()[i],
        ) || !opens_section(tl.drop_first()[i]) by {
            assert(tl.drop_first()[i] == tl[i + 1]);
        }
        lemma_drops_block(tl.drop_first(), none);
        assert(tl.drop_first() + none == tl.drop_first());
    } else {
        lemma_lines_of_unlines(tl);
    }
}

/// The lines of the text of a rewritten manifest whose head and tail are
/// made of lines without line feed and without a carriage return at the
/// end: the head and the tail as they are, and between them what the text
/// of the trigger section reads as.
proof fn lemma_lines_of_composed(h: Seq<Seq<char>>, ts: Seq<Trigger>, t: Seq<Seq<char>>)
    requires
        forall|i: int| 0 <= i < h.len() ==> no_line_feed(#[trigger] h[i]) && !ends_in_cr(h[i]),
        forall|i: int| 0 <= i < t.len() ==> no_line_feed(#[trigger] t[i]) && !ends_in_cr(t[i]),
    ensures
        lines_of(unlines(composed(h, ts, t))) == if ts.len() == 0 {
            h + t
        } else {
            h + seq![Seq::<char>::empty()] + lines_of(unlines(trigger_lines(ts))) + (if t.len() == 0 {
                t
            } else {
                seq![Seq::<char>::empty()] + t
            })
        },
        ts.len() > 0 ==> lines_of(unlines(trigger_lines(ts))).len() > 0,
{
    let empty = Seq::<char>::empty();
    let x = composed(h, ts, t);
    if ts.len() == 0 {
        assert forall|i: int| 0 <= i < x.len() implies no_line_feed(#[trigger] x[i]) && !ends_in_cr(
            x[i],
        ) by {
            if i < h.len() {
                assert(x[i] == h[i]);
            } else {
                assert(x[i] == t[i - h.len()]);
            }
        }
        lemma_lines_of_unlines(x);
    } else {
        let a = h + seq![empty];
        let c = trigger_lines(ts);
        let e = if t.len() == 0 {
            t
        } else {
            seq![empty] + t
        };
        assert(x == a + c + e);
        assert forall|i: int| 0 <= i < a.len() implies no_line_feed(#[trigger] a[i]) && !ends_in_cr(
            a[i],
        ) by {
            if i < h.len() {
                assert(a[i] == h[i]);
            } else {
                assert(a[i] == empty);
            }
        }
        assert forall|i: int| 0 <= i < e.len() implies no_line_feed(#[trigger] e[i]) && !ends_in_cr(
            e[i],
        ) by {
            if t.len() > 0 {
                if i == 0 {
                    assert(e[i] == empty);
                } else {
                    assert(e[i] == t[i - 1]);
                }
            }
        }
        lemma_trigger_lines(ts);
        lemma_unlines_concat(a + c, e);
        lemma_unlines_concat(a, c);
        lemma_unlines_ends(a);
        lemma_unlines_ends(c);
        assert((unlines(a) + unlines(c)).last() == unlines(c).last());
        lemma_lines_concat(unlines(a) + unlines(c), unlines(e));
        lemma_lines_concat(unlines(a), unlines(c));
        lemma_lines_of_unlines(a);
        lemma_lines_of_unlines(e);
        // the trigger section reads as at least its first line
        let first = seq![c[0]];
        assert(c == first + c.drop_first());
        lemma_unlines_concat(first, c.drop_first());
        lemma_unlines_ends(first);
        lemma_lines_concat(unlines(first), unlines(c.drop_first()));
        lemma_trigger_block(ts[0]);
        assert(c[0] == trigger_header()) by {
            lemma_first_trigger_line(ts);
        }
        assert(no_line_feed(c[0]) && !ends_in_cr(c[0])) by {
            reveal_strlit("[[triggers]]");
        }
        lemma_lines_of_unlines(first);
        assert(h + seq![empty] + lines_of(unlines(c)) + e == a + lines_of(unlines(c)) + e);
    }
}

/// The first line of a trigger section is the trigger header.
proof fn lemma_first_trigger_line(ts: Seq<Trigger>)
    requires
        ts.len() > 0,
    ensures
        trigger_lines(ts).len() > 0,
        trigger_lines(ts)[0] == trigger_header(),
    decreases ts.len(),
{
    if ts.len() > 1 {
        lemma_first_trigger_line(ts.drop_last());
    }
}

/// What is kept of the lines of a rewritten manifest, where the trigger
/// section reads as trigger blocks and the head and the tail are settled:
/// the head, an empty line, and the tail.
proof fn lemma_kept_of_reread(
    h: Seq<Seq<char>>,
    section: Seq<Seq<char>>,
    t: Seq<Seq<char>>,
)
    requires
        is_settled(h, t),
        section.len() > 0,
        without_trigger_blocks(section, false).len() == 0,
    ensures
        without_trigger_blocks(
            h + seq![Seq::<char>::empty()] + section + (if t.len() == 0 {
                t
            } else {
                seq![Seq::<char>::empty()] + t
            }),
            false,
        ) == h + seq![Seq::<char>::empty()] + t,
{
    let empty = Seq::<char>::empty();
    let none = Seq::<Seq<char>>::empty();
    let a = h + seq![empty];
    let post = if t.len() == 0 {
        none
    } else {
        seq![empty]
    };
    let e = if t.len() == 0 {
        t
    } else {
        seq![empty] + t
    };
    lemma_line_kinds(empty);
    assert forall|i: int| 0 <= i < a.len() implies !is_trigger_header(#[trigger] a[i]) by {
        if i < h.len() {
            assert(a[i] == h[i]);
        } else {
            assert(a[i] == empty);
        }
    }
    assert(a + section + e == a + (section + e));
    lemma_keeps_plain_start(a, section + e);
    lemma_kept_concat(section, e, false);
    lemma_all_dropped(section, false);
    assert(e == post + t);
    lemma_drops_block(post, t);
    lemma_block_ends(t);
    assert(without_trigger_blocks(section, false) == none);
    assert(none + t == t);
    assert(a + t == h + seq![empty] + t);
}

/// Rewriting a manifest that was rewritten with the same triggers changes
/// nothing. This is stated of triggers whose section reads as trigger
/// blocks, which it does unless a name or a path holds a line feed and a
/// section header behind it; and of a manifest in which no line that is
/// kept ends in a carriage return, which a second reading would take off.
pub proof fn lemma_rewriting_is_idempotent(text: Seq<char>, ts: Seq<Trigger>)
    requires
        reads_as_trigger_blocks(ts),
        forall|i: int|
            0 <= i < rewritten_lines(text, ts).len() ==> !ends_in_cr(#[trigger] rewritten_lines(text, ts)[i]),
    ensures
        rewritten(rewritten(text, ts), ts) == rewritten(text, ts),
{
    let kept = without_trigger_blocks(lines_of(text), false);
    let h = head_of(kept);
    let t = drop_trailing_empty(tail_of(kept));
    let r = rewritten_lines(text, ts);
    let x = composed(h, ts, t);
    let once = rewritten(text, ts);
    let empty = Seq::<char>::empty();
    let none = Seq::<Seq<char>>::empty();
    lemma_first_rewriting(text, ts);
    lemma_drop_trailing_empty(r);
    lemma_line_kinds(empty);
    assert(x == drop_trailing_empty(r));
    assert forall|i: int| 0 <= i < h.len() implies !ends_in_cr(#[trigger] h[i]) by {
        assert(x[i] == h[i]);
        assert(x[i] == r[i]);
    }
    assert forall|i: int| 0 <= i < t.len() implies !ends_in_cr(#[trigger] t[i]) by {
        let k = x.len() - t.len() + i;
        assert(x[k] == t[i]);
        assert(x[k] == r[k]);
    }
    // the lines of the text that was written, without their trigger blocks
    let sep = if x.len() == 0 || ts.len() > 0 {
        seq![empty]
    } else {
        none
    };
    let kept2 = without_trigger_blocks(lines_of(once), false);
    assert(kept2 == h + sep + t) by {
        if x.len() == 0 {
            lemma_lines_of_line_feed();
            assert(ts.len() == 0) by {
                if ts.len() > 0 {
                    lemma_first_trigger_line(ts);
                }
            }
            assert(h == none && t == none);
            assert(h + sep + t == seq![empty]);
            lemma_keeps_plain_start(seq![empty], none);
            assert(seq![empty] + none == seq![empty]);
        } else {
            lemma_lines_of_composed(h, ts, t);
            if ts.len() == 0 {
                lemma_keeps_plain_start(h, t);
                lemma_keeps_plain_start(t, none);
                assert(t + none == t);
                assert(h + none + t == h + t);
            } else {
                lemma_kept_of_reread(h, lines_of(unlines(trigger_lines(ts))), t);
            }
        }
    }
    lemma_split_of_settled(h, sep, t);
    assert(rewritten_lines(once, ts) == x);
    assert(drop_trailing_empty(x) == x) by {
        if x.len() > 0 {
            assert(x.last().len() > 0);
        }
    }
}

/// The lines of the rewritten manifest are made of the lines of the text
/// outside its trigger blocks, unchanged and in their order: the head is
/// the start of these lines, the tail is their end, only blank lines between
/// the two are left out, and the new trigger section stands between them.
pub proof fn lemma_rewriting_keeps_other_lines(text: Seq<char>, ts: Seq<Trigger>)
    ensures
        ({
            let kept = without_trigger_blocks(lines_of(text), false);
            let head = head_of(kept);
            let tail = tail_of(kept);
            &&& rewritten_lines(text, ts) == composed(head, ts, tail)
            &&& head.len() + tail.len() <= kept.len()
            &&& head == kept.take(head.len() as int)
            &&& tail == kept.skip(kept.len() - tail.len())
            &&& forall|i: int| head.len() <= i < kept.len() - tail.len() ==> is_blank(#[trigger] kept[i])
            &&& rewritten_lines(text, ts).take(head.len() as int) == head
            &&& rewritten_lines(text, ts).skip(rewritten_lines(text, ts).len() - tail.len()) == tail
        }),
{
    let kept = without_trigger_blocks(lines_of(text), false);
    lemma_kept_lines(lines_of(text), false);
    lemma_head_and_tail(kept);
    let head = head_of(kept);
    let tail = tail_of(kept);
    let r = rewritten_lines(text, ts);
    assert(r.take(head.len() as int) == head);
    assert(r.skip(r.len() - tail.len()) == tail);
}

/// Whether the end of `lines` lies in a trigger block, where `inside` says
/// so of their start.
spec fn ends_inside(lines: Seq<Seq<char>>, inside: bool) -> bool
    decreases lines.len(),
{
    if lines.len() == 0 {
        inside
    } else {
        ends_inside(
            lines.drop_first(),
            is_trigger_header(lines[0]) || (inside && !opens_section(lines[0])),
        )
    }
}

/// One more line at the end is kept unless it is a trigger header, or the
/// lines before it end in a trigger block and it starts no section.
proof fn lemma_one_more_line(lines: Seq<Seq<char>>, line: Seq<char>, inside: bool)
    ensures
        without_trigger_blocks(lines.push(line), inside) == if is_trigger_header(line) || (ends_inside(
            lines,
            inside,
        ) && !opens_section(line)) {
            without_trigger_blocks(lines, inside)
        } else {
            without_trigger_blocks(lines, inside).push(line)
        },
        ends_inside(lines.push(line), inside) == (is_trigger_header(line) || (ends_inside(lines, inside)
            && !opens_section(line))),
    decreases lines.len(),
{
    let more = lines.push(line);
    if lines.len() == 0 {
        assert(more[0] == line);
        assert(more.drop_first() == Seq::<Seq<char>>::empty());
        assert(without_trigger_blocks(more.drop_first(), true) == Seq::<Seq<char>>::empty());
        assert(without_trigger_blocks(more.drop_first(), false) == Seq::<Seq<char>>::empty());
        assert(seq![line] + Seq::<Seq<char>>::empty() == lines.push(line));
        assert(ends_inside(more.drop_first(), true));
        assert(!ends_inside(more.drop_first(), false));
    } else {
        let next = is_trigger_header(lines[0]) || (inside && !opens_section(lines[0]));
        assert(more[0] == lines[0]);
        assert(more.drop_first() == lines.drop_first().push(line));
        lemma_one_more_line(lines.drop_first(), line, next);
        if !next {
            let rest = without_trigger_blocks(lines.drop_first(), false);
            assert(seq![lines[0]] + rest.push(line) == (seq![lines[0]] + rest).push(line));
        }
    }
}

/// The lines that are kept of the first `i` lines are the start of the lines
/// that are kept of the first `k`.
proof fn lemma_kept_grows(lines: Seq<Seq<char>>, i: int, k: int)
    requires
        0 <= i <= k <= lines.len(),
    ensures
        without_trigger_blocks(lines.take(i), false).len() <= without_trigger_blocks(
            lines.take(k),
            false,
        ).len(),
        without_trigger_blocks(lines.take(k), false).take(
            without_trigger_blocks(lines.take(i), false).len() as int,
        ) == without_trigger_blocks(lines.take(i), false),
    decreases k - i,
{
    let start = without_trigger_blocks(lines.take(i), false);
    if i == k {
        assert(start.take(start.len() as int) == start);
    } else {
        lemma_kept_grows(lines, i, k - 1);
        lemma_one_more_line(lines.take(k - 1), lines[k - 1], false);
        assert(lines.take(k - 1).push(lines[k - 1]) == lines.take(k));
        let shorter = without_trigger_blocks(lines.take(k - 1), false);
        let longer = without_trigger_blocks(lines.take(k), false);
        assert(longer.take(start.len() as int) == shorter.take(start.len() as int));
    }
}

/// The first `i + 1` lines end in a trigger block if line `i` lies in one.
proof fn lemma_ends_inside(lines: Seq<Seq<char>>, i: int)
    requires
        0 <= i < lines.len(),
    ensures
        ends_inside(lines.take(i + 1), false) == in_trigger_block(lines, i),
    decreases i,
{
    lemma_one_more_line(lines.take(i), lines[i], false);
    assert(lines.take(i).push(lines[i]) == lines.take(i + 1));
    lemma_line_kinds(lines[i]);
    if i > 0 {
        lemma_ends_inside(lines, i - 1);
    } else {
        assert(lines.take(0) == Seq::<Seq<char>>::empty());
    }
}

/// The lines that are kept are the lines that lie in no trigger block,
/// unchanged and in their order: such a line stands among the kept lines
/// right behind those that are kept of the lines before it, and a line in a
/// trigger block adds nothing to them.
pub proof fn lemma_lines_outside_blocks_are_kept(lines: Seq<Seq<char>>, i: int)
    requires
        0 <= i < lines.len(),
    ensures
        ({
            let kept = without_trigger_blocks(lines, false);
            let before = without_trigger_blocks(lines.take(i), false);
            let with = without_trigger_blocks(lines.take(i + 1), false);
            &&& with.len() <= kept.len()
            &&& kept.take(with.len() as int) == with
            &&& in_trigger_block(lines, i) ==> with == before
            &&& !in_trigger_block(lines, i) ==> with == before.push(lines[i]) && kept[before.len() as int]
                == lines[i]
        }),
{
    let kept = without_trigger_blocks(lines, false);
    let before = without_trigger_blocks(lines.take(i), false);
    let with = without_trigger_blocks(lines.take(i + 1), false);
    lemma_kept_grows(lines, i + 1, lines.len() as int);
    assert(lines.take(lines.len() as int) == lines);
    lemma_one_more_line(lines.take(i), lines[i], false);
    assert(lines.take(i).push(lines[i]) == lines.take(i + 1));
    lemma_line_kinds(lines[i]);
    if i > 0 {
        lemma_ends_inside(lines, i - 1);
    } else {
        assert(lines.take(0) == Seq::<Seq<char>>::empty());
    }
    if !in_trigger_block(lines, i) {
        assert(kept.take(with.len() as int)[before.len() as int] == kept[before.len() as int]);
    }
}

} // verus!
