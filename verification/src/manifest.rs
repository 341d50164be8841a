//! The rewriting of a manifest's trigger section, line by line: the trigger
//! blocks that the text has are taken out, the new ones are put in behind the
//! bank section, and every other line stays as it is.

use vstd::prelude::*;
use crate::text::{
    chars_of, copy_range, extend_with, push_chars, push_one, same_chars, split_chars, split_on, texts,
    trim_bounds, trimmed,
};
use crate::trigger::{Trigger, TriggerEntry};

verus! {

/// `line` without one carriage return at its end.
pub open spec fn strip_cr(line: Seq<char>) -> Seq<char> {
    if line.len() > 0 && line.last() == '\r' {
        line.drop_last()
    } else {
        line
    }
}

/// The lines of `text`. A line ends at a line feed; a line that a line feed
/// ends loses one carriage return before the line feed. What follows the
/// last line feed is a line if it is not empty.
pub open spec fn lines_of(text: Seq<char>) -> Seq<Seq<char>> {
    let pieces = split_on(text, '\n');
    let ended = Seq::new((pieces.len() - 1) as nat, |i: int| strip_cr(pieces[i]));
    if pieces.last().len() == 0 {
        ended
    } else {
        ended.push(pieces.last())
    }
}

/// The header line of a trigger block.
pub open spec fn trigger_header() -> Seq<char> {
    "[[triggers]]"@
}

/// The header line of the bank section.
pub open spec fn bank_header() -> Seq<char> {
    "[bank]"@
}

/// A line of white space only.
pub open spec fn is_blank(line: Seq<char>) -> bool {
    trimmed(line).len() == 0
}

/// A line that starts a section: its first character that is not white
/// space is an opening bracket.
pub open spec fn opens_section(line: Seq<char>) -> bool {
    trimmed(line).len() > 0 && trimmed(line)[0] == '['
}

/// A line that, white space around it aside, is `[[triggers]]`.
pub open spec fn is_trigger_header(line: Seq<char>) -> bool {
    trimmed(line) == trigger_header()
}

/// A line that, white space around it aside, is `[bank]`.
pub open spec fn is_bank_header(line: Seq<char>) -> bool {
    trimmed(line) == bank_header()
}

/// A line that starts a section other than the bank section.
pub open spec fn opens_other_section(line: Seq<char>) -> bool {
    opens_section(line) && !is_bank_header(line)
}

/// The lines without the trigger blocks. A block is a trigger header and the
/// lines behind it up to the next line that starts a section; `inside` says
/// whether the first line follows a trigger header in that way.
pub open spec fn without_trigger_blocks(lines: Seq<Seq<char>>, inside: bool) -> Seq<Seq<char>>
    decreases lines.len(),
{
    if lines.len() == 0 {
        lines
    } else if is_trigger_header(lines[0]) || (inside && !opens_section(lines[0])) {
        without_trigger_blocks(lines.drop_first(), true)
    } else {
        seq![lines[0]] + without_trigger_blocks(lines.drop_first(), false)
    }
}

/// Whether line `i` lies in a trigger block: it is a trigger header, or it
/// starts no section and the line before it lies in a trigger block.
pub open spec fn in_trigger_block(lines: Seq<Seq<char>>, i: int) -> bool
    decreases i,
{
    if i < 0 || i >= lines.len() {
        false
    } else if is_trigger_header(lines[i]) {
        true
    } else if opens_section(lines[i]) || i == 0 {
        false
    } else {
        in_trigger_block(lines, i - 1)
    }
}

/// The index of the first bank header among `lines`, or their number where
/// there is none.
pub open spec fn first_bank_header(lines: Seq<Seq<char>>) -> nat
    decreases lines.len(),
{
    if lines.len() == 0 || is_bank_header(lines[0]) {
        0
    } else {
        1 + first_bank_header(lines.drop_first())
    }
}

/// The index of the first of `lines` that starts another section than the
/// bank section, or their number where there is none.
pub open spec fn first_other_section(lines: Seq<Seq<char>>) -> nat
    decreases lines.len(),
{
    if lines.len() == 0 || opens_other_section(lines[0]) {
        0
    } else {
        1 + first_other_section(lines.drop_first())
    }
}

/// Where the bank section ends: the index of the first line behind the bank
/// header that starts another section; the number of lines where no such
/// line follows, or where there is no bank header.
pub open spec fn bank_end(lines: Seq<Seq<char>>) -> nat {
    let b = first_bank_header(lines);
    if b >= lines.len() {
        lines.len()
    } else {
        b + 1 + first_other_section(lines.skip(b as int + 1))
    }
}

/// `lines` without the blank lines at their end.
pub open spec fn drop_trailing_blank(lines: Seq<Seq<char>>) -> Seq<Seq<char>>
    decreases lines.len(),
{
    if lines.len() > 0 && is_blank(lines.last()) {
        drop_trailing_blank(lines.drop_last())
    } else {
        lines
    }
}

/// `lines` without the blank lines at their start.
pub open spec fn drop_leading_blank(lines: Seq<Seq<char>>) -> Seq<Seq<char>>
    decreases lines.len(),
{
    if lines.len() > 0 && is_blank(lines[0]) {
        drop_leading_blank(lines.drop_first())
    } else {
        lines
    }
}

/// What is kept before the trigger section: the lines up to the end of the
/// bank section, without the blank lines at their end.
pub open spec fn head_of(kept: Seq<Seq<char>>) -> Seq<Seq<char>> {
    drop_trailing_blank(kept.take(bank_end(kept) as int))
}

/// What is kept behind the trigger section: the lines from the end of the
/// bank section on, without the blank lines at their start.
pub open spec fn tail_of(kept: Seq<Seq<char>>) -> Seq<Seq<char>> {
    drop_leading_blank(kept.skip(bank_end(kept) as int))
}

/// The three lines of one trigger block.
pub open spec fn trigger_block(t: Trigger) -> Seq<Seq<char>> {
    seq![trigger_header(), "name = \""@ + t.name + seq!['"'], "path = \""@ + t.path + seq!['"']]
}

/// The blocks of the triggers in order, with one empty line between each
/// two.
pub open spec fn trigger_lines(ts: Seq<Trigger>) -> Seq<Seq<char>>
    decreases ts.len(),
{
    if ts.len() == 0 {
        Seq::empty()
    } else if ts.len() == 1 {
        trigger_block(ts[0])
    } else {
        trigger_lines(ts.drop_last()) + seq![Seq::<char>::empty()] + trigger_block(ts.last())
    }
}

/// The lines of the rewritten manifest: the head; if there are triggers, an
/// empty line, the trigger blocks and, before a tail that is not empty,
/// another empty line; then the tail.
pub open spec fn composed(head: Seq<Seq<char>>, ts: Seq<Trigger>, tail: Seq<Seq<char>>) -> Seq<
    Seq<char>,
> {
    if ts.len() == 0 {
        head + tail
    } else if tail.len() == 0 {
        head + seq![Seq::<char>::empty()] + trigger_lines(ts)
    } else {
        head + seq![Seq::<char>::empty()] + trigger_lines(ts) + seq![Seq::<char>::empty()] + tail
    }
}

/// The lines that the rewritten manifest is made of, before they are put
/// together into text.
pub open spec fn rewritten_lines(text: Seq<char>, ts: Seq<Trigger>) -> Seq<Seq<char>> {
    let kept = without_trigger_blocks(lines_of(text), false);
    composed(head_of(kept), ts, tail_of(kept))
}

/// `lines` without the empty lines at their end.
pub open spec fn drop_trailing_empty(lines: Seq<Seq<char>>) -> Seq<Seq<char>>
    decreases lines.len(),
{
    if lines.len() > 0 && lines.last().len() == 0 {
        drop_trailing_empty(lines.drop_last())
    } else {
        lines
    }
}

/// The lines one after the other, each with a line feed behind it.
pub open spec fn unlines(lines: Seq<Seq<char>>) -> Seq<char>
    decreases lines.len(),
{
    if lines.len() == 0 {
        Seq::empty()
    } else {
        lines[0] + seq!['\n'] + unlines(lines.drop_first())
    }
}

/// The text of `lines`: it ends with exactly one line feed, so empty lines at
/// the end are left out, and no lines at all give a single line feed.
pub open spec fn rendered(lines: Seq<Seq<char>>) -> Seq<char> {
    let body = drop_trailing_empty(lines);
    if body.len() == 0 {
        seq!['\n']
    } else {
        unlines(body)
    }
}

/// The manifest `text` with its trigger section replaced by `ts`.
pub open spec fn rewritten(text: Seq<char>, ts: Seq<Trigger>) -> Seq<char> {
    rendered(rewritten_lines(text, ts))
}

proof fn lemma_texts_push(v: Seq<Vec<char>>, line: Vec<char>)
    ensures
        texts(v.push(line)) == texts(v).push(line@),
{
}

/// The lines of `text`.
fn read_lines(text: &Vec<char>) -> (lines: Vec<Vec<char>>)
    ensures
        texts(lines@) == lines_of(text@),
{
    let pieces = split_chars(text, '\n');
    let ghost parts = split_on(text@, '\n');
    let n = pieces.len() - 1;
    let mut lines: Vec<Vec<char>> = Vec::new();
    let mut i: usize = 0;
    while i < n
        invariant
            i <= n,
            n == pieces.len() - 1,
            texts(pieces@) == parts,
            texts(lines@) == Seq::new(i as nat, |k: int| strip_cr(parts[k])),
        decreases n - i,
    {
        let piece = &pieces[i];
        assert(piece@ == parts[i as int]);
        let end = if piece.len() > 0 && piece[piece.len() - 1] == '\r' {
            piece.len() - 1
        } else {
            piece.len()
        };
        let line = copy_range(piece, 0, end);
        assert(line@ == strip_cr(parts[i as int]));
        proof {
            lemma_texts_push(lines@, line);
        }
        lines.push(line);
        i += 1;
    }
    let last = &pieces[n];
    assert(last@ == parts.last());
    if last.len() > 0 {
        let line = copy_range(last, 0, last.len());
        assert(line@ == last@);
        proof {
            lemma_texts_push(lines@, line);
        }
        lines.push(line);
    }
    lines
}

/// Whether the line, white space around it aside, is `pattern`.
fn line_is(line: &Vec<char>, pattern: &Vec<char>) -> (r: bool)
    ensures
        r == (trimmed(line@) == pattern@),
{
    let (from, to) = trim_bounds(line);
    let inner = copy_range(line, from, to);
    same_chars(&inner, pattern)
}

fn line_is_blank(line: &Vec<char>) -> (r: bool)
    ensures
        r == is_blank(line@),
{
    let (from, to) = trim_bounds(line);
    from == to
}

fn line_opens_section(line: &Vec<char>) -> (r: bool)
    ensures
        r == opens_section(line@),
{
    let (from, to) = trim_bounds(line);
    from < to && line[from] == '['
}

/// The lines outside the trigger blocks.
fn remove_trigger_blocks(lines: &Vec<Vec<char>>) -> (kept: Vec<Vec<char>>)
    ensures
        texts(kept@) == without_trigger_blocks(texts(lines@), false),
{
    let header = chars_of("[[triggers]]");
    let mut kept: Vec<Vec<char>> = Vec::new();
    let mut inside = false;
    let mut i: usize = 0;
    let ghost all = texts(lines@);
    assert(all.skip(0) == all);
    assert(texts(kept@) + without_trigger_blocks(all, false) == without_trigger_blocks(all, false));
    while i < lines.len()
        invariant
            i <= lines.len(),
            all == texts(lines@),
            header@ == trigger_header(),
            without_trigger_blocks(all, false) == texts(kept@) + without_trigger_blocks(
                all.skip(i as int),
                inside,
            ),
        decreases lines.len() - i,
    {
        let line = &lines[i];
        let ghost rest = all.skip(i as int);
        assert(rest[0] == line@);
        assert(rest.drop_first() == all.skip(i + 1));
        if line_is(line, &header) || (inside && !line_opens_section(line)) {
            inside = true;
        } else {
            let copy = copy_range(line, 0, line.len());
            assert(copy@ == line@);
            proof {
                lemma_texts_push(kept@, copy);
                assert(texts(kept@).push(line@) + without_trigger_blocks(all.skip(i + 1), false)
                    == texts(kept@) + (seq![line@] + without_trigger_blocks(
                    all.skip(i + 1),
                    false,
                )));
            }
            kept.push(copy);
            inside = false;
        }
        i += 1;
    }
    assert(all.skip(lines.len() as int) == Seq::<Seq<char>>::empty());
    assert(texts(kept@) + Seq::<Seq<char>>::empty() == texts(kept@));
    kept
}

/// The index at which the bank section ends.
fn find_bank_end(kept: &Vec<Vec<char>>) -> (end: usize)
    ensures
        end == bank_end(texts(kept@)),
        end <= kept.len(),
{
    let bank = chars_of("[bank]");
    let ghost all = texts(kept@);
    let mut b: usize = 0;
    assert(all.skip(0) == all);
    while b < kept.len() && !line_is(&kept[b], &bank)
        invariant
            b <= kept.len(),
            all == texts(kept@),
            bank@ == bank_header(),
            first_bank_header(all) == b + first_bank_header(all.skip(b as int)),
        decreases kept.len() - b,
    {
        assert(all.skip(b as int)[0] == kept[b as int]@);
        assert(all.skip(b as int).drop_first() == all.skip(b + 1));
        b += 1;
    }
    if b >= kept.len() {
        return kept.len();
    }
    assert(all.skip(b as int)[0] == kept[b as int]@);
    assert(first_bank_header(all) == b);
    let mut e: usize = b + 1;
    let ghost behind = all.skip(b + 1);
    assert(behind.skip(0) == behind);
    while e < kept.len() && !(line_opens_section(&kept[e]) && !line_is(&kept[e], &bank))
        invariant
            b < e <= kept.len(),
            all == texts(kept@),
            behind == all.skip(b + 1),
            bank@ == bank_header(),
            first_other_section(behind) == (e - b - 1) + first_other_section(behind.skip(e - b - 1)),
        decreases kept.len() - e,
    {
        assert(behind.skip(e - b - 1)[0] == kept[e as int]@);
        assert(behind.skip(e - b - 1).drop_first() == behind.skip(e - b));
        e += 1;
    }
    if e < kept.len() {
        assert(behind.skip(e - b - 1)[0] == kept[e as int]@);
    }
    e
}

/// Adds the lines `lines[from..to]` to `out`.
fn push_lines(out: &mut Vec<Vec<char>>, lines: &Vec<Vec<char>>, from: usize, to: usize)
    requires
        from <= to <= lines.len(),
    ensures
        texts(final(out)@) == texts(old(out)@) + texts(lines@).subrange(from as int, to as int),
{
    let mut i: usize = from;
    assert(texts(out@) + texts(lines@).subrange(from as int, from as int) == texts(out@));
    while i < to
        invariant
            from <= i <= to <= lines.len(),
            texts(out@) == texts(old(out)@) + texts(lines@).subrange(from as int, i as int),
        decreases to - i,
    {
        let copy = copy_range(&lines[i], 0, lines[i].len());
        assert(copy@ == lines[i as int]@);
        proof {
            lemma_texts_push(out@, copy);
            assert(texts(lines@).subrange(from as int, i + 1) == texts(lines@).subrange(
                from as int,
                i as int,
            ).push(lines[i as int]@));
        }
        out.push(copy);
        i += 1;
    }
}

fn empty_line() -> (line: Vec<char>)
    ensures
        line@ == Seq::<char>::empty(),
{
    Vec::new()
}

/// Adds one line with the given characters to `out`.
fn push_line(out: &mut Vec<Vec<char>>, line: Vec<char>)
    ensures
        texts(final(out)@) == texts(old(out)@) + seq![line@],
{
    proof {
        lemma_texts_push(out@, line);
    }
    out.push(line);
}

/// Adds the blocks of the triggers to `out`.
fn push_trigger_lines(out: &mut Vec<Vec<char>>, triggers: &[TriggerEntry])
    ensures
        texts(final(out)@) == texts(old(out)@) + trigger_lines(triggers.deep_view()),
{
    let ghost ts = triggers.deep_view();
    let mut i: usize = 0;
    assert(ts.take(0) == Seq::<Trigger>::empty());
    assert(texts(out@) + trigger_lines(ts.take(0)) == texts(out@));
    while i < triggers.len()
        invariant
            i <= triggers.len(),
            ts == triggers.deep_view(),
            texts(out@) == texts(old(out)@) + trigger_lines(ts.take(i as int)),
        decreases triggers.len() - i,
    {
        let ghost before = texts(out@);
        let ghost done = trigger_lines(ts.take(i as int));
        if i > 0 {
            push_line(out, empty_line());
        }
        push_line(out, chars_of("[[triggers]]"));
        let mut name = chars_of("name = \"");
        let name_chars = chars_of(triggers[i].name.as_str());
        extend_with(&mut name, &name_chars);
        name.push('"');
        let ghost name_line = name@;
        assert(name_line == "name = \""@ + triggers[i as int]@.name + seq!['"']);
        push_line(out, name);
        let mut path = chars_of("path = \"");
        let path_chars = chars_of(triggers[i].path.as_str());
        extend_with(&mut path, &path_chars);
        path.push('"');
        let ghost path_line = path@;
        assert(path_line == "path = \""@ + triggers[i as int]@.path + seq!['"']);
        push_line(out, path);
        proof {
            let t = ts[i as int];
            assert(t == triggers[i as int]@);
            assert(ts.take(i + 1).drop_last() == ts.take(i as int));
            assert(ts.take(i + 1).last() == t);
            let block = trigger_block(t);
            assert(block == seq![trigger_header()] + seq![name_line] + seq![path_line]);
            if i > 0 {
                assert(texts(out@) == texts(old(out)@) + (done + seq![Seq::<char>::empty()] + block));
            } else {
                assert(done == Seq::<Seq<char>>::empty());
                assert(texts(out@) == texts(old(out)@) + block);
            }
        }
        i += 1;
    }
    assert(ts.take(triggers.len() as int) == ts);
}

/// The text of the lines.
fn render(lines: &Vec<Vec<char>>) -> (out: String)
    ensures
        out@ == rendered(texts(lines@)),
{
    let ghost all = texts(lines@);
    let mut n: usize = lines.len();
    assert(all.take(n as int) == all);
    while n > 0 && lines[n - 1].len() == 0
        invariant
            n <= lines.len(),
            all == texts(lines@),
            drop_trailing_empty(all) == drop_trailing_empty(all.take(n as int)),
        decreases n,
    {
        assert(all.take(n as int).last() == lines[n - 1]@);
        assert(all.take(n as int).drop_last() == all.take(n - 1));
        n -= 1;
    }
    if n > 0 {
        assert(all.take(n as int).last() == lines[n - 1]@);
    }
    let ghost body = all.take(n as int);
    assert(drop_trailing_empty(all) == body);
    let mut out = String::new();
    if n == 0 {
        push_one(&mut out, '\n');
        assert(out@ == seq!['\n']);
        return out;
    }
    let mut i: usize = 0;
    assert(body.skip(0) == body);
    assert(out@ + unlines(body) == unlines(body));
    while i < n
        invariant
            i <= n <= lines.len(),
            all == texts(lines@),
            body == all.take(n as int),
            unlines(body) == out@ + unlines(body.skip(i as int)),
        decreases n - i,
    {
        let ghost before = out@;
        assert(body.skip(i as int)[0] == lines[i as int]@);
        assert(body.skip(i as int).drop_first() == body.skip(i + 1));
        push_chars(&mut out, &lines[i]);
        push_one(&mut out, '\n');
        assert(out@ + unlines(body.skip(i + 1)) == before + (lines[i as int]@ + seq!['\n'] + unlines(
            body.skip(i + 1),
        )));
        i += 1;
    }
    assert(body.skip(n as int) == Seq::<Seq<char>>::empty());
    assert(out@ + Seq::<char>::empty() == out@);
    out
}

/// Rewrites the trigger section of a manifest. The text that comes back has
/// the blocks of `triggers`, and no other trigger block, behind its bank
/// section; the other lines of `manifest` stay as they are and where they
/// are, but for the blank lines around the place where the new blocks go;
/// and it ends with exactly one line feed.
pub fn write_triggers_after_bank(manifest: &str, triggers: &[TriggerEntry]) -> (out: String)
    ensures
        out@ == rewritten(manifest@, triggers.deep_view()),
{
    let text = chars_of(manifest);
    let lines = read_lines(&text);
    let kept = remove_trigger_blocks(&lines);
    let end = find_bank_end(&kept);
    let ghost all = texts(kept@);
    let mut h: usize = end;
    assert(all.take(end as int).take(h as int) == all.take(end as int));
    while h > 0 && line_is_blank(&kept[h - 1])
        invariant
            h <= end <= kept.len(),
            all == texts(kept@),
            head_of(all) == drop_trailing_blank(all.take(h as int)),
        decreases h,
    {
        assert(all.take(h as int).last() == kept[h - 1]@);
        assert(all.take(h as int).drop_last() == all.take(h - 1));
        h -= 1;
    }
    if h > 0 {
        assert(all.take(h as int).last() == kept[h - 1]@);
    }
    let mut t: usize = end;
    while t < kept.len() && line_is_blank(&kept[t])
        invariant
            end <= t <= kept.len(),
            all == texts(kept@),
            tail_of(all) == drop_leading_blank(all.skip(t as int)),
        decreases kept.len() - t,
    {
        assert(all.skip(t as int)[0] == kept[t as int]@);
        assert(all.skip(t as int).drop_first() == all.skip(t + 1));
        t += 1;
    }
    if t < kept.len() {
        assert(all.skip(t as int)[0] == kept[t as int]@);
    }
    assert(head_of(all) == all.subrange(0, h as int));
    assert(tail_of(all) == all.subrange(t as int, kept.len() as int));
    let mut result: Vec<Vec<char>> = Vec::new();
    assert(texts(result@) == Seq::<Seq<char>>::empty());
    push_lines(&mut result, &kept, 0, h);
    assert(texts(result@) == head_of(all));
    if triggers.len() > 0 {
        push_line(&mut result, empty_line());
        push_trigger_lines(&mut result, triggers);
        if t < kept.len() {
            push_line(&mut result, empty_line());
        }
    }
    push_lines(&mut result, &kept, t, kept.len());
    assert(texts(result@) == composed(head_of(all), triggers.deep_view(), tail_of(all))) by {
        if tail_of(all).len() == 0 {
            assert(composed(head_of(all), triggers.deep_view(), tail_of(all)) + tail_of(all)
                == composed(head_of(all), triggers.deep_view(), tail_of(all)));
        }
    }
    render(&result)
}

} // verus!
