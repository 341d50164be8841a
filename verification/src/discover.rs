//! The discovery of trigger candidates among the files found below the audio
//! directory: the audio files are picked by their extension, and each gives
//! an entry with the file stem as its name and its relative path, written
//! with forward slashes behind `./`, as its path.

use vstd::prelude::*;
use vstd::seq_lib::*;
use vstd::string::*;
use crate::order::{
    lemma_sort_by_path, lemma_sorting_ignores_order, sort_by_path, sort_triggers, sorted_by_path,
};
use crate::paths::{path_relative_to, relative_to, to_unix_string, with_forward_slashes};
use crate::text::{chars_of, join_range, join_with, string_of, texts};
use crate::trigger::{paths_of, Trigger, TriggerEntry};

verus! {

/// What the file system reports of a file: the components of its path, and
/// its file name, the stem of that name and its extension, each where the
/// path has one that is valid text.
#[derive(Debug, Clone, PartialEq, Eq, Default)]
pub struct FoundFile {
    pub components: Vec<String>,
    pub file_name: Option<String>,
    pub stem: Option<String>,
    pub extension: Option<String>,
}

/// A found file in contracts.
pub struct Found {
    pub components: Seq<Seq<char>>,
    pub file_name: Option<Seq<char>>,
    pub stem: Option<Seq<char>>,
    pub extension: Option<Seq<char>>,
}

/// The text of an optional string.
pub open spec fn text_of(s: Option<String>) -> Option<Seq<char>> {
    match s {
        Some(s) => Some(s@),
        None => None,
    }
}

impl View for FoundFile {
    type V = Found;

    open spec fn view(&self) -> Found {
        Found {
            components: self.components.deep_view(),
            file_name: text_of(self.file_name),
            stem: text_of(self.stem),
            extension: text_of(self.extension),
        }
    }
}

impl DeepView for FoundFile {
    type V = Found;

    open spec fn deep_view(&self) -> Found {
        self@
    }
}

/// The code of `c`, and for an upper-case ASCII letter that of its
/// lower-case form.
pub open spec fn lower_code(c: char) -> u32 {
    if 'A' <= c <= 'Z' {
        (c as u32 + 32) as u32
    } else {
        c as u32
    }
}

/// Equality of two texts when the case of ASCII letters is left aside.
pub open spec fn same_ignoring_ascii_case(a: Seq<char>, b: Seq<char>) -> bool {
    a.len() == b.len() && forall|i: int| 0 <= i < a.len() ==> lower_code(a[i]) == lower_code(b[i])
}

/// The extensions of audio files.
pub open spec fn audio_extensions() -> Seq<Seq<char>> {
    seq!["wav"@, "mp3"@, "ogg"@, "aif"@, "aiff"@, "flac"@]
}

/// Whether `extension` is one of the audio extensions, in any case of its
/// letters.
pub open spec fn is_audio_extension(extension: Seq<char>) -> bool {
    exists|k: int|
        0 <= k < audio_extensions().len() && same_ignoring_ascii_case(
            #[trigger] audio_extensions()[k],
            extension,
        )
}

/// Whether the file counts as an audio file.
pub open spec fn is_audio(f: Found) -> bool {
    match f.extension {
        Some(e) => is_audio_extension(e),
        None => false,
    }
}

/// The components of the file's path below `root`; the file name alone where
/// the path does not lie below `root`.
pub open spec fn relative_parts(f: Found, root: Seq<Seq<char>>) -> Seq<Seq<char>> {
    match relative_to(f.components, root) {
        Some(rest) => rest,
        None => match f.file_name {
            Some(n) => seq![n],
            None => Seq::empty(),
        },
    }
}

/// The path of the file as seen from `root`, written with forward slashes.
pub open spec fn relative_path(f: Found, root: Seq<Seq<char>>) -> Seq<char> {
    with_forward_slashes(join_with(relative_parts(f, root), '/'))
}

/// The trigger candidate of an audio file: the stem, or the empty name where
/// there is none, and the relative path with forward slashes behind `./`.
pub open spec fn candidate(f: Found, root: Seq<Seq<char>>) -> Trigger {
    Trigger {
        name: match f.stem {
            Some(s) => s,
            None => Seq::empty(),
        },
        path: "./"@ + relative_path(f, root),
    }
}

/// The candidates of the audio files among `files`, in the order of the
/// files.
pub open spec fn candidates_of(files: Seq<Found>, root: Seq<Seq<char>>) -> Seq<Trigger>
    decreases files.len(),
{
    if files.len() == 0 {
        Seq::empty()
    } else if is_audio(files.last()) {
        candidates_of(files.drop_last(), root).push(candidate(files.last(), root))
    } else {
        candidates_of(files.drop_last(), root)
    }
}

/// The candidates of the audio files among `files`, in the order of their
/// paths.
pub open spec fn discovered(files: Seq<Found>, root: Seq<Seq<char>>) -> Seq<Trigger> {
    sort_by_path(candidates_of(files, root))
}

fn lower_code_of(c: char) -> (v: u32)
    ensures
        v == lower_code(c),
{
    if 'A' <= c && c <= 'Z' {
        c as u32 + 32
    } else {
        c as u32
    }
}

fn same_ignoring_case(a: &Vec<char>, b: &Vec<char>) -> (r: bool)
    ensures
        r == same_ignoring_ascii_case(a@, b@),
{
    if a.len() != b.len() {
        return false;
    }
    let mut i: usize = 0;
    while i < a.len()
        invariant
            i <= a.len(),
            a.len() == b.len(),
            forall|k: int| 0 <= k < i ==> lower_code(a@[k]) == lower_code(b@[k]),
        decreases a.len() - i,
    {
        if lower_code_of(a[i]) != lower_code_of(b[i]) {
            return false;
        }
        i += 1;
    }
    true
}

/// Whether `extension` is an audio extension.
pub fn has_audio_extension(extension: &str) -> (r: bool)
    ensures
        r == is_audio_extension(extension@),
{
    let e = chars_of(extension);
    let mut known: Vec<Vec<char>> = Vec::new();
    known.push(chars_of("wav"));
    known.push(chars_of("mp3"));
    known.push(chars_of("ogg"));
    known.push(chars_of("aif"));
    known.push(chars_of("aiff"));
    known.push(chars_of("flac"));
    assert(texts(known@) == audio_extensions());
    let mut k: usize = 0;
    while k < known.len()
        invariant
            k <= known.len(),
            e@ == extension@,
            texts(known@) == audio_extensions(),
            forall|j: int|
                0 <= j < k ==> !same_ignoring_ascii_case(#[trigger] audio_extensions()[j], extension@),
        decreases known.len() - k,
    {
        assert(known[k as int]@ == audio_extensions()[k as int]);
        if same_ignoring_case(&known[k], &e) {
            return true;
        }
        k += 1;
    }
    false
}

/// The path of `file` as seen from `root`, written with forward slashes.
pub fn relative_path_of(file: &FoundFile, root: &Vec<String>) -> (path: String)
    ensures
        path@ == relative_path(file@, root.deep_view()),
{
    let parts: Vec<String> = match path_relative_to(&file.components, root) {
        Some(rest) => rest,
        None => {
            let mut only: Vec<String> = Vec::new();
            match &file.file_name {
                Some(n) => {
                    only.push(n.clone());
                    assert(only.deep_view() == seq![n@]);
                },
                None => {
                    assert(only.deep_view() == Seq::<Seq<char>>::empty());
                },
            }
            only
        },
    };
    assert(parts.deep_view() == relative_parts(file@, root.deep_view()));
    let mut pieces: Vec<Vec<char>> = Vec::new();
    let mut i: usize = 0;
    while i < parts.len()
        invariant
            i <= parts.len(),
            texts(pieces@) == parts.deep_view().take(i as int),
        decreases parts.len() - i,
    {
        let piece = chars_of(parts[i].as_str());
        assert(piece@ == parts.deep_view()[i as int]);
        assert(texts(pieces@.push(piece)) == texts(pieces@).push(piece@));
        assert(parts.deep_view().take(i + 1) == parts.deep_view().take(i as int).push(piece@));
        pieces.push(piece);
        i += 1;
    }
    assert(parts.deep_view().take(parts.len() as int) == parts.deep_view());
    let joined = join_range(&pieces, 0, pieces.len(), '/');
    assert(texts(pieces@).subrange(0, pieces.len() as int) == texts(pieces@));
    to_unix_string(string_of(&joined).as_str())
}

/// The trigger candidate of one file.
fn candidate_of(file: &FoundFile, audio_dir: &Vec<String>) -> (t: TriggerEntry)
    ensures
        t@ == candidate(file@, audio_dir.deep_view()),
{
    let mut path = "./".to_string();
    path.append(relative_path_of(file, audio_dir).as_str());
    let name = match &file.stem {
        Some(s) => s.clone(),
        None => String::new(),
    };
    TriggerEntry { name, path }
}

/// The trigger candidates among the files found below `audio_dir`: one for
/// each file with an audio extension, in the order of the paths.
pub fn discover_triggers(files: &Vec<FoundFile>, audio_dir: &Vec<String>) -> (out: Vec<TriggerEntry>)
    ensures
        out.deep_view() == discovered(files.deep_view(), audio_dir.deep_view()),
        sorted_by_path(out.deep_view()),
        forall|i: int| 0 <= i < out.len() ==> is_unix_path((#[trigger] out.deep_view()[i]).path),
{
    let mut found: Vec<TriggerEntry> = Vec::new();
    let mut i: usize = 0;
    let ghost all = files.deep_view();
    let ghost root = audio_dir.deep_view();
    assert(all.take(0) == Seq::<Found>::empty());
    assert(found.deep_view() == Seq::<Trigger>::empty());
    while i < files.len()
        invariant
            i <= files.len(),
            all == files.deep_view(),
            root == audio_dir.deep_view(),
            found.deep_view() == candidates_of(all.take(i as int), root),
        decreases files.len() - i,
    {
        let file = &files[i];
        assert(all.take(i + 1).drop_last() == all.take(i as int));
        assert(all.take(i + 1).last() == file@);
        let audio = match &file.extension {
            Some(e) => has_audio_extension(e.as_str()),
            None => false,
        };
        if audio {
            let t = candidate_of(file, audio_dir);
            let ghost before = found.deep_view();
            found.push(t);
            assert(found.deep_view() == before.push(t@));
        }
        i += 1;
    }
    assert(all.take(files.len() as int) == all);
    proof {
        lemma_sort_by_path(candidates_of(all, root));
        lemma_discovered_paths(all, root);
    }
    sort_triggers(found)
}

/// A path as a trigger holds it: it starts with `./`, and it has no
/// backslash.
pub open spec fn is_unix_path(p: Seq<char>) -> bool {
    &&& p.len() >= 2
    &&& p[0] == '.'
    &&& p[1] == '/'
    &&& forall|i: int| 0 <= i < p.len() ==> p[i] != '\\'
}

/// The path of every candidate starts with `./` and has no backslash.
pub proof fn lemma_candidate_paths(files: Seq<Found>, root: Seq<Seq<char>>)
    ensures
        forall|i: int|
            0 <= i < candidates_of(files, root).len() ==> is_unix_path(
                (#[trigger] candidates_of(files, root)[i]).path,
            ),
    decreases files.len(),
{
    if files.len() > 0 {
        lemma_candidate_paths(files.drop_last(), root);
        let front = candidates_of(files.drop_last(), root);
        let all = candidates_of(files, root);
        let c = candidate(files.last(), root);
        assert(is_unix_path(c.path)) by {
            reveal_strlit("./");
            let rel = relative_path(files.last(), root);
            assert forall|i: int| 0 <= i < c.path.len() implies c.path[i] != '\\' by {
                if i >= 2 {
                    assert(c.path[i] == rel[i - 2]);
                }
            }
        }
        assert forall|i: int| 0 <= i < all.len() implies is_unix_path((#[trigger] all[i]).path) by {
            if i < front.len() {
                assert(all[i] == front[i]);
            }
        }
    }
}

/// The path of every discovered trigger starts with `./` and has no
/// backslash.
pub proof fn lemma_discovered_paths(files: Seq<Found>, root: Seq<Seq<char>>)
    ensures
        forall|i: int|
            0 <= i < discovered(files, root).len() ==> is_unix_path(
                (#[trigger] discovered(files, root)[i]).path,
            ),
{
    broadcast use group_to_multiset_ensures;

    let found = candidates_of(files, root);
    let sorted = discovered(files, root);
    lemma_candidate_paths(files, root);
    lemma_sort_by_path(found);
    assert forall|i: int| 0 <= i < sorted.len() implies is_unix_path((#[trigger] sorted[i]).path) by {
        assert(sorted.contains(sorted[i]));
        assert(found.to_multiset().count(sorted[i]) > 0);
        assert(found.contains(sorted[i]));
        let k = choose|k: int| 0 <= k < found.len() && found[k] == sorted[i];
        assert(is_unix_path(found[k].path));
    }
}

/// The candidates of files and more files behind them are the candidates of
/// the first and then those of the others.
proof fn lemma_candidates_concat(a: Seq<Found>, b: Seq<Found>, root: Seq<Seq<char>>)
    ensures
        candidates_of(a + b, root) == candidates_of(a, root) + candidates_of(b, root),
    decreases b.len(),
{
    if b.len() == 0 {
        assert(a + b == a);
        assert(candidates_of(a, root) + candidates_of(b, root) == candidates_of(a, root));
    } else {
        assert((a + b).last() == b.last());
        assert((a + b).drop_last() == a + b.drop_last());
        lemma_candidates_concat(a, b.drop_last(), root);
        if is_audio(b.last()) {
            let c = candidate(b.last(), root);
            assert((candidates_of(a, root) + candidates_of(b.drop_last(), root)).push(c)
                == candidates_of(a, root) + candidates_of(b.drop_last(), root).push(c));
        }
    }
}

/// The same files in another order have the same candidates, each as often.
proof fn lemma_candidates_ignore_order(f1: Seq<Found>, f2: Seq<Found>, root: Seq<Seq<char>>)
    requires
        f1.to_multiset() == f2.to_multiset(),
    ensures
        candidates_of(f1, root).to_multiset() == candidates_of(f2, root).to_multiset(),
    decreases f1.len(),
{
    broadcast use group_to_multiset_ensures;

    f1.to_multiset_ensures();
    f2.to_multiset_ensures();
    assert(f1.len() == f2.len());
    if f1.len() == 0 {
        assert(f1 == f2);
    } else {
        let x = f1.last();
        let n = f1.len() as int;
        assert(f1.contains(f1[n - 1]));
        assert(f2.to_multiset().count(x) > 0);
        assert(f2.contains(x));
        let j = choose|j: int| 0 <= j < f2.len() && f2[j] == x;
        let before = f2.take(j);
        let behind = f2.skip(j + 1);
        let rest1 = f1.drop_last();
        let rest2 = f2.remove(j);
        assert(rest1 == f1.remove(n - 1));
        to_multiset_remove(f1, n - 1);
        to_multiset_remove(f2, j);
        lemma_candidates_ignore_order(rest1, rest2, root);
        assert(rest2 == before + behind);
        assert(f2 == before + seq![x] + behind);
        assert(f1 == rest1 + seq![x]);
        lemma_candidates_concat(before, behind, root);
        lemma_candidates_concat(before + seq![x], behind, root);
        lemma_candidates_concat(before, seq![x], root);
        lemma_candidates_concat(rest1, seq![x], root);
        let one = candidates_of(seq![x], root);
        let cb = candidates_of(before, root);
        let ce = candidates_of(behind, root);
        lemma_multiset_commutative(cb + one, ce);
        lemma_multiset_commutative(cb, one);
        lemma_multiset_commutative(cb, ce);
        lemma_multiset_commutative(candidates_of(rest1, root), one);
        assert(candidates_of(f2, root).to_multiset() == cb.to_multiset().add(one.to_multiset()).add(
            ce.to_multiset(),
        ));
        assert(cb.to_multiset().add(one.to_multiset()).add(ce.to_multiset()) == cb.to_multiset().add(
            ce.to_multiset(),
        ).add(one.to_multiset()));
    }
}

/// The order in which the files are found does not matter: the same files
/// in another order give the same discovered triggers, where no two
/// candidates have one path.
pub proof fn lemma_discovery_ignores_order(f1: Seq<Found>, f2: Seq<Found>, root: Seq<Seq<char>>)
    requires
        f1.to_multiset() == f2.to_multiset(),
        paths_of(candidates_of(f1, root)).no_duplicates(),
    ensures
        discovered(f1, root) == discovered(f2, root),
{
    lemma_candidates_ignore_order(f1, f2, root);
    lemma_sorting_ignores_order(candidates_of(f1, root), candidates_of(f2, root));
}

} // verus!
