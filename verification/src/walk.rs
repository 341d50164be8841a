//! The enumeration of the files below a directory, as the state of a walk:
//! the directories that are still to be read, kept as a stack, and the
//! files found so far. Reading a directory is left to the caller, who hands
//! in what it holds. A walk that is driven to its end has found the files
//! below its root.

use vstd::prelude::*;

verus! {

/// What an entry of a directory is.
#[derive(Debug, Clone, Copy, PartialEq, Eq, Structural)]
pub enum EntryKind {
    Directory,
    File,
    /// Neither a directory nor a file.
    Other,
}

/// The state of a walk over paths of type `T`.
pub struct Walker<T> {
    pub pending: Vec<T>,
    pub files: Vec<T>,
}

/// The state of a walk in contracts: the directories that are to be read,
/// the last of which is read next, and the files found.
pub struct Walk<T> {
    pub pending: Seq<T>,
    pub files: Seq<T>,
}

impl<T> View for Walker<T> {
    type V = Walk<T>;

    open spec fn view(&self) -> Walk<T> {
        Walk { pending: self.pending@, files: self.files@ }
    }
}

/// The walk that is to read `root` and has found nothing.
pub open spec fn started<T>(root: T) -> Walk<T> {
    Walk { pending: seq![root], files: Seq::empty() }
}

/// The walk after one entry is taken in: a directory is to be read, a file
/// is found, anything else is passed over.
pub open spec fn added<T>(w: Walk<T>, path: T, kind: EntryKind) -> Walk<T> {
    match kind {
        EntryKind::Directory => Walk { pending: w.pending.push(path), files: w.files },
        EntryKind::File => Walk { pending: w.pending, files: w.files.push(path) },
        EntryKind::Other => w,
    }
}

/// The walk after the entries are taken in, one after the other.
pub open spec fn added_all<T>(w: Walk<T>, entries: Seq<(T, EntryKind)>) -> Walk<T>
    decreases entries.len(),
{
    if entries.len() == 0 {
        w
    } else {
        added(added_all(w, entries.drop_last()), entries.last().0, entries.last().1)
    }
}

/// The walk after one round: the directory that was added last is taken
/// off and read, and its entries are taken in. `listing` says what each
/// directory holds.
pub open spec fn after_round<T>(w: Walk<T>, listing: spec_fn(T) -> Seq<(T, EntryKind)>) -> Walk<T> {
    if w.pending.len() == 0 {
        w
    } else {
        added_all(
            Walk { pending: w.pending.drop_last(), files: w.files },
            listing(w.pending.last()),
        )
    }
}

/// The walk after `n` rounds.
pub open spec fn after_rounds<T>(
    w: Walk<T>,
    listing: spec_fn(T) -> Seq<(T, EntryKind)>,
    n: nat,
) -> Walk<T>
    decreases n,
{
    if n == 0 {
        w
    } else {
        after_rounds(after_round(w, listing), listing, (n - 1) as nat)
    }
}

/// Whether the directory `dir` holds `path` as an entry of the given kind.
pub open spec fn lists<T>(
    listing: spec_fn(T) -> Seq<(T, EntryKind)>,
    dir: T,
    path: T,
    kind: EntryKind,
) -> bool {
    listing(dir).contains((path, kind))
}

/// Whether `path` is an entry of the given kind at most `depth` levels below
/// the directory `dir`.
pub open spec fn is_below<T>(
    listing: spec_fn(T) -> Seq<(T, EntryKind)>,
    dir: T,
    path: T,
    kind: EntryKind,
    depth: nat,
) -> bool
    decreases depth,
{
    depth > 0 && (lists(listing, dir, path, kind) || exists|sub: T|
        #[trigger] lists(listing, dir, sub, EntryKind::Directory) && is_below(
            listing,
            sub,
            path,
            kind,
            (depth - 1) as nat,
        ))
}

/// Whether `path` is an entry of the given kind somewhere below `dir`.
pub open spec fn is_reachable<T>(
    listing: spec_fn(T) -> Seq<(T, EntryKind)>,
    dir: T,
    path: T,
    kind: EntryKind,
) -> bool {
    exists|depth: nat| is_below(listing, dir, path, kind, depth)
}

/// What the walk holds after entries are taken in: what it held, the files
/// among the entries, and the directories among them.
proof fn lemma_added_all<T>(w: Walk<T>, entries: Seq<(T, EntryKind)>)
    ensures
        forall|x: T|
            #[trigger] added_all(w, entries).files.contains(x) <==> w.files.contains(x)
                || entries.contains((x, EntryKind::File)),
        forall|x: T|
            #[trigger] added_all(w, entries).pending.contains(x) <==> w.pending.contains(x)
                || entries.contains((x, EntryKind::Directory)),
    decreases entries.len(),
{
    let r = added_all(w, entries);
    if entries.len() > 0 {
        let front = entries.drop_last();
        let last = entries.last();
        let before = added_all(w, front);
        lemma_added_all(w, front);
        assert(entries == front.push(last));
        assert forall|x: T| #[trigger] r.files.contains(x) <==> w.files.contains(x) || entries.contains(
            (x, EntryKind::File),
        ) by {
            lemma_push_contains(front, last, (x, EntryKind::File));
            if last.1 == EntryKind::File {
                lemma_push_contains(before.files, last.0, x);
            }
        }
        assert forall|x: T| #[trigger] r.pending.contains(x) <==> w.pending.contains(x)
            || entries.contains((x, EntryKind::Directory)) by {
            lemma_push_contains(front, last, (x, EntryKind::Directory));
            if last.1 == EntryKind::Directory {
                lemma_push_contains(before.pending, last.0, x);
            }
        }
    }
}

/// A sequence with one more element holds what it held, and that element.
proof fn lemma_push_contains<A>(s: Seq<A>, a: A, x: A)
    ensures
        s.push(a).contains(x) <==> s.contains(x) || x == a,
{
    if s.contains(x) {
        let i = choose|i: int| 0 <= i < s.len() && s[i] == x;
        assert(s.push(a)[i] == x);
    }
    if x == a {
        assert(s.push(a)[s.len() as int] == x);
    }
    if s.push(a).contains(x) {
        let i = choose|i: int| 0 <= i < s.push(a).len() && s.push(a)[i] == x;
        if i < s.len() {
            assert(s[i] == x);
        }
    }
}

/// An entry of a directory that lies below another lies below that one too,
/// one level deeper.
proof fn lemma_below_step<T>(
    listing: spec_fn(T) -> Seq<(T, EntryKind)>,
    top: T,
    dir: T,
    path: T,
    kind: EntryKind,
    depth: nat,
)
    requires
        is_below(listing, top, dir, EntryKind::Directory, depth),
        lists(listing, dir, path, kind),
    ensures
        is_below(listing, top, path, kind, depth + 1),
    decreases depth,
{
    assert(depth > 0);
    if lists(listing, top, dir, EntryKind::Directory) {
        assert(is_below(listing, dir, path, kind, depth));
        assert(is_below(listing, dir, path, kind, ((depth + 1) - 1) as nat));
    } else {
        let sub = choose|sub: T|
            #[trigger] lists(listing, top, sub, EntryKind::Directory) && is_below(
                listing,
                sub,
                dir,
                EntryKind::Directory,
                (depth - 1) as nat,
            );
        lemma_below_step(listing, sub, dir, path, kind, (depth - 1) as nat);
        assert(is_below(listing, sub, path, kind, ((depth - 1) as nat) + 1));
        assert(is_below(listing, sub, path, kind, ((depth + 1) - 1) as nat));
    }
}

/// Whatever the walk holds lies below the root, or is the root.
spec fn is_sound<T>(listing: spec_fn(T) -> Seq<(T, EntryKind)>, root: T, w: Walk<T>) -> bool {
    &&& forall|x: T| #[trigger] w.files.contains(x) ==> is_reachable(listing, root, x, EntryKind::File)
    &&& forall|d: T|
        #[trigger] w.pending.contains(d) ==> d == root || is_reachable(
            listing,
            root,
            d,
            EntryKind::Directory,
        )
}

/// Whether the file `x` is found, or lies below a directory that is still
/// to be read.
spec fn is_covered<T>(listing: spec_fn(T) -> Seq<(T, EntryKind)>, w: Walk<T>, x: T) -> bool {
    w.files.contains(x) || exists|d: T, depth: nat|
        w.pending.contains(d) && #[trigger] is_below(listing, d, x, EntryKind::File, depth)
}

/// Every file below the root is found, or lies below a directory that is
/// still to be read.
spec fn is_complete<T>(listing: spec_fn(T) -> Seq<(T, EntryKind)>, root: T, w: Walk<T>) -> bool {
    forall|x: T, depth: nat| #[trigger]
        is_below(listing, root, x, EntryKind::File, depth) ==> is_covered(listing, w, x)
}

/// A round keeps the walk sound and complete.
proof fn lemma_round_keeps<T>(listing: spec_fn(T) -> Seq<(T, EntryKind)>, root: T, w: Walk<T>)
    requires
        is_sound(listing, root, w),
        is_complete(listing, root, w),
    ensures
        is_sound(listing, root, after_round(w, listing)),
        is_complete(listing, root, after_round(w, listing)),
{
    if w.pending.len() > 0 {
        let dir = w.pending.last();
        let rest = Walk { pending: w.pending.drop_last(), files: w.files };
        let r = after_round(w, listing);
        lemma_added_all(rest, listing(dir));
        assert(w.pending == rest.pending.push(dir));
        assert(w.pending.contains(dir)) by {
            assert(w.pending[w.pending.len() - 1] == dir);
        }
        assert forall|x: T| #[trigger] r.files.contains(x) implies is_reachable(
            listing,
            root,
            x,
            EntryKind::File,
        ) by {
            if !w.files.contains(x) {
                assert(lists(listing, dir, x, EntryKind::File));
                lemma_reachable_step(listing, root, dir, x, EntryKind::File);
            }
        }
        assert forall|d: T| #[trigger] r.pending.contains(d) implies d == root || is_reachable(
            listing,
            root,
            d,
            EntryKind::Directory,
        ) by {
            if rest.pending.contains(d) {
                lemma_push_contains(rest.pending, dir, d);
            } else {
                assert(lists(listing, dir, d, EntryKind::Directory));
                lemma_reachable_step(listing, root, dir, d, EntryKind::Directory);
            }
        }
        assert forall|x: T, depth: nat| #[trigger]
            is_below(listing, root, x, EntryKind::File, depth) implies is_covered(listing, r, x) by {
            assert(is_covered(listing, w, x));
            if !w.files.contains(x) {
                let (d, k) = choose|d: T, k: nat|
                    w.pending.contains(d) && #[trigger] is_below(listing, d, x, EntryKind::File, k);
                lemma_push_contains(rest.pending, dir, d);
                if rest.pending.contains(d) {
                    assert(r.pending.contains(d));
                } else if lists(listing, dir, x, EntryKind::File) {
                    assert(r.files.contains(x));
                } else {
                    assert(d == dir);
                    assert(is_below(listing, dir, x, EntryKind::File, k));
                    let sub = choose|sub: T|
                        #[trigger] lists(listing, dir, sub, EntryKind::Directory) && is_below(
                            listing,
                            sub,
                            x,
                            EntryKind::File,
                            (k - 1) as nat,
                        );
                    assert(r.pending.contains(sub));
                }
            }
        }
    }
}

/// An entry of the root, or of a directory below the root, lies below the
/// root.
proof fn lemma_reachable_step<T>(
    listing: spec_fn(T) -> Seq<(T, EntryKind)>,
    root: T,
    dir: T,
    path: T,
    kind: EntryKind,
)
    requires
        dir == root || is_reachable(listing, root, dir, EntryKind::Directory),
        lists(listing, dir, path, kind),
    ensures
        is_reachable(listing, root, path, kind),
{
    if dir == root {
        assert(is_below(listing, root, path, kind, 1));
    } else {
        let depth = choose|depth: nat| is_below(listing, root, dir, EntryKind::Directory, depth);
        lemma_below_step(listing, root, dir, path, kind, depth);
        assert(is_below(listing, root, path, kind, depth + 1));
    }
}

/// Rounds keep the walk sound and complete.
proof fn lemma_rounds_keep<T>(
    listing: spec_fn(T) -> Seq<(T, EntryKind)>,
    root: T,
    w: Walk<T>,
    n: nat,
)
    requires
        is_sound(listing, root, w),
        is_complete(listing, root, w),
    ensures
        is_sound(listing, root, after_rounds(w, listing, n)),
        is_complete(listing, root, after_rounds(w, listing, n)),
    decreases n,
{
    if n > 0 {
        lemma_round_keeps(listing, root, w);
        lemma_rounds_keep(listing, root, after_round(w, listing), (n - 1) as nat);
    }
}

/// A walk that is driven to its end has found the files below its root, and
/// nothing else: when no directory is left to read after some rounds, the
/// files found are those that lie in the root or in a directory below it.
pub proof fn lemma_walk_finds_the_files<T>(
    listing: spec_fn(T) -> Seq<(T, EntryKind)>,
    root: T,
    n: nat,
)
    requires
        after_rounds(started(root), listing, n).pending.len() == 0,
    ensures
        forall|x: T|
            #[trigger] after_rounds(started(root), listing, n).files.contains(x) <==> is_reachable(
                listing,
                root,
                x,
                EntryKind::File,
            ),
{
    let start = started(root);
    let end = after_rounds(start, listing, n);
    assert(is_sound(listing, root, start)) by {
        assert forall|d: T| #[trigger] start.pending.contains(d) implies d == root by {
            let i = choose|i: int| 0 <= i < start.pending.len() && start.pending[i] == d;
        }
    }
    assert(is_complete(listing, root, start)) by {
        assert(start.pending[0] == root);
        assert(start.pending.contains(root));
    }
    lemma_rounds_keep(listing, root, start, n);
    assert forall|x: T| #[trigger] end.files.contains(x) <==> is_reachable(
        listing,
        root,
        x,
        EntryKind::File,
    ) by {
        if is_reachable(listing, root, x, EntryKind::File) {
            let depth = choose|depth: nat| is_below(listing, root, x, EntryKind::File, depth);
            assert(is_covered(listing, end, x));
        }
    }
}

impl<T> Walker<T> {
    /// The walk that starts at `root`: only `root` is to be read, and no
    /// file is found yet.
    pub fn new(root: T) -> (walk: Walker<T>)
        ensures
            walk@ == started(root),
    {
        let mut pending: Vec<T> = Vec::new();
        pending.push(root);
        Walker { pending, files: Vec::new() }
    }

    /// The directory to read next, which is the one that was added last, so
    /// that the walk goes depth first; none when the walk is over.
    pub fn next_dir(&mut self) -> (dir: Option<T>)
        ensures
            final(self).files@ == old(self).files@,
            match dir {
                Some(d) => old(self).pending@.len() > 0 && d == old(self).pending@.last()
                    && final(self).pending@ == old(self).pending@.drop_last(),
                None => old(self).pending@.len() == 0 && final(self).pending@ == old(self).pending@,
            },
    {
        self.pending.pop()
    }

    /// Takes in one entry of the directory that is being read: a directory
    /// is to be read later, a file is found, anything else is passed over.
    pub fn add(&mut self, path: T, kind: EntryKind)
        ensures
            final(self)@ == added(old(self)@, path, kind),
    {
        match kind {
            EntryKind::Directory => self.pending.push(path),
            EntryKind::File => self.files.push(path),
            EntryKind::Other => {},
        }
    }

    /// Takes in the entries of the directory that was read, in their order.
    /// With the taking of that directory before it, this makes one round of
    /// the walk.
    pub fn take_in(&mut self, entries: Vec<(T, EntryKind)>)
        ensures
            final(self)@ == added_all(old(self)@, entries@),
    {
        let ghost all = entries@;
        assert(all.take(0) == Seq::<(T, EntryKind)>::empty());
        for entry in it: entries
            invariant
                it.seq() == all,
                self@ == added_all(old(self)@, all.take(it.index())),
        {
            proof {
                let k = it.index();
                assert(all.take(k + 1).drop_last() == all.take(k));
                assert(all.take(k + 1).last() == entry);
            }
            self.add(entry.0, entry.1);
        }
        assert(all.take(all.len() as int) == all);
    }

    /// The files found, in the order in which they were found.
    pub fn into_files(self) -> (files: Vec<T>)
        ensures
            files@ == self.files@,
    {
        self.files
    }
}

} // verus!
