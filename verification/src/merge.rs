//! The merge of the triggers of a manifest with those found on disk: a
//! trigger whose path was known keeps its name, a new one gets a fresh name,
//! and one whose file is gone is dropped.

use vstd::prelude::*;
use vstd::seq_lib::*;
use crate::names::{disambiguate_name, fresh_name, lemma_fresh_name_is_free, NameSet};
use crate::order::{
    insert_position, lemma_insert_position, lemma_sort_by_path, lemma_sort_keeps_paths,
    lemma_sorting_ignores_order, path_le, sort_by_path, sort_triggers, sorted_by_path,
};
use crate::trigger::{names_of, paths_of, Trigger, TriggerEntry};

verus! {

/// The name that `existing` has for `path`: that of its last entry with this
/// path, if there is one.
pub open spec fn lookup_name(existing: Seq<Trigger>, path: Seq<char>) -> Option<Seq<char>>
    decreases existing.len(),
{
    if existing.len() == 0 {
        None
    } else if existing.last().path == path {
        Some(existing.last().name)
    } else {
        lookup_name(existing.drop_last(), path)
    }
}

/// The names of the entries, as a set.
pub open spec fn name_set(s: Seq<Trigger>) -> Set<Seq<char>> {
    names_of(s).to_set()
}

/// The entries of `pending` in order, each with the name that `existing` has for
/// its path, or else with a fresh name, which is then in use for the entries
/// that follow.
pub open spec fn assign_names(existing: Seq<Trigger>, used: Set<Seq<char>>, pending: Seq<Trigger>) -> Seq<
    Trigger,
>
    decreases pending.len(),
{
    if pending.len() == 0 {
        Seq::empty()
    } else {
        let d = pending[0];
        match lookup_name(existing, d.path) {
            Some(name) => seq![Trigger { name, path: d.path }] + assign_names(
                existing,
                used,
                pending.drop_first(),
            ),
            None => {
                let name = fresh_name(d.name, d.path, used);
                seq![Trigger { name, path: d.path }] + assign_names(
                    existing,
                    used.insert(name),
                    pending.drop_first(),
                )
            },
        }
    }
}

/// The trigger list of a manifest that had the triggers `existing`, after the
/// audio files `discovered` were found: the discovered entries in the order
/// of their paths, named against the names of `existing`.
pub open spec fn merged(existing: Seq<Trigger>, discovered: Seq<Trigger>) -> Seq<Trigger> {
    assign_names(existing, name_set(existing), sort_by_path(discovered))
}

/// A name that `existing` has for a path is the name of an entry with that
/// path, and no later entry has the path.
pub proof fn lemma_lookup_name(existing: Seq<Trigger>, path: Seq<char>)
    ensures
        match lookup_name(existing, path) {
            Some(name) => exists|k: int|
                0 <= k < existing.len() && (#[trigger] existing[k]).path == path && existing[k].name
                    == name && forall|m: int| k < m < existing.len() ==> (#[trigger] existing[m]).path != path,
            None => forall|k: int| 0 <= k < existing.len() ==> (#[trigger] existing[k]).path != path,
        },
    decreases existing.len(),
{
    if existing.len() == 0 {
    } else if existing.last().path == path {
        assert(existing[existing.len() - 1].path == path);
    } else {
        let front = existing.drop_last();
        lemma_lookup_name(front, path);
        match lookup_name(front, path) {
            Some(name) => {
                let k = choose|k: int|
                    0 <= k < front.len() && (#[trigger] front[k]).path == path && front[k].name == name
                        && forall|m: int| k < m < front.len() ==> (#[trigger] front[m]).path != path;
                assert(existing[k] == front[k]);
                assert forall|m: int| k < m < existing.len() implies (#[trigger] existing[m]).path
                    != path by {
                    if m < front.len() {
                        assert(existing[m] == front[m]);
                    }
                }
            },
            None => {
                assert forall|k: int| 0 <= k < existing.len() implies (#[trigger] existing[k]).path
                    != path by {
                    if k < front.len() {
                        assert(existing[k] == front[k]);
                    }
                }
            },
        }
    }
}

/// The last entry of `existing` with its path is the one whose name is looked
/// up for that path.
pub proof fn lemma_lookup_of_last(existing: Seq<Trigger>, k: int)
    requires
        0 <= k < existing.len(),
        forall|m: int| k < m < existing.len() ==> (#[trigger] existing[m]).path != existing[k].path,
    ensures
        lookup_name(existing, existing[k].path) == Some(existing[k].name),
    decreases existing.len(),
{
    if k < existing.len() - 1 {
        let front = existing.drop_last();
        assert(existing[existing.len() - 1].path != existing[k].path);
        assert(front[k] == existing[k]);
        assert forall|m: int| k < m < front.len() implies (#[trigger] front[m]).path
            != front[k].path by {
            assert(front[m] == existing[m]);
        }
        lemma_lookup_of_last(front, k);
    }
}

/// Naming keeps the number, the order and the paths of the entries; each
/// entry has the name that `existing` has for its path, or, where it has
/// none, a name that was not in use.
pub proof fn lemma_assign_names(existing: Seq<Trigger>, used: Set<Seq<char>>, pending: Seq<Trigger>)
    requires
        used.finite(),
    ensures
        assign_names(existing, used, pending).len() == pending.len(),
        forall|i: int|
            0 <= i < pending.len() ==> (#[trigger] assign_names(existing, used, pending)[i]).path
                == pending[i].path,
        forall|i: int|
            0 <= i < pending.len() ==> match lookup_name(existing, pending[i].path) {
                Some(name) => (#[trigger] assign_names(existing, used, pending)[i]).name == name,
                None => !used.contains(assign_names(existing, used, pending)[i].name),
            },
    decreases pending.len(),
{
    if pending.len() > 0 {
        let d = pending[0];
        let rest = pending.drop_first();
        let out = assign_names(existing, used, pending);
        match lookup_name(existing, d.path) {
            Some(name) => {
                lemma_assign_names(existing, used, rest);
                let tail = assign_names(existing, used, rest);
                assert forall|i: int| 0 <= i < pending.len() implies (#[trigger] out[i]).path
                    == pending[i].path && match lookup_name(existing, pending[i].path) {
                    Some(name) => out[i].name == name,
                    None => !used.contains(out[i].name),
                } by {
                    if i > 0 {
                        assert(out[i] == tail[i - 1]);
                        assert(pending[i] == rest[i - 1]);
                    }
                }
            },
            None => {
                let name = fresh_name(d.name, d.path, used);
                lemma_fresh_name_is_free(d.name, d.path, used);
                lemma_assign_names(existing, used.insert(name), rest);
                let tail = assign_names(existing, used.insert(name), rest);
                assert forall|i: int| 0 <= i < pending.len() implies (#[trigger] out[i]).path
                    == pending[i].path && match lookup_name(existing, pending[i].path) {
                    Some(name) => out[i].name == name,
                    None => !used.contains(out[i].name),
                } by {
                    if i > 0 {
                        assert(out[i] == tail[i - 1]);
                        assert(pending[i] == rest[i - 1]);
                    }
                }
            },
        }
    }
}

/// Whether two candidates take one name from the manifest: the manifest has
/// a name for the path of the one, and the same for the path of the other.
pub open spec fn take_one_name(existing: Seq<Trigger>, a: Trigger, b: Trigger) -> bool {
    lookup_name(existing, a.path) is Some && lookup_name(existing, a.path) == lookup_name(
        existing,
        b.path,
    )
}

/// No two of the candidates take one name from the manifest.
pub open spec fn no_shared_name(existing: Seq<Trigger>, s: Seq<Trigger>) -> bool {
    forall|i: int, j: int|
        0 <= i < j < s.len() ==> !take_one_name(existing, #[trigger] s[i], #[trigger] s[j])
}

/// No candidate of `s` takes one name with `t`.
spec fn shares_with_none(existing: Seq<Trigger>, s: Seq<Trigger>, t: Trigger) -> bool {
    forall|k: int| 0 <= k < s.len() ==> !take_one_name(existing, #[trigger] s[k], t)
}

/// Candidates with one more at their end share no name if they shared none
/// before and the new one shares none with them.
proof fn lemma_no_shared_name_push(existing: Seq<Trigger>, s: Seq<Trigger>, t: Trigger)
    ensures
        no_shared_name(existing, s.push(t)) == (no_shared_name(existing, s) && shares_with_none(
            existing,
            s,
            t,
        )),
{
    let more = s.push(t);
    if no_shared_name(existing, more) {
        assert forall|i: int, j: int| 0 <= i < j < s.len() implies !take_one_name(
            existing,
            #[trigger] s[i],
            #[trigger] s[j],
        ) by {
            assert(more[i] == s[i] && more[j] == s[j]);
        }
        assert forall|k: int| 0 <= k < s.len() implies !take_one_name(existing, #[trigger] s[k], t) by {
            assert(more[k] == s[k] && more[s.len() as int] == t);
        }
    }
    if no_shared_name(existing, s) && shares_with_none(existing, s, t) {
        assert forall|i: int, j: int| 0 <= i < j < more.len() implies !take_one_name(
            existing,
            #[trigger] more[i],
            #[trigger] more[j],
        ) by {
            assert(more[i] == s[i]);
            if j < s.len() {
                assert(more[j] == s[j]);
            }
        }
    }
}

/// The same of candidates with one more put in at any place.
proof fn lemma_no_shared_name_insert(existing: Seq<Trigger>, s: Seq<Trigger>, p: int, t: Trigger)
    requires
        0 <= p <= s.len(),
    ensures
        no_shared_name(existing, s.insert(p, t)) == (no_shared_name(existing, s) && shares_with_none(
            existing,
            s,
            t,
        )),
{
    let more = s.insert(p, t);
    s.insert_ensures(p, t);
    if no_shared_name(existing, more) {
        assert forall|i: int, j: int| 0 <= i < j < s.len() implies !take_one_name(
            existing,
            #[trigger] s[i],
            #[trigger] s[j],
        ) by {
            let a = if i < p {
                i
            } else {
                i + 1
            };
            let b = if j < p {
                j
            } else {
                j + 1
            };
            assert(more[a] == s[i] && more[b] == s[j]);
        }
        assert forall|k: int| 0 <= k < s.len() implies !take_one_name(existing, #[trigger] s[k], t) by {
            if k < p {
                assert(more[k] == s[k]);
                assert(!take_one_name(existing, more[k], more[p]));
            } else {
                assert(more[k + 1] == s[k]);
                assert(!take_one_name(existing, more[p], more[k + 1]));
            }
        }
    }
    if no_shared_name(existing, s) && shares_with_none(existing, s, t) {
        assert forall|i: int, j: int| 0 <= i < j < more.len() implies !take_one_name(
            existing,
            #[trigger] more[i],
            #[trigger] more[j],
        ) by {
            let a = if i < p {
                i
            } else {
                i - 1
            };
            let b = if j < p {
                j
            } else {
                j - 1
            };
            if i == p {
                assert(more[j] == s[b]);
                assert(!take_one_name(existing, s[b], t));
            } else if j == p {
                assert(more[i] == s[a]);
                assert(!take_one_name(existing, s[a], t));
            } else {
                assert(more[i] == s[a] && more[j] == s[b]);
            }
        }
    }
}

/// Whether candidates share a name does not depend on their order: the
/// sorted candidates share one if and only if the given ones do.
pub proof fn lemma_sort_keeps_shared_names(existing: Seq<Trigger>, s: Seq<Trigger>)
    ensures
        no_shared_name(existing, sort_by_path(s)) == no_shared_name(existing, s),
    decreases s.len(),
{
    broadcast use group_to_multiset_ensures;

    if s.len() > 0 {
        let front = s.drop_last();
        let t = s.last();
        let sorted = sort_by_path(front);
        lemma_sort_keeps_shared_names(existing, front);
        lemma_sort_by_path(front);
        lemma_insert_position(sorted, t);
        lemma_no_shared_name_insert(
            existing,
            sorted,
            insert_position(sorted, t) as int,
            t,
        );
        assert(s == front.push(t));
        lemma_no_shared_name_push(existing, front, t);
        if shares_with_none(existing, front, t) {
            assert forall|k: int| 0 <= k < sorted.len() implies !take_one_name(
                existing,
                #[trigger] sorted[k],
                t,
            ) by {
                assert(sorted.contains(sorted[k]));
                assert(front.to_multiset().count(sorted[k]) > 0);
                assert(front.contains(sorted[k]));
                let m = choose|m: int| 0 <= m < front.len() && front[m] == sorted[k];
                assert(!take_one_name(existing, front[m], t));
            }
        }
        if shares_with_none(existing, sorted, t) {
            assert forall|k: int| 0 <= k < front.len() implies !take_one_name(
                existing,
                #[trigger] front[k],
                t,
            ) by {
                assert(front.contains(front[k]));
                assert(sorted.to_multiset().count(front[k]) > 0);
                assert(sorted.contains(front[k]));
                let m = choose|m: int| 0 <= m < sorted.len() && sorted[m] == front[k];
                assert(!take_one_name(existing, sorted[m], t));
            }
        }
    }
}

/// Where the names of the manifest are in use, naming gives pairwise
/// different names if and only if no two of the entries take one name from
/// the manifest.
pub proof fn lemma_assign_names_distinct(
    existing: Seq<Trigger>,
    used: Set<Seq<char>>,
    pending: Seq<Trigger>,
)
    requires
        used.finite(),
        name_set(existing).subset_of(used),
    ensures
        names_of(assign_names(existing, used, pending)).no_duplicates() == no_shared_name(
            existing,
            pending,
        ),
    decreases pending.len(),
{
    let out = assign_names(existing, used, pending);
    lemma_assign_names(existing, used, pending);
    if pending.len() > 0 {
        let d = pending[0];
        let rest = pending.drop_first();
        let used1 = match lookup_name(existing, d.path) {
            Some(name) => used,
            None => used.insert(fresh_name(d.name, d.path, used)),
        };
        let tail = assign_names(existing, used1, rest);
        lemma_assign_names_distinct(existing, used1, rest);
        lemma_assign_names(existing, used1, rest);
        lemma_fresh_name_is_free(d.name, d.path, used);
        lemma_names_in_set(existing);
        if no_shared_name(existing, pending) {
            assert(no_shared_name(existing, rest)) by {
                assert forall|i: int, j: int| 0 <= i < j < rest.len() implies !take_one_name(
                    existing,
                    #[trigger] rest[i],
                    #[trigger] rest[j],
                ) by {
                    assert(rest[i] == pending[i + 1] && rest[j] == pending[j + 1]);
                }
            }
            assert forall|i: int, j: int|
                0 <= i < out.len() && 0 <= j < out.len() && i != j implies names_of(out)[i]
                != names_of(out)[j] by {
                if i > 0 && j > 0 {
                    assert(out[i] == tail[i - 1] && out[j] == tail[j - 1]);
                    assert(names_of(tail)[i - 1] != names_of(tail)[j - 1]);
                } else {
                    let m = if i > 0 {
                        i
                    } else {
                        j
                    };
                    assert(out[m] == tail[m - 1]);
                    assert(rest[m - 1] == pending[m]);
                    assert(!take_one_name(existing, pending[0], pending[m]));
                    lemma_lookup_name(existing, d.path);
                    lemma_lookup_name(existing, pending[m].path);
                }
            }
        } else {
            let (i, j) = choose|i: int, j: int|
                0 <= i < j < pending.len() && take_one_name(
                    existing,
                    #[trigger] pending[i],
                    #[trigger] pending[j],
                );
            assert(names_of(out)[i] == names_of(out)[j]);
        }
    } else {
        assert(names_of(out) == Seq::<Seq<char>>::empty());
    }
}

/// In a manifest whose names are pairwise different, candidates whose paths
/// are pairwise different take no name together.
pub proof fn lemma_valid_lists_share_no_name(existing: Seq<Trigger>, s: Seq<Trigger>)
    requires
        names_of(existing).no_duplicates(),
        paths_of(s).no_duplicates(),
    ensures
        no_shared_name(existing, s),
{
    assert forall|i: int, j: int| 0 <= i < j < s.len() implies !take_one_name(
        existing,
        #[trigger] s[i],
        #[trigger] s[j],
    ) by {
        assert(paths_of(s)[i] != paths_of(s)[j]);
        lemma_lookup_name(existing, s[i].path);
        lemma_lookup_name(existing, s[j].path);
        match (lookup_name(existing, s[i].path), lookup_name(existing, s[j].path)) {
            (Some(a), Some(b)) => {
                let ka = choose|k: int|
                    0 <= k < existing.len() && (#[trigger] existing[k]).path == s[i].path
                        && existing[k].name == a && forall|m: int|
                        k < m < existing.len() ==> (#[trigger] existing[m]).path != s[i].path;
                let kb = choose|k: int|
                    0 <= k < existing.len() && (#[trigger] existing[k]).path == s[j].path
                        && existing[k].name == b && forall|n: int|
                        k < n < existing.len() ==> (#[trigger] existing[n]).path != s[j].path;
                assert(names_of(existing)[ka] != names_of(existing)[kb]);
            },
            _ => {},
        }
    }
}

/// The name of each entry is in the set of the names.
pub proof fn lemma_names_in_set(s: Seq<Trigger>)
    ensures
        forall|k: int| 0 <= k < s.len() ==> name_set(s).contains((#[trigger] s[k]).name),
        name_set(s).finite(),
{
    seq_to_set_is_finite(names_of(s));
    assert forall|k: int| 0 <= k < s.len() implies name_set(s).contains((#[trigger] s[k]).name) by {
        assert(names_of(s)[k] == s[k].name);
    }
}

/// The merged list is in the order of its paths, whatever the order of the
/// given lists.
pub proof fn lemma_merged_is_sorted(existing: Seq<Trigger>, discovered: Seq<Trigger>)
    ensures
        sorted_by_path(merged(existing, discovered)),
        merged(existing, discovered).len() == discovered.len(),
{
    let pending = sort_by_path(discovered);
    let out = merged(existing, discovered);
    lemma_names_in_set(existing);
    lemma_sort_by_path(discovered);
    lemma_assign_names(existing, name_set(existing), pending);
    assert forall|i: int, j: int| 0 <= i <= j < out.len() implies path_le(
        #[trigger] out[i].path,
        #[trigger] out[j].path,
    ) by {
        assert(path_le(pending[i].path, pending[j].path));
    }
}

/// The paths of the merged list are the paths of the discovered files: a
/// trigger whose path is not among them is not in the list, and each
/// discovered path is.
pub proof fn lemma_merged_paths(existing: Seq<Trigger>, discovered: Seq<Trigger>)
    ensures
        forall|p: Seq<char>|
            paths_of(merged(existing, discovered)).contains(p) <==> paths_of(discovered).contains(p),
{
    let pending = sort_by_path(discovered);
    let out = merged(existing, discovered);
    lemma_names_in_set(existing);
    lemma_sort_keeps_paths(discovered);
    lemma_assign_names(existing, name_set(existing), pending);
    assert(paths_of(out) == paths_of(pending));
}

/// An existing trigger whose path is not the path of any discovered file
/// does not appear in the merged list, nor does any entry with its path.
pub proof fn lemma_merged_drops_missing(existing: Seq<Trigger>, discovered: Seq<Trigger>, k: int)
    requires
        0 <= k < existing.len(),
        !paths_of(discovered).contains(existing[k].path),
    ensures
        !merged(existing, discovered).contains(existing[k]),
        forall|i: int|
            0 <= i < merged(existing, discovered).len() ==> (#[trigger] merged(
                existing,
                discovered,
            )[i]).path != existing[k].path,
{
    let out = merged(existing, discovered);
    lemma_merged_paths(existing, discovered);
    assert forall|i: int| 0 <= i < out.len() implies (#[trigger] out[i]).path != existing[k].path by {
        assert(paths_of(out)[i] == out[i].path);
    }
}

/// An existing trigger whose path is also the path of a discovered file
/// keeps its name: the merged list has entries with that path, and each of
/// them has the name that the manifest has for the path. That is the name of
/// the trigger itself, which is then in the merged list as it was, unless a
/// later entry of the manifest has the same path.
pub proof fn lemma_merged_keeps_names(existing: Seq<Trigger>, discovered: Seq<Trigger>, k: int)
    requires
        0 <= k < existing.len(),
        paths_of(discovered).contains(existing[k].path),
    ensures
        paths_of(merged(existing, discovered)).contains(existing[k].path),
        forall|i: int|
            0 <= i < merged(existing, discovered).len() && (#[trigger] merged(
                existing,
                discovered,
            )[i]).path == existing[k].path ==> lookup_name(existing, existing[k].path) == Some(
                merged(existing, discovered)[i].name,
            ),
        (forall|m: int| k < m < existing.len() ==> (#[trigger] existing[m]).path != existing[k].path)
            ==> merged(existing, discovered).contains(existing[k]) && lookup_name(
            existing,
            existing[k].path,
        ) == Some(existing[k].name),
{
    let pending = sort_by_path(discovered);
    let out = merged(existing, discovered);
    lemma_names_in_set(existing);
    lemma_merged_paths(existing, discovered);
    lemma_assign_names(existing, name_set(existing), pending);
    lemma_sort_by_path(discovered);
    lemma_lookup_name(existing, existing[k].path);
    assert forall|i: int| 0 <= i < out.len() && (#[trigger] out[i]).path == existing[k].path implies lookup_name(
        existing,
        existing[k].path,
    ) == Some(out[i].name) by {
        assert(pending[i].path == existing[k].path);
    }
    assert(paths_of(out).contains(existing[k].path));
    if forall|m: int| k < m < existing.len() ==> (#[trigger] existing[m]).path != existing[k].path {
        lemma_lookup_of_last(existing, k);
        let i = choose|i: int| 0 <= i < paths_of(out).len() && paths_of(out)[i] == existing[k].path;
        assert(out[i].path == existing[k].path);
        assert(out[i] == existing[k]);
    }
}

/// No two entries of the merged list share a name, if and only if no two
/// of the discovered candidates take one name from the manifest.
pub proof fn lemma_merged_names_distinct_iff(existing: Seq<Trigger>, discovered: Seq<Trigger>)
    ensures
        names_of(merged(existing, discovered)).no_duplicates() == no_shared_name(existing, discovered),
{
    lemma_names_in_set(existing);
    lemma_sort_keeps_shared_names(existing, discovered);
    lemma_assign_names_distinct(existing, name_set(existing), sort_by_path(discovered));
}

/// Where the manifest's names are pairwise different and the discovered
/// paths are, no two entries of the merged list share a name.
pub proof fn lemma_merged_names_distinct(existing: Seq<Trigger>, discovered: Seq<Trigger>)
    requires
        names_of(existing).no_duplicates(),
        paths_of(discovered).no_duplicates(),
    ensures
        names_of(merged(existing, discovered)).no_duplicates(),
{
    lemma_valid_lists_share_no_name(existing, discovered);
    lemma_merged_names_distinct_iff(existing, discovered);
}

/// The name that `existing` has for `path`.
fn find_name(existing: &Vec<TriggerEntry>, path: &String) -> (r: Option<String>)
    ensures
        match r {
            Some(name) => lookup_name(existing.deep_view(), path@) == Some(name@),
            None => lookup_name(existing.deep_view(), path@) is None,
        },
{
    let mut k: usize = existing.len();
    assert(existing.deep_view().take(k as int) == existing.deep_view());
    while k > 0
        invariant
            k <= existing.len(),
            lookup_name(existing.deep_view(), path@) == lookup_name(
                existing.deep_view().take(k as int),
                path@,
            ),
        decreases k,
    {
        assert(existing.deep_view().take(k as int).drop_last() == existing.deep_view().take(k - 1));
        assert(existing.deep_view().take(k as int).last() == existing[k - 1]@);
        if existing[k - 1].path == *path {
            return Some(existing[k - 1].name.clone());
        }
        k -= 1;
    }
    None
}

/// Merges the triggers that the manifest had with the candidates found on
/// disk. The result holds one entry for each candidate and none else, in the
/// order of the paths. A candidate whose path the manifest knew has the
/// manifest's name for it; the others get fresh names, in that order. The
/// names of the result are pairwise different unless two candidates take one
/// name from the manifest.
pub fn merge_triggers(existing: Vec<TriggerEntry>, discovered: Vec<TriggerEntry>) -> (out: Vec<
    TriggerEntry,
>)
    ensures
        out.deep_view() == merged(existing.deep_view(), discovered.deep_view()),
        out.len() == discovered.len(),
        sorted_by_path(out.deep_view()),
        forall|p: Seq<char>|
            paths_of(out.deep_view()).contains(p) <==> paths_of(discovered.deep_view()).contains(p),
        names_of(out.deep_view()).no_duplicates() == no_shared_name(
            existing.deep_view(),
            discovered.deep_view(),
        ),
{
    let ghost old_triggers = existing.deep_view();
    let ghost found = discovered.deep_view();
    let pending = sort_triggers(discovered);
    let mut used = NameSet::new();
    let mut i: usize = 0;
    assert(names_of(old_triggers.take(0)) == Seq::<Seq<char>>::empty());
    assert(Seq::<Seq<char>>::empty().to_set() == Set::<Seq<char>>::empty());
    while i < existing.len()
        invariant
            i <= existing.len(),
            old_triggers == existing.deep_view(),
            used@ == name_set(old_triggers.take(i as int)),
        decreases existing.len() - i,
    {
        proof {
            let before = names_of(old_triggers.take(i as int));
            let after = names_of(old_triggers.take(i + 1));
            assert(after == before.push(existing[i as int]@.name));
            before.lemma_push_to_set_commute(existing[i as int]@.name);
        }
        used.insert(existing[i].name.as_str());
        i += 1;
    }
    assert(old_triggers.take(existing.len() as int) == old_triggers);
    let mut out: Vec<TriggerEntry> = Vec::new();
    let mut j: usize = 0;
    assert(pending.deep_view().skip(0) == pending.deep_view());
    assert(out.deep_view() + merged(old_triggers, found) == merged(old_triggers, found));
    while j < pending.len()
        invariant
            j <= pending.len(),
            old_triggers == existing.deep_view(),
            merged(old_triggers, found) == out.deep_view() + assign_names(
                old_triggers,
                used@,
                pending.deep_view().skip(j as int),
            ),
        decreases pending.len() - j,
    {
        let ghost rest = pending.deep_view().skip(j as int);
        let ghost before = out.deep_view();
        assert(rest[0] == pending[j as int]@);
        assert(rest.drop_first() == pending.deep_view().skip(j + 1));
        let entry = match find_name(&existing, &pending[j].path) {
            Some(name) => TriggerEntry { name, path: pending[j].path.clone() },
            None => {
                let name = disambiguate_name(
                    pending[j].name.as_str(),
                    pending[j].path.as_str(),
                    &mut used,
                );
                TriggerEntry { name, path: pending[j].path.clone() }
            },
        };
        out.push(entry);
        assert(out.deep_view() == before.push(entry@));
        assert(before.push(entry@) + assign_names(old_triggers, used@, rest.drop_first()) == before
            + (seq![entry@] + assign_names(old_triggers, used@, rest.drop_first())));
        j += 1;
    }
    proof {
        assert(pending.deep_view().skip(pending.len() as int) == Seq::<Trigger>::empty());
        assert(out.deep_view() + Seq::<Trigger>::empty() == out.deep_view());
        lemma_merged_is_sorted(old_triggers, found);
        lemma_merged_paths(old_triggers, found);
        lemma_merged_names_distinct_iff(old_triggers, found);
    }
    out
}

/// The order in which the files were found does not matter: where the
/// discovered paths are pairwise different, two lists of the same candidates
/// merge to the same list.
pub proof fn lemma_merge_ignores_order(existing: Seq<Trigger>, a: Seq<Trigger>, b: Seq<Trigger>)
    requires
        a.to_multiset() == b.to_multiset(),
        paths_of(a).no_duplicates(),
    ensures
        merged(existing, a) == merged(existing, b),
{
    lemma_sorting_ignores_order(a, b);
}

/// Merging once more with the same discovered files changes nothing, where
/// the discovered paths are pairwise different: each entry finds itself in
/// the list and keeps its name.
pub proof fn lemma_merge_is_idempotent(existing: Seq<Trigger>, discovered: Seq<Trigger>)
    requires
        paths_of(discovered).no_duplicates(),
    ensures
        merged(merged(existing, discovered), discovered) == merged(existing, discovered),
{
    let pending = sort_by_path(discovered);
    let once = merged(existing, discovered);
    let twice = merged(once, discovered);
    lemma_names_in_set(existing);
    lemma_names_in_set(once);
    lemma_sort_keeps_paths(discovered);
    lemma_assign_names(existing, name_set(existing), pending);
    lemma_assign_names(once, name_set(once), pending);
    assert forall|i: int| 0 <= i < once.len() implies twice[i] == once[i] by {
        assert forall|m: int| i < m < once.len() implies (#[trigger] once[m]).path != once[i].path by {
            assert(paths_of(pending)[m] != paths_of(pending)[i]);
        }
        lemma_lookup_of_last(once, i);
        assert(pending[i].path == once[i].path);
    }
    assert(twice == once);
}

/// A list of triggers as a manifest is meant to hold it: no path and no name
/// occurs twice in it, and it is in the order of the paths.
pub open spec fn is_valid_list(s: Seq<Trigger>) -> bool {
    &&& paths_of(s).no_duplicates()
    &&& names_of(s).no_duplicates()
    &&& sorted_by_path(s)
}

/// Merging gives a valid list where the names of the manifest are pairwise
/// different and the discovered paths are: the merge keeps what a manifest
/// is meant to hold, and it makes a valid list of any list of pairwise
/// different names.
pub proof fn lemma_merged_is_valid(existing: Seq<Trigger>, discovered: Seq<Trigger>)
    requires
        names_of(existing).no_duplicates(),
        paths_of(discovered).no_duplicates(),
    ensures
        is_valid_list(merged(existing, discovered)),
{
    let pending = sort_by_path(discovered);
    let out = merged(existing, discovered);
    lemma_names_in_set(existing);
    lemma_sort_keeps_paths(discovered);
    lemma_assign_names(existing, name_set(existing), pending);
    assert(paths_of(out) == paths_of(pending));
    lemma_merged_is_sorted(existing, discovered);
    lemma_merged_names_distinct(existing, discovered);
}

} // verus!
