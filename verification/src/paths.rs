//! Paths as plain values: a path is held as the names of its components,
//! from the outermost to the innermost, and written with forward slashes.

use vstd::prelude::*;
use crate::text::{chars_of, string_of};

verus! {

/// Whether `path` starts with all the components of `base`.
pub open spec fn starts_with_components(path: Seq<Seq<char>>, base: Seq<Seq<char>>) -> bool {
    base.len() <= path.len() && path.take(base.len() as int) == base
}

/// The components of `path` behind those of `base`, where `path` starts with
/// them.
pub open spec fn relative_to(path: Seq<Seq<char>>, base: Seq<Seq<char>>) -> Option<Seq<Seq<char>>> {
    if starts_with_components(path, base) {
        Some(path.skip(base.len() as int))
    } else {
        None
    }
}

/// The path `path` as seen from `base`: what is left of its components when
/// those of `base` are taken from its start, and nothing where it does not
/// start with them.
pub fn path_relative_to(path: &Vec<String>, base: &Vec<String>) -> (rel: Option<Vec<String>>)
    ensures
        match rel {
            Some(r) => relative_to(path.deep_view(), base.deep_view()) == Some(r.deep_view()),
            None => relative_to(path.deep_view(), base.deep_view()) is None,
        },
{
    if base.len() > path.len() {
        return None;
    }
    let mut i: usize = 0;
    while i < base.len()
        invariant
            i <= base.len() <= path.len(),
            path.deep_view().take(i as int) == base.deep_view().take(i as int),
        decreases base.len() - i,
    {
        if path[i] != base[i] {
            assert(path.deep_view().take(base.len() as int)[i as int] != base.deep_view()[i as int]);
            return None;
        }
        assert(path.deep_view().take(i + 1) == path.deep_view().take(i as int).push(path[i as int]@));
        assert(base.deep_view().take(i + 1) == base.deep_view().take(i as int).push(base[i as int]@));
        i += 1;
    }
    assert(base.deep_view().take(base.len() as int) == base.deep_view());
    let mut rest: Vec<String> = Vec::new();
    let mut k: usize = base.len();
    while k < path.len()
        invariant
            base.len() <= k <= path.len(),
            rest.deep_view() == path.deep_view().subrange(base.len() as int, k as int),
        decreases path.len() - k,
    {
        rest.push(path[k].clone());
        assert(rest.deep_view() == path.deep_view().subrange(base.len() as int, k as int).push(
            path[k as int]@,
        ));
        k += 1;
    }
    assert(path.deep_view().subrange(base.len() as int, path.len() as int) == path.deep_view().skip(
        base.len() as int,
    ));
    Some(rest)
}

/// `p` with a forward slash in the place of each backslash.
pub open spec fn with_forward_slashes(p: Seq<char>) -> Seq<char> {
    Seq::new(p.len(), |i: int| if p[i] == '\\' { '/' } else { p[i] })
}

/// The path in the form with forward slashes only, whatever the platform
/// wrote.
pub fn to_unix_string(p: &str) -> (s: String)
    ensures
        s@ == with_forward_slashes(p@),
{
    let chars = chars_of(p);
    let mut out: Vec<char> = Vec::new();
    let mut i: usize = 0;
    while i < chars.len()
        invariant
            i <= chars.len(),
            chars@ == p@,
            out@ == with_forward_slashes(p@).take(i as int),
        decreases chars.len() - i,
    {
        let c = chars[i];
        if c == '\\' {
            out.push('/');
        } else {
            out.push(c);
        }
        assert(out@ == with_forward_slashes(p@).take(i + 1));
        i += 1;
    }
    assert(with_forward_slashes(p@).take(chars.len() as int) == with_forward_slashes(p@));
    string_of(&out)
}

} // verus!
