//! Which directory a build is asked for: a path to a bank or to its
//! manifest, or an alias of the form `bank.<name>` for a bank below the
//! banks directory.

use vstd::prelude::*;
use vstd::string::*;
use crate::error::{BankError, ErrorKind};
use crate::text::{chars_of, copy_range, same_chars, string_of};

verus! {

/// A directory in the banks directory: its name, and whether it holds a
/// manifest.
#[derive(Debug, Clone, PartialEq, Eq)]
pub struct ListedDir {
    pub name: String,
    pub has_manifest: bool,
}

/// What the file system says of the places that the request may mean.
#[derive(Debug, Clone, PartialEq, Eq)]
pub struct Probe {
    /// The request, taken as a path from the working directory.
    pub candidate: String,
    /// That path is a file, and its name is that of a manifest.
    pub candidate_is_manifest: bool,
    /// That path is a directory that holds a manifest.
    pub candidate_is_bank: bool,
    /// The banks directory.
    pub banks_root: String,
    /// The directory of the alias's own name in the banks directory holds a
    /// manifest.
    pub exact_is_bank: bool,
    /// The directories in the banks directory, where it can be listed.
    pub listing: Option<Vec<ListedDir>>,
}

/// The answer to a request.
#[derive(Debug, Clone, Copy, PartialEq, Eq)]
pub enum Resolved {
    /// The directory in which the requested manifest lies.
    ManifestParent,
    /// The requested path itself.
    Candidate,
    /// The directory of the alias's own name in the banks directory.
    Exact,
    /// The listed directory of this index.
    Listed(usize),
}

/// A listed directory in contracts.
pub struct Listed {
    pub name: Seq<char>,
    pub has_manifest: bool,
}

impl View for ListedDir {
    type V = Listed;

    open spec fn view(&self) -> Listed {
        Listed { name: self.name@, has_manifest: self.has_manifest }
    }
}

impl DeepView for ListedDir {
    type V = Listed;

    open spec fn deep_view(&self) -> Listed {
        self@
    }
}

/// The listing of a probe in contracts.
pub open spec fn listing_of(p: Probe) -> Option<Seq<Listed>> {
    match p.listing {
        Some(dirs) => Some(dirs.deep_view()),
        None => None,
    }
}

/// What stands behind `bank.` in a request that starts with it.
pub open spec fn alias_of(input: Seq<char>) -> Option<Seq<char>> {
    if input.len() >= 5 && input.take(5) == "bank."@ {
        Some(input.skip(5))
    } else {
        None
    }
}

/// Whether `s` ends with `suffix`.
pub open spec fn ends_with(s: Seq<char>, suffix: Seq<char>) -> bool {
    s.len() >= suffix.len() && s.skip(s.len() - suffix.len()) == suffix
}

/// Whether the directory is a bank whose name ends with a dot and the alias.
pub open spec fn fits_alias(dir: Listed, alias: Seq<char>) -> bool {
    dir.has_manifest && ends_with(dir.name, seq!['.'] + alias)
}

/// The indices of the listed directories that fit the alias, in order.
pub open spec fn fitting(listing: Seq<Listed>, alias: Seq<char>) -> Seq<int>
    decreases listing.len(),
{
    if listing.len() == 0 {
        Seq::empty()
    } else if fits_alias(listing.last(), alias) {
        fitting(listing.drop_last(), alias).push(listing.len() - 1)
    } else {
        fitting(listing.drop_last(), alias)
    }
}

/// An answer in contracts: the directory that is meant, or the kind and the
/// message of the error.
pub enum Answer {
    Found(Resolved),
    Refused(ErrorKind, Seq<char>),
}

/// The answer to the request `input`. A manifest file or a bank directory at
/// the requested path is taken first. Else the request must be an alias: the
/// directory of its own name is taken if it is a bank; else, for an alias
/// without a dot, the one listed bank whose name ends with a dot and the
/// alias. No such bank, more than one, an alias that cannot be looked up,
/// and a request that is neither path nor alias are refused.
pub open spec fn resolution(input: Seq<char>, p: Probe) -> Answer {
    if p.candidate_is_manifest {
        Answer::Found(Resolved::ManifestParent)
    } else if p.candidate_is_bank {
        Answer::Found(Resolved::Candidate)
    } else {
        match alias_of(input) {
            None => Answer::Refused(
                ErrorKind::NotFound,
                "Invalid path: "@ + p.candidate@ + " (no bank.toml found)"@,
            ),
            Some(alias) => if p.exact_is_bank {
                Answer::Found(Resolved::Exact)
            } else if !alias.contains('.') && listing_of(p) is Some {
                let fits = fitting(listing_of(p)->0, alias);
                if fits.len() == 1 {
                    Answer::Found(Resolved::Listed(fits[0] as usize))
                } else if fits.len() == 0 {
                    Answer::Refused(
                        ErrorKind::NotFound,
                        "No bank matched alias bank."@ + alias + " under "@ + p.banks_root@,
                    )
                } else {
                    Answer::Refused(
                        ErrorKind::AmbiguousReference,
                        "Multiple banks matched bank."@ + alias + "; use 'bank.<author>.<name>'"@,
                    )
                }
            } else {
                Answer::Refused(
                    ErrorKind::NotFound,
                    "Alias not found: "@ + input + "; expected under "@ + p.banks_root@,
                )
            },
        }
    }
}

/// The answer that a result stands for.
pub open spec fn answer_of(r: Result<Resolved, BankError>) -> Answer {
    match r {
        Ok(found) => Answer::Found(found),
        Err(e) => Answer::Refused(e.kind, e.message@),
    }
}

/// The alias of a request: what stands behind `bank.`, if the request starts
/// with it.
pub fn bank_alias(input: &str) -> (r: Option<String>)
    ensures
        match r {
            Some(alias) => alias_of(input@) == Some(alias@),
            None => alias_of(input@) is None,
        },
{
    let chars = chars_of(input);
    let prefix = chars_of("bank.");
    proof {
        reveal_strlit("bank.");
    }
    if chars.len() < 5 {
        return None;
    }
    let start = copy_range(&chars, 0, 5);
    assert(chars@.subrange(0, 5) == chars@.take(5));
    if !same_chars(&start, &prefix) {
        return None;
    }
    let rest = copy_range(&chars, 5, chars.len());
    assert(chars@.subrange(5, chars.len() as int) == chars@.skip(5));
    Some(string_of(&rest))
}

fn has_suffix(s: &Vec<char>, suffix: &Vec<char>) -> (r: bool)
    ensures
        r == ends_with(s@, suffix@),
{
    if s.len() < suffix.len() {
        return false;
    }
    let end = copy_range(s, s.len() - suffix.len(), s.len());
    assert(s@.subrange(s.len() - suffix.len(), s.len() as int) == s@.skip(s.len() - suffix.len()));
    same_chars(&end, suffix)
}

fn holds_dot(s: &Vec<char>) -> (r: bool)
    ensures
        r == s@.contains('.'),
{
    let mut i: usize = 0;
    while i < s.len()
        invariant
            i <= s.len(),
            forall|j: int| 0 <= j < i ==> s@[j] != '.',
        decreases s.len() - i,
    {
        if s[i] == '.' {
            return true;
        }
        i += 1;
    }
    false
}

/// The indices of the listed directories that fit the alias.
fn find_fitting(listing: &Vec<ListedDir>, alias: &Vec<char>) -> (fits: Vec<usize>)
    ensures
        fits@.len() == fitting(listing.deep_view(), alias@).len(),
        forall|k: int| 0 <= k < fits.len() ==> fits@[k] as int == fitting(listing.deep_view(), alias@)[k],
{
    let mut suffix: Vec<char> = Vec::new();
    suffix.push('.');
    let mut k: usize = 0;
    while k < alias.len()
        invariant
            k <= alias.len(),
            suffix@ == seq!['.'] + alias@.take(k as int),
        decreases alias.len() - k,
    {
        suffix.push(alias[k]);
        assert(alias@.take(k + 1) == alias@.take(k as int).push(alias@[k as int]));
        k += 1;
    }
    assert(alias@.take(alias.len() as int) == alias@);
    let ghost all = listing.deep_view();
    let mut fits: Vec<usize> = Vec::new();
    let mut i: usize = 0;
    assert(all.take(0) == Seq::<Listed>::empty());
    while i < listing.len()
        invariant
            i <= listing.len(),
            all == listing.deep_view(),
            suffix@ == seq!['.'] + alias@,
            fits@.len() == fitting(all.take(i as int), alias@).len(),
            forall|k: int| 0 <= k < fits.len() ==> fits@[k] as int == fitting(all.take(i as int), alias@)[k],
        decreases listing.len() - i,
    {
        assert(all.take(i + 1).drop_last() == all.take(i as int));
        assert(all.take(i + 1).last() == listing[i as int]@);
        if listing[i].has_manifest {
            let name = chars_of(listing[i].name.as_str());
            if has_suffix(&name, &suffix) {
                fits.push(i);
            }
        }
        i += 1;
    }
    assert(all.take(listing.len() as int) == all);
    fits
}

/// Answers the request `input` from what the probe found.
pub fn resolve_bank_dir(input: &str, probe: &Probe) -> (r: Result<Resolved, BankError>)
    ensures
        answer_of(r) == resolution(input@, *probe),
{
    if probe.candidate_is_manifest {
        return Ok(Resolved::ManifestParent);
    }
    if probe.candidate_is_bank {
        return Ok(Resolved::Candidate);
    }
    let alias = match bank_alias(input) {
        Some(alias) => alias,
        None => {
            let mut message = "Invalid path: ".to_string();
            message.append(probe.candidate.as_str());
            message.append(" (no bank.toml found)");
            return Err(BankError { kind: ErrorKind::NotFound, message });
        },
    };
    if probe.exact_is_bank {
        return Ok(Resolved::Exact);
    }
    let alias_chars = chars_of(alias.as_str());
    if !holds_dot(&alias_chars) {
        match &probe.listing {
            Some(listing) => {
                let fits = find_fitting(listing, &alias_chars);
                if fits.len() == 1 {
                    return Ok(Resolved::Listed(fits[0]));
                }
                if fits.len() == 0 {
                    let mut message = "No bank matched alias bank.".to_string();
                    message.append(alias.as_str());
                    message.append(" under ");
                    message.append(probe.banks_root.as_str());
                    return Err(BankError { kind: ErrorKind::NotFound, message });
                }
                let mut message = "Multiple banks matched bank.".to_string();
                message.append(alias.as_str());
                message.append("; use 'bank.<author>.<name>'");
                return Err(BankError { kind: ErrorKind::AmbiguousReference, message });
            },
            None => {},
        }
    }
    let mut message = "Alias not found: ".to_string();
    message.append(input);
    message.append("; expected under ");
    message.append(probe.banks_root.as_str());
    Err(BankError { kind: ErrorKind::NotFound, message })
}

} // verus!
