//! The trigger record of a manifest, and its mathematical model.

use vstd::prelude::*;

verus! {

/// What a trigger entry is in contracts: its name and its path, as text.
pub struct Trigger {
    pub name: Seq<char>,
    pub path: Seq<char>,
}

/// One `[[triggers]]` entry: the name by which an audio file is called, and
/// the file's path below the audio directory, with forward slashes and a
/// leading `./`.
#[derive(Debug, Clone, PartialEq, Eq, Default)]
pub struct TriggerEntry {
    pub name: String,
    pub path: String,
}

impl View for TriggerEntry {
    type V = Trigger;

    open spec fn view(&self) -> Trigger {
        Trigger { name: self.name@, path: self.path@ }
    }
}

impl DeepView for TriggerEntry {
    type V = Trigger;

    open spec fn deep_view(&self) -> Trigger {
        self@
    }
}

impl TriggerEntry {
    /// An entry with the given name and path.
    pub fn new(name: &str, path: &str) -> (t: TriggerEntry)
        ensures
            t@ == (Trigger { name: name@, path: path@ }),
    {
        TriggerEntry { name: name.to_string(), path: path.to_string() }
    }

    /// An entry equal to this one.
    pub fn duplicate(&self) -> (t: TriggerEntry)
        ensures
            t@ == self@,
    {
        TriggerEntry { name: self.name.clone(), path: self.path.clone() }
    }
}

/// The names of the entries, in order.
pub open spec fn names_of(s: Seq<Trigger>) -> Seq<Seq<char>> {
    Seq::new(s.len(), |i: int| s[i].name)
}

/// The paths of the entries, in order.
pub open spec fn paths_of(s: Seq<Trigger>) -> Seq<Seq<char>> {
    Seq::new(s.len(), |i: int| s[i].path)
}

} // verus!
