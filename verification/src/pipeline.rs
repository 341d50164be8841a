//! The build of one bank, from what was read of it to what is to be written:
//! the triggers are discovered and merged, the manifest is rewritten, and,
//! for a bank with an author and a name, the archive is laid out.

use vstd::prelude::*;
use crate::archive::{
    archive_entries, archive_file_name, archive_name, lay_out_archive, missing_identity_message,
    ArchiveEntry,
};
use crate::discover::{
    candidates_of, discover_triggers, discovered, lemma_discovery_ignores_order, text_of, Found,
    FoundFile,
};
use crate::error::{BankError, ErrorKind};
use crate::manifest::{rewritten, rewritten_lines, write_triggers_after_bank};
use crate::manifest_laws::{
    ends_in_cr, lemma_plain_triggers_read_as_blocks, lemma_rewriting_is_idempotent, no_line_feed,
};
use crate::merge::{lemma_merge_is_idempotent, merge_triggers, merged};
use crate::text::trimmed;
use crate::trigger::{paths_of, Trigger, TriggerEntry};

verus! {

/// What is read of a bank before it is built.
#[derive(Debug, Clone, PartialEq, Eq)]
pub struct BankSource {
    /// The text of the manifest.
    pub manifest: String,
    /// The author, the name and the description that the manifest gives.
    pub author: String,
    pub name: String,
    pub description: Option<String>,
    /// The triggers that the manifest names.
    pub triggers: Vec<TriggerEntry>,
    /// The components of the path of the audio directory.
    pub audio_dir: Vec<String>,
    /// The files found below the audio directory.
    pub files: Vec<FoundFile>,
    /// Whether the bank directory holds a README and a LICENSE.
    pub has_readme: bool,
    pub has_license: bool,
}

/// The archive of a bank: the name of its file, and its entries in order.
#[derive(Debug, Clone, PartialEq, Eq)]
pub struct Archive {
    pub file_name: String,
    pub entries: Vec<ArchiveEntry>,
}

/// What a build writes: the new text of the manifest, which holds the
/// triggers; and the archive, or the reason why there is none.
#[derive(Debug, PartialEq, Eq)]
pub struct BankBuild {
    pub manifest: String,
    pub triggers: Vec<TriggerEntry>,
    pub archive: Result<Archive, BankError>,
}

/// Builds a bank. The triggers are those discovered among the files, merged
/// with those of the manifest; the manifest is rewritten with them, whatever
/// becomes of the archive. A bank whose author or name is blank gets no
/// archive: the build ends with an error before any entry is laid out.
pub fn build_bank(source: BankSource) -> (build: BankBuild)
    ensures
        build.triggers.deep_view() == merged(
            source.triggers.deep_view(),
            discovered(source.files.deep_view(), source.audio_dir.deep_view()),
        ),
        build.manifest@ == rewritten(source.manifest@, build.triggers.deep_view()),
        match build.archive {
            Ok(archive) => {
                &&& trimmed(source.author@).len() > 0
                &&& trimmed(source.name@).len() > 0
                &&& archive.file_name@ == archive_name(source.author@, source.name@)
                &&& archive.entries.deep_view() == archive_entries(
                    source.author@,
                    source.name@,
                    text_of(source.description),
                    source.has_readme,
                    source.has_license,
                    source.files.deep_view(),
                    source.audio_dir.deep_view(),
                )
            },
            Err(e) => {
                &&& trimmed(source.author@).len() == 0 || trimmed(source.name@).len() == 0
                &&& e.kind == ErrorKind::MalformedInput
                &&& e.message@ == missing_identity_message()
            },
        },
{
    let found = discover_triggers(&source.files, &source.audio_dir);
    let triggers = merge_triggers(source.triggers, found);
    let manifest = write_triggers_after_bank(source.manifest.as_str(), triggers.as_slice());
    let archive = match archive_file_name(source.author.as_str(), source.name.as_str()) {
        Ok(file_name) => {
            let description = match &source.description {
                Some(d) => Some(d.as_str()),
                None => None,
            };
            let entries = lay_out_archive(
                source.author.as_str(),
                source.name.as_str(),
                description,
                source.has_readme,
                source.has_license,
                &source.files,
                &source.audio_dir,
            );
            Ok(Archive { file_name, entries })
        },
        Err(e) => Err(e),
    };
    BankBuild { manifest, triggers, archive }
}

/// A second build of a bank whose files have not changed writes what the
/// first build wrote: the triggers of the first build, merged with the same
/// discovered candidates, stay as they are, and so does the manifest that
/// was written with them. This is stated of candidates with pairwise
/// different paths, of names and paths without a line feed, and of a
/// manifest in which no line that is kept ends in a carriage return.
pub proof fn lemma_second_build_changes_nothing(
    text: Seq<char>,
    existing: Seq<Trigger>,
    found: Seq<Trigger>,
)
    requires
        paths_of(found).no_duplicates(),
        forall|i: int|
            0 <= i < merged(existing, found).len() ==> no_line_feed(
                (#[trigger] merged(existing, found)[i]).name,
            ) && no_line_feed(merged(existing, found)[i].path),
        forall|i: int|
            0 <= i < rewritten_lines(text, merged(existing, found)).len() ==> !ends_in_cr(
                #[trigger] rewritten_lines(text, merged(existing, found))[i],
            ),
    ensures
        merged(merged(existing, found), found) == merged(existing, found),
        rewritten(rewritten(text, merged(existing, found)), merged(merged(existing, found), found))
            == rewritten(text, merged(existing, found)),
{
    lemma_merge_is_idempotent(existing, found);
    lemma_plain_triggers_read_as_blocks(merged(existing, found));
    lemma_rewriting_is_idempotent(text, merged(existing, found));
}

/// The order in which the files are found does not matter to the triggers
/// and so not to the manifest: the same files in another order are merged
/// to the same list, where no two candidates have one path.
pub proof fn lemma_build_ignores_file_order(
    existing: Seq<Trigger>,
    files: Seq<Found>,
    shuffled: Seq<Found>,
    root: Seq<Seq<char>>,
)
    requires
        files.to_multiset() == shuffled.to_multiset(),
        paths_of(candidates_of(files, root)).no_duplicates(),
    ensures
        merged(existing, discovered(files, root)) == merged(existing, discovered(shuffled, root)),
{
    lemma_discovery_ignores_order(files, shuffled, root);
}

} // verus!
