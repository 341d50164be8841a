//! Packaging of sample banks: the triggers of a bank are discovered among
//! its audio files, merged with those that its manifest names, written back
//! into the manifest, and the content of the bank's archive is laid out.

pub mod archive;
pub mod batch;
pub mod discover;
pub mod error;
pub mod manifest;
pub mod manifest_laws;
pub mod merge;
pub mod names;
pub mod order;
pub mod paths;
pub mod pipeline;
pub mod resolve;
pub mod scaffold;
pub mod text;
pub mod trigger;
pub mod walk;

pub use crate::archive::{
    archive_file_name, default_mit_license, default_readme_bank, lay_out_archive, ArchiveEntry,
    EntryContent,
};
pub use crate::batch::{plan_batch, BatchReport};
pub use crate::discover::{discover_triggers, has_audio_extension, FoundFile};
pub use crate::error::{BankError, ErrorKind};
pub use crate::manifest::write_triggers_after_bank;
pub use crate::merge::merge_triggers;
pub use crate::names::{disambiguate_name, NameSet};
pub use crate::order::{path_le_exec, sort_triggers};
pub use crate::paths::{path_relative_to, to_unix_string};
pub use crate::pipeline::{build_bank, Archive, BankBuild, BankSource};
pub use crate::resolve::{bank_alias, resolve_bank_dir, ListedDir, Probe, Resolved};
pub use crate::scaffold::{bank_dir_name, new_manifest};
pub use crate::trigger::TriggerEntry;
pub use crate::walk::{EntryKind, Walker};
