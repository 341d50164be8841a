//! What goes into the archive of a bank, and under which name the archive
//! is written: the manifest, a README and a LICENSE, the audio directory and
//! every file below it.

use vstd::prelude::*;
use vstd::string::*;
use crate::discover::{relative_path, relative_path_of, Found, FoundFile};
use crate::error::{BankError, ErrorKind};
use crate::scaffold::{bank_dir_name, bank_id};
use crate::text::{chars_of, trim_bounds, trimmed};

verus! {

/// The description of a bank that gives none.
pub open spec fn default_description() -> Seq<char> {
    "Sample bank for Devalang."@
}

/// The text of the README that is made for a bank without one.
pub open spec fn readme_text(author: Seq<char>, name: Seq<char>, description: Option<Seq<char>>) -> Seq<
    char,
> {
    "# "@ + author + "."@ + name + " Bank\n\n"@ + (match description {
        Some(d) => d,
        None => default_description(),
    }) + "\n\nContents:\n- bank.toml\n- audio/ (assets)\n- LICENSE\n\nBuilt with devaforge.\n"@
}

/// The text of an optional string slice.
pub open spec fn optional_text(s: Option<&str>) -> Option<Seq<char>> {
    match s {
        Some(s) => Some(s@),
        None => None,
    }
}

/// The README of a bank that has none of its own.
pub fn default_readme_bank(author: &str, name: &str, description: Option<&str>) -> (out: String)
    ensures
        out@ == readme_text(author@, name@, optional_text(description)),
{
    let mut out = "# ".to_string();
    out.append(author);
    out.append(".");
    out.append(name);
    out.append(" Bank\n\n");
    match description {
        Some(d) => out.append(d),
        None => out.append("Sample bank for Devalang."),
    }
    out.append("\n\nContents:\n- bank.toml\n- audio/ (assets)\n- LICENSE\n\nBuilt with devaforge.\n");
    out
}

/// The license text up to the name of the copyright holder.
pub open spec fn license_head() -> Seq<char> {
    "MIT License\n\nCopyright (c) "@
}

/// The license text behind the name of the copyright holder.
pub open spec fn license_body() -> Seq<char> {
    "\n\nPermission is hereby granted, free of charge, to any person obtaining a copy\n of this software and associated documentation files (the \"Software\"), to deal\n in the Software without restriction, including without limitation the rights\n to use, copy, modify, merge, publish, distribute, sublicense, and/or sell\n copies of the Software, and to permit persons to whom the Software is\n furnished to do so, subject to the following conditions:\n\nThe above copyright notice and this permission notice shall be included in all\n copies or substantial portions of the Software.\n\nTHE SOFTWARE IS PROVIDED \"AS IS\", WITHOUT WARRANTY OF ANY KIND, EXPRESS OR\n IMPLIED, INCLUDING BUT NOT LIMITED TO THE WARRANTIES OF MERCHANTABILITY,\n FITNESS FOR A PARTICULAR PURPOSE AND NONINFRINGEMENT. IN NO EVENT SHALL THE\n AUTHORS OR COPYRIGHT HOLDERS BE LIABLE FOR ANY CLAIM, DAMAGES OR OTHER\n LIABILITY, WHETHER IN AN ACTION OF CONTRACT, TORT OR OTHERWISE, ARISING FROM,\n OUT OF OR IN CONNECTION WITH THE SOFTWARE OR THE USE OR OTHER DEALINGS IN THE\n SOFTWARE.\n"@
}

/// The text of the license that is made for a bank without one.
pub open spec fn license_text(author: Seq<char>) -> Seq<char> {
    license_head() + author + license_body()
}

/// The MIT license in the name of `author`, for a bank that has no license
/// file of its own.
pub fn default_mit_license(author: &str) -> (out: String)
    ensures
        out@ == license_text(author@),
{
    let mut out = "MIT License\n\nCopyright (c) ".to_string();
    out.append(author);
    out.append(
        "\n\nPermission is hereby granted, free of charge, to any person obtaining a copy\n of this software and associated documentation files (the \"Software\"), to deal\n in the Software without restriction, including without limitation the rights\n to use, copy, modify, merge, publish, distribute, sublicense, and/or sell\n copies of the Software, and to permit persons to whom the Software is\n furnished to do so, subject to the following conditions:\n\nThe above copyright notice and this permission notice shall be included in all\n copies or substantial portions of the Software.\n\nTHE SOFTWARE IS PROVIDED \"AS IS\", WITHOUT WARRANTY OF ANY KIND, EXPRESS OR\n IMPLIED, INCLUDING BUT NOT LIMITED TO THE WARRANTIES OF MERCHANTABILITY,\n FITNESS FOR A PARTICULAR PURPOSE AND NONINFRINGEMENT. IN NO EVENT SHALL THE\n AUTHORS OR COPYRIGHT HOLDERS BE LIABLE FOR ANY CLAIM, DAMAGES OR OTHER\n LIABILITY, WHETHER IN AN ACTION OF CONTRACT, TORT OR OTHERWISE, ARISING FROM,\n OUT OF OR IN CONNECTION WITH THE SOFTWARE OR THE USE OR OTHER DEALINGS IN THE\n SOFTWARE.\n",
    );
    out
}

/// Whether `s` is white space only.
pub fn is_blank_text(s: &str) -> (r: bool)
    ensures
        r == (trimmed(s@).len() == 0),
{
    let chars = chars_of(s);
    let (from, to) = trim_bounds(&chars);
    from == to
}

/// The file name of the archive of the bank `name` by `author`: the
/// identifier of the bank with the extension of archives.
pub open spec fn archive_name(author: Seq<char>, name: Seq<char>) -> Seq<char> {
    bank_id(author, name) + ".devabank"@
}

/// The message of the error for a bank without author or name.
pub open spec fn missing_identity_message() -> Seq<char> {
    "Fields [bank].author and [bank].name are required in bank.toml"@
}

/// The file name under which the archive of a bank is written. A bank whose
/// author or name is empty or white space only has no archive: it is
/// refused as malformed, before any archive work.
pub fn archive_file_name(author: &str, name: &str) -> (r: Result<String, BankError>)
    ensures
        match r {
            Ok(file) => trimmed(author@).len() > 0 && trimmed(name@).len() > 0 && file@ == archive_name(
                author@,
                name@,
            ),
            Err(e) => (trimmed(author@).len() == 0 || trimmed(name@).len() == 0) && e.kind
                == ErrorKind::MalformedInput && e.message@ == missing_identity_message(),
        },
{
    if is_blank_text(author) || is_blank_text(name) {
        return Err(
            BankError {
                kind: ErrorKind::MalformedInput,
                message: "Fields [bank].author and [bank].name are required in bank.toml".to_string(),
            },
        );
    }
    let mut file = bank_dir_name(author, name);
    file.append(".devabank");
    Ok(file)
}

/// Where the content of an archive entry comes from.
#[derive(Debug, Clone, PartialEq, Eq)]
pub enum EntryContent {
    /// The entry is a directory and has no content.
    Directory,
    /// The manifest of the bank, as it stands on disk after the rewriting.
    Manifest,
    /// The file of the entry's name in the bank directory.
    BankFile,
    /// This text.
    Text(String),
    /// The found file of this index.
    Found(usize),
}

/// An entry of the archive: its name in the archive, and its content.
#[derive(Debug, Clone, PartialEq, Eq)]
pub struct ArchiveEntry {
    pub name: String,
    pub content: EntryContent,
}

/// The content of an archive entry in contracts.
pub enum Content {
    Directory,
    Manifest,
    BankFile,
    Text(Seq<char>),
    Found(int),
}

/// An archive entry in contracts.
pub struct Entry {
    pub name: Seq<char>,
    pub content: Content,
}

impl View for EntryContent {
    type V = Content;

    open spec fn view(&self) -> Content {
        match self {
            EntryContent::Directory => Content::Directory,
            EntryContent::Manifest => Content::Manifest,
            EntryContent::BankFile => Content::BankFile,
            EntryContent::Text(s) => Content::Text(s@),
            EntryContent::Found(i) => Content::Found(*i as int),
        }
    }
}

impl View for ArchiveEntry {
    type V = Entry;

    open spec fn view(&self) -> Entry {
        Entry { name: self.name@, content: self.content@ }
    }
}

impl DeepView for ArchiveEntry {
    type V = Entry;

    open spec fn deep_view(&self) -> Entry {
        self@
    }
}

/// The name in the archive of a file found below the audio directory: its
/// relative path with forward slashes, behind `audio/`.
pub open spec fn audio_entry_name(f: Found, root: Seq<Seq<char>>) -> Seq<char> {
    "audio/"@ + relative_path(f, root)
}

/// The entries that every archive starts with: the manifest; the README of
/// the bank, or the text made for a bank without one; the LICENSE likewise;
/// and the audio directory, which is there also where no file is found.
pub open spec fn fixed_entries(
    author: Seq<char>,
    name: Seq<char>,
    description: Option<Seq<char>>,
    has_readme: bool,
    has_license: bool,
) -> Seq<Entry> {
    seq![
        Entry { name: "bank.toml"@, content: Content::Manifest },
        Entry {
            name: "README.md"@,
            content: if has_readme {
                Content::BankFile
            } else {
                Content::Text(readme_text(author, name, description))
            },
        },
        Entry {
            name: "LICENSE"@,
            content: if has_license {
                Content::BankFile
            } else {
                Content::Text(license_text(author))
            },
        },
        Entry { name: "audio/"@, content: Content::Directory },
    ]
}

/// The entries of the found files, one for each, in their order.
pub open spec fn audio_entries(files: Seq<Found>, root: Seq<Seq<char>>) -> Seq<Entry> {
    Seq::new(
        files.len(),
        |i: int| Entry { name: audio_entry_name(files[i], root), content: Content::Found(i) },
    )
}

/// The entries of the archive of a bank, in the order in which they are
/// written.
pub open spec fn archive_entries(
    author: Seq<char>,
    name: Seq<char>,
    description: Option<Seq<char>>,
    has_readme: bool,
    has_license: bool,
    files: Seq<Found>,
    root: Seq<Seq<char>>,
) -> Seq<Entry> {
    fixed_entries(author, name, description, has_readme, has_license) + audio_entries(files, root)
}

/// The name of a found file in the archive.
fn entry_name_of(file: &FoundFile, audio_dir: &Vec<String>) -> (name: String)
    ensures
        name@ == audio_entry_name(file@, audio_dir.deep_view()),
{
    let mut name = "audio/".to_string();
    name.append(relative_path_of(file, audio_dir).as_str());
    name
}

/// Lists what the archive of a bank holds, in the order in which it is
/// written: the manifest, the README, the LICENSE, the audio directory, and
/// each found file under its relative path below `audio/`. The README and
/// the LICENSE are those of the bank directory where it has them, and made
/// from author, name and description where it has not.
pub fn lay_out_archive(
    author: &str,
    name: &str,
    description: Option<&str>,
    has_readme: bool,
    has_license: bool,
    files: &Vec<FoundFile>,
    audio_dir: &Vec<String>,
) -> (entries: Vec<ArchiveEntry>)
    ensures
        entries.deep_view() == archive_entries(
            author@,
            name@,
            optional_text(description),
            has_readme,
            has_license,
            files.deep_view(),
            audio_dir.deep_view(),
        ),
{
    let ghost fixed = fixed_entries(author@, name@, optional_text(description), has_readme, has_license);
    let ghost found = audio_entries(files.deep_view(), audio_dir.deep_view());
    let mut entries: Vec<ArchiveEntry> = Vec::new();
    entries.push(ArchiveEntry { name: "bank.toml".to_string(), content: EntryContent::Manifest });
    let readme = if has_readme {
        EntryContent::BankFile
    } else {
        EntryContent::Text(default_readme_bank(author, name, description))
    };
    entries.push(ArchiveEntry { name: "README.md".to_string(), content: readme });
    let license = if has_license {
        EntryContent::BankFile
    } else {
        EntryContent::Text(default_mit_license(author))
    };
    entries.push(ArchiveEntry { name: "LICENSE".to_string(), content: license });
    entries.push(ArchiveEntry { name: "audio/".to_string(), content: EntryContent::Directory });
    assert(entries.deep_view() == fixed);
    let mut i: usize = 0;
    assert(fixed + found.take(0) == fixed);
    while i < files.len()
        invariant
            i <= files.len(),
            found == audio_entries(files.deep_view(), audio_dir.deep_view()),
            entries.deep_view() == fixed + found.take(i as int),
        decreases files.len() - i,
    {
        let entry = ArchiveEntry {
            name: entry_name_of(&files[i], audio_dir),
            content: EntryContent::Found(i),
        };
        let ghost before = entries.deep_view();
        assert(entry@ == found[i as int]);
        entries.push(entry);
        assert(entries.deep_view() == before.push(entry@));
        assert(found.take(i + 1) == found.take(i as int).push(found[i as int]));
        i += 1;
    }
    assert(found.take(files.len() as int) == found);
    entries
}

} // verus!
