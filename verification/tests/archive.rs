use devaforge::{
    archive_file_name, lay_out_archive, default_mit_license, default_readme_bank, ArchiveEntry, EntryContent,
    ErrorKind, FoundFile,
};

fn parts(list: &[&str]) -> Vec<String> {
    list.iter().map(|s| s.to_string()).collect()
}

fn found(components: &[&str]) -> FoundFile {
    FoundFile {
        components: parts(components),
        file_name: components.last().map(|s| s.to_string()),
        stem: None,
        extension: None,
    }
}

fn entry(name: &str, content: EntryContent) -> ArchiveEntry {
    ArchiveEntry { name: name.to_string(), content }
}

#[test]
fn the_readme_names_the_bank_and_describes_it() {
    assert_eq!(
        default_readme_bank("ann", "drums", Some("Loud ones.")),
        "# ann.drums Bank\n\nLoud ones.\n\nContents:\n- bank.toml\n- audio/ (assets)\n- LICENSE\n\nBuilt with devaforge.\n"
    );
}

#[test]
fn the_readme_has_a_description_of_its_own_where_none_is_given() {
    assert_eq!(
        default_readme_bank("ann", "drums", None),
        "# ann.drums Bank\n\nSample bank for Devalang.\n\nContents:\n- bank.toml\n- audio/ (assets)\n- LICENSE\n\nBuilt with devaforge.\n"
    );
}

#[test]
fn the_license_is_in_the_name_of_the_author() {
    let text = default_mit_license("ann");
    assert!(text.starts_with("MIT License\n\nCopyright (c) ann\n\nPermission is hereby granted, free of charge,"));
    assert!(text.ends_with("OUT OF OR IN CONNECTION WITH THE SOFTWARE OR THE USE OR OTHER DEALINGS IN THE\n SOFTWARE.\n"));
    assert!(text.contains("(the \"Software\")"));
    assert!(text.contains("THE SOFTWARE IS PROVIDED \"AS IS\""));
    assert_eq!(text.len(), default_mit_license("").len() + 3);
    assert_eq!(text.lines().count(), 21);
}

#[test]
fn the_archive_is_named_by_author_and_name() {
    assert_eq!(archive_file_name("ann", "drums"), Ok("ann.drums.devabank".to_string()));
    assert_eq!(archive_file_name(" ann", "my drums "), Ok(" ann.my drums .devabank".to_string()));
}

#[test]
fn a_bank_without_author_or_name_is_refused() {
    for (author, name) in [("", "drums"), ("ann", ""), ("", ""), ("  ", "drums"), ("ann", "\t\n"), ("\u{a0}", "x")] {
        let e = archive_file_name(author, name).unwrap_err();
        assert_eq!(e.kind, ErrorKind::MalformedInput);
        assert_eq!(e.message, "Fields [bank].author and [bank].name are required in bank.toml");
        assert_eq!(e.describe(), e.message);
    }
}

#[test]
fn an_archive_without_audio_still_has_the_audio_directory() {
    let plan = lay_out_archive("ann", "drums", None, true, true, &Vec::new(), &parts(&["bank", "audio"]));
    assert_eq!(
        plan,
        vec![
            entry("bank.toml", EntryContent::Manifest),
            entry("README.md", EntryContent::BankFile),
            entry("LICENSE", EntryContent::BankFile),
            entry("audio/", EntryContent::Directory),
        ]
    );
}

#[test]
fn readme_and_license_are_made_where_the_bank_has_none() {
    let plan = lay_out_archive("ann", "drums", Some("Loud."), false, false, &Vec::new(), &parts(&["audio"]));
    assert_eq!(plan[1], entry("README.md", EntryContent::Text(default_readme_bank("ann", "drums", Some("Loud.")))));
    assert_eq!(plan[2], entry("LICENSE", EntryContent::Text(default_mit_license("ann"))));
    let mixed = lay_out_archive("ann", "drums", None, true, false, &Vec::new(), &parts(&["audio"]));
    assert_eq!(mixed[1], entry("README.md", EntryContent::BankFile));
    assert_eq!(mixed[2], entry("LICENSE", EntryContent::Text(default_mit_license("ann"))));
}

#[test]
fn every_found_file_goes_below_audio_under_its_relative_path() {
    let files = vec![
        found(&["bank", "audio", "kit", "kick.wav"]),
        found(&["bank", "audio", "notes.txt"]),
        found(&["other", "tom.wav"]),
        found(&["bank", "audio", "a\\b.wav"]),
    ];
    let plan = lay_out_archive("ann", "drums", None, true, true, &files, &parts(&["bank", "audio"]));
    assert_eq!(plan.len(), 8);
    assert_eq!(plan[3], entry("audio/", EntryContent::Directory));
    assert_eq!(plan[4], entry("audio/kit/kick.wav", EntryContent::Found(0)));
    assert_eq!(plan[5], entry("audio/notes.txt", EntryContent::Found(1)));
    assert_eq!(plan[6], entry("audio/tom.wav", EntryContent::Found(2)));
    assert_eq!(plan[7], entry("audio/a/b.wav", EntryContent::Found(3)));
}

#[test]
fn the_license_is_the_mit_license() {
    assert_eq!(
        default_mit_license("Ann Example"),
        "MIT License\n\nCopyright (c) Ann Example\n\nPermission is hereby granted, free of charge, to any person obtaining a copy\n of this software and associated documentation files (the \"Software\"), to deal\n in the Software without restriction, including without limitation the rights\n to use, copy, modify, merge, publish, distribute, sublicense, and/or sell\n copies of the Software, and to permit persons to whom the Software is\n furnished to do so, subject to the following conditions:\n\nThe above copyright notice and this permission notice shall be included in all\n copies or substantial portions of the Software.\n\nTHE SOFTWARE IS PROVIDED \"AS IS\", WITHOUT WARRANTY OF ANY KIND, EXPRESS OR\n IMPLIED, INCLUDING BUT NOT LIMITED TO THE WARRANTIES OF MERCHANTABILITY,\n FITNESS FOR A PARTICULAR PURPOSE AND NONINFRINGEMENT. IN NO EVENT SHALL THE\n AUTHORS OR COPYRIGHT HOLDERS BE LIABLE FOR ANY CLAIM, DAMAGES OR OTHER\n LIABILITY, WHETHER IN AN ACTION OF CONTRACT, TORT OR OTHERWISE, ARISING FROM,\n OUT OF OR IN CONNECTION WITH THE SOFTWARE OR THE USE OR OTHER DEALINGS IN THE\n SOFTWARE.\n"
    );
}

#[test]
fn errors_say_what_is_missing_and_what_failed() {
    let e = devaforge::BankError::manifest_not_found("generated/banks/ann.drums");
    assert_eq!((e.kind, e.message.as_str()), (ErrorKind::NotFound, "bank.toml not found in: generated/banks/ann.drums"));
    let e = devaforge::BankError::audio_dir_not_found("generated/banks/ann.drums/audio");
    assert_eq!(
        (e.kind, e.message.as_str()),
        (ErrorKind::NotFound, "Audio directory not found: generated/banks/ann.drums/audio")
    );
    let e = devaforge::BankError::banks_dir_not_found("generated/banks");
    assert_eq!((e.kind, e.message.as_str()), (ErrorKind::NotFound, "Banks directory not found: generated/banks"));
    let e = devaforge::BankError::invalid_manifest("missing field `name`");
    assert_eq!((e.kind, e.message.as_str()), (ErrorKind::MalformedInput, "Invalid TOML: missing field `name`"));
    let e = devaforge::BankError::io_failure("Failed to read bank.toml", "permission denied");
    assert_eq!((e.kind, e.message.as_str()), (ErrorKind::IoFailure, "Failed to read bank.toml: permission denied"));
}
