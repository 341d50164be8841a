use devaforge::{
    build_bank, default_mit_license, default_readme_bank, ArchiveEntry, BankBuild, BankSource, EntryContent,
    ErrorKind, FoundFile, TriggerEntry,
};

fn parts(list: &[&str]) -> Vec<String> {
    list.iter().map(|s| s.to_string()).collect()
}

fn wav(components: &[&str]) -> FoundFile {
    let name = components.last().unwrap().to_string();
    let stem = name.trim_end_matches(".wav").to_string();
    FoundFile { components: parts(components), file_name: Some(name), stem: Some(stem), extension: Some("wav".to_string()) }
}

fn other(components: &[&str], extension: Option<&str>) -> FoundFile {
    let name = components.last().unwrap().to_string();
    FoundFile {
        components: parts(components),
        file_name: Some(name.clone()),
        stem: Some(name),
        extension: extension.map(|e| e.to_string()),
    }
}

fn source(manifest: &str, author: &str, name: &str, triggers: Vec<TriggerEntry>, files: Vec<FoundFile>) -> BankSource {
    BankSource {
        manifest: manifest.to_string(),
        author: author.to_string(),
        name: name.to_string(),
        description: None,
        triggers,
        audio_dir: parts(&["bank", "audio"]),
        files,
        has_readme: false,
        has_license: true,
    }
}

fn entry(name: &str, content: EntryContent) -> ArchiveEntry {
    ArchiveEntry { name: name.to_string(), content }
}

fn drum_files() -> Vec<FoundFile> {
    vec![
        wav(&["bank", "audio", "kit", "kick.wav"]),
        other(&["bank", "audio", "notes.txt"], Some("txt")),
        wav(&["bank", "audio", "kick.wav"]),
        wav(&["bank", "audio", "hat.wav"]),
    ]
}

const MANIFEST: &str =
    "[bank]\nname = \"drums\"\nauthor = \"ann\"\n\n[[triggers]]\nname = \"bd\"\npath = \"./kick.wav\"\n\n[[triggers]]\nname = \"gone\"\npath = \"./gone.wav\"\n";

fn first_build() -> BankBuild {
    let known = vec![TriggerEntry::new("bd", "./kick.wav"), TriggerEntry::new("gone", "./gone.wav")];
    build_bank(source(MANIFEST, "ann", "drums", known, drum_files()))
}

#[test]
fn a_build_rewrites_the_manifest_and_lays_out_the_archive() {
    let build = first_build();
    assert_eq!(
        build.triggers,
        vec![
            TriggerEntry::new("hat", "./hat.wav"),
            TriggerEntry::new("bd", "./kick.wav"),
            TriggerEntry::new("kick", "./kit/kick.wav"),
        ]
    );
    assert_eq!(
        build.manifest,
        "[bank]\nname = \"drums\"\nauthor = \"ann\"\n\n[[triggers]]\nname = \"hat\"\npath = \"./hat.wav\"\n\n[[triggers]]\nname = \"bd\"\npath = \"./kick.wav\"\n\n[[triggers]]\nname = \"kick\"\npath = \"./kit/kick.wav\"\n"
    );
    let archive = build.archive.unwrap();
    assert_eq!(archive.file_name, "ann.drums.devabank");
    assert_eq!(
        archive.entries,
        vec![
            entry("bank.toml", EntryContent::Manifest),
            entry("README.md", EntryContent::Text(default_readme_bank("ann", "drums", None))),
            entry("LICENSE", EntryContent::BankFile),
            entry("audio/", EntryContent::Directory),
            entry("audio/kit/kick.wav", EntryContent::Found(0)),
            entry("audio/notes.txt", EntryContent::Found(1)),
            entry("audio/kick.wav", EntryContent::Found(2)),
            entry("audio/hat.wav", EntryContent::Found(3)),
        ]
    );
}

#[test]
fn a_second_build_of_an_unchanged_bank_gives_the_same_manifest_and_triggers() {
    let first = first_build();
    let second = build_bank(source(&first.manifest, "ann", "drums", first.triggers.clone(), drum_files()));
    assert_eq!(second.manifest, first.manifest);
    assert_eq!(second.triggers, first.triggers);
    assert_eq!(second.archive, first.archive);
    let third = build_bank(source(&second.manifest, "ann", "drums", second.triggers.clone(), drum_files()));
    assert_eq!(third, second);
}

#[test]
fn the_order_in_which_files_are_found_does_not_matter() {
    let a = drum_files();
    let b = vec![a[3].clone(), a[2].clone(), a[0].clone(), a[1].clone()];
    let build_a = build_bank(source(MANIFEST, "ann", "drums", Vec::new(), a));
    let build_b = build_bank(source(MANIFEST, "ann", "drums", Vec::new(), b));
    assert_eq!(build_a.manifest, build_b.manifest);
    assert_eq!(build_a.triggers, build_b.triggers);
    assert_eq!(
        build_a.triggers,
        vec![
            TriggerEntry::new("hat", "./hat.wav"),
            TriggerEntry::new("kick", "./kick.wav"),
            TriggerEntry::new("kit.kick", "./kit/kick.wav"),
        ]
    );
}

#[test]
fn a_bank_without_author_or_name_gets_no_archive() {
    for (author, name) in [("", "drums"), ("ann", ""), ("  ", "drums"), ("ann", "\t")] {
        let build = build_bank(source(MANIFEST, author, name, Vec::new(), drum_files()));
        let e = build.archive.unwrap_err();
        assert_eq!(e.kind, ErrorKind::MalformedInput);
        assert_eq!(e.message, "Fields [bank].author and [bank].name are required in bank.toml");
        assert_eq!(build.triggers.len(), 3);
        assert!(build.manifest.contains("path = \"./kit/kick.wav\""));
    }
}

#[test]
fn a_bank_without_audio_files_has_an_empty_audio_directory() {
    let build = build_bank(source("[bank]\nname = \"drums\"\nauthor = \"ann\"\n", "ann", "drums", Vec::new(), Vec::new()));
    assert_eq!(build.triggers, Vec::new());
    assert_eq!(build.manifest, "[bank]\nname = \"drums\"\nauthor = \"ann\"\n");
    let archive = build.archive.unwrap();
    assert_eq!(archive.entries.len(), 4);
    assert_eq!(archive.entries[3], entry("audio/", EntryContent::Directory));
    assert_eq!(archive.entries[1], entry("README.md", EntryContent::Text(default_readme_bank("ann", "drums", None))));
    assert!(default_mit_license("ann").contains("Copyright (c) ann\n"));
}
