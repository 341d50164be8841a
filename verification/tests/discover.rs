use devaforge::{discover_triggers, has_audio_extension, path_relative_to, to_unix_string, FoundFile, TriggerEntry};

fn parts(list: &[&str]) -> Vec<String> {
    list.iter().map(|s| s.to_string()).collect()
}

fn file(components: &[&str]) -> FoundFile {
    let name = components.last().map(|s| s.to_string());
    let (stem, extension) = match &name {
        Some(n) => match n.rfind('.') {
            Some(0) | None => (Some(n.clone()), None),
            Some(k) => (Some(n[..k].to_string()), Some(n[k + 1..].to_string())),
        },
        None => (None, None),
    };
    FoundFile { components: parts(components), file_name: name, stem, extension }
}

#[test]
fn a_path_below_the_base_is_relative_to_it() {
    let rel = path_relative_to(&parts(&["/", "banks", "b", "audio", "kit", "kick.wav"]), &parts(&["/", "banks", "b", "audio"]));
    assert_eq!(rel, Some(parts(&["kit", "kick.wav"])));
}

#[test]
fn a_path_is_relative_to_itself_with_nothing_left() {
    assert_eq!(path_relative_to(&parts(&["a", "b"]), &parts(&["a", "b"])), Some(Vec::new()));
    assert_eq!(path_relative_to(&parts(&["a", "b"]), &Vec::new()), Some(parts(&["a", "b"])));
}

#[test]
fn a_path_elsewhere_is_not_relative_to_the_base() {
    assert_eq!(path_relative_to(&parts(&["a", "c", "x"]), &parts(&["a", "b"])), None);
    assert_eq!(path_relative_to(&parts(&["a"]), &parts(&["a", "b"])), None);
    assert_eq!(path_relative_to(&parts(&["a", "bc"]), &parts(&["a", "b"])), None);
}

#[test]
fn backslashes_become_forward_slashes() {
    assert_eq!(to_unix_string("kit\\sub\\kick.wav"), "kit/sub/kick.wav");
    assert_eq!(to_unix_string("kit/kick.wav"), "kit/kick.wav");
    assert_eq!(to_unix_string("\\"), "/");
    assert_eq!(to_unix_string(""), "");
    assert_eq!(to_unix_string("tr\u{f6}mmel\\\u{4e2d}"), "tr\u{f6}mmel/\u{4e2d}");
}

#[test]
fn audio_extensions_count_in_any_case() {
    for e in ["wav", "mp3", "ogg", "aif", "aiff", "flac", "WAV", "Mp3", "oGG", "AIF", "AiFf", "FLAC"] {
        assert!(has_audio_extension(e));
    }
    for e in ["", "txt", "wave", "wa", "mp4", "aifff", "fla", "toml", "w\u{e4}v", "wav "] {
        assert!(!has_audio_extension(e));
    }
}

#[test]
fn only_audio_files_give_triggers() {
    let root = ["bank", "audio"];
    let files = vec![
        file(&["bank", "audio", "snare.WAV"]),
        file(&["bank", "audio", "notes.txt"]),
        file(&["bank", "audio", "kit", "kick.flac"]),
        file(&["bank", "audio", "README"]),
        file(&["bank", "audio", "hat.ogg"]),
    ];
    let out = discover_triggers(&files, &parts(&root));
    assert_eq!(
        out,
        vec![
            TriggerEntry::new("hat", "./hat.ogg"),
            TriggerEntry::new("kick", "./kit/kick.flac"),
            TriggerEntry::new("snare", "./snare.WAV"),
        ]
    );
}

#[test]
fn a_file_outside_the_audio_directory_goes_by_its_file_name() {
    let files = vec![file(&["elsewhere", "deep", "tom.wav"])];
    let out = discover_triggers(&files, &parts(&["bank", "audio"]));
    assert_eq!(out, vec![TriggerEntry::new("tom", "./tom.wav")]);
}

#[test]
fn a_file_without_stem_or_name_gives_empty_text() {
    let odd = FoundFile { components: parts(&["x", ".."]), file_name: None, stem: None, extension: Some("wav".to_string()) };
    let out = discover_triggers(&vec![odd], &parts(&["bank", "audio"]));
    assert_eq!(out, vec![TriggerEntry::new("", "./")]);
}

#[test]
fn a_backslash_in_a_name_is_written_as_a_slash() {
    let files = vec![file(&["audio", "a\\b.wav"])];
    let out = discover_triggers(&files, &parts(&["audio"]));
    assert_eq!(out, vec![TriggerEntry::new("a\\b", "./a/b.wav")]);
}

#[test]
fn no_files_give_no_triggers() {
    assert_eq!(discover_triggers(&Vec::new(), &parts(&["audio"])), Vec::new());
}
