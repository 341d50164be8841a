use devaforge::{EntryKind, Walker};

#[test]
fn a_walk_reads_the_directory_added_last_first() {
    let mut walk = Walker::new("root");
    assert_eq!(walk.next_dir(), Some("root"));
    walk.add("root/a", EntryKind::Directory);
    walk.add("root/x.wav", EntryKind::File);
    walk.add("root/b", EntryKind::Directory);
    walk.add("root/pipe", EntryKind::Other);
    assert_eq!(walk.next_dir(), Some("root/b"));
    walk.add("root/b/y.wav", EntryKind::File);
    walk.add("root/b/c", EntryKind::Directory);
    assert_eq!(walk.next_dir(), Some("root/b/c"));
    assert_eq!(walk.next_dir(), Some("root/a"));
    walk.add("root/a/z.wav", EntryKind::File);
    assert_eq!(walk.next_dir(), None);
    assert_eq!(walk.next_dir(), None);
    assert_eq!(walk.into_files(), vec!["root/x.wav", "root/b/y.wav", "root/a/z.wav"]);
}

#[test]
fn a_walk_over_an_empty_directory_finds_nothing() {
    let mut walk = Walker::new(String::from("root"));
    assert_eq!(walk.next_dir(), Some(String::from("root")));
    assert_eq!(walk.next_dir(), None);
    assert_eq!(walk.into_files(), Vec::<String>::new());
}

fn listing(dir: &str) -> Vec<(String, EntryKind)> {
    let entry = |name: &str, kind: EntryKind| (format!("{}/{}", dir, name), kind);
    match dir {
        "audio" => vec![
            entry("kick.wav", EntryKind::File),
            entry("kit", EntryKind::Directory),
            entry("link", EntryKind::Other),
            entry("loops", EntryKind::Directory),
            entry("snare.wav", EntryKind::File),
        ],
        "audio/kit" => vec![entry("deep", EntryKind::Directory), entry("hat.wav", EntryKind::File)],
        "audio/kit/deep" => vec![entry("tom.wav", EntryKind::File)],
        "audio/loops" => Vec::new(),
        _ => Vec::new(),
    }
}

#[test]
fn a_walk_in_rounds_finds_every_file_below_the_root() {
    let mut walk = Walker::new("audio".to_string());
    let mut read = Vec::new();
    while let Some(dir) = walk.next_dir() {
        walk.take_in(listing(&dir));
        read.push(dir);
    }
    assert_eq!(read, vec!["audio", "audio/loops", "audio/kit", "audio/kit/deep"]);
    assert_eq!(
        walk.into_files(),
        vec!["audio/kick.wav", "audio/snare.wav", "audio/kit/hat.wav", "audio/kit/deep/tom.wav"]
    );
}
