use devaforge::{disambiguate_name, merge_triggers, path_le_exec, sort_triggers, NameSet, TriggerEntry};

fn entry(name: &str, path: &str) -> TriggerEntry {
    TriggerEntry::new(name, path)
}

fn names(list: &[TriggerEntry]) -> Vec<String> {
    list.iter().map(|t| t.name.clone()).collect()
}

fn paths(list: &[TriggerEntry]) -> Vec<String> {
    list.iter().map(|t| t.path.clone()).collect()
}

#[test]
fn kick_in_root_and_in_kit() {
    let found = vec![entry("kick", "./kick.wav"), entry("kick", "./kit/kick.wav")];
    let out = merge_triggers(Vec::new(), found);
    assert_eq!(out, vec![entry("kick", "./kick.wav"), entry("kit.kick", "./kit/kick.wav")]);
}

#[test]
fn kick_in_root_and_in_kit_found_in_the_other_order() {
    let found = vec![entry("kick", "./kit/kick.wav"), entry("kick", "./kick.wav")];
    let out = merge_triggers(Vec::new(), found);
    assert_eq!(out, vec![entry("kick", "./kick.wav"), entry("kit.kick", "./kit/kick.wav")]);
}

#[test]
fn three_kicks_are_named_in_the_order_of_their_paths() {
    // in the order of the bytes, `./a/kick.wav` and `./b/kick.wav` come before `./kick.wav`
    let found = vec![entry("kick", "./a/kick.wav"), entry("kick", "./b/kick.wav"), entry("kick", "./kick.wav")];
    let out = merge_triggers(Vec::new(), found);
    assert_eq!(
        out,
        vec![entry("kick", "./a/kick.wav"), entry("b.kick", "./b/kick.wav"), entry("kick_2", "./kick.wav")]
    );
}

#[test]
fn the_file_in_the_root_claims_the_bare_name_when_it_comes_first() {
    let found = vec![entry("kick", "./m/kick.wav"), entry("kick", "./n/kick.wav"), entry("kick", "./kick.wav")];
    let out = merge_triggers(Vec::new(), found);
    assert_eq!(
        out,
        vec![entry("kick", "./kick.wav"), entry("m.kick", "./m/kick.wav"), entry("n.kick", "./n/kick.wav")]
    );
}

#[test]
fn a_known_path_keeps_the_name_of_the_manifest() {
    let existing = vec![entry("boom", "./kick.wav"), entry("tss", "./hat.wav")];
    let found = vec![entry("hat", "./hat.wav"), entry("kick", "./kick.wav"), entry("snare", "./snare.wav")];
    let out = merge_triggers(existing, found);
    assert_eq!(
        out,
        vec![entry("tss", "./hat.wav"), entry("boom", "./kick.wav"), entry("snare", "./snare.wav")]
    );
}

#[test]
fn a_trigger_whose_file_is_gone_is_dropped() {
    let existing = vec![entry("old", "./gone.wav"), entry("kick", "./kick.wav")];
    let out = merge_triggers(existing, vec![entry("kick", "./kick.wav")]);
    assert_eq!(out, vec![entry("kick", "./kick.wav")]);
    assert!(!paths(&out).contains(&"./gone.wav".to_string()));
}

#[test]
fn the_name_of_a_dropped_trigger_stays_taken() {
    let existing = vec![entry("kick", "./gone.wav")];
    let out = merge_triggers(existing, vec![entry("kick", "./drums/kick.wav")]);
    assert_eq!(out, vec![entry("drums.kick", "./drums/kick.wav")]);
}

#[test]
fn the_result_is_sorted_whatever_the_order_of_the_input() {
    let found = vec![
        entry("c", "./c.wav"),
        entry("a", "./a.wav"),
        entry("b", "./sub/b.wav"),
        entry("B", "./B.wav"),
    ];
    let existing = vec![entry("zed", "./c.wav"), entry("ay", "./a.wav")];
    let out = merge_triggers(existing, found);
    assert_eq!(paths(&out), vec!["./B.wav", "./a.wav", "./c.wav", "./sub/b.wav"]);
    assert_eq!(names(&out), vec!["B", "ay", "zed", "b"]);
    for pair in out.windows(2) {
        assert!(path_le_exec(&pair[0].path, &pair[1].path));
    }
}

#[test]
fn merged_names_are_pairwise_different() {
    let existing = vec![entry("snare", "./kick.wav"), entry("d.snare", "./x.wav")];
    let found = vec![
        entry("snare", "./d/snare.wav"),
        entry("kick", "./kick.wav"),
        entry("snare", "./snare.wav"),
        entry("snare", "./e/d/snare.wav"),
    ];
    let out = merge_triggers(existing, found);
    assert_eq!(
        out,
        vec![
            entry("snare_2", "./d/snare.wav"),
            entry("e.d.snare", "./e/d/snare.wav"),
            entry("snare", "./kick.wav"),
            entry("snare_3", "./snare.wav"),
        ]
    );
    let mut seen = names(&out);
    seen.sort();
    seen.dedup();
    assert_eq!(seen.len(), out.len());
}

#[test]
fn the_last_manifest_entry_of_a_path_gives_the_name() {
    let existing = vec![entry("first", "./kick.wav"), entry("second", "./kick.wav")];
    let out = merge_triggers(existing, vec![entry("kick", "./kick.wav")]);
    assert_eq!(out, vec![entry("second", "./kick.wav")]);
}

#[test]
fn merging_nothing_gives_nothing() {
    assert_eq!(merge_triggers(vec![entry("kick", "./kick.wav")], Vec::new()), Vec::new());
    assert_eq!(merge_triggers(Vec::new(), Vec::new()), Vec::new());
}

#[test]
fn a_second_merge_changes_nothing() {
    let found = vec![entry("kick", "./kit/kick.wav"), entry("kick", "./kick.wav"), entry("hat", "./hat.wav")];
    let once = merge_triggers(Vec::new(), found.clone());
    let twice = merge_triggers(once.clone(), found);
    assert_eq!(once, twice);
}

#[test]
fn the_bare_name_is_tried_first() {
    let mut used = NameSet::new();
    assert_eq!(disambiguate_name("kick", "./kit/kick.wav", &mut used), "kick");
    assert!(used.contains("kick"));
    assert!(!used.contains("kit.kick"));
}

#[test]
fn all_directories_are_tried_before_the_innermost() {
    let mut used = NameSet::new();
    used.insert("kick");
    assert_eq!(disambiguate_name("kick", "./a/b/c/kick.wav", &mut used), "a.b.c.kick");
    assert_eq!(disambiguate_name("kick", "./a/b/c/kick.wav", &mut used), "c.kick");
    assert_eq!(disambiguate_name("kick", "./a/b/c/kick.wav", &mut used), "b.c.kick");
    assert_eq!(disambiguate_name("kick", "./a/b/c/kick.wav", &mut used), "kick_2");
    assert_eq!(disambiguate_name("kick", "./a/b/c/kick.wav", &mut used), "kick_3");
}

#[test]
fn numbers_follow_when_there_is_no_directory() {
    let mut used = NameSet::new();
    used.insert("kick");
    used.insert("kick_2");
    used.insert("kick_4");
    assert_eq!(disambiguate_name("kick", "./kick.wav", &mut used), "kick_3");
    assert_eq!(disambiguate_name("kick", "./kick.wav", &mut used), "kick_5");
    assert_eq!(disambiguate_name("kick", "kick.wav", &mut used), "kick_6");
}

#[test]
fn numbers_go_beyond_nine() {
    let mut used = NameSet::new();
    used.insert("k");
    let mut last = String::new();
    for _ in 0..11 {
        last = disambiguate_name("k", "./k.wav", &mut used);
    }
    assert_eq!(last, "k_12");
    assert!(used.contains("k_10"));
    assert!(used.contains("k_11"));
}

#[test]
fn an_empty_stem_is_a_name_like_any_other() {
    let mut used = NameSet::new();
    assert_eq!(disambiguate_name("", "./.wav", &mut used), "");
    assert!(used.contains(""));
    assert_eq!(disambiguate_name("", "./.wav", &mut used), "_2");
    assert_eq!(disambiguate_name("", "./d/.wav", &mut used), "d.");
}

#[test]
fn every_leading_dot_slash_is_left_out() {
    let mut used = NameSet::new();
    used.insert("kick");
    assert_eq!(disambiguate_name("kick", "././kit/kick.wav", &mut used), "kit.kick");
    assert_eq!(disambiguate_name("kick", "kit/kick.wav", &mut used), "kick_2");
}

#[test]
fn an_empty_directory_name_is_a_directory() {
    let mut used = NameSet::new();
    used.insert("kick");
    assert_eq!(disambiguate_name("kick", "./a//kick.wav", &mut used), "a..kick");
    assert_eq!(disambiguate_name("kick", "./a//kick.wav", &mut used), ".kick");
}

#[test]
fn the_set_of_names_knows_what_was_put_in() {
    let mut used = NameSet::new();
    assert!(!used.contains("a"));
    assert!(used.insert("a"));
    assert!(!used.insert("a"));
    assert!(used.contains("a"));
    assert!(!used.contains("A"));
}

#[test]
fn paths_are_ordered_by_their_bytes() {
    assert!(path_le_exec("./a.wav", "./a.wav"));
    assert!(path_le_exec("./B.wav", "./a.wav"));
    assert!(!path_le_exec("./a.wav", "./B.wav"));
    assert!(path_le_exec("./a", "./a.wav"));
    assert!(!path_le_exec("./a.wav", "./a"));
    assert!(path_le_exec("./z.wav", "./\u{e9}.wav"));
    assert!(path_le_exec("./\u{e9}.wav", "./\u{4e2d}.wav"));
    assert!(path_le_exec("./\u{ffff}", "./\u{10000}"));
    assert!(path_le_exec("", "./a"));
}

#[test]
fn sorting_keeps_entries_of_one_path_in_their_order() {
    let list = vec![entry("x", "./b"), entry("first", "./a"), entry("second", "./a"), entry("y", "./0")];
    let out = sort_triggers(list);
    assert_eq!(out, vec![entry("y", "./0"), entry("first", "./a"), entry("second", "./a"), entry("x", "./b")]);
}
