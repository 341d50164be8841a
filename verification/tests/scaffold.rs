use devaforge::{archive_file_name, bank_dir_name, new_manifest, write_triggers_after_bank, TriggerEntry};

#[test]
fn a_bank_is_called_by_author_and_name() {
    assert_eq!(bank_dir_name("ann", "drums"), "ann.drums");
    assert_eq!(bank_dir_name("", ""), ".");
    assert_eq!(archive_file_name("ann", "drums").unwrap(), format!("{}.devabank", bank_dir_name("ann", "drums")));
}

#[test]
fn a_new_manifest_has_a_bank_section_and_no_triggers() {
    assert_eq!(
        new_manifest("drums", "ann", "loud-ones", "public"),
        "[bank]\nname = \"drums\"\nauthor = \"ann\"\ndescription = \"loud-ones\"\nversion = \"0.0.1\"\naccess = \"public\"\n"
    );
}

#[test]
fn triggers_are_written_behind_a_new_manifest() {
    let text = new_manifest("drums", "ann", "loud-ones", "public");
    assert_eq!(write_triggers_after_bank(&text, &[]), text);
    let out = write_triggers_after_bank(&text, &[TriggerEntry::new("kick", "./kick.wav")]);
    assert_eq!(out, format!("{}\n[[triggers]]\nname = \"kick\"\npath = \"./kick.wav\"\n", text));
}
