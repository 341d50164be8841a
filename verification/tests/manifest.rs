use devaforge::{write_triggers_after_bank, TriggerEntry};

fn entry(name: &str, path: &str) -> TriggerEntry {
    TriggerEntry::new(name, path)
}

fn kick_and_snare() -> Vec<TriggerEntry> {
    vec![entry("kick", "./kick.wav"), entry("snare", "./snare.wav")]
}

const BLOCKS: &str =
    "[[triggers]]\nname = \"kick\"\npath = \"./kick.wav\"\n\n[[triggers]]\nname = \"snare\"\npath = \"./snare.wav\"\n";

#[test]
fn triggers_go_behind_the_bank_section() {
    let text = "# my bank\n[bank]\nname = \"b\"\nauthor = \"a\"\n\n\n[extra]\nx = 1\n";
    let out = write_triggers_after_bank(text, &kick_and_snare());
    let expected = format!("# my bank\n[bank]\nname = \"b\"\nauthor = \"a\"\n\n{}\n[extra]\nx = 1\n", BLOCKS);
    assert_eq!(out, expected);
}

#[test]
fn triggers_go_to_the_end_where_the_bank_section_is_last() {
    let text = "[bank]\nname = \"b\"\nauthor = \"a\"\n\n\n";
    let out = write_triggers_after_bank(text, &kick_and_snare());
    assert_eq!(out, format!("[bank]\nname = \"b\"\nauthor = \"a\"\n\n{}", BLOCKS));
}

#[test]
fn old_trigger_blocks_are_replaced() {
    let text = "[bank]\nname = \"b\"\n\n[[triggers]]\nname = \"old\"\npath = \"./old.wav\"\n# note\n\n[[triggers]]\nname = \"older\"\npath = \"./older.wav\"\n";
    let out = write_triggers_after_bank(text, &kick_and_snare());
    assert_eq!(out, format!("[bank]\nname = \"b\"\n\n{}", BLOCKS));
}

#[test]
fn a_section_behind_the_trigger_blocks_is_kept() {
    let text = "[bank]\nname = \"b\"\n[[triggers]]\nname = \"old\"\npath = \"./old.wav\"\n[meta]\n# keep me\nk = 1\n[[triggers]]\nname = \"x\"\npath = \"./x.wav\"\n";
    let out = write_triggers_after_bank(text, &kick_and_snare());
    assert_eq!(out, format!("[bank]\nname = \"b\"\n\n{}\n[meta]\n# keep me\nk = 1\n", BLOCKS));
}

#[test]
fn without_triggers_the_section_is_taken_out() {
    let text = "[bank]\nname = \"b\"\n\n[[triggers]]\nname = \"old\"\npath = \"./old.wav\"\n\n[meta]\nk = 1\n";
    let out = write_triggers_after_bank(text, &[]);
    assert_eq!(out, "[bank]\nname = \"b\"\n[meta]\nk = 1\n");
}

#[test]
fn comments_and_order_outside_the_section_stay() {
    let text = "# top\n\n  # indented\n[bank]\n# about the name\nname = \"b\"   # trailing\nauthor=\"a\"\n\n\t\n[z]\nb = 2\na = 1\n\n[y]\n# end\n";
    let out = write_triggers_after_bank(text, &[entry("k", "./k.wav")]);
    assert_eq!(
        out,
        "# top\n\n  # indented\n[bank]\n# about the name\nname = \"b\"   # trailing\nauthor=\"a\"\n\n[[triggers]]\nname = \"k\"\npath = \"./k.wav\"\n\n[z]\nb = 2\na = 1\n\n[y]\n# end\n"
    );
}

#[test]
fn headers_count_with_white_space_around_them() {
    let text = "  [bank]  \nname = \"b\"\n\t[[triggers]] \nname = \"old\"\n  [next]\nv = 1\n";
    let out = write_triggers_after_bank(text, &[entry("k", "./k.wav")]);
    assert_eq!(out, "  [bank]  \nname = \"b\"\n\n[[triggers]]\nname = \"k\"\npath = \"./k.wav\"\n\n  [next]\nv = 1\n");
}

#[test]
fn a_header_with_more_text_is_no_trigger_header() {
    let text = "[bank]\n[[triggers]] # mine\nname = \"old\"\n";
    let out = write_triggers_after_bank(text, &[entry("k", "./k.wav")]);
    assert_eq!(out, "[bank]\n\n[[triggers]]\nname = \"k\"\npath = \"./k.wav\"\n\n[[triggers]] # mine\nname = \"old\"\n");
}

#[test]
fn without_a_bank_section_the_triggers_go_to_the_end() {
    let text = "# nothing here\n[other]\nv = 1\n\n";
    let out = write_triggers_after_bank(text, &[entry("k", "./k.wav")]);
    assert_eq!(out, "# nothing here\n[other]\nv = 1\n\n[[triggers]]\nname = \"k\"\npath = \"./k.wav\"\n");
}

#[test]
fn an_empty_manifest_gets_one_line_feed() {
    assert_eq!(write_triggers_after_bank("", &[]), "\n");
    assert_eq!(write_triggers_after_bank("\n\n\n", &[]), "\n");
    assert_eq!(write_triggers_after_bank("  \n\t\n", &[]), "\n");
    assert_eq!(
        write_triggers_after_bank("", &[entry("k", "./k.wav")]),
        "\n[[triggers]]\nname = \"k\"\npath = \"./k.wav\"\n"
    );
}

#[test]
fn the_text_ends_with_exactly_one_line_feed() {
    assert_eq!(write_triggers_after_bank("[bank]\nname = \"b\"", &[]), "[bank]\nname = \"b\"\n");
    assert_eq!(write_triggers_after_bank("[bank]\n[x]\nv = 1\n\n\n\n", &[]), "[bank]\n[x]\nv = 1\n");
    assert_eq!(write_triggers_after_bank("[bank]\n[x]\nv = 1\n\n  \n", &[]), "[bank]\n[x]\nv = 1\n\n  \n");
}

#[test]
fn line_endings_with_carriage_return_become_line_feeds() {
    let text = "[bank]\r\nname = \"b\"\r\n\r\n[[triggers]]\r\nname = \"old\"\r\n[x]\r\nv = 1\r\n";
    let out = write_triggers_after_bank(text, &[entry("k", "./k.wav")]);
    assert_eq!(out, "[bank]\nname = \"b\"\n\n[[triggers]]\nname = \"k\"\npath = \"./k.wav\"\n\n[x]\nv = 1\n");
}

#[test]
fn a_second_bank_header_does_not_end_the_bank_section() {
    let text = "[bank]\na = 1\n[bank]\nb = 2\n[x]\n";
    let out = write_triggers_after_bank(text, &[entry("k", "./k.wav")]);
    assert_eq!(out, "[bank]\na = 1\n[bank]\nb = 2\n\n[[triggers]]\nname = \"k\"\npath = \"./k.wav\"\n\n[x]\n");
}

#[test]
fn sections_before_the_bank_section_stay_before_it() {
    let text = "[first]\nv = 1\n\n[bank]\nname = \"b\"\n";
    let out = write_triggers_after_bank(text, &[entry("k", "./k.wav")]);
    assert_eq!(out, "[first]\nv = 1\n\n[bank]\nname = \"b\"\n\n[[triggers]]\nname = \"k\"\npath = \"./k.wav\"\n");
}

#[test]
fn names_and_paths_are_written_as_they_are() {
    let out = write_triggers_after_bank("[bank]\n", &[entry("gro\u{df}e trommel", "./gro\u{df}/tr\u{f6}mmel.wav")]);
    assert_eq!(out, "[bank]\n\n[[triggers]]\nname = \"gro\u{df}e trommel\"\npath = \"./gro\u{df}/tr\u{f6}mmel.wav\"\n");
}

#[test]
fn a_second_rewriting_changes_nothing() {
    let texts = [
        "# my bank\n[bank]\nname = \"b\"\nauthor = \"a\"\n\n\n[extra]\nx = 1\n",
        "[bank]\nname = \"b\"\n[[triggers]]\nname = \"old\"\npath = \"./old.wav\"\n[meta]\nk = 1\n\n\n",
        "",
        "\n\n",
        "# no bank\n[other]\nv = 1\n\n",
        "[bank]\r\nname = \"b\"\r\n\r\n[x]\r\n\r\n",
        "  [bank]\n\n\n",
        "[bank]\n[x]\nv = 1\n\n  \n",
    ];
    let lists = [Vec::new(), vec![entry("k", "./k.wav")], kick_and_snare()];
    for text in texts.iter() {
        for list in lists.iter() {
            let once = write_triggers_after_bank(text, list);
            let twice = write_triggers_after_bank(&once, list);
            assert_eq!(once, twice);
            assert!(once.ends_with('\n'));
            assert!(once == "\n" || !once.ends_with("\n\n"));
        }
    }
}

#[test]
fn a_carriage_return_before_the_end_of_the_text_is_lost_on_the_second_reading() {
    let once = write_triggers_after_bank("[bank]\nname = \"b\"\r", &[]);
    assert_eq!(once, "[bank]\nname = \"b\"\r\n");
    let twice = write_triggers_after_bank(&once, &[]);
    assert_eq!(twice, "[bank]\nname = \"b\"\n");
}

#[test]
fn a_line_feed_in_a_name_does_no_harm_unless_a_section_header_follows_it() {
    let harmless = [entry("a\nb", "./a.wav"), entry("x\r\n y", "./b\n.wav"), entry("k\n[[triggers]]\nz", "./c.wav")];
    let once = write_triggers_after_bank("[bank]\n[x]\n", &harmless);
    assert_eq!(write_triggers_after_bank(&once, &harmless), once);
    let harmful = [entry("a\n[b]", "./a.wav")];
    let once = write_triggers_after_bank("[bank]\n[x]\n", &harmful);
    assert_eq!(once, "[bank]\n\n[[triggers]]\nname = \"a\n[b]\"\npath = \"./a.wav\"\n\n[x]\n");
    let twice = write_triggers_after_bank(&once, &harmful);
    assert_eq!(
        twice,
        "[bank]\n\n[[triggers]]\nname = \"a\n[b]\"\npath = \"./a.wav\"\n\n[b]\"\npath = \"./a.wav\"\n\n[x]\n"
    );
}
