use devaforge::{bank_alias, resolve_bank_dir, ErrorKind, ListedDir, Probe, Resolved};

fn probe() -> Probe {
    Probe {
        candidate: "/work/input".to_string(),
        candidate_is_manifest: false,
        candidate_is_bank: false,
        banks_root: "/work/generated/banks".to_string(),
        exact_is_bank: false,
        listing: None,
    }
}

fn dir(name: &str, has_manifest: bool) -> ListedDir {
    ListedDir { name: name.to_string(), has_manifest }
}

#[test]
fn an_alias_starts_with_bank_and_a_dot() {
    assert_eq!(bank_alias("bank.drums"), Some("drums".to_string()));
    assert_eq!(bank_alias("bank.ann.drums"), Some("ann.drums".to_string()));
    assert_eq!(bank_alias("bank."), Some(String::new()));
    assert_eq!(bank_alias("bank"), None);
    assert_eq!(bank_alias("Bank.drums"), None);
    assert_eq!(bank_alias("my/bank.drums"), None);
    assert_eq!(bank_alias(""), None);
}

#[test]
fn a_manifest_file_means_its_directory() {
    let p = Probe { candidate_is_manifest: true, candidate_is_bank: true, exact_is_bank: true, ..probe() };
    assert_eq!(resolve_bank_dir("banks/x/bank.toml", &p), Ok(Resolved::ManifestParent));
}

#[test]
fn a_bank_directory_means_itself() {
    let p = Probe { candidate_is_bank: true, exact_is_bank: true, ..probe() };
    assert_eq!(resolve_bank_dir("bank.drums", &p), Ok(Resolved::Candidate));
}

#[test]
fn an_alias_with_its_own_directory_means_that_directory() {
    let p = Probe { exact_is_bank: true, listing: Some(vec![dir("ann.drums", true)]), ..probe() };
    assert_eq!(resolve_bank_dir("bank.ann.drums", &p), Ok(Resolved::Exact));
    assert_eq!(resolve_bank_dir("bank.drums", &p), Ok(Resolved::Exact));
}

#[test]
fn a_short_alias_means_the_one_bank_that_ends_with_it() {
    let listing = vec![dir("ann.bass", true), dir("ann.drums", true), dir("bob.drums", false), dir("drums", true), dir("ann.xdrums", true)];
    let p = Probe { listing: Some(listing), ..probe() };
    assert_eq!(resolve_bank_dir("bank.drums", &p), Ok(Resolved::Listed(1)));
}

#[test]
fn a_short_alias_that_no_bank_ends_with_is_not_found() {
    let p = Probe { listing: Some(vec![dir("ann.bass", true), dir("bob.drums", false)]), ..probe() };
    let e = resolve_bank_dir("bank.drums", &p).unwrap_err();
    assert_eq!(e.kind, ErrorKind::NotFound);
    assert_eq!(e.message, "No bank matched alias bank.drums under /work/generated/banks");
}

#[test]
fn a_short_alias_that_two_banks_end_with_is_ambiguous() {
    let p = Probe { listing: Some(vec![dir("ann.drums", true), dir("x", true), dir("bob.drums", true)]), ..probe() };
    let e = resolve_bank_dir("bank.drums", &p).unwrap_err();
    assert_eq!(e.kind, ErrorKind::AmbiguousReference);
    assert_eq!(e.message, "Multiple banks matched bank.drums; use 'bank.<author>.<name>'");
}

#[test]
fn an_alias_with_a_dot_is_not_looked_up_in_the_listing() {
    let p = Probe { listing: Some(vec![dir("x.ann.drums", true)]), ..probe() };
    let e = resolve_bank_dir("bank.ann.drums", &p).unwrap_err();
    assert_eq!(e.kind, ErrorKind::NotFound);
    assert_eq!(e.message, "Alias not found: bank.ann.drums; expected under /work/generated/banks");
}

#[test]
fn an_alias_cannot_be_looked_up_without_a_listing() {
    let e = resolve_bank_dir("bank.drums", &probe()).unwrap_err();
    assert_eq!(e.kind, ErrorKind::NotFound);
    assert_eq!(e.message, "Alias not found: bank.drums; expected under /work/generated/banks");
}

#[test]
fn a_request_that_is_neither_path_nor_alias_is_refused() {
    let p = Probe { exact_is_bank: true, listing: Some(vec![dir("ann.input", true)]), ..probe() };
    let e = resolve_bank_dir("input", &p).unwrap_err();
    assert_eq!(e.kind, ErrorKind::NotFound);
    assert_eq!(e.message, "Invalid path: /work/input (no bank.toml found)");
}
