use devaforge::text::is_whitespace_char;
use devaforge::{disambiguate_name, merge_triggers, write_triggers_after_bank, NameSet, TriggerEntry};
use std::collections::{HashMap, HashSet};

fn entry(name: &str, path: &str) -> TriggerEntry {
    TriggerEntry::new(name, path)
}

/// The rewriting, written with the line and trim functions of std.
fn rewrite_with_std(manifest: &str, triggers: &[TriggerEntry]) -> String {
    let mut cleaned: Vec<String> = Vec::new();
    let mut skipping = false;
    for line in manifest.lines() {
        let trimmed = line.trim();
        if trimmed == "[[triggers]]" {
            skipping = true;
        } else if skipping && !trimmed.starts_with('[') {
        } else {
            skipping = false;
            cleaned.push(line.to_string());
        }
    }
    let mut insert_idx = cleaned.len();
    let mut in_bank = false;
    for (i, line) in cleaned.iter().enumerate() {
        let t = line.trim();
        if t == "[bank]" {
            in_bank = true;
            insert_idx = i + 1;
            continue;
        }
        if in_bank && t.starts_with('[') {
            insert_idx = i;
            break;
        }
        if in_bank && !t.is_empty() {
            insert_idx = i + 1;
        }
    }
    let mut head = cleaned[..insert_idx].to_vec();
    let mut tail = cleaned[insert_idx..].to_vec();
    while head.last().map(|l| l.trim().is_empty()).unwrap_or(false) {
        head.pop();
    }
    while !tail.is_empty() && tail[0].trim().is_empty() {
        tail.remove(0);
    }
    let mut lines: Vec<String> = head;
    if !triggers.is_empty() {
        for (i, t) in triggers.iter().enumerate() {
            lines.push(String::new());
            lines.push("[[triggers]]".to_string());
            lines.push(format!("name = \"{}\"", t.name));
            lines.push(format!("path = \"{}\"", t.path));
            let _ = i;
        }
        if !tail.is_empty() {
            lines.push(String::new());
        }
    }
    lines.extend(tail);
    let mut result = lines.join("\n");
    while result.ends_with('\n') {
        result.pop();
    }
    result.push('\n');
    result
}

const LINES: [&str; 14] = [
    "[bank]",
    "  [bank]\t",
    "[[triggers]]",
    " [[triggers]] ",
    "name = \"x\"",
    "",
    " \t",
    "[other]",
    "# note",
    "[[other]]",
    "\u{a0}",
    "[bank] x",
    "[[triggers]]x",
    "\u{3000}[bank]",
];

fn texts_of_up_to(count: usize, ends: &[&str]) -> Vec<String> {
    let mut all = vec![String::new()];
    let mut layer = vec![String::new()];
    for _ in 0..count {
        let mut next = Vec::new();
        for start in &layer {
            for line in LINES.iter() {
                for end in ends {
                    next.push(format!("{}{}{}", start, line, end));
                }
            }
        }
        all.extend(next.iter().cloned());
        layer = next;
    }
    all
}

#[test]
fn rewriting_agrees_with_the_line_functions_of_std() {
    let lists = [Vec::new(), vec![entry("kick", "./kick.wav")], vec![entry("a", "./a"), entry("b", "./b")]];
    for text in texts_of_up_to(3, &["\n"]) {
        for list in lists.iter() {
            assert_eq!(write_triggers_after_bank(&text, list), rewrite_with_std(&text, list), "text {:?}", text);
        }
    }
}

#[test]
fn rewriting_agrees_with_std_on_every_kind_of_line_ending() {
    let list = vec![entry("kick", "./kick.wav")];
    for text in texts_of_up_to(2, &["\n", "\r\n", "\r", "\r\r\n", ""]) {
        assert_eq!(write_triggers_after_bank(&text, &list), rewrite_with_std(&text, &list), "text {:?}", text);
        assert_eq!(write_triggers_after_bank(&text, &[]), rewrite_with_std(&text, &[]), "text {:?}", text);
    }
}

#[test]
fn rewriting_twice_is_rewriting_once_on_texts_without_carriage_returns() {
    let list = vec![entry("kick", "./kick.wav"), entry("snare", "./snare.wav")];
    for text in texts_of_up_to(3, &["\n"]) {
        let once = write_triggers_after_bank(&text, &list);
        assert_eq!(write_triggers_after_bank(&once, &list), once, "text {:?}", text);
        let bare = write_triggers_after_bank(&text, &[]);
        assert_eq!(write_triggers_after_bank(&bare, &[]), bare, "text {:?}", text);
    }
}

#[test]
fn white_space_is_what_std_calls_white_space() {
    for code in 0..=0x10FFFFu32 {
        if let Some(c) = char::from_u32(code) {
            assert_eq!(is_whitespace_char(c), c.is_whitespace(), "code {:x}", code);
        }
    }
}

/// The choice of a name, written with the string functions of std.
fn name_with_std(base: &str, rel_path_with_dot: &str, used: &mut HashSet<String>) -> String {
    if !used.contains(base) {
        used.insert(base.to_string());
        return base.to_string();
    }
    let rel = rel_path_with_dot.trim_start_matches("./");
    let mut parts: Vec<&str> = rel.split('/').collect();
    if parts.len() > 1 {
        parts.pop();
        let joined = format!("{}.{}", parts.join("."), base);
        if !used.contains(&joined) {
            used.insert(joined.clone());
            return joined;
        }
        let mut acc: Vec<&str> = Vec::new();
        for comp in parts.iter().rev() {
            acc.push(comp);
            let name = format!("{}.{}", acc.iter().rev().cloned().collect::<Vec<&str>>().join("."), base);
            if !used.contains(&name) {
                used.insert(name.clone());
                return name;
            }
        }
    }
    let mut i = 2usize;
    loop {
        let cand = format!("{}_{}", base, i);
        if !used.contains(&cand) {
            used.insert(cand.clone());
            return cand;
        }
        i += 1;
    }
}

/// The merge, written with the collections of std.
fn merge_with_std(existing: &[TriggerEntry], discovered: &[TriggerEntry]) -> Vec<TriggerEntry> {
    let mut by_path: HashMap<String, String> = HashMap::new();
    let mut used: HashSet<String> = HashSet::new();
    for t in existing {
        by_path.insert(t.path.clone(), t.name.clone());
        used.insert(t.name.clone());
    }
    let mut queue = discovered.to_vec();
    queue.sort_by(|a, b| a.path.cmp(&b.path));
    let mut out = Vec::new();
    for d in queue {
        let name = match by_path.get(&d.path) {
            Some(name) => name.clone(),
            None => name_with_std(&d.name, &d.path, &mut used),
        };
        out.push(TriggerEntry { name, path: d.path });
    }
    out
}

const PATHS: [&str; 9] = [
    "./kick.wav",
    "./a/kick.wav",
    "./a/b/kick.wav",
    "./b/kick.wav",
    "./b/a/kick.wav",
    "./Kick.wav",
    "./a/b/c/kick.wav",
    "././a/kick.wav",
    "./\u{e9}/kick.wav",
];

const TAKEN: [&str; 7] = ["kick", "a.kick", "b.kick", "a.b.kick", "kick_2", "b.a.kick", "kick_3"];

fn stem_of(path: &str) -> String {
    path.rsplit('/').next().unwrap().trim_end_matches(".wav").to_string()
}

#[test]
fn merging_agrees_with_the_collections_of_std() {
    for found_mask in 0..(1u32 << PATHS.len()) {
        let mut found: Vec<TriggerEntry> = Vec::new();
        for (k, path) in PATHS.iter().enumerate() {
            if found_mask & (1 << k) != 0 {
                found.insert(if k % 2 == 0 { 0 } else { found.len() }, entry(&stem_of(path), path));
            }
        }
        let taken_mask = (found_mask.wrapping_mul(2654435761) >> 7) as usize % (1 << TAKEN.len());
        let mut existing: Vec<TriggerEntry> = Vec::new();
        for (k, name) in TAKEN.iter().enumerate() {
            if taken_mask & (1 << k) != 0 {
                let path = if k % 3 == 0 { PATHS[k].to_string() } else { format!("./old/{}.wav", k) };
                existing.push(entry(name, &path));
            }
        }
        let expected = merge_with_std(&existing, &found);
        assert_eq!(merge_triggers(existing.clone(), found.clone()), expected, "existing {:?} found {:?}", existing, found);
        let mut names: Vec<&String> = expected.iter().map(|t| &t.name).collect();
        names.sort();
        names.dedup();
        assert_eq!(names.len(), expected.len());
    }
}

#[test]
fn naming_agrees_with_the_string_functions_of_std() {
    let seeds = ["kick", "", "a.kick", "kick_2"];
    for mask in 0..(1usize << TAKEN.len()) {
        for path in PATHS.iter().chain(["kick.wav", "./a//kick.wav", "", "./", "a/", "/a/kick.wav"].iter()) {
            for base in seeds.iter() {
                let mut used = NameSet::new();
                let mut used_std: HashSet<String> = HashSet::new();
                for (k, name) in TAKEN.iter().enumerate() {
                    if mask & (1 << k) != 0 {
                        used.insert(name);
                        used_std.insert(name.to_string());
                    }
                }
                for _ in 0..3 {
                    let expected = name_with_std(base, path, &mut used_std);
                    assert_eq!(disambiguate_name(base, path, &mut used), expected, "base {:?} path {:?}", base, path);
                    assert!(used.contains(&expected));
                }
            }
        }
    }
}

fn parts_of(path: &std::path::Path) -> Vec<String> {
    path.components().map(|c| c.as_os_str().to_string_lossy().into_owned()).collect()
}

fn found_at(path: &std::path::Path) -> devaforge::FoundFile {
    devaforge::FoundFile {
        components: parts_of(path),
        file_name: path.file_name().map(|n| n.to_string_lossy().into_owned()),
        stem: path.file_stem().and_then(|s| s.to_str()).map(str::to_string),
        extension: path.extension().and_then(|e| e.to_str()).map(str::to_string),
    }
}

const PLACES: [&str; 16] = [
    "bank/audio/kick.wav",
    "bank/audio/kit/kick.WAV",
    "bank/audio/kit/sub/snare.flac",
    "bank/audio/.hidden",
    "bank/audio/.hidden.ogg",
    "bank/audio/noext",
    "bank/audio/two.dots.mp3",
    "bank/audio/notes.txt",
    "bank/audio//double//slash.aif",
    "bank/audio/./dot/tom.aiff",
    "bank/audio/back\\slash.wav",
    "bank/audiox/kick.wav",
    "other/kick.wav",
    "bank/audio",
    "bank/audio/trailing.wav/",
    "/bank/audio/kick.wav",
];

#[test]
fn relative_paths_agree_with_the_paths_of_std() {
    let bases = ["bank/audio", "bank/audio/", "bank", "", "bank/audio/kit", "/bank", "bank/aud", "./bank/audio"];
    for place in PLACES.iter() {
        for base in bases.iter() {
            let path = std::path::Path::new(place);
            let base = std::path::Path::new(base);
            let expected = path.strip_prefix(base).ok().map(parts_of);
            assert_eq!(
                devaforge::path_relative_to(&parts_of(path), &parts_of(base)),
                expected,
                "path {:?} base {:?}",
                path,
                base
            );
        }
    }
}

#[test]
fn unix_strings_agree_with_the_strings_of_std() {
    for place in PLACES.iter().chain(["a\\b\\c", "\\\\server\\share", "", "\\"].iter()) {
        let expected = std::path::Path::new(place).to_string_lossy().into_owned().replace('\\', "/");
        assert_eq!(devaforge::to_unix_string(place), expected);
    }
}

/// The discovery, written with the path functions of std.
fn discover_with_std(files: &[std::path::PathBuf], audio_dir: &std::path::Path) -> Vec<TriggerEntry> {
    let allowed = ["wav", "mp3", "ogg", "aif", "aiff", "flac"];
    let mut out: Vec<TriggerEntry> = Vec::new();
    for p in files {
        let ext_ok = p
            .extension()
            .and_then(|e| e.to_str())
            .map(|e| allowed.iter().any(|a| a.eq_ignore_ascii_case(e)))
            .unwrap_or(false);
        if !ext_ok {
            continue;
        }
        let rel = p
            .strip_prefix(audio_dir)
            .map(|r| r.to_path_buf())
            .unwrap_or_else(|_| p.file_name().map(std::path::PathBuf::from).unwrap_or_default());
        let rel_unix = rel.to_string_lossy().into_owned().replace('\\', "/");
        let name = p.file_stem().and_then(|s| s.to_str()).unwrap_or("").to_string();
        out.push(TriggerEntry { name, path: format!("./{}", rel_unix) });
    }
    out.sort_by(|a, b| a.path.cmp(&b.path));
    out
}

#[test]
fn discovery_agrees_with_the_path_functions_of_std() {
    let audio_dir = std::path::Path::new("bank/audio");
    for mask in 0..(1u32 << PLACES.len()) {
        if mask % 7 != 0 && mask.count_ones() > 3 {
            continue;
        }
        // paths as a walk makes them: a directory, a separator, a name, and so on
        let files: Vec<std::path::PathBuf> = PLACES
            .iter()
            .enumerate()
            .filter(|(k, p)| mask & (1 << k) != 0 && !p.contains("//") && !p.contains("/./") && !p.ends_with('/'))
            .map(|(_, p)| std::path::PathBuf::from(p))
            .collect();
        let found: Vec<devaforge::FoundFile> = files.iter().map(|p| found_at(p)).collect();
        assert_eq!(
            devaforge::discover_triggers(&found, &parts_of(audio_dir)),
            discover_with_std(&files, audio_dir),
            "files {:?}",
            files
        );
    }
}
