use neaten::{pattern_check, Entry, EntryType, Kind};

fn entry(name: &str, entry_type: EntryType) -> Entry {
    Entry {
        name: String::from(name),
        entry_type,
    }
}

fn patterns(p: &[&str]) -> Vec<String> {
    p.iter().map(|s| String::from(*s)).collect()
}

#[test]
fn folder_rule_matches_directories_by_name() {
    let p = patterns(&["dist", "build", "build"]);
    assert_eq!(pattern_check(&entry("build", EntryType::Directory), &p, &Kind::Folder), Some(1));
    assert_eq!(pattern_check(&entry("build", EntryType::File), &p, &Kind::Folder), None);
    assert_eq!(pattern_check(&entry("Build", EntryType::Directory), &p, &Kind::Folder), None);
    assert_eq!(pattern_check(&entry("build", EntryType::Other), &p, &Kind::Folder), None);
}

#[test]
fn file_rule_matches_files_by_extension() {
    let p = patterns(&["gz", "tmp"]);
    assert_eq!(pattern_check(&entry("notes.tmp", EntryType::File), &p, &Kind::File), Some(1));
    assert_eq!(pattern_check(&entry("a.tar.gz", EntryType::File), &p, &Kind::File), Some(0));
    assert_eq!(pattern_check(&entry("report.pdf", EntryType::File), &p, &Kind::File), None);
    assert_eq!(pattern_check(&entry("cache.tmp", EntryType::Directory), &p, &Kind::File), None);
    assert_eq!(pattern_check(&entry("tmp", EntryType::File), &p, &Kind::File), None);
}

#[test]
fn extension_follows_the_last_dot() {
    assert_eq!(
        pattern_check(&entry("a.tar.gz", EntryType::File), &patterns(&["tar.gz"]), &Kind::File),
        None
    );
    assert_eq!(
        pattern_check(&entry(".bashrc", EntryType::File), &patterns(&["bashrc"]), &Kind::File),
        Some(0)
    );
    assert_eq!(
        pattern_check(&entry("trailing.", EntryType::File), &patterns(&[""]), &Kind::File),
        Some(0)
    );
    assert_eq!(
        pattern_check(&entry("Makefile", EntryType::File), &patterns(&[""]), &Kind::File),
        None
    );
}

#[test]
fn empty_patterns_match_nothing() {
    let p: Vec<String> = Vec::new();
    assert_eq!(pattern_check(&entry("build", EntryType::Directory), &p, &Kind::Folder), None);
    assert_eq!(pattern_check(&entry("a.tmp", EntryType::File), &p, &Kind::File), None);
}
