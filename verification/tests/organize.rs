use purify::paths::PathStyle;
use purify::organize::{disambiguate, Organizer};
use purify::FileEntry;

fn old_file(path: &str, size: u64) -> FileEntry {
    FileEntry::file(path, size).with_modified(Some(0))
}

#[test]
fn plans_moves_by_type_and_age() {
    let org = Organizer::with_defaults();
    let now = 1000 * 86_400;
    let entries = vec![
        old_file("/dl/report.pdf", 100),
        old_file("/dl/photo.png", 200),
        old_file("/dl/notes.rs", 50), // no rule
    ];
    let plan = org.plan(&entries, "/dl/Organized", now, &[], PathStyle::Unix);
    assert_eq!(plan.moves.len(), 2);
    let pdf = plan
        .moves
        .iter()
        .find(|m| m.rule_id == "documents")
        .unwrap();
    assert_eq!(pdf.to, "/dl/Organized/Documents/report.pdf");
}

#[test]
fn recent_files_are_left_alone() {
    let org = Organizer::with_defaults();
    let now = 1000 * 86_400;
    let recent = FileEntry::file("/dl/fresh.pdf", 100).with_modified(Some(now - 86_400));
    let plan = org.plan(&[recent], "/dl/Organized", now, &[], PathStyle::Unix);
    assert!(plan.moves.is_empty(), "younger than 30 days");
}

#[test]
fn protected_files_are_never_moved() {
    let org = Organizer::with_defaults();
    let entries = vec![old_file(r"C:\Windows\System32\report.pdf", 100)];
    let plan = org.plan(&entries, r"C:\Organized", 1000 * 86_400, &[], PathStyle::Unix);
    assert!(plan.moves.is_empty());
}

#[test]
fn existing_destinations_are_disambiguated() {
    let org = Organizer::with_defaults();
    let entries = vec![old_file("/dl/report.pdf", 100), old_file("/dl/other/report.pdf", 7)];
    let existing = vec!["/dl/Organized/Documents/report.pdf".to_string()];
    let plan = org.plan(&entries, "/dl/Organized", 1000 * 86_400, &existing, PathStyle::Unix);
    assert_eq!(plan.moves.len(), 2);
    assert_eq!(plan.moves[0].to, "/dl/Organized/Documents/report (1).pdf");
    assert_eq!(plan.moves[1].to, "/dl/Organized/Documents/report (2).pdf");
    assert_eq!(plan.moves[1].size, 7);
}

#[test]
fn files_already_organized_stay_put() {
    let org = Organizer::with_defaults();
    let entries = vec![old_file("/dl/Organized/Documents/report.pdf", 100)];
    let plan = org.plan(&entries, "/dl/Organized", 1000 * 86_400, &[], PathStyle::Unix);
    assert!(plan.moves.is_empty());
}

#[test]
fn disambiguate_inserts_counter_before_extension() {
    let s: String = disambiguate(&"report.pdf".chars().collect::<Vec<char>>(), 3).into_iter().collect();
    assert_eq!(s, "report (3).pdf");
    let s: String = disambiguate(&".bashrc".chars().collect::<Vec<char>>(), 1).into_iter().collect();
    assert_eq!(s, ".bashrc (1)");
    let s: String = disambiguate(&"Makefile".chars().collect::<Vec<char>>(), 2).into_iter().collect();
    assert_eq!(s, "Makefile (2)");
}

#[test]
fn default_rules_are_seven() {
    assert_eq!(Organizer::with_defaults().rule_count(), 7);
    assert_eq!(Organizer::new(vec![]).rule_count(), 0);
}
